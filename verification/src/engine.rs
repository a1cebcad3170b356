//! Validation, id/sequence assignment and event emission around the book.
use vstd::prelude::*;

use crate::book::{OrderBook, RestingOrder};
use crate::command::{field_error, spec_check_fields, CancelReason, Command, Event, Priority, RejectReason};
use crate::queue::{
    find_in, has_id, ids_unique, keys_sorted, lemma_id_ops_absent, lemma_id_ops_at, lemma_remove_id_gone, lemma_match_shape,
    lemma_lens, lemma_rest_into_pos, lemma_rest_into_split, lemma_unique_insert, lemma_unique_join, lemma_unique_remove, lemma_unique_split,
    lemma_unique_update, limit_allows, match_spec, okey, remove_id, rest_into, set_qty, tail_of,
};
use crate::snapshot::{
    before, decode_spec, encode_spec, fields_ok, lemma_decode_encode, lemma_validate_spec, side_valid, MAX_COUNTER,
    uncrossed, valid_state, validate_spec, Snapshot, SnapshotError, State,
};
use crate::types::{
    price_in_range, qty_in_range, spec_limit, spec_opposite, OrderId, OrderType, Price, Qty, SeqNo, Side,
};

verus! {

/// The queue of `side` in `s`.
pub open spec fn queue_of(s: State, side: Side) -> Seq<RestingOrder> {
    match side {
        Side::Buy => s.bids,
        Side::Sell => s.asks,
    }
}

/// `s` with the queue of `side` replaced by `q`.
pub open spec fn with_queue(s: State, side: Side, q: Seq<RestingOrder>) -> State {
    match side {
        Side::Buy => State { bids: q, ..s },
        Side::Sell => State { asks: q, ..s },
    }
}

/// The resting order with id `id` in `s`, if any.
pub open spec fn find_order(s: State, id: OrderId) -> Option<RestingOrder> {
    if has_id(s.bids, id) {
        find_in(s.bids, id)
    } else {
        find_in(s.asks, id)
    }
}

/// Places the unfilled remainder `left` of order `id` at `price` behind the
/// orders of its level, after matching has produced `s` and `events`.
pub open spec fn rest_spec(
    s: State,
    events: Seq<Event>,
    id: OrderId,
    side: Side,
    price: Price,
    left: u64,
    seq: SeqNo,
) -> (State, Seq<Event>) {
    let o = RestingOrder { id, side, price, qty: Qty(left), seq };
    (
        with_queue(s, side, rest_into(queue_of(s, side), o)),
        events.push(Event::Rested { id, side, price, qty: Qty(left), seq }),
    )
}

/// A new order: rejected on bad fields; otherwise it takes the next id and
/// sequence number, trades against the opposite side while it crosses, and
/// its remainder rests (limit) or is cancelled (IOC, market).
pub open spec fn submit_spec(s: State, side: Side, kind: OrderType, qty: Qty) -> (State, Seq<Event>) {
    match spec_check_fields(Command::Submit { side, kind, qty }) {
        Err(reason) => (s, seq![Event::Rejected { id: None, reason }]),
        Ok(_) => {
            let id = OrderId(s.next_id);
            let seq = SeqNo(s.next_seq);
            let opp = spec_opposite(side);
            let m = match_spec(queue_of(s, opp), id, side, spec_limit(kind), qty.0);
            let s1 = with_queue(
                State { next_id: (s.next_id + 1) as u64, next_seq: (s.next_seq + 1) as u64, ..s },
                opp,
                m.0,
            );
            let ev = seq![Event::Accepted { id, side, kind, qty, seq }] + m.1;
            if m.2 == 0 {
                (s1, ev.push(Event::Filled { id }))
            } else {
                match kind {
                    OrderType::Limit { price } => rest_spec(s1, ev, id, side, price, m.2, seq),
                    OrderType::Ioc { .. } => (
                        s1,
                        ev.push(
                            Event::Cancelled { id, qty: Qty(m.2), reason: CancelReason::IocRemainder },
                        ),
                    ),
                    OrderType::Market => (
                        s1,
                        ev.push(
                            Event::Cancelled { id, qty: Qty(m.2), reason: CancelReason::NoLiquidity },
                        ),
                    ),
                }
            }
        },
    }
}

/// Cancelling removes a resting order and reports its open quantity; an id
/// that is not resting is rejected.
pub open spec fn cancel_spec(s: State, id: OrderId) -> (State, Seq<Event>) {
    match find_order(s, id) {
        Some(o) => (
            with_queue(s, o.side, remove_id(queue_of(s, o.side), id)),
            seq![Event::Cancelled { id, qty: o.qty, reason: CancelReason::User }],
        ),
        None => (s, seq![Event::Rejected { id: Some(id), reason: RejectReason::UnknownOrder }]),
    }
}

/// Amending sets a resting order's open quantity and optionally its price.
/// A lower quantity at the same price keeps the order's place; any other
/// change takes it out, gives it a new sequence number and enters it again
/// as an aggressor at its new price.
pub open spec fn amend_spec(s: State, id: OrderId, price: Option<Price>, qty: Qty) -> (
    State,
    Seq<Event>,
) {
    match field_error(Some(qty), price) {
        Some(reason) => (s, seq![Event::Rejected { id: Some(id), reason }]),
        None => match find_order(s, id) {
            None => (s, seq![Event::Rejected { id: Some(id), reason: RejectReason::UnknownOrder }]),
            Some(cur) => {
                let new_price = match price {
                    Some(p) => p,
                    None => cur.price,
                };
                if new_price == cur.price && qty == cur.qty {
                    (s, seq![Event::Rejected { id: Some(id), reason: RejectReason::AmendNoChange }])
                } else if new_price == cur.price && qty.0 < cur.qty.0 {
                    (
                        with_queue(s, cur.side, set_qty(queue_of(s, cur.side), id, qty)),
                        seq![
                            Event::Amended {
                                id,
                                price: new_price,
                                old_qty: cur.qty,
                                qty,
                                seq: cur.seq,
                                priority: Priority::Kept,
                            },
                        ],
                    )
                } else {
                    let seq = SeqNo(s.next_seq);
                    let side = cur.side;
                    let opp = spec_opposite(side);
                    let s1 = with_queue(
                        State { next_seq: (s.next_seq + 1) as u64, ..s },
                        side,
                        remove_id(queue_of(s, side), id),
                    );
                    let m = match_spec(queue_of(s1, opp), id, side, Some(new_price), qty.0);
                    let s2 = with_queue(s1, opp, m.0);
                    let ev = seq![
                        Event::Amended {
                            id,
                            price: new_price,
                            old_qty: cur.qty,
                            qty,
                            seq,
                            priority: Priority::Lost,
                        },
                    ] + m.1;
                    if m.2 == 0 {
                        (s2, ev.push(Event::Filled { id }))
                    } else {
                        rest_spec(s2, ev, id, side, new_price, m.2, seq)
                    }
                }
            },
        },
    }
}

/// The effect of one command: the state afterwards and the events emitted.
pub open spec fn apply_spec(s: State, cmd: Command) -> (State, Seq<Event>) {
    match cmd {
        Command::Submit { side, kind, qty } => submit_spec(s, side, kind, qty),
        Command::Cancel { id } => cancel_spec(s, id),
        Command::Amend { id, price, qty } => amend_spec(s, id, price, qty),
    }
}

/// An amend of `id` to `price` and `qty` that passes its checks and moves
/// the order to the back of a queue: it rests, and the price changes or the
/// quantity grows.
pub open spec fn amend_requeues(s: State, id: OrderId, price: Option<Price>, qty: Qty) -> bool {
    &&& field_error(Some(qty), price) is None
    &&& find_order(s, id) matches Some(cur) && {
        let new_price = match price {
            Some(p) => p,
            None => cur.price,
        };
        new_price != cur.price || qty.0 > cur.qty.0
    }
}

/// The counters leave room for the id and sequence number that `cmd` takes:
/// an accepted submit takes one of each, a requeued amend a sequence
/// number, and a rejection nothing.
pub open spec fn room_for(s: State, cmd: Command) -> bool {
    match cmd {
        Command::Submit { .. } => spec_check_fields(cmd) is Ok ==> {
            &&& s.next_id < MAX_COUNTER
            &&& s.next_seq < MAX_COUNTER
            &&& s.bids.len() + s.asks.len() < u32::MAX
        },
        Command::Cancel { .. } => true,
        Command::Amend { id, price, qty } => amend_requeues(s, id, price, qty) ==> s.next_seq
            < MAX_COUNTER,
    }
}

/// Trading order `id` of `side` against the opposite queue of `s`, then,
/// if something is left and `rests`, placing the rest at the limit price.
pub open spec fn enter_spec(
    s: State,
    side: Side,
    id: OrderId,
    limit: Option<Price>,
    qty: u64,
    seq: SeqNo,
    rests: bool,
) -> State {
    let opp = spec_opposite(side);
    let m = match_spec(queue_of(s, opp), id, side, limit, qty);
    let s2 = with_queue(s, opp, m.0);
    if m.2 > 0 && rests {
        rest_spec(s2, Seq::empty(), id, side, limit.unwrap(), m.2, seq).0
    } else {
        s2
    }
}

/// The front of `q2` is no better than the front of `q`.
pub open spec fn no_better(q2: Seq<RestingOrder>, q: Seq<RestingOrder>) -> bool {
    q2.len() > 0 ==> q.len() > 0 && okey(q2[0]) >= okey(q[0])
}

proof fn lemma_bump(q: Seq<RestingOrder>, side: Side, nid: u64, nseq: u64, nid2: u64, nseq2: u64)
    requires
        side_valid(q, side, nid, nseq),
        nid <= nid2,
        nseq <= nseq2,
    ensures
        side_valid(q, side, nid2, nseq2),
{
    assert forall|i: int| 0 <= i < q.len() implies fields_ok(#[trigger] q[i], side, nid2, nseq2) by {
        assert(fields_ok(q[i], side, nid, nseq));
    }
}

/// Orders of a valid side come with non-decreasing keys.
proof fn lemma_valid_sorted(q: Seq<RestingOrder>, side: Side, nid: u64, nseq: u64)
    requires
        side_valid(q, side, nid, nseq),
    ensures
        keys_sorted(q),
{
    assert forall|i: int, j: int| 0 <= i <= j < q.len() implies okey(q[i]) <= okey(q[j]) by {
        if i < j {
            assert(before(q[i], q[j]));
        }
    }
}

/// What remains of a valid side after matching is valid.
proof fn lemma_valid_tail(
    r: Seq<RestingOrder>,
    q: Seq<RestingOrder>,
    k: int,
    side: Side,
    nid: u64,
    nseq: u64,
)
    requires
        side_valid(q, side, nid, nseq),
        tail_of(r, q, k),
    ensures
        side_valid(r, side, nid, nseq),
        forall|x: OrderId| has_id(r, x) ==> has_id(q, x),
        ids_unique(q) ==> ids_unique(r),
        no_better(r, q),
{
    assert forall|i: int| 0 <= i < r.len() implies r[i].id == q[k + i].id && r[i].seq == q[k
        + i].seq && okey(r[i]) == okey(q[k + i]) by {
        if i > 0 {
            assert(r[i] == q[k + i]);
        }
    }
    assert forall|i: int| 0 <= i < r.len() implies fields_ok(#[trigger] r[i], side, nid, nseq) by {
        assert(fields_ok(q[k + i], side, nid, nseq));
        if i > 0 {
            assert(r[i] == q[k + i]);
        }
    }
    assert forall|i: int, j: int| 0 <= i < j < r.len() implies before(#[trigger] r[i], #[trigger] r[j]) by {
        assert(before(q[k + i], q[k + j]));
    }
    assert forall|x: OrderId| has_id(r, x) implies has_id(q, x) by {
        let i = choose|i: int| 0 <= i < r.len() && r[i].id == x;
        assert(q[k + i].id == x);
    }
    if ids_unique(q) {
        assert forall|i: int, j: int| 0 <= i < j < r.len() implies r[i].id != r[j].id by {
            assert(q[k + i].id != q[k + j].id);
        }
    }
    if r.len() > 0 && k > 0 {
        assert(before(q[0], q[k]));
    }
}

/// Removing an order keeps a valid side valid.
proof fn lemma_valid_remove(q: Seq<RestingOrder>, id: OrderId, side: Side, nid: u64, nseq: u64)
    requires
        side_valid(q, side, nid, nseq),
        ids_unique(q),
    ensures
        side_valid(remove_id(q, id), side, nid, nseq),
        forall|x: OrderId| has_id(remove_id(q, id), x) ==> has_id(q, x),
        ids_unique(remove_id(q, id)),
        no_better(remove_id(q, id), q),
        !has_id(remove_id(q, id), id),
        has_id(q, id) ==> remove_id(q, id).len() == q.len() - 1,
{
    if has_id(q, id) {
        let i = choose|i: int| 0 <= i < q.len() && q[i].id == id;
        assert forall|j: int| 0 <= j < i implies (#[trigger] q[j]).id != q[i].id by {}
        lemma_id_ops_at(q, i, Qty(0));
        let r = q.remove(i);
        lemma_unique_remove(q, i);
        assert forall|a: int| 0 <= a < r.len() implies fields_ok(#[trigger] r[a], side, nid, nseq) by {
            if a < i {
                assert(r[a] == q[a]);
            } else {
                assert(r[a] == q[a + 1]);
            }
        }
        assert forall|a: int, b: int| 0 <= a < b < r.len() implies before(#[trigger] r[a], #[trigger] r[b]) by {
            let a0 = if a < i { a } else { a + 1 };
            let b0 = if b < i { b } else { b + 1 };
            assert(r[a] == q[a0] && r[b] == q[b0]);
            assert(before(q[a0], q[b0]));
        }
        if r.len() > 0 {
            if i == 0 {
                assert(r[0] == q[1]);
                assert(before(q[0], q[1]));
            } else {
                assert(r[0] == q[0]);
            }
        }
        if has_id(r, id) {
            let j = choose|j: int| 0 <= j < r.len() && r[j].id == id;
            if j < i {
                assert(r[j] == q[j]);
            } else {
                assert(r[j] == q[j + 1]);
            }
        }
    } else {
        lemma_id_ops_absent(q, id, Qty(0));
    }
}

/// Lowering an order's quantity in place keeps a valid side valid.
proof fn lemma_valid_set_qty(
    q: Seq<RestingOrder>,
    id: OrderId,
    qty: Qty,
    side: Side,
    nid: u64,
    nseq: u64,
)
    requires
        side_valid(q, side, nid, nseq),
        ids_unique(q),
        qty_in_range(qty.0),
    ensures
        side_valid(set_qty(q, id, qty), side, nid, nseq),
        forall|x: OrderId| has_id(set_qty(q, id, qty), x) <==> has_id(q, x),
        ids_unique(set_qty(q, id, qty)),
        no_better(set_qty(q, id, qty), q),
{
    if has_id(q, id) {
        let i = choose|i: int| 0 <= i < q.len() && q[i].id == id;
        assert forall|j: int| 0 <= j < i implies (#[trigger] q[j]).id != q[i].id by {}
        lemma_id_ops_at(q, i, qty);
        let x = RestingOrder { qty, ..q[i] };
        let r = q.update(i, x);
        lemma_unique_update(q, i, x);
        assert forall|a: int| 0 <= a < r.len() implies fields_ok(#[trigger] r[a], side, nid, nseq) by {
            assert(fields_ok(q[a], side, nid, nseq));
        }
        assert forall|a: int, b: int| 0 <= a < b < r.len() implies before(#[trigger] r[a], #[trigger] r[b]) by {
            assert(before(q[a], q[b]));
        }
    } else {
        lemma_id_ops_absent(q, id, qty);
    }
}

/// Placing a new order, whose sequence number is later than every other,
/// keeps a valid side valid.
proof fn lemma_valid_rest(q: Seq<RestingOrder>, o: RestingOrder, side: Side, nid: u64, nseq: u64)
    requires
        side_valid(q, side, nid, nseq),
        ids_unique(q),
        fields_ok(o, side, nid, nseq),
        forall|i: int| 0 <= i < q.len() ==> (#[trigger] q[i]).seq.0 < o.seq.0,
        !has_id(q, o.id),
    ensures
        side_valid(rest_into(q, o), side, nid, nseq),
        ids_unique(rest_into(q, o)),
        forall|x: OrderId| has_id(rest_into(q, o), x) ==> has_id(q, x) || x == o.id,
        rest_into(q, o).len() > 0,
        rest_into(q, o)[0] == o || (q.len() > 0 && rest_into(q, o)[0] == q[0]),
{
    lemma_valid_sorted(q, side, nid, nseq);
    let n = lemma_rest_into_pos(q, o);
    let r = rest_into(q, o);
    lemma_unique_insert(q, n, o);
    assert forall|a: int| 0 <= a < r.len() implies fields_ok(#[trigger] r[a], side, nid, nseq) by {
        if a < n {
            assert(r[a] == q[a]);
        } else if a > n {
            assert(r[a] == q[a - 1]);
        }
    }
    assert forall|a: int, b: int| 0 <= a < b < r.len() implies before(#[trigger] r[a], #[trigger] r[b]) by {
        if b < n {
            assert(r[a] == q[a] && r[b] == q[b]);
            assert(before(q[a], q[b]));
        } else if b == n {
            assert(r[a] == q[a]);
        } else if a < n {
            assert(r[a] == q[a] && r[b] == q[b - 1]);
            assert(before(q[a], q[b - 1]));
        } else if a == n {
            assert(r[b] == q[b - 1]);
        } else {
            assert(r[a] == q[a - 1] && r[b] == q[b - 1]);
            assert(before(q[a - 1], q[b - 1]));
        }
    }
    assert forall|x: OrderId| has_id(r, x) implies has_id(q, x) || x == o.id by {
        let a = choose|a: int| 0 <= a < r.len() && r[a].id == x;
        if a < n {
            assert(r[a] == q[a]);
        } else if a > n {
            assert(r[a] == q[a - 1]);
        }
    }
    if n > 0 {
        assert(r[0] == q[0]);
    }
}

/// Fronts that got no better keep the book uncrossed.
proof fn lemma_uncrossed_mono(
    b: Seq<RestingOrder>,
    a: Seq<RestingOrder>,
    b2: Seq<RestingOrder>,
    a2: Seq<RestingOrder>,
)
    requires
        uncrossed(b, a),
        no_better(b2, b),
        no_better(a2, a),
        b.len() > 0 ==> b[0].side == Side::Buy,
        b2.len() > 0 ==> b2[0].side == Side::Buy,
        a.len() > 0 ==> a[0].side == Side::Sell,
        a2.len() > 0 ==> a2[0].side == Side::Sell,
    ensures
        uncrossed(b2, a2),
{
}

/// Unique ids survive when each side keeps only ids it had, plus possibly
/// one new id `x` on side `xs` that was nowhere before.
proof fn lemma_ids_after(
    b: Seq<RestingOrder>,
    a: Seq<RestingOrder>,
    b2: Seq<RestingOrder>,
    a2: Seq<RestingOrder>,
    x: OrderId,
)
    requires
        ids_unique(b + a),
        ids_unique(b2),
        ids_unique(a2),
        !has_id(b, x),
        !has_id(a, x),
        forall|y: OrderId| has_id(b2, y) ==> has_id(b, y) || y == x,
        forall|y: OrderId| has_id(a2, y) ==> has_id(a, y) || y == x,
        !(has_id(b2, x) && has_id(a2, x)),
    ensures
        ids_unique(b2 + a2),
{
    lemma_unique_split(b, a);
    lemma_unique_join(b2, a2);
}

/// Matching an incoming order and resting its remainder keeps a state
/// valid, given a fresh id and a sequence number later than every other.
proof fn lemma_enter(
    s: State,
    side: Side,
    id: OrderId,
    limit: Option<Price>,
    qty: u64,
    seq: SeqNo,
    rests: bool,
)
    requires
        valid_state(s),
        0 < id.0 < s.next_id,
        !has_id(s.bids, id),
        !has_id(s.asks, id),
        0 < seq.0 < s.next_seq,
        forall|i: int| 0 <= i < s.bids.len() ==> (#[trigger] s.bids[i]).seq.0 < seq.0,
        forall|i: int| 0 <= i < s.asks.len() ==> (#[trigger] s.asks[i]).seq.0 < seq.0,
        qty_in_range(qty),
        limit is Some ==> price_in_range(limit.unwrap().0),
        rests ==> limit is Some,
    ensures
        valid_state(enter_spec(s, side, id, limit, qty, seq, rests)),
        enter_spec(s, side, id, limit, qty, seq, rests).next_id == s.next_id,
        enter_spec(s, side, id, limit, qty, seq, rests).next_seq == s.next_seq,
{
    let opp = spec_opposite(side);
    let qs = queue_of(s, side);
    let qo = queue_of(s, opp);
    let nid = s.next_id;
    let nseq = s.next_seq;
    assert(side_valid(qo, opp, nid, nseq) && side_valid(qs, side, nid, nseq));
    assert forall|i: int| 0 <= i < qo.len() implies (#[trigger] qo[i]).qty.0 > 0 by {
        assert(fields_ok(qo[i], opp, nid, nseq));
    }
    lemma_unique_split(s.bids, s.asks);
    let k = lemma_match_shape(qo, id, side, limit, qty);
    let m = match_spec(qo, id, side, limit, qty);
    lemma_valid_tail(m.0, qo, k, opp, nid, nseq);
    let s2 = with_queue(s, opp, m.0);
    if m.2 > 0 && rests {
        let p = limit.unwrap();
        let o = RestingOrder { id, side, price: p, qty: Qty(m.2), seq };
        assert(fields_ok(o, side, nid, nseq));
        assert forall|i: int| 0 <= i < qs.len() implies (#[trigger] qs[i]).seq.0 < o.seq.0 by {
            if side == Side::Buy {
                assert(qs[i] == s.bids[i]);
            } else {
                assert(qs[i] == s.asks[i]);
            }
        }
        lemma_valid_rest(qs, o, side, nid, nseq);
        let r = rest_into(qs, o);
        if side == Side::Buy {
            lemma_ids_after(s.bids, s.asks, r, m.0, id);
            if r[0] == o {
                if m.0.len() > 0 {
                    assert(!limit_allows(side, limit, m.0[0].price));
                    assert(fields_ok(m.0[0], opp, nid, nseq));
                }
            } else {
                lemma_uncrossed_mono(s.bids, s.asks, r, m.0);
            }
        } else {
            lemma_ids_after(s.bids, s.asks, m.0, r, id);
            if r[0] == o {
                if m.0.len() > 0 {
                    assert(!limit_allows(side, limit, m.0[0].price));
                    assert(fields_ok(m.0[0], opp, nid, nseq));
                }
            } else {
                lemma_uncrossed_mono(s.bids, s.asks, m.0, r);
            }
        }
    } else {
        if side == Side::Buy {
            lemma_ids_after(s.bids, s.asks, s.bids, m.0, id);
            lemma_uncrossed_mono(s.bids, s.asks, s.bids, m.0);
        } else {
            lemma_ids_after(s.bids, s.asks, m.0, s.asks, id);
            lemma_uncrossed_mono(s.bids, s.asks, m.0, s.asks);
        }
    }
}

/// Where the order `find_order` reports sits in a valid state.
proof fn lemma_find_order(s: State, id: OrderId)
    requires
        valid_state(s),
    ensures
        find_order(s, id) is None ==> !has_id(s.bids, id) && !has_id(s.asks, id),
        find_order(s, id) matches Some(o) ==> {
            &&& o.id == id
            &&& fields_ok(o, o.side, s.next_id, s.next_seq)
            &&& has_id(queue_of(s, o.side), id)
            &&& !has_id(queue_of(s, spec_opposite(o.side)), id)
            &&& find_in(queue_of(s, o.side), id) == Some(o)
        },
{
    lemma_unique_split(s.bids, s.asks);
    if has_id(s.bids, id) {
        let i = choose|i: int| 0 <= i < s.bids.len() && s.bids[i].id == id;
        assert forall|j: int| 0 <= j < i implies (#[trigger] s.bids[j]).id != s.bids[i].id by {}
        lemma_id_ops_at(s.bids, i, Qty(0));
        assert(fields_ok(s.bids[i], Side::Buy, s.next_id, s.next_seq));
    } else if has_id(s.asks, id) {
        let i = choose|i: int| 0 <= i < s.asks.len() && s.asks[i].id == id;
        assert forall|j: int| 0 <= j < i implies (#[trigger] s.asks[j]).id != s.asks[i].id by {}
        lemma_id_ops_at(s.asks, i, Qty(0));
        assert(fields_ok(s.asks[i], Side::Sell, s.next_id, s.next_seq));
    } else {
        lemma_id_ops_absent(s.asks, id, Qty(0));
    }
}

/// Every order of a valid state has an id below `next_id`, a positive id,
/// and a sequence number below `next_seq`.
proof fn lemma_counters(s: State)
    requires
        valid_state(s),
    ensures
        forall|x: OrderId| x.0 == 0 || x.0 >= s.next_id ==> !has_id(s.bids, x) && !has_id(s.asks, x),
        forall|i: int| 0 <= i < s.bids.len() ==> (#[trigger] s.bids[i]).seq.0 < s.next_seq,
        forall|i: int| 0 <= i < s.asks.len() ==> (#[trigger] s.asks[i]).seq.0 < s.next_seq,
{
    assert forall|x: OrderId| x.0 == 0 || x.0 >= s.next_id implies !has_id(s.bids, x) && !has_id(
        s.asks,
        x,
    ) by {
        if has_id(s.bids, x) {
            let i = choose|i: int| 0 <= i < s.bids.len() && s.bids[i].id == x;
            assert(fields_ok(s.bids[i], Side::Buy, s.next_id, s.next_seq));
        }
        if has_id(s.asks, x) {
            let i = choose|i: int| 0 <= i < s.asks.len() && s.asks[i].id == x;
            assert(fields_ok(s.asks[i], Side::Sell, s.next_id, s.next_seq));
        }
    }
    assert forall|i: int| 0 <= i < s.bids.len() implies (#[trigger] s.bids[i]).seq.0 < s.next_seq by {
        assert(fields_ok(s.bids[i], Side::Buy, s.next_id, s.next_seq));
    }
    assert forall|i: int| 0 <= i < s.asks.len() implies (#[trigger] s.asks[i]).seq.0 < s.next_seq by {
        assert(fields_ok(s.asks[i], Side::Sell, s.next_id, s.next_seq));
    }
}

/// Both counters move forward by at most one; the state stays valid.
proof fn lemma_valid_bump(s: State, nid: u64, nseq: u64)
    requires
        valid_state(s),
        nid <= MAX_COUNTER,
        nseq <= MAX_COUNTER,
        s.next_id <= nid,
        s.next_seq <= nseq,
    ensures
        valid_state(State { next_id: nid, next_seq: nseq, ..s }),
{
    lemma_bump(s.bids, Side::Buy, s.next_id, s.next_seq, nid, nseq);
    lemma_bump(s.asks, Side::Sell, s.next_id, s.next_seq, nid, nseq);
}

/// Taking an order out of a valid state keeps it valid.
proof fn lemma_state_remove(s: State, side: Side, id: OrderId)
    requires
        valid_state(s),
    ensures
        valid_state(with_queue(s, side, remove_id(queue_of(s, side), id))),
        !has_id(remove_id(queue_of(s, side), id), id),
{
    lemma_unique_split(s.bids, s.asks);
    let z = OrderId(0);
    lemma_counters(s);
    if side == Side::Buy {
        lemma_valid_remove(s.bids, id, Side::Buy, s.next_id, s.next_seq);
        let r = remove_id(s.bids, id);
        lemma_ids_after(s.bids, s.asks, r, s.asks, z);
        lemma_uncrossed_mono(s.bids, s.asks, r, s.asks);
    } else {
        lemma_valid_remove(s.asks, id, Side::Sell, s.next_id, s.next_seq);
        let r = remove_id(s.asks, id);
        lemma_ids_after(s.bids, s.asks, s.bids, r, z);
        lemma_uncrossed_mono(s.bids, s.asks, s.bids, r);
    }
}

/// Every command keeps a valid state valid: orders stay in price-time
/// priority with in-range fields and issued ids and sequence numbers, no id
/// rests twice, and the book stays uncrossed.
pub proof fn lemma_apply_valid(s: State, cmd: Command)
    requires
        valid_state(s),
        room_for(s, cmd),
    ensures
        valid_state(apply_spec(s, cmd).0),
{
    lemma_counters(s);
    match cmd {
        Command::Submit { side, kind, qty } => {
            if spec_check_fields(cmd) is Ok {
                let s1 = State {
                    next_id: (s.next_id + 1) as u64,
                    next_seq: (s.next_seq + 1) as u64,
                    ..s
                };
                lemma_valid_bump(s, s1.next_id, s1.next_seq);
                let id = OrderId(s.next_id);
                let seq = SeqNo(s.next_seq);
                let rests = kind is Limit;
                lemma_enter(s1, side, id, spec_limit(kind), qty.0, seq, rests);
                assert(apply_spec(s, cmd).0 == enter_spec(s1, side, id, spec_limit(kind), qty.0, seq, rests));
            }
        },
        Command::Cancel { id } => {
            lemma_find_order(s, id);
            if let Some(o) = find_order(s, id) {
                lemma_state_remove(s, o.side, id);
            }
        },
        Command::Amend { id, price, qty } => {
            lemma_find_order(s, id);
            if field_error(Some(qty), price) is None {
                if let Some(cur) = find_order(s, id) {
                    let new_price = match price {
                        Some(p) => p,
                        None => cur.price,
                    };
                    if new_price == cur.price && qty.0 < cur.qty.0 {
                        lemma_unique_split(s.bids, s.asks);
                        let z = OrderId(0);
                        if cur.side == Side::Buy {
                            lemma_valid_set_qty(s.bids, id, qty, Side::Buy, s.next_id, s.next_seq);
                            let r = set_qty(s.bids, id, qty);
                            lemma_ids_after(s.bids, s.asks, r, s.asks, z);
                            lemma_uncrossed_mono(s.bids, s.asks, r, s.asks);
                        } else {
                            lemma_valid_set_qty(s.asks, id, qty, Side::Sell, s.next_id, s.next_seq);
                            let r = set_qty(s.asks, id, qty);
                            lemma_ids_after(s.bids, s.asks, s.bids, r, z);
                            lemma_uncrossed_mono(s.bids, s.asks, s.bids, r);
                        }
                    } else if !(new_price == cur.price && qty == cur.qty) {
                        let side = cur.side;
                        lemma_unique_split(s.bids, s.asks);
                        let sb = State { next_seq: (s.next_seq + 1) as u64, ..s };
                        lemma_valid_bump(s, sb.next_id, sb.next_seq);
                        lemma_state_remove(sb, side, id);
                        let s1 = with_queue(sb, side, remove_id(queue_of(sb, side), id));
                        lemma_counters(s1);
                        let seq = SeqNo(s.next_seq);
                        assert forall|i: int| 0 <= i < s1.bids.len() implies (#[trigger] s1.bids[i]).seq.0 < seq.0 by {
                            if side == Side::Sell {
                                assert(s1.bids[i] == s.bids[i]);
                            } else {
                                assert(fields_ok(s1.bids[i], Side::Buy, s.next_id, s.next_seq)) by {
                                    lemma_valid_remove(s.bids, id, Side::Buy, s.next_id, s.next_seq);
                                }
                            }
                        }
                        assert forall|i: int| 0 <= i < s1.asks.len() implies (#[trigger] s1.asks[i]).seq.0 < seq.0 by {
                            if side == Side::Buy {
                                assert(s1.asks[i] == s.asks[i]);
                            } else {
                                assert(fields_ok(s1.asks[i], Side::Sell, s.next_id, s.next_seq)) by {
                                    lemma_valid_remove(s.asks, id, Side::Sell, s.next_id, s.next_seq);
                                }
                            }
                        }
                        lemma_enter(s1, side, id, Some(new_price), qty.0, seq, true);
                        assert(apply_spec(s, cmd).0 == enter_spec(s1, side, id, Some(new_price), qty.0, seq, true));
                    }
                }
            }
        },
    }
}

/// Replaying `cmds` in order from `s`: the final state and all events.
pub open spec fn replay_spec(s: State, cmds: Seq<Command>) -> (State, Seq<Event>)
    decreases cmds.len(),
{
    if cmds.len() == 0 {
        (s, Seq::empty())
    } else {
        let r = replay_spec(s, cmds.drop_last());
        let a = apply_spec(r.0, cmds.last());
        (a.0, r.1 + a.1)
    }
}

/// Number of resting orders.
pub open spec fn order_count(s: State) -> int {
    (s.bids.len() + s.asks.len()) as int
}

/// `n` more commands cannot run out of ids, sequence numbers or slots.
pub open spec fn room_for_many(s: State, n: int) -> bool {
    &&& s.next_id + n <= MAX_COUNTER
    &&& s.next_seq + n <= MAX_COUNTER
    &&& order_count(s) + n < u32::MAX
}

/// One command moves each counter, and the number of resting orders, up by
/// at most one; the counters never go down.
proof fn lemma_apply_growth(s: State, cmd: Command)
    requires
        s.next_id < u64::MAX,
        s.next_seq < u64::MAX,
    ensures
        s.next_id <= apply_spec(s, cmd).0.next_id <= s.next_id + 1,
        s.next_seq <= apply_spec(s, cmd).0.next_seq <= s.next_seq + 1,
        order_count(apply_spec(s, cmd).0) <= order_count(s) + 1,
{
    let z = RestingOrder { id: OrderId(0), side: Side::Buy, price: Price(0), qty: Qty(0), seq: SeqNo(0) };
    match cmd {
        Command::Submit { side, kind, qty } => {
            if spec_check_fields(cmd) is Ok {
                let opp = spec_opposite(side);
                let q = queue_of(s, opp);
                let m = match_spec(q, OrderId(s.next_id), side, spec_limit(kind), qty.0);
                lemma_match_len(q, OrderId(s.next_id), side, spec_limit(kind), qty.0);
                lemma_lens(queue_of(s, side), RestingOrder { id: OrderId(s.next_id), side, price: z.price, qty: Qty(m.2), seq: SeqNo(s.next_seq) }, z.id, z.qty);
                if let OrderType::Limit { price } = kind {
                    lemma_lens(queue_of(s, side), RestingOrder { id: OrderId(s.next_id), side, price, qty: Qty(m.2), seq: SeqNo(s.next_seq) }, z.id, z.qty);
                }
            }
        },
        Command::Cancel { id } => {
            if let Some(o) = find_order(s, id) {
                lemma_lens(queue_of(s, o.side), z, id, z.qty);
            }
        },
        Command::Amend { id, price, qty } => {
            if let Some(cur) = find_order(s, id) {
                let new_price = match price {
                    Some(p) => p,
                    None => cur.price,
                };
                let side = cur.side;
                let opp = spec_opposite(side);
                lemma_lens(queue_of(s, side), z, id, qty);
                let r = remove_id(queue_of(s, side), id);
                let m = match_spec(queue_of(s, opp), id, side, Some(new_price), qty.0);
                lemma_match_len(queue_of(s, opp), id, side, Some(new_price), qty.0);
                lemma_lens(r, RestingOrder { id, side, price: new_price, qty: Qty(m.2), seq: SeqNo(s.next_seq) }, id, qty);
                if has_id(queue_of(s, side), id) {
                    lemma_remove_len(queue_of(s, side), id);
                }
            }
        },
    }
}

/// Matching never lengthens the opposite queue.
proof fn lemma_match_len(q: Seq<RestingOrder>, taker: OrderId, side: Side, limit: Option<Price>, rem: u64)
    ensures
        match_spec(q, taker, side, limit, rem).0.len() <= q.len(),
    decreases q.len(),
{
    if !(rem == 0 || q.len() == 0 || !limit_allows(side, limit, q[0].price)) && rem >= q[0].qty.0 {
        lemma_match_len(q.drop_first(), taker, side, limit, (rem - q[0].qty.0) as u64);
    }
}

/// Removing an id that is present shortens the queue by one.
proof fn lemma_remove_len(q: Seq<RestingOrder>, id: OrderId)
    requires
        has_id(q, id),
    ensures
        remove_id(q, id).len() == q.len() - 1,
    decreases q.len(),
{
    if q[0].id != id {
        let t = q.drop_first();
        let i = choose|i: int| 0 <= i < q.len() && q[i].id == id;
        assert(t[i - 1].id == id);
        lemma_remove_len(t, id);
    }
}

/// Matching emits at most two events per resting order it reaches.
proof fn lemma_match_events(q: Seq<RestingOrder>, taker: OrderId, side: Side, limit: Option<Price>, rem: u64)
    ensures
        match_spec(q, taker, side, limit, rem).1.len() <= 2 * q.len(),
    decreases q.len(),
{
    if !(rem == 0 || q.len() == 0 || !limit_allows(side, limit, q[0].price)) && rem >= q[0].qty.0 {
        lemma_match_events(q.drop_first(), taker, side, limit, (rem - q[0].qty.0) as u64);
    }
}

/// One command emits at most two events per resting order, and three more.
pub proof fn lemma_apply_events(s: State, cmd: Command)
    ensures
        apply_spec(s, cmd).1.len() <= 2 * order_count(s) + 3,
{
    match cmd {
        Command::Submit { side, kind, qty } => {
            if spec_check_fields(cmd) is Ok {
                let opp = spec_opposite(side);
                lemma_match_events(queue_of(s, opp), OrderId(s.next_id), side, spec_limit(kind), qty.0);
            }
        },
        Command::Cancel { .. } => {},
        Command::Amend { id, price, qty } => {
            if let Some(cur) = find_order(s, id) {
                let new_price = match price {
                    Some(p) => p,
                    None => cur.price,
                };
                let opp = spec_opposite(cur.side);
                lemma_match_events(queue_of(s, opp), id, cur.side, Some(new_price), qty.0);
            }
        },
    }
}

/// An engine's state is always one the engine can be in.
pub proof fn lemma_inv_valid(e: MatchingEngine)
    requires
        e.inv(),
    ensures
        valid_state(e.state()),
{
}

/// Replaying `a` and then `b` is replaying `a + b`.
pub proof fn lemma_replay_append(s: State, a: Seq<Command>, b: Seq<Command>)
    ensures
        replay_spec(s, a + b) == ({
            let r1 = replay_spec(s, a);
            let r2 = replay_spec(r1.0, b);
            (r2.0, r1.1 + r2.1)
        }),
    decreases b.len(),
{
    if b.len() == 0 {
        assert(a + b =~= a);
        assert(replay_spec(s, a).1 + Seq::<Event>::empty() =~= replay_spec(s, a).1);
    } else {
        assert((a + b).drop_last() =~= a + b.drop_last());
        assert((a + b).last() == b.last());
        lemma_replay_append(s, a, b.drop_last());
        let r1 = replay_spec(s, a);
        let r2 = replay_spec(r1.0, b.drop_last());
        let x = apply_spec(r2.0, b.last());
        assert(r1.1 + r2.1 + x.1 =~= r1.1 + (r2.1 + x.1));
    }
}

/// Replaying keeps a valid state valid, given room for every command.
pub proof fn lemma_replay_valid(s: State, cmds: Seq<Command>)
    requires
        valid_state(s),
        room_for_many(s, cmds.len() as int),
    ensures
        valid_state(replay_spec(s, cmds).0),
        replay_spec(s, cmds).0.next_id <= s.next_id + cmds.len(),
        replay_spec(s, cmds).0.next_seq <= s.next_seq + cmds.len(),
        order_count(replay_spec(s, cmds).0) <= order_count(s) + cmds.len(),
    decreases cmds.len(),
{
    if cmds.len() > 0 {
        lemma_replay_valid(s, cmds.drop_last());
        let r = replay_spec(s, cmds.drop_last());
        lemma_apply_growth(r.0, cmds.last());
        lemma_apply_valid(r.0, cmds.last());
    }
}

/// Snapshot and restore compose with replay: the snapshot of the state
/// after `a` decodes to that state, and replaying `b` from it gives the
/// state and the rest of the events of replaying `a + b`.
pub proof fn lemma_snapshot_replay(s: State, a: Seq<Command>, b: Seq<Command>)
    requires
        valid_state(s),
        room_for_many(s, (a.len() + b.len()) as int),
    ensures
        ({
            let mid = replay_spec(s, a).0;
            &&& decode_spec(encode_spec(mid)) == Ok::<State, SnapshotError>(mid)
            &&& replay_spec(s, a + b) == (replay_spec(mid, b).0, replay_spec(s, a).1 + replay_spec(mid, b).1)
        }),
{
    let mid = replay_spec(s, a).0;
    lemma_replay_valid(s, a);
    lemma_replay_append(s, a, b);
    assert forall|i: int| 0 <= i < mid.bids.len() implies (#[trigger] mid.bids[i]).side == Side::Buy by {
        assert(fields_ok(mid.bids[i], Side::Buy, mid.next_id, mid.next_seq));
    }
    assert forall|i: int| 0 <= i < mid.asks.len() implies (#[trigger] mid.asks[i]).side == Side::Sell by {
        assert(fields_ok(mid.asks[i], Side::Sell, mid.next_id, mid.next_seq));
    }
    lemma_decode_encode(mid);
    lemma_validate_spec(mid);
}

/// Matching emits only trades and fills.
proof fn lemma_match_no_rejection(q: Seq<RestingOrder>, taker: OrderId, side: Side, limit: Option<Price>, rem: u64)
    ensures
        forall|i: int| 0 <= i < match_spec(q, taker, side, limit, rem).1.len() ==> !(#[trigger] match_spec(
            q,
            taker,
            side,
            limit,
            rem,
        ).1[i] is Rejected),
    decreases q.len(),
{
    if !(rem == 0 || q.len() == 0 || !limit_allows(side, limit, q[0].price)) && rem >= q[0].qty.0 {
        let t = match_spec(q.drop_first(), taker, side, limit, (rem - q[0].qty.0) as u64);
        lemma_match_no_rejection(q.drop_first(), taker, side, limit, (rem - q[0].qty.0) as u64);
        let m = match_spec(q, taker, side, limit, rem);
        assert forall|i: int| 0 <= i < m.1.len() implies !(#[trigger] m.1[i] is Rejected) by {
            if i >= 2 {
                assert(m.1[i] == t.1[i - 2]);
            }
        }
    }
}

/// Number of `Accepted` events in `ev`.
pub open spec fn accepted_count(ev: Seq<Event>) -> nat
    decreases ev.len(),
{
    if ev.len() == 0 {
        0
    } else {
        accepted_count(ev.drop_last()) + if ev.last() is Accepted {
            1nat
        } else {
            0nat
        }
    }
}

proof fn lemma_accepted_count_add(a: Seq<Event>, b: Seq<Event>)
    ensures
        accepted_count(a + b) == accepted_count(a) + accepted_count(b),
    decreases b.len(),
{
    if b.len() == 0 {
        assert(a + b =~= a);
    } else {
        lemma_accepted_count_add(a, b.drop_last());
        assert((a + b).drop_last() =~= a + b.drop_last());
    }
}

proof fn lemma_accepted_count_none(ev: Seq<Event>)
    requires
        forall|i: int| 0 <= i < ev.len() ==> !(#[trigger] ev[i] is Accepted),
    ensures
        accepted_count(ev) == 0,
    decreases ev.len(),
{
    if ev.len() > 0 {
        assert forall|i: int| 0 <= i < ev.drop_last().len() implies !(#[trigger] ev.drop_last()[i] is Accepted) by {
            assert(ev.drop_last()[i] == ev[i]);
        }
        lemma_accepted_count_none(ev.drop_last());
    }
}

/// Matching emits only trades and fills.
proof fn lemma_match_kinds(q: Seq<RestingOrder>, taker: OrderId, side: Side, limit: Option<Price>, rem: u64)
    ensures
        forall|i: int| 0 <= i < match_spec(q, taker, side, limit, rem).1.len() ==> {
            let e = #[trigger] match_spec(q, taker, side, limit, rem).1[i];
            e is Trade || e is Filled
        },
    decreases q.len(),
{
    if !(rem == 0 || q.len() == 0 || !limit_allows(side, limit, q[0].price)) && rem >= q[0].qty.0 {
        let t = match_spec(q.drop_first(), taker, side, limit, (rem - q[0].qty.0) as u64);
        lemma_match_kinds(q.drop_first(), taker, side, limit, (rem - q[0].qty.0) as u64);
        let m = match_spec(q, taker, side, limit, rem);
        assert forall|i: int| 0 <= i < m.1.len() implies (#[trigger] m.1[i] is Trade || m.1[i] is Filled) by {
            if i >= 2 {
                assert(m.1[i] == t.1[i - 2]);
            }
        }
    }
}

/// One command: an accepted submit takes the next id and reports it in its
/// one `Accepted` event; every other command takes no id and emits none.
proof fn lemma_apply_ids(s: State, cmd: Command)
    requires
        s.next_id < u64::MAX,
    ensures
        apply_spec(s, cmd).0.next_id == s.next_id + accepted_count(apply_spec(s, cmd).1),
        accepted_count(apply_spec(s, cmd).1) <= 1,
        forall|j: int|
            0 <= j < apply_spec(s, cmd).1.len() && #[trigger] apply_spec(s, cmd).1[j] is Accepted
                ==> apply_spec(s, cmd).1[j]->Accepted_id == OrderId(s.next_id),
{
    reveal_with_fuel(accepted_count, 2);
    let (s2, ev) = apply_spec(s, cmd);
    match cmd {
        Command::Submit { side, kind, qty } => {
            if spec_check_fields(cmd) is Ok {
                let opp = spec_opposite(side);
                let id = OrderId(s.next_id);
                let m = match_spec(queue_of(s, opp), id, side, spec_limit(kind), qty.0);
                lemma_match_kinds(queue_of(s, opp), id, side, spec_limit(kind), qty.0);
                lemma_accepted_count_none(m.1);
                let head = seq![Event::Accepted { id, side, kind, qty, seq: SeqNo(s.next_seq) }];
                lemma_accepted_count_add(head, m.1);
                assert(accepted_count(head) == 1) by {
                    assert(head.drop_last() =~= Seq::<Event>::empty());
                    reveal_with_fuel(accepted_count, 2);
                }
                let ev0 = head + m.1;
                assert(ev.drop_last() == ev0);
                assert(!(ev.last() is Accepted));
                assert(accepted_count(ev) == 1);
                assert(s2.next_id == s.next_id + 1);
                assert forall|j: int| 0 <= j < ev.len() && #[trigger] ev[j] is Accepted implies ev[j]->Accepted_id
                    == id by {
                    if j > 0 && j < ev0.len() {
                        assert(ev[j] == m.1[j - 1]);
                    }
                }
            } else {
                assert(ev.drop_last() =~= Seq::<Event>::empty());
            }
        },
        Command::Cancel { id } => {
            assert(ev.drop_last() =~= Seq::<Event>::empty());
        },
        Command::Amend { id, price, qty } => {
            if field_error(Some(qty), price) is None && find_order(s, id) is Some {
                let cur = find_order(s, id).unwrap();
                let new_price = match price {
                    Some(p) => p,
                    None => cur.price,
                };
                if new_price == cur.price && qty.0 <= cur.qty.0 {
                    assert(ev.drop_last() =~= Seq::<Event>::empty());
                } else {
                    let side = cur.side;
                    let opp = spec_opposite(side);
                    let s1 = with_queue(
                        State { next_seq: (s.next_seq + 1) as u64, ..s },
                        side,
                        remove_id(queue_of(s, side), id),
                    );
                    let m = match_spec(queue_of(s1, opp), id, side, Some(new_price), qty.0);
                    lemma_match_kinds(queue_of(s1, opp), id, side, Some(new_price), qty.0);
                    assert forall|j: int| 0 <= j < ev.len() implies !(#[trigger] ev[j] is Accepted) by {
                        if j > 0 && j < m.1.len() + 1 {
                            assert(ev[j] == m.1[j - 1]);
                        }
                    }
                    lemma_accepted_count_none(ev);
                }
            } else {
                assert(ev.drop_last() =~= Seq::<Event>::empty());
            }
        },
    }
}

/// Ids are issued one after another: after any commands, the next id is
/// the starting next id plus the number of orders accepted on the way.
pub proof fn lemma_next_id_counts(s: State, cmds: Seq<Command>)
    requires
        s.next_id + cmds.len() <= u64::MAX,
    ensures
        replay_spec(s, cmds).0.next_id == s.next_id + accepted_count(replay_spec(s, cmds).1),
        accepted_count(replay_spec(s, cmds).1) <= cmds.len(),
    decreases cmds.len(),
{
    if cmds.len() > 0 {
        let r = replay_spec(s, cmds.drop_last());
        lemma_next_id_counts(s, cmds.drop_last());
        lemma_apply_ids(r.0, cmds.last());
        lemma_accepted_count_add(r.1, apply_spec(r.0, cmds.last()).1);
    }
}

/// Each accepted order gets the next id in turn: the order accepted by
/// command `i` has id the starting next id plus the number of orders
/// accepted before it. From a new engine, the `n`-th accepted order has id
/// `n`.
pub proof fn lemma_ids_issued(s: State, cmds: Seq<Command>, i: int)
    requires
        0 <= i < cmds.len(),
        s.next_id + cmds.len() <= u64::MAX,
    ensures
        ({
            let r = replay_spec(s, cmds.take(i));
            let ev = apply_spec(r.0, cmds[i]).1;
            forall|j: int|
                0 <= j < ev.len() && #[trigger] ev[j] is Accepted ==> ev[j]->Accepted_id == OrderId(
                    (s.next_id + accepted_count(r.1)) as u64,
                )
        }),
{
    let r = replay_spec(s, cmds.take(i));
    lemma_next_id_counts(s, cmds.take(i));
    lemma_apply_ids(r.0, cmds[i]);
}

/// A cancel takes the order out for good and uses no id or sequence
/// number: afterwards no order with that id rests, the book holds one order
/// fewer when it did, and an unknown id changes nothing.
pub proof fn lemma_cancel_removes(s: State, id: OrderId)
    requires
        valid_state(s),
    ensures
        find_order(cancel_spec(s, id).0, id) is None,
        cancel_spec(s, id).0.next_id == s.next_id,
        cancel_spec(s, id).0.next_seq == s.next_seq,
        order_count(cancel_spec(s, id).0) + (if find_order(s, id) is Some {
            1int
        } else {
            0int
        }) == order_count(s),
        find_order(s, id) is None ==> cancel_spec(s, id).0 == s,
{
    lemma_find_order(s, id);
    lemma_unique_split(s.bids, s.asks);
    lemma_remove_id_gone(s.bids, id);
    lemma_remove_id_gone(s.asks, id);
}

/// The resting book is never crossed: in every state an engine can be in,
/// when both sides have orders the best bid is below the best ask.
pub proof fn lemma_uncrossed(e: MatchingEngine)
    requires
        e.inv(),
    ensures
        e.state().bids.len() > 0 && e.state().asks.len() > 0 ==> e.state().bids[0].price.0 < e.state().asks[0].price.0,
{
    lemma_inv_valid(e);
}

/// A rejected command changes nothing: a command whose events include a
/// rejection emits only that event and leaves the state as it was.
pub proof fn lemma_rejection_neutral(s: State, cmd: Command)
    requires
        exists|i: int| 0 <= i < apply_spec(s, cmd).1.len() && #[trigger] apply_spec(s, cmd).1[i] is Rejected,
    ensures
        apply_spec(s, cmd).1.len() == 1,
        apply_spec(s, cmd).0 == s,
{
    let ev = apply_spec(s, cmd).1;
    let i = choose|i: int| 0 <= i < ev.len() && #[trigger] ev[i] is Rejected;
    match cmd {
        Command::Submit { side, kind, qty } => {
            if spec_check_fields(cmd) is Ok {
                let opp = spec_opposite(side);
                let m = match_spec(queue_of(s, opp), OrderId(s.next_id), side, spec_limit(kind), qty.0);
                lemma_match_no_rejection(queue_of(s, opp), OrderId(s.next_id), side, spec_limit(kind), qty.0);
                let ev0 = seq![Event::Accepted { id: OrderId(s.next_id), side, kind, qty, seq: SeqNo(s.next_seq) }] + m.1;
                assert(ev.len() == ev0.len() + 1);
                assert(forall|j: int| 0 <= j < ev0.len() ==> ev[j] == ev0[j]);
                if 0 < i < ev0.len() {
                    assert(ev0[i] == m.1[i - 1]);
                }
            }
        },
        Command::Cancel { .. } => {},
        Command::Amend { id, price, qty } => {
            if field_error(Some(qty), price) is None {
                if let Some(cur) = find_order(s, id) {
                    let np = match price {
                        Some(p) => p,
                        None => cur.price,
                    };
                    if !(np == cur.price && qty == cur.qty) && !(np == cur.price && qty.0 < cur.qty.0) {
                        let side = cur.side;
                        let opp = spec_opposite(side);
                        let s1 = with_queue(
                            State { next_seq: (s.next_seq + 1) as u64, ..s },
                            side,
                            remove_id(queue_of(s, side), id),
                        );
                        let m = match_spec(queue_of(s1, opp), id, side, Some(np), qty.0);
                        lemma_match_no_rejection(queue_of(s1, opp), id, side, Some(np), qty.0);
                        let ev0 = seq![
                            Event::Amended {
                                id,
                                price: np,
                                old_qty: cur.qty,
                                qty,
                                seq: SeqNo(s.next_seq),
                                priority: Priority::Lost,
                            },
                        ] + m.1;
                        assert(ev.len() == ev0.len() + 1);
                        assert(forall|j: int| 0 <= j < ev0.len() ==> ev[j] == ev0[j]);
                        if 0 < i < ev0.len() {
                            assert(ev0[i] == m.1[i - 1]);
                        }
                    }
                }
            }
        },
    }
}

/// Inserting the orders of a valid side one by one, in order, rebuilds it:
/// each order goes behind all the ones before it.
proof fn insert_in_order(q: Seq<RestingOrder>, i: int, side: Side, nid: u64, nseq: u64)
    requires
        side_valid(q, side, nid, nseq),
        ids_unique(q),
        0 <= i < q.len(),
    ensures
        rest_into(q.take(i), q[i]) == q.take(i + 1),
        !has_id(q.take(i), q[i].id),
        fields_ok(q[i], side, nid, nseq),
        q.take(i).len() == i,
{
    let a = q.take(i);
    assert forall|j: int| 0 <= j < a.len() implies okey(#[trigger] a[j]) <= okey(q[i]) by {
        assert(before(q[j], q[i]));
    }
    lemma_rest_into_split(a, Seq::empty(), q[i]);
    assert(a + Seq::<RestingOrder>::empty() =~= a);
    assert(a + seq![q[i]] + Seq::<RestingOrder>::empty() =~= q.take(i + 1));
    if has_id(a, q[i].id) {
        let j = choose|j: int| 0 <= j < a.len() && a[j].id == q[i].id;
        assert(q[j].id != q[i].id);
    }
}

/// A single-instrument matching engine.
///
/// All state that affects output lives here: the book and the id and
/// sequence counters. There is no clock or randomness.
pub struct MatchingEngine {
    book: OrderBook,
    next_id: u64,
    next_seq: u64,
}

impl MatchingEngine {
    /// The engine's state: counters and both queues.
    pub closed spec fn state(self) -> State {
        State {
            next_id: self.next_id,
            next_seq: self.next_seq,
            bids: self.book.queue(Side::Buy),
            asks: self.book.queue(Side::Sell),
        }
    }

    /// The engine's internal invariant.
    pub closed spec fn inv(self) -> bool {
        &&& self.book.wf()
        &&& valid_state(self.state())
    }

    /// An engine with an empty book. The first order gets id 1.
    pub fn new() -> (e: MatchingEngine)
        ensures
            e.inv(),
            e.state() == (State {
                next_id: 1,
                next_seq: 1,
                bids: Seq::empty(),
                asks: Seq::empty(),
            }),
    {
        let e = MatchingEngine { book: OrderBook::new(), next_id: 1, next_seq: 1 };
        proof {
            assert(e.state().bids + e.state().asks =~= Seq::<RestingOrder>::empty());
        }
        e
    }

    fn take_id(&mut self) -> (id: OrderId)
        requires
            old(self).next_id < u64::MAX,
        ensures
            id.0 == old(self).next_id,
            final(self).next_id == old(self).next_id + 1,
            final(self).next_seq == old(self).next_seq,
            final(self).book == old(self).book,
    {
        let id = OrderId(self.next_id);
        self.next_id = self.next_id + 1;
        id
    }

    fn take_seq(&mut self) -> (seq: SeqNo)
        requires
            old(self).next_seq < u64::MAX,
        ensures
            seq.0 == old(self).next_seq,
            final(self).next_seq == old(self).next_seq + 1,
            final(self).next_id == old(self).next_id,
            final(self).book == old(self).book,
    {
        let seq = SeqNo(self.next_seq);
        self.next_seq = self.next_seq + 1;
        seq
    }

    /// Submits a new order, appending the resulting events to `out`.
    pub fn submit(&mut self, side: Side, kind: OrderType, qty: Qty, out: &mut Vec<Event>)
        requires
            old(self).inv(),
            room_for(old(self).state(), Command::Submit { side, kind, qty }),
        ensures
            final(self).inv(),
            final(self).state() == submit_spec(old(self).state(), side, kind, qty).0,
            final(out)@ == old(out)@ + submit_spec(old(self).state(), side, kind, qty).1,
    {
        let ghost s0 = self.state();
        let ghost out0 = out@;
        proof {
            lemma_apply_valid(s0, Command::Submit { side, kind, qty });
            lemma_counters(s0);
        }
        if let Err(reason) = (Command::Submit { side, kind, qty }).check_fields() {
            out.push(Event::Rejected { id: None, reason });
            return;
        }
        let id = self.take_id();
        let seq = self.take_seq();
        out.push(Event::Accepted { id, side, kind, qty, seq });
        let ghost out1 = out@;
        let ghost opp = spec_opposite(side);
        let ghost m = match_spec(queue_of(s0, opp), id, side, spec_limit(kind), qty.0);
        proof {
            lemma_match_shape(queue_of(s0, opp), id, side, spec_limit(kind), qty.0);
        }
        let remaining = self.book.match_incoming(id, side, kind.limit(), qty, out);
        let ghost s1 = with_queue(
            State { next_id: (s0.next_id + 1) as u64, next_seq: (s0.next_seq + 1) as u64, ..s0 },
            opp,
            m.0,
        );
        proof {
            assert(self.state() == s1);
            assert(out@ == out1 + m.1);
        }
        if remaining.is_zero() {
            out.push(Event::Filled { id });
            return;
        }
        match kind {
            OrderType::Limit { price } => {
                proof {
                    assert(self.state().bids.len() + self.state().asks.len() == s0.bids.len() + s0.asks.len()
                        - (queue_of(s0, opp).len() - m.0.len()));
                }
                self.book.insert(id, side, price, remaining, seq);
                out.push(Event::Rested { id, side, price, qty: remaining, seq });
            },
            OrderType::Ioc { .. } => out.push(
                Event::Cancelled { id, qty: remaining, reason: CancelReason::IocRemainder },
            ),
            OrderType::Market => out.push(
                Event::Cancelled { id, qty: remaining, reason: CancelReason::NoLiquidity },
            ),
        }
    }

    /// Cancels a resting order, appending the resulting event to `out`.
    pub fn cancel(&mut self, id: OrderId, out: &mut Vec<Event>)
        requires
            old(self).inv(),
        ensures
            final(self).inv(),
            final(self).state() == cancel_spec(old(self).state(), id).0,
            final(out)@ == old(out)@ + cancel_spec(old(self).state(), id).1,
    {
        let ghost s0 = self.state();
        proof {
            lemma_apply_valid(s0, Command::Cancel { id });
            lemma_find_order(s0, id);
        }
        match self.book.remove(id) {
            Some(order) => out.push(Event::Cancelled { id, qty: order.qty, reason: CancelReason::User }),
            None => out.push(Event::Rejected { id: Some(id), reason: RejectReason::UnknownOrder }),
        }
    }

    /// Amends a resting order, appending the resulting events to `out`.
    pub fn amend(&mut self, id: OrderId, price: Option<Price>, qty: Qty, out: &mut Vec<Event>)
        requires
            old(self).inv(),
            room_for(old(self).state(), Command::Amend { id, price, qty }),
        ensures
            final(self).inv(),
            final(self).state() == amend_spec(old(self).state(), id, price, qty).0,
            final(out)@ == old(out)@ + amend_spec(old(self).state(), id, price, qty).1,
    {
        let ghost s0 = self.state();
        let ghost out0 = out@;
        proof {
            lemma_apply_valid(s0, Command::Amend { id, price, qty });
            lemma_find_order(s0, id);
            lemma_counters(s0);
            self.book.lemma_queues();
        }
        if let Err(reason) = (Command::Amend { id, price, qty }).check_fields() {
            out.push(Event::Rejected { id: Some(id), reason });
            return;
        }
        let cur = match self.book.order(id) {
            Some(o) => o,
            None => {
                out.push(Event::Rejected { id: Some(id), reason: RejectReason::UnknownOrder });
                return;
            },
        };
        let new_price = match price {
            Some(p) => p,
            None => cur.price,
        };
        if new_price.0 == cur.price.0 && qty.0 == cur.qty.0 {
            out.push(Event::Rejected { id: Some(id), reason: RejectReason::AmendNoChange });
            return;
        }
        if new_price.0 == cur.price.0 && qty.0 < cur.qty.0 {
            self.book.reduce(id, qty);
            out.push(
                Event::Amended {
                    id,
                    price: new_price,
                    old_qty: cur.qty,
                    qty,
                    seq: cur.seq,
                    priority: Priority::Kept,
                },
            );
            return;
        }
        let side = cur.side;
        let _ = self.book.remove(id);
        let seq = self.take_seq();
        out.push(
            Event::Amended {
                id,
                price: new_price,
                old_qty: cur.qty,
                qty,
                seq,
                priority: Priority::Lost,
            },
        );
        let ghost opp = spec_opposite(side);
        let ghost sb = State { next_seq: (s0.next_seq + 1) as u64, ..s0 };
        let ghost s1 = with_queue(sb, side, remove_id(queue_of(sb, side), id));
        let ghost out1 = out@;
        let ghost m = match_spec(queue_of(s1, opp), id, side, Some(new_price), qty.0);
        proof {
            assert(self.state() == s1);
            lemma_match_shape(queue_of(s1, opp), id, side, Some(new_price), qty.0);
            self.book.lemma_queues();
        }
        let remaining = self.book.match_incoming(id, side, Some(new_price), qty, out);
        proof {
            assert(self.state() == with_queue(s1, opp, m.0));
            assert(out@ == out1 + m.1);
        }
        if remaining.is_zero() {
            out.push(Event::Filled { id });
        } else {
            proof {
                lemma_state_remove(sb, side, id);
                lemma_find_order(s1, id);
                lemma_unique_split(s0.bids, s0.asks);
                lemma_valid_remove(queue_of(s0, side), id, side, s0.next_id, s0.next_seq);
                self.book.lemma_queues();
            }
            self.book.insert(id, side, new_price, remaining, seq);
            out.push(Event::Rested { id, side, price: new_price, qty: remaining, seq });
        }
    }

    /// Applies one command, appending its events to `out`.
    pub fn apply(&mut self, cmd: Command, out: &mut Vec<Event>)
        requires
            old(self).inv(),
            room_for(old(self).state(), cmd),
        ensures
            final(self).inv(),
            final(self).state() == apply_spec(old(self).state(), cmd).0,
            final(out)@ == old(out)@ + apply_spec(old(self).state(), cmd).1,
    {
        match cmd {
            Command::Submit { side, kind, qty } => self.submit(side, kind, qty, out),
            Command::Cancel { id } => self.cancel(id, out),
            Command::Amend { id, price, qty } => self.amend(id, price, qty, out),
        }
    }

    /// Applies `commands` in order and returns every event they produced.
    pub fn replay(&mut self, commands: &[Command]) -> (events: Vec<Event>)
        requires
            old(self).inv(),
            room_for_many(old(self).state(), commands@.len() as int),
        ensures
            final(self).inv(),
            final(self).state() == replay_spec(old(self).state(), commands@).0,
            events@ == replay_spec(old(self).state(), commands@).1,
    {
        let ghost s0 = self.state();
        let mut events: Vec<Event> = Vec::new();
        let mut i: usize = 0;
        while i < commands.len()
            invariant
                0 <= i <= commands@.len(),
                self.inv(),
                valid_state(s0),
                room_for_many(s0, commands@.len() as int),
                (self.state(), events@) == replay_spec(s0, commands@.take(i as int)),
            decreases commands@.len() - i,
        {
            proof {
                lemma_replay_valid(s0, commands@.take(i as int));
                assert(commands@.take(i as int + 1).drop_last() =~= commands@.take(i as int));
            }
            self.apply(commands[i], &mut events);
            i = i + 1;
        }
        proof {
            assert(commands@.take(i as int) =~= commands@);
        }
        events
    }

    /// The engine's state in canonical form.
    pub fn snapshot(&self) -> (snap: Snapshot)
        requires
            self.inv(),
        ensures
            snap@ == self.state(),
    {
        Snapshot {
            next_id: self.next_id,
            next_seq: self.next_seq,
            bids: self.book.orders(Side::Buy),
            asks: self.book.orders(Side::Sell),
        }
    }

    /// An engine in the state `snapshot` describes, after checking that the
    /// state is one the engine could be in.
    pub fn restore(snapshot: &Snapshot) -> (r: Result<MatchingEngine, SnapshotError>)
        requires
            snapshot.bids@.len() + snapshot.asks@.len() < u32::MAX,
        ensures
            match r {
                Ok(e) => {
                    &&& validate_spec(snapshot@) is Ok
                    &&& e.inv()
                    &&& e.state() == snapshot@
                },
                Err(err) => validate_spec(snapshot@) == Err::<(), SnapshotError>(err),
            },
    {
        if let Err(e) = snapshot.validate() {
            return Err(e);
        }
        let ghost s = snapshot@;
        proof {
            lemma_validate_spec(s);
            lemma_unique_split(s.bids, s.asks);
        }
        let mut book = OrderBook::new();
        let mut i: usize = 0;
        while i < snapshot.bids.len()
            invariant
                s == snapshot@,
                valid_state(s),
                ids_unique(s.bids),
                ids_unique(s.asks),
                forall|x: OrderId| has_id(s.bids, x) ==> !has_id(s.asks, x),
                s.bids.len() + s.asks.len() < u32::MAX,
                0 <= i <= s.bids.len(),
                book.wf(),
                book.queue(Side::Buy) == s.bids.take(i as int),
                book.queue(Side::Sell) == Seq::<RestingOrder>::empty(),
            decreases s.bids.len() - i,
        {
            let o = snapshot.bids[i];
            proof {
                insert_in_order(s.bids, i as int, Side::Buy, s.next_id, s.next_seq);
            }
            book.insert(o.id, Side::Buy, o.price, o.qty, o.seq);
            i = i + 1;
        }
        proof {
            assert(s.bids.take(i as int) =~= s.bids);
        }
        let mut j: usize = 0;
        while j < snapshot.asks.len()
            invariant
                s == snapshot@,
                valid_state(s),
                ids_unique(s.bids),
                ids_unique(s.asks),
                forall|x: OrderId| has_id(s.bids, x) ==> !has_id(s.asks, x),
                s.bids.len() + s.asks.len() < u32::MAX,
                0 <= j <= s.asks.len(),
                book.wf(),
                book.queue(Side::Buy) == s.bids,
                book.queue(Side::Sell) == s.asks.take(j as int),
            decreases s.asks.len() - j,
        {
            let o = snapshot.asks[j];
            proof {
                insert_in_order(s.asks, j as int, Side::Sell, s.next_id, s.next_seq);
                assert(!has_id(s.bids, o.id)) by {
                    assert(has_id(s.asks, o.id));
                }
            }
            book.insert(o.id, Side::Sell, o.price, o.qty, o.seq);
            j = j + 1;
        }
        proof {
            assert(s.asks.take(j as int) =~= s.asks);
        }
        Ok(MatchingEngine { book, next_id: snapshot.next_id, next_seq: snapshot.next_seq })
    }

    /// The state of a new engine.
    pub open spec fn new_state() -> State {
        State { next_id: 1, next_seq: 1, bids: Seq::empty(), asks: Seq::empty() }
    }

    /// Read-only view of the book.
    pub fn book(&self) -> (b: &OrderBook)
        requires
            self.inv(),
        ensures
            b.wf(),
            b.queue(Side::Buy) == self.state().bids,
            b.queue(Side::Sell) == self.state().asks,
    {
        &self.book
    }

    /// Whether `n` more commands fit the id and sequence counters and the
    /// book's capacity, whatever they are.
    pub fn has_room_for(&self, n: usize) -> (r: bool)
        requires
            self.inv(),
        ensures
            r == room_for_many(self.state(), n as int),
    {
        let resting = self.book.len() as u64;
        let n = n as u64;
        self.next_id <= MAX_COUNTER && MAX_COUNTER - self.next_id >= n && self.next_seq <= MAX_COUNTER
            && MAX_COUNTER - self.next_seq >= n && resting < 0xFFFF_FFFF && 0xFFFF_FFFF - resting > n
    }
}

impl Default for MatchingEngine {
    /// An engine with an empty book, as `new`.
    fn default() -> (e: Self)
        ensures
            e.inv(),
            e.state() == MatchingEngine::new_state(),
    {
        MatchingEngine::new()
    }
}

} // verus!
