//! The engine passes its own audit: for every command the engine applies,
//! the [`Auditor`](crate::invariants::Auditor) finds none of I1-I3, I5, I9
//! and I10 broken.
//!
//! The proof keeps a ledger that mirrors the engine state: every order the
//! ledger has seen balances against the book (accepted = filled + open +
//! cancelled, with the open quantity taken from the book), rests where the
//! book has it, and buy fills, sell fills and traded quantity agree. One
//! command's events take a mirroring ledger to one that mirrors the state
//! after the command, and pass every check on the way.
use vstd::prelude::*;

use crate::book::RestingOrder;
use crate::command::{field_error, spec_check_fields, CancelReason, Command, Event, Priority};
use crate::engine::{
    amend_spec, apply_spec, cancel_spec, find_order, queue_of, rest_spec, room_for, submit_spec, with_queue,
};
use crate::invariants::{
    balance_spec, check_events_spec, per_event, sorted_ids, reconcile_ids_spec, reconcile_spec, resting_count, restored,
    restored_entry, step_spec, steps_spec, touched, touched_in, with_more, Entry, Fault, Ledger, Place,
};
use crate::book::OrderBook;
use crate::queue::{
    find_in, has_id, ids_unique, key_of, lemma_id_ops_absent, lemma_unique_remove, limit_allows, match_spec, okey,
};
use crate::snapshot::{before, fields_ok, valid_state, State};
use crate::types::{spec_crosses, spec_limit, spec_opposite, OrderId, OrderType, Price, Qty, SeqNo, Side};

verus! {

/// 2^64: more than any one quantity.
pub open spec fn one_qty() -> int {
    0x1_0000_0000_0000_0000
}

/// What the ledger has of an order that the book holds (`Some`) or does
/// not hold (`None`): it rests where the book has it, on its side, and its
/// quantities balance with the book's open quantity.
pub open spec fn entry_ok(e: Entry, fo: Option<RestingOrder>) -> bool {
    match fo {
        Some(o) => {
            &&& e.resting == Some(Place { price: o.price, seq: o.seq })
            &&& e.side == o.side
            &&& e.filled + e.cancelled + o.qty.0 == e.accepted
        },
        None => e.resting is None && e.filled + e.cancelled == e.accepted,
    }
}

/// Order `k` rests in `s`.
pub open spec fn resting_in(s: State, k: u64) -> bool {
    has_id(s.bids, OrderId(k)) || has_id(s.asks, OrderId(k))
}

/// The ledger mirrors `s`: each order it has seen was issued and agrees
/// with the book, each resting order is in it, and the fill totals agree.
pub open spec fn mirrors(l: Ledger, s: State) -> bool {
    &&& forall|k: u64| #[trigger]
        l.orders.contains_key(k) ==> k < s.next_id && entry_ok(l.orders[k], find_order(s, OrderId(k)))
    &&& forall|k: u64| #[trigger] resting_in(s, k) ==> l.orders.contains_key(k)
    &&& l.buy == l.traded && l.sell == l.traded
}

/// As `mirrors`, while order `t` of `side` with limit `limit` is being
/// matched with `rem` left: it is in the ledger, not in the book, and its
/// quantities balance with `rem` open.
pub open spec fn taking(l: Ledger, s: State, t: u64, side: Side, limit: Option<Price>, rem: u64) -> bool {
    &&& forall|k: u64| #[trigger]
        l.orders.contains_key(k) ==> k != t ==> k < s.next_id && entry_ok(
            l.orders[k],
            find_order(s, OrderId(k)),
        )
    &&& l.orders.contains_key(t)
    &&& t < s.next_id
    &&& !resting_in(s, t)
    &&& l.orders[t].resting is None
    &&& l.orders[t].side == side
    &&& l.orders[t].limit == limit
    &&& l.orders[t].filled + l.orders[t].cancelled + rem == l.orders[t].accepted
    &&& forall|k: u64| #[trigger] resting_in(s, k) ==> l.orders.contains_key(k)
    &&& l.buy == l.traded && l.sell == l.traded
}

/// Every running sum of the ledger is at most `v`.
pub open spec fn bounded(l: Ledger, v: int) -> bool {
    &&& forall|k: u64| #[trigger]
        l.orders.contains_key(k) ==> l.orders[k].accepted <= v && l.orders[k].filled <= v
            && l.orders[k].cancelled <= v
    &&& l.buy <= v
    &&& l.sell <= v
    &&& l.traded <= v
}

/// A queue of `side`, in strict priority order, every order with quantity.
pub open spec fn queue_ok(q: Seq<RestingOrder>, side: Side) -> bool {
    &&& forall|i: int| 0 <= i < q.len() ==> (#[trigger] q[i]).side == side && q[i].qty.0 > 0
    &&& forall|i: int, j: int| 0 <= i < j < q.len() ==> before(#[trigger] q[i], #[trigger] q[j])
}

/// The previous fill of the taker, if any, came from an order ahead of
/// `q`'s first.
pub open spec fn last_ok(last: Option<Place>, q: Seq<RestingOrder>) -> bool {
    match last {
        Some(f) => q.len() > 0 ==> (key_of(q[0].side, f.price.0) < okey(q[0]) || (f.price == q[0].price
            && f.seq.0 < q[0].seq.0)),
        None => true,
    }
}

/// The order of `q` with the id of its `i`-th order is that order.
pub proof fn lemma_find_at(q: Seq<RestingOrder>, i: int)
    requires
        ids_unique(q),
        0 <= i < q.len(),
    ensures
        find_in(q, q[i].id) == Some(q[i]),
        has_id(q, q[i].id),
    decreases q.len(),
{
    if i > 0 {
        let t = q.drop_first();
        assert(ids_unique(t)) by {
            assert forall|a: int, b: int| 0 <= a < b < t.len() implies t[a].id != t[b].id by {
                assert(t[a] == q[a + 1] && t[b] == q[b + 1]);
            }
        }
        assert(t[i - 1] == q[i]);
        lemma_find_at(t, i - 1);
        assert(q[0].id != q[i].id);
    }
}

/// Looking up an id that `q` does not hold finds nothing.
pub proof fn lemma_find_absent(q: Seq<RestingOrder>, id: OrderId)
    requires
        !has_id(q, id),
    ensures
        find_in(q, id) == None::<RestingOrder>,
{
    assert forall|j: int| 0 <= j < q.len() implies (#[trigger] q[j]).id != id by {
        if q[j].id == id {
            assert(has_id(q, id));
        }
    }
    lemma_id_ops_absent(q, id, Qty(0));
}

/// Dropping the first order of `q` forgets its id and nothing else.
pub proof fn lemma_drop_first_ids(q: Seq<RestingOrder>)
    requires
        ids_unique(q),
        q.len() > 0,
    ensures
        !has_id(q.drop_first(), q[0].id),
        forall|id: OrderId| id != q[0].id ==> (has_id(q.drop_first(), id) <==> has_id(q, id)),
        forall|id: OrderId| id != q[0].id ==> find_in(q.drop_first(), id) == find_in(q, id),
{
    let t = q.drop_first();
    if has_id(t, q[0].id) {
        let j = choose|j: int| 0 <= j < t.len() && t[j].id == q[0].id;
        assert(t[j] == q[j + 1]);
    }
    assert forall|id: OrderId| id != q[0].id implies (has_id(t, id) <==> has_id(q, id)) by {
        if has_id(q, id) {
            let j = choose|j: int| 0 <= j < q.len() && q[j].id == id;
            assert(j > 0);
            assert(t[j - 1] == q[j]);
        }
        if has_id(t, id) {
            let j = choose|j: int| 0 <= j < t.len() && t[j].id == id;
            assert(t[j] == q[j + 1]);
        }
    }
}

/// Changing the first order of `q` to `x` with the same id changes only
/// what is found under that id.
pub proof fn lemma_update_first_ids(q: Seq<RestingOrder>, x: RestingOrder)
    requires
        q.len() > 0,
        x.id == q[0].id,
    ensures
        forall|id: OrderId| has_id(q.update(0, x), id) <==> has_id(q, id),
        find_in(q.update(0, x), x.id) == Some(x),
        forall|id: OrderId| id != x.id ==> find_in(q.update(0, x), id) == find_in(q, id),
{
    let u = q.update(0, x);
    assert(u.drop_first() =~= q.drop_first());
    assert forall|id: OrderId| has_id(u, id) <==> has_id(q, id) by {
        if has_id(q, id) {
            let j = choose|j: int| 0 <= j < q.len() && q[j].id == id;
            assert(u[j].id == id);
        }
        if has_id(u, id) {
            let j = choose|j: int| 0 <= j < u.len() && u[j].id == id;
            assert(q[j].id == id);
        }
    }
}

/// Replacing the `side` queue of `s` by `q2`, which differs from it at most
/// in the order with id `x`, changes no lookup of another id.
pub proof fn lemma_queue_change(s: State, side: Side, q2: Seq<RestingOrder>, x: u64)
    requires
        forall|id: OrderId| id.0 != x ==> (has_id(q2, id) <==> has_id(queue_of(s, side), id)),
        forall|id: OrderId| id.0 != x ==> find_in(q2, id) == find_in(queue_of(s, side), id),
    ensures
        forall|k: u64|
            k != x ==> #[trigger] find_order(with_queue(s, side, q2), OrderId(k)) == find_order(
                s,
                OrderId(k),
            ),
        forall|k: u64| k != x ==> (#[trigger] resting_in(with_queue(s, side, q2), k) <==> resting_in(s, k)),
{
    assert forall|k: u64| k != x implies #[trigger] find_order(with_queue(s, side, q2), OrderId(k))
        == find_order(s, OrderId(k)) by {
        assert(OrderId(k).0 != x);
    }
    assert forall|k: u64| k != x implies (#[trigger] resting_in(with_queue(s, side, q2), k) <==> resting_in(
        s,
        k,
    )) by {
        assert(OrderId(k).0 != x);
    }
}

/// The order at the front of the `side` queue of `s` is found there.
proof fn lemma_front_found(s: State, side: Side)
    requires
        ids_unique(s.bids + s.asks),
        queue_of(s, side).len() > 0,
    ensures
        find_order(s, queue_of(s, side)[0].id) == Some(queue_of(s, side)[0]),
        resting_in(s, queue_of(s, side)[0].id.0),
{
    let q = queue_of(s, side);
    crate::queue::lemma_unique_split(s.bids, s.asks);
    lemma_find_at(q, 0);
    if side == Side::Sell {
        assert(!has_id(s.bids, q[0].id));
    }
}

/// Ids stay unique when the front order of the `side` queue leaves.
proof fn lemma_unique_drop_front(s: State, side: Side)
    requires
        ids_unique(s.bids + s.asks),
        queue_of(s, side).len() > 0,
    ensures
        ({
            let s2 = with_queue(s, side, queue_of(s, side).drop_first());
            ids_unique(s2.bids + s2.asks)
        }),
{
    let all = s.bids + s.asks;
    match side {
        Side::Buy => {
            lemma_unique_remove(all, 0);
            assert(all.remove(0) =~= s.bids.drop_first() + s.asks);
        },
        Side::Sell => {
            lemma_unique_remove(all, s.bids.len() as int);
            assert(all.remove(s.bids.len() as int) =~= s.bids + s.asks.drop_first());
        },
    }
}

/// Matching order `t` of `side` against the opposite queue `q` of `s`
/// passes the ledger's checks event by event (I1, I9, I10), and leaves a
/// ledger that mirrors the state after matching, with `t` still taking.
/// `rest` is whatever events follow.
#[verifier::rlimit(100)]
#[verifier::spinoff_prover]
pub proof fn lemma_match_audit(
    l: Ledger,
    last: Option<Place>,
    s: State,
    t: u64,
    side: Side,
    limit: Option<Price>,
    rem: u64,
    v: int,
    rest: Seq<Event>,
) -> (r: (Ledger, Option<Place>))
    requires
        queue_ok(queue_of(s, spec_opposite(side)), spec_opposite(side)),
        ids_unique(s.bids + s.asks),
        taking(l, s, t, side, limit, rem),
        last_ok(last, queue_of(s, spec_opposite(side))),
        bounded(l, v),
        v + match_spec(queue_of(s, spec_opposite(side)), OrderId(t), side, limit, rem).1.len() * one_qty()
            <= u128::MAX,
    ensures
        ({
            let opp = spec_opposite(side);
            let q = queue_of(s, opp);
            let m = match_spec(q, OrderId(t), side, limit, rem);
            &&& steps_spec(l, last, m.1 + rest) == steps_spec(r.0, r.1, rest)
            &&& taking(r.0, with_queue(s, opp, m.0), t, side, limit, m.2)
            &&& bounded(r.0, v + m.1.len() * one_qty())
            &&& r.0.orders.dom() == l.orders.dom()
            &&& forall|i: int| 0 <= i < m.1.len() ==> !(#[trigger] m.1[i] is Rejected)
            &&& ids_unique(with_queue(s, opp, m.0).bids + with_queue(s, opp, m.0).asks)
        }),
    decreases queue_of(s, spec_opposite(side)).len(),
{
    let opp = spec_opposite(side);
    let q = queue_of(s, opp);
    let m = match_spec(q, OrderId(t), side, limit, rem);
    assert(with_queue(s, opp, q) == s) by {
        match opp {
            Side::Buy => assert(with_queue(s, opp, q) =~= s),
            Side::Sell => assert(with_queue(s, opp, q) =~= s),
        }
    }
    if rem == 0 || q.len() == 0 || !limit_allows(side, limit, q[0].price) {
        assert(Seq::<Event>::empty() + rest =~= rest);
        (l, last)
    } else {
        let q0 = q[0];
        lemma_front_found(s, opp);
        let mk = l.orders[q0.id.0];
        assert(l.orders.contains_key(q0.id.0));
        assert(q0.id.0 != t);
        assert(entry_ok(mk, find_order(s, q0.id)));
        let tk = l.orders[t];
        let x: u64 = if rem >= q0.qty.0 {
            q0.qty.0
        } else {
            rem
        };
        let tr = Event::Trade { maker: q0.id, taker: OrderId(t), taker_side: side, price: q0.price, qty: Qty(x) };
        let m1 = l.orders.insert(q0.id.0, with_more(mk, 1, x as int));
        assert(m1[t] == tk);
        let m2 = m1.insert(t, with_more(tk, 1, x as int));
        let la = Ledger {
            orders: m2,
            buy: (l.buy + x) as u128,
            sell: (l.sell + x) as u128,
            traded: (l.traded + x) as u128,
        };
        let place = Place { price: q0.price, seq: q0.seq };
        assert(step_spec(l, last, tr) == Ok::<(Ledger, Option<Place>), Fault>((la, Some(place))));
        if rem >= q0.qty.0 {
            let fl = Event::Filled { id: q0.id };
            let ea = la.orders[q0.id.0];
            assert(ea == with_more(mk, 1, x as int));
            let lb = Ledger { orders: la.orders.insert(q0.id.0, Entry { resting: None, ..ea }), ..la };
            assert(step_spec(la, Some(place), fl) == Ok::<(Ledger, Option<Place>), Fault>(
                (lb, Some(place)),
            ));
            let q1 = q.drop_first();
            let s1 = with_queue(s, opp, q1);
            crate::queue::lemma_unique_split(s.bids, s.asks);
            lemma_drop_first_ids(q);
            lemma_queue_change(s, opp, q1, q0.id.0);
            lemma_unique_drop_front(s, opp);
            assert(!resting_in(s1, q0.id.0)) by {
                if side == Side::Sell {
                    assert(!has_id(s.asks, q0.id));
                } else {
                    assert(!has_id(s.bids, q0.id));
                }
            }
            lemma_find_absent(s1.bids, q0.id);
            lemma_find_absent(s1.asks, q0.id);
            assert(queue_of(s1, opp) == q1);
            assert(queue_ok(q1, opp)) by {
                assert forall|i: int, j: int| 0 <= i < j < q1.len() implies before(#[trigger] q1[i], #[trigger] q1[j]) by {
                    assert(q1[i] == q[i + 1] && q1[j] == q[j + 1]);
                }
            }
            assert(last_ok(Some(place), q1)) by {
                if q1.len() > 0 {
                    assert(q1[0] == q[1]);
                    assert(before(q[0], q[1]));
                }
            }
            assert(taking(lb, s1, t, side, limit, (rem - x) as u64));
            assert(bounded(lb, v + one_qty()));
            let r = lemma_match_audit(lb, Some(place), s1, t, side, limit, (rem - x) as u64, v + one_qty(), rest);
            let mr = match_spec(q1, OrderId(t), side, limit, (rem - x) as u64);
            assert(m.1 == seq![tr, fl] + mr.1);
            assert(m.0 == mr.0);
            assert(m.2 == mr.2);
            let all = m.1 + rest;
            assert(all[0] == tr);
            assert(all.drop_first()[0] == fl);
            assert(all.drop_first().drop_first() =~= mr.1 + rest);
            assert(all.len() > 0 && all.drop_first().len() > 0);
            assert(steps_spec(l, last, all) == steps_spec(la, Some(place), all.drop_first()));
            assert(steps_spec(la, Some(place), all.drop_first()) == steps_spec(
                lb,
                Some(place),
                all.drop_first().drop_first(),
            ));
            assert(with_queue(s1, opp, mr.0) == with_queue(s, opp, mr.0)) by {
                match opp {
                    Side::Buy => assert(with_queue(s1, opp, mr.0) =~= with_queue(s, opp, mr.0)),
                    Side::Sell => assert(with_queue(s1, opp, mr.0) =~= with_queue(s, opp, mr.0)),
                }
            }
            assert(lb.orders.dom() =~= l.orders.dom());
            assert forall|i: int| 0 <= i < m.1.len() implies !(#[trigger] m.1[i] is Rejected) by {
                if i >= 2 {
                    assert(m.1[i] == mr.1[i - 2]);
                }
            }
            r
        } else {
            let q0x = RestingOrder { qty: Qty((q0.qty.0 - x) as u64), ..q0 };
            let q1 = q.update(0, q0x);
            let s1 = with_queue(s, opp, q1);
            lemma_update_first_ids(q, q0x);
            lemma_queue_change(s, opp, q1, q0.id.0);
            assert(m.0 == q1);
            assert(m.1 == seq![tr]);
            assert(m.2 == 0);
            assert(find_order(s1, q0.id) == Some(q0x)) by {
                crate::queue::lemma_unique_split(s.bids, s.asks);
                if side == Side::Sell {
                    assert(!has_id(s.asks, q0.id)) by {
                        assert(has_id(s.bids, q0.id));
                    }
                    assert(has_id(s1.bids, q0.id));
                } else {
                    assert(has_id(s.asks, q0.id));
                    assert(!has_id(s.bids, q0.id));
                    assert(!has_id(s1.bids, q0.id));
                }
            }
            assert(resting_in(s1, q0.id.0)) by {
                assert(has_id(q1, q0.id));
            }
            assert((m.1 + rest)[0] == tr);
            assert((m.1 + rest).drop_first() =~= rest);
            assert(steps_spec(l, last, m.1 + rest) == steps_spec(la, Some(place), (m.1 + rest).drop_first()));
            assert(la.orders.dom() =~= l.orders.dom());
            assert(taking(la, s1, t, side, limit, 0));
            assert(ids_unique(s1.bids + s1.asks)) by {
                let all = s.bids + s.asks;
                match opp {
                    Side::Buy => {
                        crate::queue::lemma_unique_update(all, 0, q0x);
                        assert(all.update(0, q0x) =~= s1.bids + s1.asks);
                    },
                    Side::Sell => {
                        crate::queue::lemma_unique_update(all, s.bids.len() as int, q0x);
                        assert(all.update(s.bids.len() as int, q0x) =~= s1.bids + s1.asks);
                    },
                }
            }
            (la, Some(place))
        }
    }
}

/// Taking order `id` out of a queue with unique ids forgets that id and
/// nothing else.
pub proof fn lemma_remove_ids(q: Seq<RestingOrder>, id: OrderId)
    requires
        ids_unique(q),
    ensures
        !has_id(crate::queue::remove_id(q, id), id),
        ids_unique(crate::queue::remove_id(q, id)),
        forall|k: OrderId| k != id ==> (has_id(crate::queue::remove_id(q, id), k) <==> has_id(q, k)),
        forall|k: OrderId| k != id ==> find_in(crate::queue::remove_id(q, id), k) == find_in(q, k),
{
    let r = crate::queue::remove_id(q, id);
    if has_id(q, id) {
        let i = choose|i: int| 0 <= i < q.len() && q[i].id == id;
        crate::queue::lemma_id_ops_at(q, i, Qty(0));
        assert(r == q.remove(i));
        lemma_unique_remove(q, i);
        if has_id(r, id) {
            let j = choose|j: int| 0 <= j < r.len() && r[j].id == id;
            let j0 = if j < i { j } else { j + 1 };
            assert(r[j] == q[j0]);
        }
        assert forall|k: OrderId| k != id implies (has_id(r, k) <==> has_id(q, k)) by {
            if has_id(q, k) {
                let j = choose|j: int| 0 <= j < q.len() && q[j].id == k;
                let j1 = if j < i { j } else { j - 1 };
                assert(j != i);
                assert(r[j1] == q[j]);
            }
        }
        assert forall|k: OrderId| k != id implies find_in(r, k) == find_in(q, k) by {
            if has_id(q, k) {
                let j = choose|j: int| 0 <= j < q.len() && q[j].id == k;
                let j1 = if j < i { j } else { j - 1 };
                assert(r[j1] == q[j]);
                lemma_find_at(q, j);
                lemma_find_at(r, j1);
            } else {
                lemma_find_absent(q, k);
                lemma_find_absent(r, k);
            }
        }
    } else {
        assert forall|j: int| 0 <= j < q.len() implies (#[trigger] q[j]).id != id by {
            if q[j].id == id {
                assert(has_id(q, id));
            }
        }
        lemma_id_ops_absent(q, id, Qty(0));
    }
}

/// Setting the open quantity of order `id` changes only what is found
/// under that id: the order with its new quantity.
pub proof fn lemma_set_qty_ids(q: Seq<RestingOrder>, id: OrderId, qty: Qty)
    requires
        ids_unique(q),
    ensures
        ids_unique(crate::queue::set_qty(q, id, qty)),
        forall|k: OrderId| has_id(crate::queue::set_qty(q, id, qty), k) <==> has_id(q, k),
        forall|k: OrderId| k != id ==> find_in(crate::queue::set_qty(q, id, qty), k) == find_in(q, k),
        find_in(q, id) matches Some(o) ==> find_in(crate::queue::set_qty(q, id, qty), id) == Some(
            RestingOrder { qty, ..o },
        ),
{
    let r = crate::queue::set_qty(q, id, qty);
    if has_id(q, id) {
        let i = choose|i: int| 0 <= i < q.len() && q[i].id == id;
        crate::queue::lemma_id_ops_at(q, i, qty);
        let x = RestingOrder { qty, ..q[i] };
        assert(r == q.update(i, x));
        crate::queue::lemma_unique_update(q, i, x);
        lemma_find_at(q, i);
        lemma_find_at(r, i);
        assert forall|k: OrderId| has_id(r, k) <==> has_id(q, k) by {
            if has_id(q, k) {
                let j = choose|j: int| 0 <= j < q.len() && q[j].id == k;
                assert(r[j].id == k);
            }
            if has_id(r, k) {
                let j = choose|j: int| 0 <= j < r.len() && r[j].id == k;
                assert(q[j].id == k);
            }
        }
        assert forall|k: OrderId| k != id implies find_in(r, k) == find_in(q, k) by {
            if has_id(q, k) {
                let j = choose|j: int| 0 <= j < q.len() && q[j].id == k;
                assert(r[j] == q[j]);
                lemma_find_at(q, j);
                lemma_find_at(r, j);
            } else {
                lemma_find_absent(q, k);
                assert(!has_id(r, k));
                lemma_find_absent(r, k);
            }
        }
    } else {
        assert forall|j: int| 0 <= j < q.len() implies (#[trigger] q[j]).id != id by {
            if q[j].id == id {
                assert(has_id(q, id));
            }
        }
        lemma_id_ops_absent(q, id, qty);
        lemma_find_absent(q, id);
    }
}

/// Placing `o`, whose id the queue does not hold, adds exactly `o`.
pub proof fn lemma_rest_ids(q: Seq<RestingOrder>, o: RestingOrder)
    requires
        ids_unique(q),
        !has_id(q, o.id),
    ensures
        has_id(crate::queue::rest_into(q, o), o.id),
        find_in(crate::queue::rest_into(q, o), o.id) == Some(o),
        forall|k: OrderId| k != o.id ==> (has_id(crate::queue::rest_into(q, o), k) <==> has_id(q, k)),
        forall|k: OrderId| k != o.id ==> find_in(crate::queue::rest_into(q, o), k) == find_in(q, k),
{
    crate::queue::lemma_rest_into_shape(q, o);
    let n = choose|n: int| 0 <= n <= q.len() && crate::queue::rest_into(q, o) == q.take(n) + seq![o] + q.skip(n);
    let r = crate::queue::rest_into(q, o);
    crate::queue::lemma_unique_insert(q, n, o);
    assert(r[n] == o);
    lemma_find_at(r, n);
    assert forall|k: OrderId| k != o.id implies (has_id(r, k) <==> has_id(q, k)) by {
        if has_id(q, k) {
            let j = choose|j: int| 0 <= j < q.len() && q[j].id == k;
            let j1 = if j < n { j } else { j + 1 };
            assert(r[j1] == q[j]);
        }
        if has_id(r, k) {
            let j = choose|j: int| 0 <= j < r.len() && r[j].id == k;
            assert(j != n);
            let j0 = if j < n { j } else { j - 1 };
            assert(r[j] == q[j0]);
        }
    }
    assert forall|k: OrderId| k != o.id implies find_in(r, k) == find_in(q, k) by {
        if has_id(q, k) {
            let j = choose|j: int| 0 <= j < q.len() && q[j].id == k;
            let j1 = if j < n { j } else { j + 1 };
            assert(r[j1] == q[j]);
            lemma_find_at(q, j);
            lemma_find_at(r, j1);
        } else {
            lemma_find_absent(q, k);
            lemma_find_absent(r, k);
        }
    }
}

/// A valid state holds only issued ids.
pub proof fn lemma_issued(s: State)
    requires
        valid_state(s),
    ensures
        forall|k: u64| #[trigger] resting_in(s, k) ==> k < s.next_id,
        !resting_in(s, s.next_id),
{
    assert forall|k: u64| #[trigger] resting_in(s, k) implies k < s.next_id by {
        if has_id(s.bids, OrderId(k)) {
            let j = choose|j: int| 0 <= j < s.bids.len() && s.bids[j].id == OrderId(k);
            assert(fields_ok(s.bids[j], Side::Buy, s.next_id, s.next_seq));
        } else {
            let j = choose|j: int| 0 <= j < s.asks.len() && s.asks[j].id == OrderId(k);
            assert(fields_ok(s.asks[j], Side::Sell, s.next_id, s.next_seq));
        }
    }
}

/// An order that does not rest is not found.
pub proof fn lemma_not_found(s: State, k: u64)
    requires
        !resting_in(s, k),
    ensures
        find_order(s, OrderId(k)) == None::<RestingOrder>,
{
    lemma_find_absent(s.bids, OrderId(k));
    lemma_find_absent(s.asks, OrderId(k));
}

/// A found order is the one with that id on its own side's queue, and not
/// on the other side.
pub proof fn lemma_found(s: State, id: OrderId)
    requires
        valid_state(s),
        find_order(s, id) is Some,
    ensures
        ({
            let o = find_order(s, id)->Some_0;
            &&& o.id == id
            &&& has_id(queue_of(s, o.side), id)
            &&& !has_id(queue_of(s, spec_opposite(o.side)), id)
            &&& find_in(queue_of(s, o.side), id) == Some(o)
            &&& fields_ok(o, o.side, s.next_id, s.next_seq)
            &&& resting_in(s, id.0)
        }),
{
    crate::queue::lemma_unique_split(s.bids, s.asks);
    if has_id(s.bids, id) {
        let j = choose|j: int| 0 <= j < s.bids.len() && s.bids[j].id == id;
        lemma_find_at(s.bids, j);
        assert(fields_ok(s.bids[j], Side::Buy, s.next_id, s.next_seq));
    } else if has_id(s.asks, id) {
        let j = choose|j: int| 0 <= j < s.asks.len() && s.asks[j].id == id;
        lemma_find_at(s.asks, j);
        assert(fields_ok(s.asks[j], Side::Sell, s.next_id, s.next_seq));
    } else {
        lemma_find_absent(s.asks, id);
    }
}

/// The last event of a taker that is fully filled.
pub proof fn lemma_finish_filled(l: Ledger, last: Option<Place>, s: State, t: u64, side: Side, limit: Option<Price>)
    requires
        taking(l, s, t, side, limit, 0),
    ensures
        ({
            let e = l.orders[t];
            let l3 = Ledger { orders: l.orders.insert(t, Entry { resting: None, ..e }), ..l };
            &&& step_spec(l, last, Event::Filled { id: OrderId(t) }) == Ok::<(Ledger, Option<Place>), Fault>((l3, last))
            &&& mirrors(l3, s)
            &&& l3.orders.dom() == l.orders.dom()
            &&& forall|v: int| bounded(l, v) ==> bounded(l3, v)
        }),
{
    let e = l.orders[t];
    let l3 = Ledger { orders: l.orders.insert(t, Entry { resting: None, ..e }), ..l };
    lemma_not_found(s, t);
    assert(crate::invariants::open_of(e) == Some(0u128));
    assert(l3.orders.dom() =~= l.orders.dom());
}

/// The last event of a taker whose remainder `left` is cancelled.
pub proof fn lemma_finish_cancelled(
    l: Ledger,
    last: Option<Place>,
    s: State,
    t: u64,
    side: Side,
    limit: Option<Price>,
    left: u64,
    reason: CancelReason,
)
    requires
        taking(l, s, t, side, limit, left),
    ensures
        ({
            let e1 = with_more(l.orders[t], 2, left as int);
            let l3 = Ledger { orders: l.orders.insert(t, Entry { resting: None, ..e1 }), ..l };
            &&& step_spec(l, last, Event::Cancelled { id: OrderId(t), qty: Qty(left), reason }) == Ok::<
                (Ledger, Option<Place>),
                Fault,
            >((l3, last))
            &&& mirrors(l3, s)
            &&& l3.orders.dom() == l.orders.dom()
            &&& forall|v: int| bounded(l, v) && v + one_qty() <= u128::MAX ==> bounded(l3, v + one_qty())
        }),
{
    let e1 = with_more(l.orders[t], 2, left as int);
    let l3 = Ledger { orders: l.orders.insert(t, Entry { resting: None, ..e1 }), ..l };
    lemma_not_found(s, t);
    assert(crate::invariants::open_of(e1) == Some(0u128));
    assert(l3.orders.dom() =~= l.orders.dom());
}

/// The last event of a taker whose remainder `left` rests at `price`.
pub proof fn lemma_finish_rested(
    l: Ledger,
    last: Option<Place>,
    s: State,
    t: u64,
    side: Side,
    limit: Option<Price>,
    left: u64,
    price: Price,
    seq: crate::types::SeqNo,
)
    requires
        taking(l, s, t, side, limit, left),
        ids_unique(s.bids + s.asks),
    ensures
        ({
            let e = l.orders[t];
            let l3 = Ledger {
                orders: l.orders.insert(t, Entry { resting: Some(Place { price, seq }), ..e }),
                ..l
            };
            let o = RestingOrder { id: OrderId(t), side, price, qty: Qty(left), seq };
            let s3 = with_queue(s, side, crate::queue::rest_into(queue_of(s, side), o));
            &&& step_spec(l, last, Event::Rested { id: OrderId(t), side, price, qty: Qty(left), seq }) == Ok::<
                (Ledger, Option<Place>),
                Fault,
            >((l3, last))
            &&& mirrors(l3, s3)
            &&& l3.orders.dom() == l.orders.dom()
            &&& forall|v: int| bounded(l, v) ==> bounded(l3, v)
        }),
{
    let e = l.orders[t];
    let l3 = Ledger { orders: l.orders.insert(t, Entry { resting: Some(Place { price, seq }), ..e }), ..l };
    let o = RestingOrder { id: OrderId(t), side, price, qty: Qty(left), seq };
    let q = queue_of(s, side);
    let r = crate::queue::rest_into(q, o);
    let s3 = with_queue(s, side, r);
    crate::queue::lemma_unique_split(s.bids, s.asks);
    assert(crate::invariants::open_of(e) == Some(left as u128));
    lemma_rest_ids(q, o);
    lemma_queue_change(s, side, r, t);
    assert(find_order(s3, OrderId(t)) == Some(o)) by {
        if side == Side::Sell {
            assert(!has_id(s3.bids, OrderId(t)));
        }
    }
    assert(resting_in(s3, t)) by {
        if side == Side::Sell {
            assert(has_id(s3.asks, OrderId(t)));
        } else {
            assert(has_id(s3.bids, OrderId(t)));
        }
    }
    assert(l3.orders.dom() =~= l.orders.dom());
}

/// The state before matching a new order: its id and sequence number
/// taken, the queues as they were.
pub open spec fn taken(s: State) -> State {
    State { next_id: (s.next_id + 1) as u64, next_seq: (s.next_seq + 1) as u64, ..s }
}

/// The queue of `side` of a valid state is in priority order.
pub proof fn lemma_queue_ok(s: State, side: Side)
    requires
        valid_state(s),
    ensures
        queue_ok(queue_of(s, side), side),
{
    let q = queue_of(s, side);
    assert forall|i: int| 0 <= i < q.len() implies (#[trigger] q[i]).side == side && q[i].qty.0 > 0 by {
        assert(fields_ok(q[i], side, s.next_id, s.next_seq));
    }
}

/// A new order's events pass the checks event by event and leave a ledger
/// that mirrors the state after the order.
#[verifier::rlimit(100)]
#[verifier::spinoff_prover]
pub proof fn lemma_submit_audit(l: Ledger, s: State, side: Side, kind: OrderType, qty: Qty, v: int)
    requires
        valid_state(s),
        room_for(s, Command::Submit { side, kind, qty }),
        spec_check_fields(Command::Submit { side, kind, qty }) is Ok,
        mirrors(l, s),
        bounded(l, v),
        0 <= v,
        v + submit_spec(s, side, kind, qty).1.len() * one_qty() <= u128::MAX,
    ensures
        ({
            let (s2, ev) = submit_spec(s, side, kind, qty);
            &&& steps_spec(l, None, ev) is Ok
            &&& mirrors(steps_spec(l, None, ev)->Ok_0, s2)
            &&& bounded(steps_spec(l, None, ev)->Ok_0, v + ev.len() * one_qty())
            &&& steps_spec(l, None, ev)->Ok_0.orders.dom() == l.orders.dom().insert(s.next_id)
            &&& ev.len() > 1
            &&& forall|i: int| 0 <= i < ev.len() ==> !(#[trigger] ev[i] is Rejected)
        }),
{
    let id = s.next_id;
    let sq = SeqNo(s.next_seq);
    let opp = spec_opposite(side);
    let q = queue_of(s, opp);
    let lim = spec_limit(kind);
    let s0 = taken(s);
    let m = match_spec(q, OrderId(id), side, lim, qty.0);
    let s1 = with_queue(s0, opp, m.0);
    let acc = Event::Accepted { id: OrderId(id), side, kind, qty, seq: sq };
    let fresh = Entry { side, limit: lim, resting: None, accepted: qty.0 as u128, filled: 0, cancelled: 0 };
    assert(!l.orders.contains_key(id));
    let l1 = Ledger { orders: l.orders.insert(id, fresh), ..l };
    assert(step_spec(l, None, acc) == Ok::<(Ledger, Option<Place>), Fault>((l1, None)));
    lemma_issued(s);
    lemma_queue_ok(s, opp);
    assert(queue_of(s0, opp) == q);
    assert(taking(l1, s0, id, side, lim, qty.0)) by {
        assert forall|k: u64| #[trigger] l1.orders.contains_key(k) && k != id implies k < s0.next_id && entry_ok(
            l1.orders[k],
            find_order(s0, OrderId(k)),
        ) by {
            if k != id {
                assert(l.orders.contains_key(k));
            }
        }
        assert forall|k: u64| #[trigger] resting_in(s0, k) implies l1.orders.contains_key(k) by {
            assert(resting_in(s, k));
        }
    }
    assert(bounded(l1, v + one_qty()));
    let ev = submit_spec(s, side, kind, qty).1;
    let ev0 = seq![acc] + m.1;
    let end = ev.last();
    assert(ev == ev0.push(end)) by {
        if m.2 != 0 {
            if let OrderType::Limit { price } = kind {
                assert(ev == rest_spec(s1, ev0, OrderId(id), side, price, m.2, sq).1);
            }
        }
    }
    assert(ev.len() == m.1.len() + 2);
    let r = lemma_match_audit(l1, None, s0, id, side, lim, qty.0, v + one_qty(), seq![end]);
    let (l2, last2) = r;
    assert(ev[0] == acc);
    assert(ev.drop_first() =~= m.1 + seq![end]);
    assert(steps_spec(l, None, ev) == steps_spec(l1, None, ev.drop_first()));
    assert(steps_spec(l, None, ev) == steps_spec(l2, last2, seq![end]));
    assert(seq![end].drop_first() =~= Seq::<Event>::empty());
    let e2 = l2.orders[id];
    if m.2 == 0 {
        lemma_finish_filled(l2, last2, s1, id, side, lim);
        let l3 = Ledger { orders: l2.orders.insert(id, Entry { resting: None, ..e2 }), ..l2 };
        assert(steps_spec(l2, last2, seq![end]) == steps_spec(l3, last2, Seq::<Event>::empty()));
        assert(submit_spec(s, side, kind, qty).0 == s1);
    } else {
        match kind {
            OrderType::Limit { price } => {
                lemma_finish_rested(l2, last2, s1, id, side, lim, m.2, price, sq);
                let l3 = Ledger {
                    orders: l2.orders.insert(id, Entry { resting: Some(Place { price, seq: sq }), ..e2 }),
                    ..l2
                };
                assert(steps_spec(l2, last2, seq![end]) == steps_spec(l3, last2, Seq::<Event>::empty()));
                assert(queue_of(s1, side) == queue_of(s, side));
            },
            OrderType::Ioc { .. } => {
                lemma_finish_cancelled(l2, last2, s1, id, side, lim, m.2, CancelReason::IocRemainder);
                let e3 = with_more(e2, 2, m.2 as int);
                let l3 = Ledger { orders: l2.orders.insert(id, Entry { resting: None, ..e3 }), ..l2 };
                assert(steps_spec(l2, last2, seq![end]) == steps_spec(l3, last2, Seq::<Event>::empty()));
                assert(submit_spec(s, side, kind, qty).0 == s1);
            },
            OrderType::Market => {
                lemma_finish_cancelled(l2, last2, s1, id, side, lim, m.2, CancelReason::NoLiquidity);
                let e3 = with_more(e2, 2, m.2 as int);
                let l3 = Ledger { orders: l2.orders.insert(id, Entry { resting: None, ..e3 }), ..l2 };
                assert(steps_spec(l2, last2, seq![end]) == steps_spec(l3, last2, Seq::<Event>::empty()));
                assert(submit_spec(s, side, kind, qty).0 == s1);
            },
        }
    }
    assert forall|i: int| 0 <= i < ev.len() implies !(#[trigger] ev[i] is Rejected) by {
        if 0 < i < ev.len() - 1 {
            assert(ev[i] == m.1[i - 1]);
        }
    }
    assert(l1.orders.dom() =~= l.orders.dom().insert(id));
}

/// Cancelling a resting order passes the checks and leaves a ledger that
/// mirrors the state after it.
pub proof fn lemma_cancel_audit(l: Ledger, s: State, id: OrderId, v: int)
    requires
        valid_state(s),
        find_order(s, id) is Some,
        mirrors(l, s),
        bounded(l, v),
        0 <= v,
        v + one_qty() <= u128::MAX,
    ensures
        ({
            let (s2, ev) = cancel_spec(s, id);
            &&& ev.len() == 1 && ev[0] is Cancelled
            &&& steps_spec(l, None, ev) is Ok
            &&& mirrors(steps_spec(l, None, ev)->Ok_0, s2)
            &&& bounded(steps_spec(l, None, ev)->Ok_0, v + one_qty())
            &&& steps_spec(l, None, ev)->Ok_0.orders.dom() == l.orders.dom()
        }),
{
    lemma_found(s, id);
    let o = find_order(s, id)->Some_0;
    let q = queue_of(s, o.side);
    let r = crate::queue::remove_id(q, id);
    let s2 = with_queue(s, o.side, r);
    crate::queue::lemma_unique_split(s.bids, s.asks);
    lemma_remove_ids(q, id);
    lemma_queue_change(s, o.side, r, id.0);
    assert(!resting_in(s2, id.0)) by {
        if o.side == Side::Buy {
            assert(!has_id(s2.asks, id));
        } else {
            assert(!has_id(s2.bids, id));
        }
    }
    lemma_not_found(s2, id.0);
    let ev = cancel_spec(s, id).1;
    assert(l.orders.contains_key(id.0));
    let e1 = with_more(l.orders[id.0], 2, o.qty.0 as int);
    assert(crate::invariants::open_of(e1) == Some(0u128));
    let l1 = Ledger { orders: l.orders.insert(id.0, Entry { resting: None, ..e1 }), ..l };
    assert(step_spec(l, None, ev[0]) == Ok::<(Ledger, Option<Place>), Fault>((l1, None)));
    assert(ev.drop_first() =~= Seq::<Event>::empty());
    assert(steps_spec(l, None, ev) == steps_spec(l1, None, Seq::<Event>::empty()));
    assert(l1.orders.dom() =~= l.orders.dom());
    assert(mirrors(l1, s2)) by {
        assert forall|k: u64| #[trigger] l1.orders.contains_key(k) implies k < s2.next_id && entry_ok(
            l1.orders[k],
            find_order(s2, OrderId(k)),
        ) by {
            if k != id.0 {
                assert(OrderId(k) != id);
            }
        }
    }
}

/// Amending a resting order down in place passes the checks and leaves a
/// ledger that mirrors the state after it.
pub proof fn lemma_amend_kept_audit(l: Ledger, s: State, id: OrderId, price: Option<crate::types::Price>, qty: Qty, v: int)
    requires
        valid_state(s),
        field_error(Some(qty), price) is None,
        find_order(s, id) matches Some(cur) && (match price {
            Some(p) => p,
            None => cur.price,
        }) == cur.price && qty.0 < cur.qty.0,
        mirrors(l, s),
        bounded(l, v),
        0 <= v,
        v + one_qty() <= u128::MAX,
    ensures
        ({
            let (s2, ev) = amend_spec(s, id, price, qty);
            &&& ev.len() == 1 && ev[0] is Amended
            &&& steps_spec(l, None, ev) is Ok
            &&& mirrors(steps_spec(l, None, ev)->Ok_0, s2)
            &&& bounded(steps_spec(l, None, ev)->Ok_0, v + one_qty())
            &&& steps_spec(l, None, ev)->Ok_0.orders.dom() == l.orders.dom()
        }),
{
    lemma_found(s, id);
    let cur = find_order(s, id)->Some_0;
    let q = queue_of(s, cur.side);
    let r = crate::queue::set_qty(q, id, qty);
    let s2 = with_queue(s, cur.side, r);
    crate::queue::lemma_unique_split(s.bids, s.asks);
    lemma_set_qty_ids(q, id, qty);
    lemma_queue_change(s, cur.side, r, id.0);
    let cur2 = RestingOrder { qty, ..cur };
    assert(find_order(s2, id) == Some(cur2)) by {
        if cur.side == Side::Sell {
            assert(!has_id(s2.bids, id));
        }
    }
    assert(amend_spec(s, id, price, qty).0 == s2);
    let ev = amend_spec(s, id, price, qty).1;
    assert(l.orders.contains_key(id.0));
    let e0 = l.orders[id.0];
    assert(crate::invariants::open_of(e0) == Some(cur.qty.0 as u128));
    let e1 = with_more(e0, 2, cur.qty.0 - qty.0);
    let e2 = Entry { limit: Some(cur.price), resting: e1.resting, ..e1 };
    let l1 = Ledger { orders: l.orders.insert(id.0, e2), ..l };
    assert(step_spec(l, None, ev[0]) == Ok::<(Ledger, Option<Place>), Fault>((l1, None)));
    assert(ev.drop_first() =~= Seq::<Event>::empty());
    assert(steps_spec(l, None, ev) == steps_spec(l1, None, Seq::<Event>::empty()));
    assert(l1.orders.dom() =~= l.orders.dom());
    assert(mirrors(l1, s2)) by {
        assert forall|k: u64| #[trigger] l1.orders.contains_key(k) implies k < s2.next_id && entry_ok(
            l1.orders[k],
            find_order(s2, OrderId(k)),
        ) by {
            if k != id.0 {
                assert(OrderId(k) != id);
            }
        }
        assert forall|k: u64| #[trigger] resting_in(s2, k) implies l1.orders.contains_key(k) by {
            if k != id.0 {
                assert(resting_in(s, k));
            }
        }
    }
}

/// Amending a resting order so that it loses its place passes the checks
/// event by event and leaves a ledger that mirrors the state after it.
#[verifier::rlimit(100)]
#[verifier::spinoff_prover]
pub proof fn lemma_amend_lost_audit(l: Ledger, s: State, id: OrderId, price: Option<crate::types::Price>, qty: Qty, v: int)
    requires
        valid_state(s),
        room_for(s, Command::Amend { id, price, qty }),
        field_error(Some(qty), price) is None,
        find_order(s, id) matches Some(cur) && ({
            let np = match price {
                Some(p) => p,
                None => cur.price,
            };
            !(np == cur.price && qty == cur.qty) && !(np == cur.price && qty.0 < cur.qty.0)
        }),
        mirrors(l, s),
        bounded(l, v),
        0 <= v,
        v + amend_spec(s, id, price, qty).1.len() * one_qty() <= u128::MAX,
    ensures
        ({
            let (s2, ev) = amend_spec(s, id, price, qty);
            &&& steps_spec(l, None, ev) is Ok
            &&& mirrors(steps_spec(l, None, ev)->Ok_0, s2)
            &&& bounded(steps_spec(l, None, ev)->Ok_0, v + ev.len() * one_qty())
            &&& steps_spec(l, None, ev)->Ok_0.orders.dom() == l.orders.dom()
            &&& ev.len() > 1
            &&& ev[0] is Amended
            &&& forall|i: int| 0 <= i < ev.len() ==> !(#[trigger] ev[i] is Rejected)
        }),
{
    lemma_found(s, id);
    let cur = find_order(s, id)->Some_0;
    let np = match price {
        Some(p) => p,
        None => cur.price,
    };
    let side = cur.side;
    let opp = spec_opposite(side);
    let sq = SeqNo(s.next_seq);
    let own = queue_of(s, side);
    let r = crate::queue::remove_id(own, id);
    let s1 = with_queue(State { next_seq: (s.next_seq + 1) as u64, ..s }, side, r);
    crate::queue::lemma_unique_split(s.bids, s.asks);
    lemma_remove_ids(own, id);
    lemma_queue_change(s, side, r, id.0);
    let sb = State { next_seq: (s.next_seq + 1) as u64, ..s };
    assert forall|k: u64| k != id.0 implies #[trigger] find_order(s1, OrderId(k)) == find_order(s, OrderId(k)) by {
        assert(find_order(with_queue(sb, side, r), OrderId(k)) == find_order(with_queue(s, side, r), OrderId(k)));
    }
    assert forall|k: u64| k != id.0 implies (#[trigger] resting_in(s1, k) <==> resting_in(s, k)) by {
        assert(resting_in(with_queue(sb, side, r), k) == resting_in(with_queue(s, side, r), k));
    }
    assert(!resting_in(s1, id.0)) by {
        if side == Side::Buy {
            assert(!has_id(s1.asks, id));
        } else {
            assert(!has_id(s1.bids, id));
        }
    }
    assert(ids_unique(s1.bids + s1.asks)) by {
        if side == Side::Buy {
            crate::queue::lemma_unique_join(r, s.asks);
        } else {
            crate::queue::lemma_unique_join(s.bids, r);
        }
    }
    lemma_queue_ok(s, opp);
    assert(queue_of(s1, opp) == queue_of(s, opp));
    let m = match_spec(queue_of(s1, opp), id, side, Some(np), qty.0);
    let s2 = with_queue(s1, opp, m.0);
    let am = Event::Amended { id, price: np, old_qty: cur.qty, qty, seq: sq, priority: Priority::Lost };
    assert(l.orders.contains_key(id.0));
    let e0 = l.orders[id.0];
    assert(crate::invariants::open_of(e0) == Some(cur.qty.0 as u128));
    let e1 = if qty.0 > cur.qty.0 {
        with_more(e0, 0, qty.0 - cur.qty.0)
    } else {
        with_more(e0, 2, cur.qty.0 - qty.0)
    };
    let e2 = Entry { limit: Some(np), resting: None, ..e1 };
    let l1 = Ledger { orders: l.orders.insert(id.0, e2), ..l };
    assert(step_spec(l, None, am) == Ok::<(Ledger, Option<Place>), Fault>((l1, None)));
    assert(taking(l1, s1, id.0, side, Some(np), qty.0)) by {
        assert forall|k: u64| #[trigger] l1.orders.contains_key(k) && k != id.0 implies k < s1.next_id
            && entry_ok(l1.orders[k], find_order(s1, OrderId(k))) by {
            if k != id.0 {
                assert(l.orders.contains_key(k));
            }
        }
        assert forall|k: u64| #[trigger] resting_in(s1, k) implies l1.orders.contains_key(k) by {
            if k != id.0 {
                assert(resting_in(s, k));
            }
        }
    }
    assert(bounded(l1, v + one_qty()));
    let ev = amend_spec(s, id, price, qty).1;
    let ev0 = seq![am] + m.1;
    let end = ev.last();
    assert(ev == ev0.push(end)) by {
        if m.2 != 0 {
            assert(ev == rest_spec(s2, ev0, id, side, np, m.2, sq).1);
        }
    }
    assert(ev.len() == m.1.len() + 2);
    let (l2, last2) = lemma_match_audit(l1, None, s1, id.0, side, Some(np), qty.0, v + one_qty(), seq![end]);
    assert(ev[0] == am);
    assert(ev.drop_first() =~= m.1 + seq![end]);
    assert(steps_spec(l, None, ev) == steps_spec(l1, None, ev.drop_first()));
    assert(steps_spec(l, None, ev) == steps_spec(l2, last2, seq![end]));
    assert(seq![end].drop_first() =~= Seq::<Event>::empty());
    let e3 = l2.orders[id.0];
    if m.2 == 0 {
        lemma_finish_filled(l2, last2, s2, id.0, side, Some(np));
        let l3 = Ledger { orders: l2.orders.insert(id.0, Entry { resting: None, ..e3 }), ..l2 };
        assert(steps_spec(l2, last2, seq![end]) == steps_spec(l3, last2, Seq::<Event>::empty()));
        assert(amend_spec(s, id, price, qty).0 == s2);
    } else {
        lemma_finish_rested(l2, last2, s2, id.0, side, Some(np), m.2, np, sq);
        let l3 = Ledger {
            orders: l2.orders.insert(id.0, Entry { resting: Some(Place { price: np, seq: sq }), ..e3 }),
            ..l2
        };
        assert(steps_spec(l2, last2, seq![end]) == steps_spec(l3, last2, Seq::<Event>::empty()));
    }
    assert forall|i: int| 0 <= i < ev.len() implies !(#[trigger] ev[i] is Rejected) by {
        if 0 < i < ev.len() - 1 {
            assert(ev[i] == m.1[i - 1]);
        }
    }
    assert(l1.orders.dom() =~= l.orders.dom());
}

/// The engine passes its own audit, one command at a time: in a state the
/// ledger mirrors, the events of any command the engine can apply pass
/// every check the auditor makes of one command's events (I1, I2, I3, I9,
/// I10), and the ledger afterwards mirrors the state after the command.
pub proof fn lemma_engine_audit(l: Ledger, s: State, cmd: Command, v: int)
    requires
        valid_state(s),
        room_for(s, cmd),
        mirrors(l, s),
        bounded(l, v),
        0 <= v,
        v + apply_spec(s, cmd).1.len() * per_event() <= u128::MAX,
    ensures
        check_events_spec(l, cmd, apply_spec(s, cmd).1) is Ok,
        mirrors(check_events_spec(l, cmd, apply_spec(s, cmd).1)->Ok_0, apply_spec(s, cmd).0),
{
    let (s2, ev) = apply_spec(s, cmd);
    let single_rejection = ev.len() == 1 && ev[0] is Rejected && s2 == s;
    match cmd {
        Command::Submit { side, kind, qty } => {
            if spec_check_fields(cmd) is Ok {
                lemma_submit_audit(l, s, side, kind, qty, v);
            } else {
                assert(single_rejection);
            }
        },
        Command::Cancel { id } => {
            if find_order(s, id) is Some {
                lemma_cancel_audit(l, s, id, v);
            } else {
                assert(single_rejection);
            }
        },
        Command::Amend { id, price, qty } => {
            if field_error(Some(qty), price) is Some || find_order(s, id) is None {
                assert(single_rejection);
            } else {
                let cur = find_order(s, id)->Some_0;
                let np = match price {
                    Some(p) => p,
                    None => cur.price,
                };
                if np == cur.price && qty == cur.qty {
                    assert(single_rejection);
                } else if np == cur.price && qty.0 < cur.qty.0 {
                    lemma_amend_kept_audit(l, s, id, price, qty, v);
                } else {
                    lemma_amend_lost_audit(l, s, id, price, qty, v);
                }
            }
        },
    }
    if !single_rejection {
        assert(!(exists|i: int| 0 <= i < ev.len() && #[trigger] ev[i] is Rejected));
    }
}

/// A looked-up order is there exactly when its id rests.
pub proof fn lemma_found_iff(s: State, k: u64)
    requires
        valid_state(s),
    ensures
        find_order(s, OrderId(k)) is Some <==> resting_in(s, k),
{
    crate::queue::lemma_unique_split(s.bids, s.asks);
    if has_id(s.bids, OrderId(k)) {
        let j = choose|j: int| 0 <= j < s.bids.len() && s.bids[j].id == OrderId(k);
        lemma_find_at(s.bids, j);
    } else if has_id(s.asks, OrderId(k)) {
        let j = choose|j: int| 0 <= j < s.asks.len() && s.asks[j].id == OrderId(k);
        lemma_find_at(s.asks, j);
    } else {
        lemma_not_found(s, k);
    }
}

/// The ids of a queue with unique ids are as many as its orders.
pub proof fn lemma_ids_len(q: Seq<RestingOrder>)
    requires
        ids_unique(q),
    ensures
        Set::new(|k: u64| has_id(q, OrderId(k))).finite(),
        Set::new(|k: u64| has_id(q, OrderId(k))).len() == q.len(),
    decreases q.len(),
{
    let ids = Set::new(|k: u64| has_id(q, OrderId(k)));
    if q.len() == 0 {
        assert(ids =~= Set::<u64>::empty());
    } else {
        let p = q.drop_last();
        assert(ids_unique(p)) by {
            assert forall|a: int, b: int| 0 <= a < b < p.len() implies p[a].id != p[b].id by {
                assert(p[a] == q[a] && p[b] == q[b]);
            }
        }
        lemma_ids_len(p);
        let pids = Set::new(|k: u64| has_id(p, OrderId(k)));
        let x = q.last().id.0;
        assert(!pids.contains(x)) by {
            if has_id(p, OrderId(x)) {
                let j = choose|j: int| 0 <= j < p.len() && p[j].id == OrderId(x);
                assert(q[j].id == q[q.len() - 1].id);
            }
        }
        assert(ids =~= pids.insert(x)) by {
            assert forall|k: u64| ids.contains(k) implies pids.insert(x).contains(k) by {
                let j = choose|j: int| 0 <= j < q.len() && q[j].id == OrderId(k);
                if j < q.len() - 1 {
                    assert(p[j] == q[j]);
                }
            }
            assert forall|k: u64| pids.insert(x).contains(k) implies ids.contains(k) by {
                if k == x {
                    assert(q[q.len() - 1].id == OrderId(k));
                } else {
                    let j = choose|j: int| 0 <= j < p.len() && p[j].id == OrderId(k);
                    assert(q[j] == p[j]);
                }
            }
        }
    }
}

/// A mirroring ledger has as many orders resting as the book.
pub proof fn lemma_resting_count(l: Ledger, s: State)
    requires
        valid_state(s),
        mirrors(l, s),
        l.orders.dom().finite(),
    ensures
        resting_count(l.orders) == s.bids.len() + s.asks.len(),
{
    let m = l.orders;
    let all = s.bids + s.asks;
    lemma_ids_len(all);
    let f = |id: u64| m[id].resting is Some;
    let a = m.dom().filter(f);
    let b = Set::new(|k: u64| has_id(all, OrderId(k)));
    assert(a =~= b) by {
        assert forall|k: u64| a.contains(k) implies b.contains(k) by {
            lemma_found_iff(s, k);
            assert(resting_in(s, k));
            if has_id(s.bids, OrderId(k)) {
                let j = choose|j: int| 0 <= j < s.bids.len() && s.bids[j].id == OrderId(k);
                assert(all[j] == s.bids[j]);
            } else {
                let j = choose|j: int| 0 <= j < s.asks.len() && s.asks[j].id == OrderId(k);
                assert(all[s.bids.len() + j] == s.asks[j]);
            }
        }
        assert forall|k: u64| b.contains(k) implies a.contains(k) by {
            let j = choose|j: int| 0 <= j < all.len() && all[j].id == OrderId(k);
            if j < s.bids.len() {
                assert(s.bids[j] == all[j]);
                assert(has_id(s.bids, OrderId(k)));
            } else {
                assert(s.asks[j - s.bids.len()] == all[j]);
                assert(has_id(s.asks, OrderId(k)));
            }
            assert(resting_in(s, k));
            assert(m.contains_key(k));
            lemma_found_iff(s, k);
        }
    }
}

/// Every order of a mirroring ledger balances against a book holding the
/// state (I1, I5).
pub proof fn lemma_balance(l: Ledger, s: State, b: OrderBook, k: u64)
    requires
        valid_state(s),
        mirrors(l, s),
        b.queue(Side::Buy) == s.bids,
        b.queue(Side::Sell) == s.asks,
        l.orders.contains_key(k),
    ensures
        balance_spec(k, l.orders[k], b.find(OrderId(k))) is Ok,
{
    assert(b.find(OrderId(k)) == find_order(s, OrderId(k)));
}

/// The reconcile after a command's events finds nothing wrong when the
/// ledger mirrors the book's state (I1, I5).
pub proof fn lemma_reconcile(l: Ledger, s: State, b: OrderBook, events: Seq<Event>)
    requires
        valid_state(s),
        mirrors(l, s),
        l.orders.dom().finite(),
        b.queue(Side::Buy) == s.bids,
        b.queue(Side::Sell) == s.asks,
        touched_in(l.orders, events),
    ensures
        reconcile_spec(l.orders, events, b) is Ok,
    decreases events.len(),
{
    if events.len() == 0 {
        lemma_resting_count(l, s);
    } else {
        let t = events.drop_first();
        assert(touched_in(l.orders, t)) by {
            assert forall|i: int| 0 <= i < t.len() && #[trigger] touched(t[i]) is Some implies l.orders.contains_key(
                touched(t[i]).unwrap(),
            ) by {
                assert(t[i] == events[i + 1]);
            }
        }
        lemma_reconcile(l, s, b, t);
        if let Some(id) = touched(events[0]) {
            lemma_balance(l, s, b, id);
        }
    }
}

/// The full reconcile over any ids the ledger has finds nothing wrong when
/// the ledger mirrors the book's state (I1, I5).
pub proof fn lemma_reconcile_ids(l: Ledger, s: State, b: OrderBook, ids: Seq<u64>)
    requires
        valid_state(s),
        mirrors(l, s),
        b.queue(Side::Buy) == s.bids,
        b.queue(Side::Sell) == s.asks,
        forall|i: int| 0 <= i < ids.len() ==> l.orders.contains_key(#[trigger] ids[i]),
    ensures
        reconcile_ids_spec(l.orders, ids, b) is Ok,
    decreases ids.len(),
{
    if ids.len() > 0 {
        let t = ids.drop_first();
        assert forall|i: int| 0 <= i < t.len() implies l.orders.contains_key(#[trigger] t[i]) by {
            assert(t[i] == ids[i + 1]);
        }
        lemma_reconcile_ids(l, s, b, t);
        lemma_balance(l, s, b, ids[0]);
    }
}

/// An auditor started from a valid snapshot's state counts every resting
/// order as accepted with its open quantity, nothing filled or cancelled,
/// resting where it is; a book holding that state passes its full
/// reconcile.
pub proof fn lemma_restored_reconciles(s: State, b: OrderBook, ids: Seq<u64>)
    requires
        valid_state(s),
        b.queue(Side::Buy) == s.bids,
        b.queue(Side::Sell) == s.asks,
        sorted_ids(restored(s.bids + s.asks), ids),
    ensures
        reconcile_ids_spec(restored(s.bids + s.asks), ids, b) is Ok,
        forall|k: u64| #[trigger] restored(s.bids + s.asks).contains_key(k) ==> {
            let e = restored(s.bids + s.asks)[k];
            let o = find_order(s, OrderId(k));
            &&& o is Some
            &&& e.accepted == o.unwrap().qty.0 && e.filled == 0 && e.cancelled == 0
            &&& e.resting == Some(Place { price: o.unwrap().price, seq: o.unwrap().seq })
        },
{
    lemma_restored_mirrors(s);
    let l = Ledger { orders: restored(s.bids + s.asks), buy: 0, sell: 0, traded: 0 };
    assert forall|i: int| 0 <= i < ids.len() implies l.orders.contains_key(#[trigger] ids[i]) by {
        assert(ids.contains(ids[i]));
    }
    lemma_reconcile_ids(l, s, b, ids);
    lemma_restored_entries(s.bids + s.asks);
    assert forall|k: u64| #[trigger] l.orders.contains_key(k) implies {
        let e = l.orders[k];
        let o = find_order(s, OrderId(k));
        &&& o is Some
        &&& e.accepted == o.unwrap().qty.0 && e.filled == 0 && e.cancelled == 0
        &&& e.resting == Some(Place { price: o.unwrap().price, seq: o.unwrap().seq })
    } by {
        let all = s.bids + s.asks;
        let j = choose|j: int| 0 <= j < all.len() && all[j].id.0 == k && restored(all)[k] == restored_entry(all[j]);
        assert(entry_ok(l.orders[k], find_order(s, OrderId(k))));
    }
}

/// The ledger of an auditor started from a valid snapshot's state mirrors
/// that state.
pub proof fn lemma_restored_mirrors(s: State)
    requires
        valid_state(s),
    ensures
        mirrors(Ledger { orders: restored(s.bids + s.asks), buy: 0, sell: 0, traded: 0 }, s),
        bounded(Ledger { orders: restored(s.bids + s.asks), buy: 0, sell: 0, traded: 0 }, one_qty()),
{
    let all = s.bids + s.asks;
    lemma_restored_entries(all);
    let l = Ledger { orders: restored(all), buy: 0, sell: 0, traded: 0 };
    crate::queue::lemma_unique_split(s.bids, s.asks);
    assert forall|k: u64| #[trigger] l.orders.contains_key(k) implies k < s.next_id && entry_ok(
        l.orders[k],
        find_order(s, OrderId(k)),
    ) by {
        let j = choose|j: int| 0 <= j < all.len() && all[j].id.0 == k && l.orders[k] == restored_entry(all[j]);
        if j < s.bids.len() {
            assert(all[j] == s.bids[j]);
            lemma_find_at(s.bids, j);
            assert(fields_ok(s.bids[j], Side::Buy, s.next_id, s.next_seq));
        } else {
            let i = j - s.bids.len();
            assert(all[j] == s.asks[i]);
            lemma_find_at(s.asks, i);
            assert(!has_id(s.bids, OrderId(k)));
            assert(fields_ok(s.asks[i], Side::Sell, s.next_id, s.next_seq));
        }
    }
    assert forall|k: u64| #[trigger] resting_in(s, k) implies l.orders.contains_key(k) by {
        if has_id(s.bids, OrderId(k)) {
            let j = choose|j: int| 0 <= j < s.bids.len() && s.bids[j].id == OrderId(k);
            assert(all[j] == s.bids[j]);
        } else {
            let j = choose|j: int| 0 <= j < s.asks.len() && s.asks[j].id == OrderId(k);
            assert(all[s.bids.len() + j] == s.asks[j]);
        }
    }
    assert forall|k: u64| #[trigger] l.orders.contains_key(k) implies l.orders[k].accepted <= one_qty()
        && l.orders[k].filled <= one_qty() && l.orders[k].cancelled <= one_qty() by {
        let j = choose|j: int| 0 <= j < all.len() && all[j].id.0 == k && l.orders[k] == restored_entry(all[j]);
    }
}

/// Each entry of `restored(os)` belongs to an order of `os` with that id,
/// and each order's id has an entry.
pub proof fn lemma_restored_entries(os: Seq<RestingOrder>)
    ensures
        forall|k: u64| #[trigger]
            restored(os).contains_key(k) ==> exists|j: int|
                0 <= j < os.len() && os[j].id.0 == k && restored(os)[k] == restored_entry(os[j]),
        forall|j: int| 0 <= j < os.len() ==> restored(os).contains_key(#[trigger] os[j].id.0),
    decreases os.len(),
{
    if os.len() > 0 {
        let p = os.drop_last();
        lemma_restored_entries(p);
        let x = os.last();
        assert forall|k: u64| #[trigger] restored(os).contains_key(k) implies exists|j: int|
            0 <= j < os.len() && os[j].id.0 == k && restored(os)[k] == restored_entry(os[j]) by {
            if k == x.id.0 {
                assert(os[os.len() - 1] == x);
            } else {
                assert(restored(p).contains_key(k));
                let j = choose|j: int| 0 <= j < p.len() && p[j].id.0 == k && restored(p)[k] == restored_entry(p[j]);
                assert(os[j] == p[j]);
            }
        }
        assert forall|j: int| 0 <= j < os.len() implies restored(os).contains_key(#[trigger] os[j].id.0) by {
            if j < os.len() - 1 {
                assert(os[j] == p[j]);
                assert(restored(p).contains_key(p[j].id.0));
            }
        }
    }
}

} // verus!
