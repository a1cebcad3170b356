//! Canonical engine state: everything that affects future output.
//!
//! Two engines with equal snapshots produce identical events for any
//! command sequence. The byte encoding is fixed (little-endian, fixed field
//! order, orders in priority order), so equal states encode to equal bytes
//! on every platform.
//!
//! ```text
//! "LOBSNAP1" next_id:u64 next_seq:u64
//! n_bids:u64 { id:u64 price:i64 qty:u64 seq:u64 } * n_bids    best bid first
//! n_asks:u64 { id:u64 price:i64 qty:u64 seq:u64 } * n_asks    best ask first
//! ```
use std::collections::BTreeSet;
use vstd::prelude::*;

use crate::book::RestingOrder;
use crate::queue::{has_id, ids_unique, lemma_unique_join, lemma_unique_split, okey};
use crate::text::{dec, lemma_add_assoc, push_dec, push_str, string_of};
use crate::types::{price_in_range, qty_in_range, OrderId, Price, Qty, SeqNo, Side};

verus! {

/// Engine state as mathematical values: the counters and both queues in
/// priority order (best price first, time priority within a price).
pub struct State {
    pub next_id: u64,
    pub next_seq: u64,
    pub bids: Seq<RestingOrder>,
    pub asks: Seq<RestingOrder>,
}

/// `a` comes strictly before `b` in price-time priority.
pub open spec fn before(a: RestingOrder, b: RestingOrder) -> bool {
    okey(a) < okey(b) || (okey(a) == okey(b) && a.seq.0 < b.seq.0)
}

/// The fields of `o` describe an order of `side` that the engine could
/// have issued before the counters reached `next_id` and `next_seq`.
pub open spec fn fields_ok(o: RestingOrder, side: Side, next_id: u64, next_seq: u64) -> bool {
    &&& o.side == side
    &&& price_in_range(o.price.0)
    &&& qty_in_range(o.qty.0)
    &&& 0 < o.id.0 < next_id
    &&& 0 < o.seq.0 < next_seq
}

/// One side: every order well formed, strictly in priority order.
pub open spec fn side_valid(q: Seq<RestingOrder>, side: Side, next_id: u64, next_seq: u64) -> bool {
    &&& forall|i: int| 0 <= i < q.len() ==> fields_ok(#[trigger] q[i], side, next_id, next_seq)
    &&& forall|i: int, j: int| 0 <= i < j < q.len() ==> before(#[trigger] q[i], #[trigger] q[j])
}

/// Best bid below best ask, when both sides have orders.
pub open spec fn uncrossed(bids: Seq<RestingOrder>, asks: Seq<RestingOrder>) -> bool {
    bids.len() > 0 && asks.len() > 0 ==> bids[0].price.0 < asks[0].price.0
}

/// Largest value of either counter in a valid state: a restored engine is
/// as far from running out of ids and sequence numbers as a fresh one.
pub const MAX_COUNTER: u64 = 0x8000_0000_0000_0000;

/// Both counters are in `1..=MAX_COUNTER`.
pub open spec fn counters_ok(next_id: u64, next_seq: u64) -> bool {
    1 <= next_id <= MAX_COUNTER && 1 <= next_seq <= MAX_COUNTER
}

/// A state the engine can be in.
pub open spec fn valid_state(s: State) -> bool {
    &&& counters_ok(s.next_id, s.next_seq)
    &&& side_valid(s.bids, Side::Buy, s.next_id, s.next_seq)
    &&& side_valid(s.asks, Side::Sell, s.next_id, s.next_seq)
    &&& ids_unique(s.bids + s.asks)
    &&& uncrossed(s.bids, s.asks)
}

/// Why bytes or a snapshot do not describe a valid engine state.
#[derive(Clone, Copy, Debug, PartialEq, Eq, Structural)]
pub enum SnapshotError {
    /// Missing or wrong header.
    BadMagic,
    /// Input ended early.
    Truncated,
    /// Input continued after the last order.
    TrailingBytes,
    /// `next_id` or `next_seq` is zero.
    ZeroCounter,
    /// `next_id` or `next_seq` is above `MAX_COUNTER`.
    CounterTooLarge,
    /// An order is listed under the wrong side.
    WrongSide(OrderId),
    /// Price outside `1..=MAX_PRICE`.
    PriceOutOfRange(OrderId),
    /// Quantity outside `1..=MAX_QTY`.
    QuantityOutOfRange(OrderId),
    /// Id is zero or not below `next_id`.
    IdNotIssued(OrderId),
    /// Sequence number is zero or not below `next_seq`.
    SeqNotIssued(OrderId),
    /// Same id appears twice.
    DuplicateId(OrderId),
    /// Orders are not in price-time priority order.
    OutOfOrder(OrderId),
    /// Best bid is not below best ask.
    Crossed,
}

/// Text of a snapshot error.
pub open spec fn snapshot_error_text(e: SnapshotError) -> Seq<char> {
    match e {
        SnapshotError::BadMagic => "not a snapshot (bad header)"@,
        SnapshotError::Truncated => "snapshot is truncated"@,
        SnapshotError::TrailingBytes => "unexpected bytes after snapshot"@,
        SnapshotError::ZeroCounter => "id and sequence counters must start at 1"@,
        SnapshotError::CounterTooLarge => "id and sequence counters must be at most 2^63"@,
        SnapshotError::WrongSide(id) => "order "@ + dec(id.0 as nat) + " listed on the wrong side"@,
        SnapshotError::PriceOutOfRange(id) => "order "@ + dec(id.0 as nat) + " has an invalid price"@,
        SnapshotError::QuantityOutOfRange(id) => "order "@ + dec(id.0 as nat) + " has an invalid quantity"@,
        SnapshotError::IdNotIssued(id) => "order id "@ + dec(id.0 as nat) + " was never issued"@,
        SnapshotError::SeqNotIssued(id) => "order "@ + dec(id.0 as nat) + " has an unissued sequence number"@,
        SnapshotError::DuplicateId(id) => "order id "@ + dec(id.0 as nat) + " appears twice"@,
        SnapshotError::OutOfOrder(id) => "order "@ + dec(id.0 as nat) + " is out of priority order"@,
        SnapshotError::Crossed => "book is crossed"@,
    }
}

impl SnapshotError {
    /// The error as text.
    pub fn text(&self) -> (s: String)
        ensures
            s@ == snapshot_error_text(*self),
    {
        broadcast use lemma_add_assoc;
        let mut out: Vec<char> = Vec::new();
        match *self {
            SnapshotError::BadMagic => push_str(&mut out, "not a snapshot (bad header)"),
            SnapshotError::Truncated => push_str(&mut out, "snapshot is truncated"),
            SnapshotError::TrailingBytes => push_str(&mut out, "unexpected bytes after snapshot"),
            SnapshotError::ZeroCounter => push_str(&mut out, "id and sequence counters must start at 1"),
            SnapshotError::CounterTooLarge => push_str(&mut out, "id and sequence counters must be at most 2^63"),
            SnapshotError::WrongSide(id) => {
                push_str(&mut out, "order ");
                push_dec(&mut out, id.0);
                push_str(&mut out, " listed on the wrong side");
            },
            SnapshotError::PriceOutOfRange(id) => {
                push_str(&mut out, "order ");
                push_dec(&mut out, id.0);
                push_str(&mut out, " has an invalid price");
            },
            SnapshotError::QuantityOutOfRange(id) => {
                push_str(&mut out, "order ");
                push_dec(&mut out, id.0);
                push_str(&mut out, " has an invalid quantity");
            },
            SnapshotError::IdNotIssued(id) => {
                push_str(&mut out, "order id ");
                push_dec(&mut out, id.0);
                push_str(&mut out, " was never issued");
            },
            SnapshotError::SeqNotIssued(id) => {
                push_str(&mut out, "order ");
                push_dec(&mut out, id.0);
                push_str(&mut out, " has an unissued sequence number");
            },
            SnapshotError::DuplicateId(id) => {
                push_str(&mut out, "order id ");
                push_dec(&mut out, id.0);
                push_str(&mut out, " appears twice");
            },
            SnapshotError::OutOfOrder(id) => {
                push_str(&mut out, "order ");
                push_dec(&mut out, id.0);
                push_str(&mut out, " is out of priority order");
            },
            SnapshotError::Crossed => push_str(&mut out, "book is crossed"),
        }
        proof {
            assert(out@ =~= snapshot_error_text(*self));
        }
        string_of(&out)
    }
}

/// What is wrong with order `o` of `side`, checked in the order side,
/// price, quantity, id, sequence, duplicate id (against the orders `seen`
/// before it), priority (against the previous order `prev` of its side).
pub open spec fn order_error(
    o: RestingOrder,
    side: Side,
    next_id: u64,
    next_seq: u64,
    seen: Seq<RestingOrder>,
    prev: Option<RestingOrder>,
) -> Option<SnapshotError> {
    if o.side != side {
        Some(SnapshotError::WrongSide(o.id))
    } else if !price_in_range(o.price.0) {
        Some(SnapshotError::PriceOutOfRange(o.id))
    } else if !qty_in_range(o.qty.0) {
        Some(SnapshotError::QuantityOutOfRange(o.id))
    } else if o.id.0 == 0 || o.id.0 >= next_id {
        Some(SnapshotError::IdNotIssued(o.id))
    } else if o.seq.0 == 0 || o.seq.0 >= next_seq {
        Some(SnapshotError::SeqNotIssued(o.id))
    } else if has_id(seen, o.id) {
        Some(SnapshotError::DuplicateId(o.id))
    } else if prev is Some && !before(prev.unwrap(), o) {
        Some(SnapshotError::OutOfOrder(o.id))
    } else {
        None
    }
}

/// The first problem in the orders `q` of `side`, scanning from the front.
pub open spec fn scan_error(
    q: Seq<RestingOrder>,
    side: Side,
    next_id: u64,
    next_seq: u64,
    seen: Seq<RestingOrder>,
    prev: Option<RestingOrder>,
) -> Option<SnapshotError>
    decreases q.len(),
{
    if q.len() == 0 {
        None
    } else {
        match order_error(q[0], side, next_id, next_seq, seen, prev) {
            Some(e) => Some(e),
            None => scan_error(q.drop_first(), side, next_id, next_seq, seen.push(q[0]), Some(q[0])),
        }
    }
}

/// The first problem with a state: counters, then the bids from the best,
/// then the asks from the best, then the inside of the book.
pub open spec fn validate_spec(s: State) -> Result<(), SnapshotError> {
    if s.next_id == 0 || s.next_seq == 0 {
        Err(SnapshotError::ZeroCounter)
    } else if !counters_ok(s.next_id, s.next_seq) {
        Err(SnapshotError::CounterTooLarge)
    } else {
        match scan_error(s.bids, Side::Buy, s.next_id, s.next_seq, Seq::empty(), None) {
            Some(e) => Err(e),
            None => match scan_error(s.asks, Side::Sell, s.next_id, s.next_seq, s.bids, None) {
                Some(e) => Err(e),
                None => if !uncrossed(s.bids, s.asks) {
                    Err(SnapshotError::Crossed)
                } else {
                    Ok(())
                },
            },
        }
    }
}

/// Engine state in canonical form.
#[derive(Clone, Debug, PartialEq, Eq)]
pub struct Snapshot {
    /// Id the next accepted order will receive.
    pub next_id: u64,
    /// Sequence number the next accepted or re-queued order will receive.
    pub next_seq: u64,
    /// Resting bids, best price first, time priority within a price.
    pub bids: Vec<RestingOrder>,
    /// Resting asks, best price first, time priority within a price.
    pub asks: Vec<RestingOrder>,
}

impl View for Snapshot {
    type V = State;

    open spec fn view(&self) -> State {
        State { next_id: self.next_id, next_seq: self.next_seq, bids: self.bids@, asks: self.asks@ }
    }
}

/// The orders of `q` pass the scan: each is well formed, none repeats an id
/// of `seen` or of `q`, and they come in strict priority order after `prev`.
pub open spec fn scan_ok(
    q: Seq<RestingOrder>,
    side: Side,
    next_id: u64,
    next_seq: u64,
    seen: Seq<RestingOrder>,
    prev: Option<RestingOrder>,
) -> bool {
    &&& side_valid(q, side, next_id, next_seq)
    &&& ids_unique(q)
    &&& forall|i: int| 0 <= i < q.len() ==> !has_id(seen, (#[trigger] q[i]).id)
    &&& (prev is Some && q.len() > 0 ==> before(prev.unwrap(), q[0]))
}

proof fn lemma_has_id_push(seen: Seq<RestingOrder>, o: RestingOrder, x: OrderId)
    ensures
        has_id(seen.push(o), x) <==> has_id(seen, x) || o.id == x,
{
    let t = seen.push(o);
    if has_id(t, x) {
        let i = choose|i: int| 0 <= i < t.len() && t[i].id == x;
        if i < seen.len() {
            assert(seen[i] == t[i]);
        }
    }
    if has_id(seen, x) {
        let i = choose|i: int| 0 <= i < seen.len() && seen[i].id == x;
        assert(t[i] == seen[i]);
    }
    if o.id == x {
        assert(t[seen.len() as int] == o);
    }
}

/// The scan finds nothing exactly when the orders pass it.
proof fn lemma_scan(
    q: Seq<RestingOrder>,
    side: Side,
    next_id: u64,
    next_seq: u64,
    seen: Seq<RestingOrder>,
    prev: Option<RestingOrder>,
)
    ensures
        scan_error(q, side, next_id, next_seq, seen, prev) is None <==> scan_ok(
            q,
            side,
            next_id,
            next_seq,
            seen,
            prev,
        ),
    decreases q.len(),
{
    if q.len() > 0 {
        let o = q[0];
        let t = q.drop_first();
        let seen2 = seen.push(o);
        lemma_scan(t, side, next_id, next_seq, seen2, Some(o));
        assert forall|x: OrderId| has_id(seen2, x) <==> has_id(seen, x) || o.id == x by {
            lemma_has_id_push(seen, o, x);
        }
        let ok_head = order_error(o, side, next_id, next_seq, seen, prev) is None;
        if ok_head && scan_ok(t, side, next_id, next_seq, seen2, Some(o)) {
            assert(fields_ok(o, side, next_id, next_seq));
            assert forall|i: int| 0 <= i < q.len() implies fields_ok(#[trigger] q[i], side, next_id, next_seq) by {
                if i > 0 {
                    assert(q[i] == t[i - 1]);
                }
            }
            assert forall|i: int, j: int| 0 <= i < j < q.len() implies before(#[trigger] q[i], #[trigger] q[j]) by {
                assert(q[j] == t[j - 1]);
                if i > 0 {
                    assert(q[i] == t[i - 1]);
                } else if j > 1 {
                    assert(before(t[0], t[j - 1]));
                }
            }
            assert forall|i: int, j: int| 0 <= i < j < q.len() implies q[i].id != q[j].id by {
                assert(q[j] == t[j - 1]);
                if i > 0 {
                    assert(q[i] == t[i - 1]);
                } else {
                    assert(!has_id(seen2, t[j - 1].id));
                }
            }
            assert forall|i: int| 0 <= i < q.len() implies !has_id(seen, (#[trigger] q[i]).id) by {
                if i > 0 {
                    assert(q[i] == t[i - 1]);
                    assert(!has_id(seen2, t[i - 1].id));
                }
            }
        }
        if scan_ok(q, side, next_id, next_seq, seen, prev) {
            assert(fields_ok(q[0], side, next_id, next_seq));
            assert(!has_id(seen, q[0].id));
            assert forall|i: int| 0 <= i < t.len() implies fields_ok(#[trigger] t[i], side, next_id, next_seq) by {
                assert(t[i] == q[i + 1]);
            }
            assert forall|i: int, j: int| 0 <= i < j < t.len() implies before(#[trigger] t[i], #[trigger] t[j]) by {
                assert(t[i] == q[i + 1] && t[j] == q[j + 1]);
            }
            assert forall|i: int, j: int| 0 <= i < j < t.len() implies t[i].id != t[j].id by {
                assert(t[i] == q[i + 1] && t[j] == q[j + 1]);
            }
            assert forall|i: int| 0 <= i < t.len() implies !has_id(seen2, (#[trigger] t[i]).id) by {
                assert(t[i] == q[i + 1]);
                assert(q[0].id != q[i + 1].id);
            }
            if t.len() > 0 {
                assert(t[0] == q[1]);
            }
        }
    }
}

/// A state passes validation exactly when it is valid: the checks of
/// `validate` describe the states the engine can be in.
pub proof fn lemma_validate_spec(s: State)
    ensures
        validate_spec(s) is Ok <==> valid_state(s),
{
    let e = Seq::<RestingOrder>::empty();
    lemma_scan(s.bids, Side::Buy, s.next_id, s.next_seq, e, None);
    lemma_scan(s.asks, Side::Sell, s.next_id, s.next_seq, s.bids, None);
    if valid_state(s) {
        lemma_unique_split(s.bids, s.asks);
        assert forall|i: int| 0 <= i < s.asks.len() implies !has_id(s.bids, (#[trigger] s.asks[i]).id) by {
            if has_id(s.bids, s.asks[i].id) {
                assert(has_id(s.asks, s.asks[i].id));
            }
        }
    }
    if validate_spec(s) is Ok {
        assert forall|x: OrderId| has_id(s.bids, x) implies !has_id(s.asks, x) by {
            if has_id(s.asks, x) {
                let i = choose|i: int| 0 <= i < s.asks.len() && s.asks[i].id == x;
                assert(!has_id(s.bids, s.asks[i].id));
            }
        }
        lemma_unique_join(s.bids, s.asks);
    }
}

/// The first problem with order `o`, as `order_error` defines it; whether
/// its id was seen before is answered by inserting it into `ids`.
fn check_order(
    o: &RestingOrder,
    side: Side,
    next_id: u64,
    next_seq: u64,
    ids: &mut BTreeSet<u64>,
    prev: Option<RestingOrder>,
    Ghost(seen): Ghost<Seq<RestingOrder>>,
) -> (r: Option<SnapshotError>)
    requires
        forall|x: u64| old(ids)@.contains(x) <==> has_id(seen, OrderId(x)),
        prev is Some ==> prev.unwrap().side == side,
    ensures
        r == order_error(*o, side, next_id, next_seq, seen, prev),
        r is None ==> forall|x: u64| final(ids)@.contains(x) <==> has_id(seen.push(*o), OrderId(x)),
{
    let id = o.id;
    if o.side != side {
        return Some(SnapshotError::WrongSide(id));
    }
    if !o.price.is_valid() {
        return Some(SnapshotError::PriceOutOfRange(id));
    }
    if !o.qty.is_valid() {
        return Some(SnapshotError::QuantityOutOfRange(id));
    }
    if id.0 == 0 || id.0 >= next_id {
        return Some(SnapshotError::IdNotIssued(id));
    }
    if o.seq.0 == 0 || o.seq.0 >= next_seq {
        return Some(SnapshotError::SeqNotIssued(id));
    }
    proof {
        broadcast use vstd::std_specs::btree::group_btree_axioms;
        assert(vstd::laws_cmp::obeys_cmp::<u64>()) by {
            broadcast use vstd::laws_cmp::group_laws_cmp;
        }
    }
    if !ids.insert(id.0) {
        return Some(SnapshotError::DuplicateId(id));
    }
    proof {
        assert forall|x: u64| ids@.contains(x) <==> has_id(seen.push(*o), OrderId(x)) by {
            lemma_has_id_push(seen, *o, OrderId(x));
        }
    }
    if let Some(p) = prev {
        let key_ok = match side {
            Side::Buy => o.price.0 <= p.price.0,
            Side::Sell => o.price.0 >= p.price.0,
        };
        if !key_ok || (o.price.0 == p.price.0 && o.seq.0 <= p.seq.0) {
            return Some(SnapshotError::OutOfOrder(id));
        }
    }
    None
}

/// Scans the orders of one side for their first problem.
fn scan_side(
    orders: &Vec<RestingOrder>,
    side: Side,
    next_id: u64,
    next_seq: u64,
    ids: &mut BTreeSet<u64>,
    Ghost(seen): Ghost<Seq<RestingOrder>>,
) -> (r: Option<SnapshotError>)
    requires
        forall|x: u64| old(ids)@.contains(x) <==> has_id(seen, OrderId(x)),
    ensures
        r == scan_error(orders@, side, next_id, next_seq, seen, None),
        r is None ==> forall|x: u64| final(ids)@.contains(x) <==> has_id(seen + orders@, OrderId(x)),
{
    let ghost q = orders@;
    let mut prev: Option<RestingOrder> = None;
    let mut i: usize = 0;
    proof {
        assert(q.skip(0) =~= q);
        assert(seen + q.take(0) =~= seen);
    }
    while i < orders.len()
        invariant
            q == orders@,
            0 <= i <= q.len(),
            prev == (if i == 0 {
                None::<RestingOrder>
            } else {
                Some(q[i - 1])
            }),
            i > 0 ==> q[i - 1].side == side,
            scan_error(q, side, next_id, next_seq, seen, None) == scan_error(
                q.skip(i as int),
                side,
                next_id,
                next_seq,
                seen + q.take(i as int),
                prev,
            ),
            forall|x: u64| ids@.contains(x) <==> has_id(seen + q.take(i as int), OrderId(x)),
        decreases q.len() - i,
    {
        let o = &orders[i];
        let ghost rest = q.skip(i as int);
        proof {
            assert(rest[0] == q[i as int]);
            assert(rest.drop_first() =~= q.skip(i as int + 1));
            assert((seen + q.take(i as int)).push(q[i as int]) =~= seen + q.take(i as int + 1));
        }
        let e = check_order(o, side, next_id, next_seq, ids, prev, Ghost(seen + q.take(i as int)));
        if e.is_some() {
            return e;
        }
        prev = Some(*o);
        i = i + 1;
    }
    proof {
        assert(q.skip(i as int) =~= Seq::<RestingOrder>::empty());
        assert(q.take(i as int) =~= q);
    }
    None
}

impl Snapshot {
    /// Checks that the snapshot describes a state the engine could be in,
    /// returning the first problem found.
    pub fn validate(&self) -> (r: Result<(), SnapshotError>)
        ensures
            r == validate_spec(self@),
    {
        if self.next_id == 0 || self.next_seq == 0 {
            return Err(SnapshotError::ZeroCounter);
        }
        if self.next_id > MAX_COUNTER || self.next_seq > MAX_COUNTER {
            return Err(SnapshotError::CounterTooLarge);
        }
        let mut ids: BTreeSet<u64> = BTreeSet::new();
        proof {
            assert forall|x: u64| ids@.contains(x) <==> has_id(Seq::<RestingOrder>::empty(), OrderId(x)) by {}
        }
        if let Some(e) = scan_side(&self.bids, Side::Buy, self.next_id, self.next_seq, &mut ids, Ghost(Seq::empty())) {
            return Err(e);
        }
        proof {
            assert(Seq::<RestingOrder>::empty() + self.bids@ =~= self.bids@);
        }
        if let Some(e) = scan_side(&self.asks, Side::Sell, self.next_id, self.next_seq, &mut ids, Ghost(self.bids@)) {
            return Err(e);
        }
        if self.bids.len() > 0 && self.asks.len() > 0 && self.bids[0].price.0 >= self.asks[0].price.0 {
            return Err(SnapshotError::Crossed);
        }
        Ok(())
    }
}

/// The eight little-endian bytes of `x`.
pub open spec fn le8(x: u64) -> Seq<u8> {
    seq![
        x as u8,
        (x >> 8u64) as u8,
        (x >> 16u64) as u8,
        (x >> 24u64) as u8,
        (x >> 32u64) as u8,
        (x >> 40u64) as u8,
        (x >> 48u64) as u8,
        (x >> 56u64) as u8,
    ]
}

/// The number whose little-endian bytes are the first eight of `b`.
pub open spec fn from_le8(b: Seq<u8>) -> u64 {
    (b[0] as u64) | ((b[1] as u64) << 8u64) | ((b[2] as u64) << 16u64) | ((b[3] as u64) << 24u64)
        | ((b[4] as u64) << 32u64) | ((b[5] as u64) << 40u64) | ((b[6] as u64) << 48u64) | ((
    b[7] as u64) << 56u64)
}

/// The header bytes.
pub open spec fn magic() -> Seq<u8> {
    seq![0x4cu8, 0x4fu8, 0x42u8, 0x53u8, 0x4eu8, 0x41u8, 0x50u8, 0x31u8]
}

/// One order: id, price, quantity, sequence number.
pub open spec fn order_bytes(o: RestingOrder) -> Seq<u8> {
    le8(o.id.0) + le8(o.price.0 as u64) + le8(o.qty.0) + le8(o.seq.0)
}

/// The orders of `q`, one after the other.
pub open spec fn orders_bytes(q: Seq<RestingOrder>) -> Seq<u8>
    decreases q.len(),
{
    if q.len() == 0 {
        Seq::empty()
    } else {
        orders_bytes(q.drop_last()) + order_bytes(q.last())
    }
}

/// The canonical encoding of a state.
pub open spec fn encode_spec(s: State) -> Seq<u8> {
    magic() + le8(s.next_id) + le8(s.next_seq) + le8(s.bids.len() as u64) + orders_bytes(s.bids)
        + le8(s.asks.len() as u64) + orders_bytes(s.asks)
}

/// Pushes the little-endian bytes of `x`.
fn push_u64(out: &mut Vec<u8>, x: u64)
    ensures
        final(out)@ == old(out)@ + le8(x),
{
    out.push(x as u8);
    out.push((x >> 8u64) as u8);
    out.push((x >> 16u64) as u8);
    out.push((x >> 24u64) as u8);
    out.push((x >> 32u64) as u8);
    out.push((x >> 40u64) as u8);
    out.push((x >> 48u64) as u8);
    out.push((x >> 56u64) as u8);
    proof {
        assert(final(out)@ =~= old(out)@ + le8(x));
    }
}

/// Pushes the encoding of each order of `orders`.
fn push_orders(out: &mut Vec<u8>, orders: &Vec<RestingOrder>)
    ensures
        final(out)@ == old(out)@ + orders_bytes(orders@),
{
    let ghost out0 = out@;
    let mut i: usize = 0;
    while i < orders.len()
        invariant
            0 <= i <= orders@.len(),
            out@ == out0 + orders_bytes(orders@.take(i as int)),
        decreases orders@.len() - i,
    {
        let o = &orders[i];
        push_u64(out, o.id.0);
        push_u64(out, o.price.0 as u64);
        push_u64(out, o.qty.0);
        push_u64(out, o.seq.0);
        proof {
            let t = orders@.take(i as int + 1);
            assert(t.drop_last() =~= orders@.take(i as int));
            assert(t.last() == orders@[i as int]);
            assert(out@ =~= out0 + orders_bytes(t));
        }
        i = i + 1;
    }
    proof {
        assert(orders@.take(i as int) =~= orders@);
    }
}

/// 64-bit FNV-1a hash of `bytes`.
pub open spec fn fnv1a_spec(bytes: Seq<u8>) -> u64
    decreases bytes.len(),
{
    if bytes.len() == 0 {
        0xcbf2_9ce4_8422_2325u64
    } else {
        (fnv1a_spec(bytes.drop_last()) ^ (bytes.last() as u64)).wrapping_mul(0x0000_0100_0000_01b3u64)
    }
}

/// 64-bit FNV-1a hash. Used for snapshot and event-stream digests.
pub fn fnv1a(bytes: &[u8]) -> (h: u64)
    ensures
        h == fnv1a_spec(bytes@),
{
    let mut h: u64 = 0xcbf2_9ce4_8422_2325u64;
    let mut i: usize = 0;
    while i < bytes.len()
        invariant
            0 <= i <= bytes@.len(),
            h == fnv1a_spec(bytes@.take(i as int)),
        decreases bytes@.len() - i,
    {
        proof {
            let t = bytes@.take(i as int + 1);
            assert(t.drop_last() =~= bytes@.take(i as int));
        }
        h = (h ^ (bytes[i] as u64)).wrapping_mul(0x0000_0100_0000_01b3u64);
        i = i + 1;
    }
    proof {
        assert(bytes@.take(i as int) =~= bytes@);
    }
    h
}

impl Snapshot {
    /// Canonical byte encoding.
    pub fn encode(&self) -> (bytes: Vec<u8>)
        ensures
            bytes@ == encode_spec(self@),
    {
        let mut out: Vec<u8> = Vec::new();
        out.push(0x4cu8);
        out.push(0x4fu8);
        out.push(0x42u8);
        out.push(0x53u8);
        out.push(0x4eu8);
        out.push(0x41u8);
        out.push(0x50u8);
        out.push(0x31u8);
        proof {
            assert(out@ =~= magic());
        }
        push_u64(&mut out, self.next_id);
        push_u64(&mut out, self.next_seq);
        push_u64(&mut out, self.bids.len() as u64);
        push_orders(&mut out, &self.bids);
        push_u64(&mut out, self.asks.len() as u64);
        push_orders(&mut out, &self.asks);
        out
    }

    /// 64-bit FNV-1a hash of the canonical encoding, for compact comparison.
    pub fn digest(&self) -> (h: u64)
        ensures
            h == fnv1a_spec(encode_spec(self@)),
    {
        let bytes = self.encode();
        fnv1a(bytes.as_slice())
    }
}

/// The order whose encoding starts at byte `p` of `b`, listed under `side`.
pub open spec fn order_at(b: Seq<u8>, p: int, side: Side) -> RestingOrder {
    RestingOrder {
        id: OrderId(from_le8(b.subrange(p, p + 8))),
        side,
        price: Price(from_le8(b.subrange(p + 8, p + 16)) as i64),
        qty: Qty(from_le8(b.subrange(p + 16, p + 24))),
        seq: SeqNo(from_le8(b.subrange(p + 24, p + 32))),
    }
}

/// `n` orders encoded from byte `start` of `b` on, listed under `side`.
pub open spec fn decode_orders(b: Seq<u8>, start: int, n: int, side: Side) -> Seq<RestingOrder> {
    Seq::new(n as nat, |i: int| order_at(b, start + 32 * i, side))
}

/// What `decode` makes of `b`: the header, the counters, each side's count
/// and orders (too few bytes for any of them is `Truncated`, bytes after
/// the asks are `TrailingBytes`), then the checks of `validate`.
pub open spec fn decode_spec(b: Seq<u8>) -> Result<State, SnapshotError> {
    if b.len() < 8 {
        Err(SnapshotError::Truncated)
    } else if b.take(8) != magic() {
        Err(SnapshotError::BadMagic)
    } else if b.len() < 32 {
        Err(SnapshotError::Truncated)
    } else {
        let nb = from_le8(b.subrange(24, 32)) as int;
        if nb * 32 > b.len() - 32 {
            Err(SnapshotError::Truncated)
        } else {
            let p = 32 + nb * 32;
            if b.len() < p + 8 {
                Err(SnapshotError::Truncated)
            } else {
                let na = from_le8(b.subrange(p, p + 8)) as int;
                if na * 32 > b.len() - p - 8 {
                    Err(SnapshotError::Truncated)
                } else if b.len() > p + 8 + na * 32 {
                    Err(SnapshotError::TrailingBytes)
                } else {
                    let st = State {
                        next_id: from_le8(b.subrange(8, 16)),
                        next_seq: from_le8(b.subrange(16, 24)),
                        bids: decode_orders(b, 32, nb, Side::Buy),
                        asks: decode_orders(b, p + 8, na, Side::Sell),
                    };
                    match validate_spec(st) {
                        Ok(_) => Ok(st),
                        Err(e) => Err(e),
                    }
                }
            }
        }
    }
}

/// Reads the little-endian number at byte `pos`.
fn read_u64(b: &[u8], pos: usize) -> (x: u64)
    requires
        pos + 8 <= b@.len(),
    ensures
        x == from_le8(b@.subrange(pos as int, pos as int + 8)),
{
    let x = (b[pos] as u64) | ((b[pos + 1] as u64) << 8u64) | ((b[pos + 2] as u64) << 16u64) | ((
    b[pos + 3] as u64) << 24u64) | ((b[pos + 4] as u64) << 32u64) | ((b[pos + 5] as u64) << 40u64)
        | ((b[pos + 6] as u64) << 48u64) | ((b[pos + 7] as u64) << 56u64);
    proof {
        let s = b@.subrange(pos as int, pos as int + 8);
        assert(s[0] == b@[pos as int] && s[1] == b@[pos + 1] && s[2] == b@[pos + 2] && s[3] == b@[pos
            + 3] && s[4] == b@[pos + 4] && s[5] == b@[pos + 5] && s[6] == b@[pos + 6] && s[7] == b@[pos
            + 7]);
    }
    x
}

/// Reads `n` orders from byte `start` on.
fn read_orders(b: &[u8], start: usize, n: usize, side: Side) -> (r: Vec<RestingOrder>)
    requires
        start + 32 * n <= b@.len() <= usize::MAX,
    ensures
        r@ == decode_orders(b@, start as int, n as int, side),
{
    let mut out: Vec<RestingOrder> = Vec::new();
    let mut i: usize = 0;
    while i < n
        invariant
            start + 32 * n <= b@.len() <= usize::MAX,
            0 <= i <= n,
            out@ == decode_orders(b@, start as int, i as int, side),
        decreases n - i,
    {
        proof {
            assert(32 * i + 32 <= 32 * n);
        }
        let p = start + 32 * i;
        let o = RestingOrder {
            id: OrderId(read_u64(b, p)),
            side,
            price: Price(#[verifier::truncate] (read_u64(b, p + 8) as i64)),
            qty: Qty(read_u64(b, p + 16)),
            seq: SeqNo(read_u64(b, p + 24)),
        };
        out.push(o);
        proof {
            assert(out@ =~= decode_orders(b@, start as int, i as int + 1, side));
        }
        i = i + 1;
    }
    out
}

impl Snapshot {
    /// Decodes bytes produced by [`Snapshot::encode`] and validates them.
    pub fn decode(bytes: &[u8]) -> (r: Result<Snapshot, SnapshotError>)
        ensures
            match r {
                Ok(s) => decode_spec(bytes@) == Ok::<State, SnapshotError>(s@),
                Err(e) => decode_spec(bytes@) == Err::<State, SnapshotError>(e),
            },
    {
        let b = bytes;
        let len = b.len();
        if len < 8 {
            return Err(SnapshotError::Truncated);
        }
        if !(b[0] == 0x4cu8 && b[1] == 0x4fu8 && b[2] == 0x42u8 && b[3] == 0x53u8 && b[4] == 0x4eu8
            && b[5] == 0x41u8 && b[6] == 0x50u8 && b[7] == 0x31u8) {
            proof {
                if b@.take(8) == magic() {
                    assert(b@.take(8)[0] == b@[0] && b@.take(8)[1] == b@[1] && b@.take(8)[2] == b@[2]
                        && b@.take(8)[3] == b@[3] && b@.take(8)[4] == b@[4] && b@.take(8)[5] == b@[5]
                        && b@.take(8)[6] == b@[6] && b@.take(8)[7] == b@[7]);
                }
            }
            return Err(SnapshotError::BadMagic);
        }
        proof {
            assert(b@.take(8) =~= magic());
        }
        if len < 32 {
            return Err(SnapshotError::Truncated);
        }
        let next_id = read_u64(b, 8);
        let next_seq = read_u64(b, 16);
        let nb = read_u64(b, 24);
        let avail = len - 32;
        if nb > (avail / 32) as u64 {
            proof {
                assert(nb * 32 > avail) by (nonlinear_arith)
                    requires
                        nb > avail / 32,
                ;
            }
            return Err(SnapshotError::Truncated);
        }
        proof {
            assert(nb * 32 <= avail) by (nonlinear_arith)
                requires
                    nb <= avail / 32,
            ;
        }
        let nbu = nb as usize;
        let bids = read_orders(b, 32, nbu, Side::Buy);
        let p = 32 + nbu * 32;
        if len < p + 8 {
            return Err(SnapshotError::Truncated);
        }
        let na = read_u64(b, p);
        let avail2 = len - p - 8;
        if na > (avail2 / 32) as u64 {
            proof {
                assert(na * 32 > avail2) by (nonlinear_arith)
                    requires
                        na > avail2 / 32,
                ;
            }
            return Err(SnapshotError::Truncated);
        }
        proof {
            assert(na * 32 <= avail2) by (nonlinear_arith)
                requires
                    na <= avail2 / 32,
            ;
        }
        let nau = na as usize;
        let asks = read_orders(b, p + 8, nau, Side::Sell);
        if len > p + 8 + nau * 32 {
            return Err(SnapshotError::TrailingBytes);
        }
        let snap = Snapshot { next_id, next_seq, bids, asks };
        match snap.validate() {
            Ok(()) => Ok(snap),
            Err(e) => Err(e),
        }
    }
}

proof fn lemma_le8(x: u64)
    ensures
        from_le8(le8(x)) == x,
        le8(x).len() == 8,
{
    let b = le8(x);
    assert(b[0] == x as u8 && b[1] == (x >> 8u64) as u8 && b[2] == (x >> 16u64) as u8 && b[3] == (x
        >> 24u64) as u8 && b[4] == (x >> 32u64) as u8 && b[5] == (x >> 40u64) as u8 && b[6] == (x
        >> 48u64) as u8 && b[7] == (x >> 56u64) as u8);
    assert(((x as u8) as u64) | ((((x >> 8u64) as u8) as u64) << 8u64) | ((((x >> 16u64) as u8) as u64)
        << 16u64) | ((((x >> 24u64) as u8) as u64) << 24u64) | ((((x >> 32u64) as u8) as u64)
        << 32u64) | ((((x >> 40u64) as u8) as u64) << 40u64) | ((((x >> 48u64) as u8) as u64)
        << 48u64) | ((((x >> 56u64) as u8) as u64) << 56u64) == x) by (bit_vector);
}

proof fn lemma_price_bits(p: i64)
    ensures
        (p as u64) as i64 == p,
{
    assert((p as u64) as i64 == p) by (bit_vector);
}

/// The encoding of the orders of `q` has 32 bytes per order, the `i`-th
/// order's bytes in the `i`-th slot.
proof fn lemma_orders_bytes(q: Seq<RestingOrder>)
    ensures
        orders_bytes(q).len() == 32 * q.len(),
        forall|i: int|
            0 <= i < q.len() ==> orders_bytes(q).subrange(32 * i, 32 * i + 32) == order_bytes(
                #[trigger] q[i],
            ),
    decreases q.len(),
{
    if q.len() > 0 {
        let t = q.drop_last();
        lemma_orders_bytes(t);
        let o = q.last();
        assert(order_bytes(o).len() == 32) by {
            lemma_le8(o.id.0);
            lemma_le8(o.price.0 as u64);
            lemma_le8(o.qty.0);
            lemma_le8(o.seq.0);
        }
        let b = orders_bytes(q);
        assert forall|i: int| 0 <= i < q.len() implies b.subrange(32 * i, 32 * i + 32) == order_bytes(
            #[trigger] q[i],
        ) by {
            if i < t.len() {
                assert(q[i] == t[i]);
                assert(b.subrange(32 * i, 32 * i + 32) =~= orders_bytes(t).subrange(32 * i, 32 * i + 32));
            } else {
                assert(b.subrange(32 * i, 32 * i + 32) =~= order_bytes(o));
            }
        }
    }
}

/// Reading back the order encoded at byte `p` gives the order, listed under
/// its own side.
proof fn lemma_order_at(b: Seq<u8>, p: int, o: RestingOrder)
    requires
        0 <= p,
        p + 32 <= b.len(),
        b.subrange(p, p + 32) == order_bytes(o),
    ensures
        order_at(b, p, o.side) == o,
{
    lemma_le8(o.id.0);
    lemma_le8(o.price.0 as u64);
    lemma_le8(o.qty.0);
    lemma_le8(o.seq.0);
    lemma_price_bits(o.price.0);
    let e = order_bytes(o);
    assert(b.subrange(p, p + 8) =~= e.subrange(0, 8));
    assert(e.subrange(0, 8) =~= le8(o.id.0));
    assert(b.subrange(p + 8, p + 16) =~= e.subrange(8, 16));
    assert(e.subrange(8, 16) =~= le8(o.price.0 as u64));
    assert(b.subrange(p + 16, p + 24) =~= e.subrange(16, 24));
    assert(e.subrange(16, 24) =~= le8(o.qty.0));
    assert(b.subrange(p + 24, p + 32) =~= e.subrange(24, 32));
    assert(e.subrange(24, 32) =~= le8(o.seq.0));
}

/// Decoding a side's encoding gives the side back.
proof fn lemma_decode_side(b: Seq<u8>, start: int, q: Seq<RestingOrder>, side: Side)
    requires
        0 <= start,
        start + 32 * q.len() <= b.len(),
        b.subrange(start, start + 32 * q.len()) == orders_bytes(q),
        forall|i: int| 0 <= i < q.len() ==> (#[trigger] q[i]).side == side,
    ensures
        decode_orders(b, start, q.len() as int, side) == q,
{
    lemma_orders_bytes(q);
    let ob = orders_bytes(q);
    assert forall|i: int| 0 <= i < q.len() implies #[trigger] decode_orders(b, start, q.len() as int, side)[i] == q[i] by {
        assert(b.subrange(start + 32 * i, start + 32 * i + 32) =~= ob.subrange(32 * i, 32 * i + 32));
        lemma_order_at(b, start + 32 * i, q[i]);
    }
    assert(decode_orders(b, start, q.len() as int, side) =~= q);
}

/// Decoding an encoding gives back the state when it passes validation, and
/// validation's first error when it does not. The encoding does not record
/// sides (the section of an order does), so the law is for states whose
/// orders are listed under their own side; each section's count is a
/// 64-bit number, so each side holds fewer than 2^64 orders.
#[verifier::rlimit(60)]
#[verifier::spinoff_prover]
pub proof fn lemma_decode_encode(s: State)
    requires
        forall|i: int| 0 <= i < s.bids.len() ==> (#[trigger] s.bids[i]).side == Side::Buy,
        forall|i: int| 0 <= i < s.asks.len() ==> (#[trigger] s.asks[i]).side == Side::Sell,
        s.bids.len() < 0x1_0000_0000_0000_0000,
        s.asks.len() < 0x1_0000_0000_0000_0000,
    ensures
        decode_spec(encode_spec(s)) == (match validate_spec(s) {
            Ok(_) => Ok::<State, SnapshotError>(s),
            Err(e) => Err(e),
        }),
{
    let b = encode_spec(s);
    let nb = s.bids.len() as int;
    let na = s.asks.len() as int;
    lemma_le8(s.next_id);
    lemma_le8(s.next_seq);
    lemma_le8(nb as u64);
    lemma_le8(na as u64);
    lemma_orders_bytes(s.bids);
    lemma_orders_bytes(s.asks);
    let p = 32 + nb * 32;
    let h = magic() + le8(s.next_id) + le8(s.next_seq) + le8(nb as u64);
    let ob = orders_bytes(s.bids);
    let t = le8(na as u64) + orders_bytes(s.asks);
    assert(h.len() == 32);
    assert(b =~= h + ob + t);
    assert(b.len() == p + 8 + na * 32);
    assert(b.take(8) =~= magic()) by {
        assert(b.take(8) =~= h.take(8));
    }
    assert(b.subrange(8, 16) =~= le8(s.next_id)) by {
        assert(b.subrange(8, 16) =~= h.subrange(8, 16));
    }
    assert(b.subrange(16, 24) =~= le8(s.next_seq)) by {
        assert(b.subrange(16, 24) =~= h.subrange(16, 24));
    }
    assert(b.subrange(24, 32) =~= le8(nb as u64)) by {
        assert(b.subrange(24, 32) =~= h.subrange(24, 32));
    }
    assert(b.subrange(32, 32 + 32 * nb) =~= ob);
    assert(b.subrange(p, p + 8) =~= le8(na as u64)) by {
        assert(b.subrange(p, p + 8) =~= t.subrange(0, 8));
    }
    assert(b.subrange(p + 8, p + 8 + 32 * na) =~= orders_bytes(s.asks)) by {
        assert(b.subrange(p + 8, p + 8 + 32 * na) =~= t.subrange(8, 8 + 32 * na));
    }
    lemma_decode_side(b, 32, s.bids, Side::Buy);
    lemma_decode_side(b, p + 8, s.asks, Side::Sell);
    let st = State {
        next_id: from_le8(b.subrange(8, 16)),
        next_seq: from_le8(b.subrange(16, 24)),
        bids: decode_orders(b, 32, nb, Side::Buy),
        asks: decode_orders(b, p + 8, na, Side::Sell),
    };
    assert(st == s);
}


/// Reading eight bytes as a number and writing the number back gives the
/// bytes.
proof fn lemma_from_le8(b: Seq<u8>)
    requires
        b.len() == 8,
    ensures
        le8(from_le8(b)) == b,
{
    let (b0, b1, b2, b3, b4, b5, b6, b7) = (b[0], b[1], b[2], b[3], b[4], b[5], b[6], b[7]);
    let x = from_le8(b);
    assert(x as u8 == b0 && (x >> 8u64) as u8 == b1 && (x >> 16u64) as u8 == b2 && (x >> 24u64) as u8
        == b3 && (x >> 32u64) as u8 == b4 && (x >> 40u64) as u8 == b5 && (x >> 48u64) as u8 == b6 && (x
        >> 56u64) as u8 == b7) by (bit_vector)
        requires
            x == (b0 as u64) | ((b1 as u64) << 8u64) | ((b2 as u64) << 16u64) | ((b3 as u64) << 24u64)
                | ((b4 as u64) << 32u64) | ((b5 as u64) << 40u64) | ((b6 as u64) << 48u64) | ((
            b7 as u64) << 56u64),
    ;
    assert(le8(x) =~= b);
}

proof fn lemma_u64_bits(x: u64)
    ensures
        (x as i64) as u64 == x,
{
    assert((x as i64) as u64 == x) by (bit_vector);
}

/// The decoded orders of a section encode back to the section's bytes.
#[verifier::spinoff_prover]
proof fn lemma_encode_section(b: Seq<u8>, start: int, n: int, side: Side)
    requires
        0 <= start,
        0 <= n,
        start + 32 * n <= b.len(),
    ensures
        orders_bytes(decode_orders(b, start, n, side)) == b.subrange(start, start + 32 * n),
    decreases n,
{
    let q = decode_orders(b, start, n, side);
    if n == 0 {
        assert(b.subrange(start, start) =~= Seq::<u8>::empty());
    } else {
        lemma_encode_section(b, start, n - 1, side);
        assert(q.drop_last() =~= decode_orders(b, start, n - 1, side));
        let p = start + 32 * (n - 1);
        let o = q.last();
        assert(o == order_at(b, p, side));
        lemma_from_le8(b.subrange(p, p + 8));
        lemma_from_le8(b.subrange(p + 8, p + 16));
        lemma_from_le8(b.subrange(p + 16, p + 24));
        lemma_from_le8(b.subrange(p + 24, p + 32));
        lemma_u64_bits(from_le8(b.subrange(p + 8, p + 16)));
        assert(order_bytes(o) =~= b.subrange(p, p + 32));
        assert(b.subrange(start, p) + b.subrange(p, p + 32) =~= b.subrange(start, start + 32 * n));
    }
}

/// Decoding is canonical: bytes that decode are exactly the encoding of
/// the state they decode to.
#[verifier::rlimit(60)]
#[verifier::spinoff_prover]
pub proof fn lemma_encode_decode(b: Seq<u8>)
    requires
        decode_spec(b) is Ok,
    ensures
        encode_spec(decode_spec(b)->Ok_0) == b,
{
    let nb = from_le8(b.subrange(24, 32)) as int;
    let p = 32 + nb * 32;
    let na = from_le8(b.subrange(p, p + 8)) as int;
    let st = decode_spec(b)->Ok_0;
    assert(st.bids.len() == nb);
    assert(st.asks.len() == na);
    lemma_from_le8(b.subrange(8, 16));
    lemma_from_le8(b.subrange(16, 24));
    lemma_from_le8(b.subrange(24, 32));
    lemma_from_le8(b.subrange(p, p + 8));
    lemma_encode_section(b, 32, nb, Side::Buy);
    lemma_encode_section(b, p + 8, na, Side::Sell);
    assert(b =~= b.take(8) + b.subrange(8, 16) + b.subrange(16, 24) + b.subrange(24, 32) + b.subrange(
        32,
        p,
    ) + b.subrange(p, p + 8) + b.subrange(p + 8, p + 8 + 32 * na));
    assert(encode_spec(st) =~= b);
}

} // verus!
