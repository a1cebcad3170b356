//! Runtime checks of the invariants of the engine, from outside it.
//!
//! The [`Auditor`] rebuilds per-order accounting purely from commands and
//! events, then reconciles it with what the book reports (I1-I3, I5, I9,
//! I10). It never reads engine internals, so a bookkeeping bug in the engine
//! cannot also hide itself from the check.
use std::collections::BTreeMap;
use vstd::prelude::*;
use vstd::laws_cmp::{obeys_cmp, obeys_cmp_ord, obeys_cmp_partial_ord, obeys_partial_cmp_spec_properties};
use vstd::std_specs::btree::{increasing_seq, spec_keys_iter};
use vstd::std_specs::cmp::OrdSpec;
use vstd::std_specs::iter::IteratorSpec;

use crate::book::{OrderBook, RestingOrder};
use crate::command::{Command, Event, Priority};
use crate::journal::{command_text, push_command};
use crate::snapshot::Snapshot;
use crate::text::{chars_of, dec, dec_int, push_dec, push_dec_i64, push_dec_wide, push_str, string_of};
use crate::types::{spec_crosses, OrderId, Price, Qty, SeqNo, Side};

verus! {

/// A broken invariant, named as in the requirements.
#[derive(Clone, Debug, PartialEq, Eq)]
pub struct Violation {
    /// Invariant label, e.g. `"I1"`.
    pub invariant: &'static str,
    /// What was observed.
    pub detail: String,
}

impl Violation {
    /// The violation as text: its label, a colon and what was observed.
    pub fn text(&self) -> (s: String)
        ensures
            s@ == self.invariant@ + ": "@ + self.detail@,
    {
        let mut out = crate::text::chars_of(self.invariant);
        push_str(&mut out, ": ");
        push_str(&mut out, self.detail.as_str());
        string_of(&out)
    }
}

/// Where an order rests: its price and priority.
#[derive(Clone, Copy, Debug, PartialEq, Eq, Structural)]
pub struct Place {
    pub price: Price,
    pub seq: SeqNo,
}

/// Per-order accounting rebuilt from events.
#[derive(Clone, Copy, Debug, PartialEq, Eq, Structural)]
pub struct Entry {
    pub side: Side,
    /// Limit price when this order is the taker; `None` for market orders.
    pub limit: Option<Price>,
    /// Where the order rests, if it does: price and priority.
    pub resting: Option<Place>,
    pub accepted: u128,
    pub filled: u128,
    pub cancelled: u128,
}

/// `A - F - C`: what should still be open; `None` if `F + C > A`.
pub open spec fn open_of(e: Entry) -> Option<u128> {
    if e.filled + e.cancelled <= e.accepted {
        Some((e.accepted - e.filled - e.cancelled) as u128)
    } else {
        None
    }
}

/// The ledger as values: one entry per order id ever seen, and the running
/// totals of buy fills, sell fills and traded quantity.
pub struct Ledger {
    pub orders: Map<u64, Entry>,
    pub buy: u128,
    pub sell: u128,
    pub traded: u128,
}

/// Number of orders the ledger has resting.
pub open spec fn resting_count(m: Map<u64, Entry>) -> nat {
    m.dom().filter(|id: u64| m[id].resting is Some).len()
}

/// `e` with `q` more of `field` (`0` accepted, `1` filled, `2` cancelled).
pub open spec fn with_more(e: Entry, field: int, q: int) -> Entry {
    if field == 0 {
        Entry { accepted: (e.accepted + q) as u128, ..e }
    } else if field == 1 {
        Entry { filled: (e.filled + q) as u128, ..e }
    } else {
        Entry { cancelled: (e.cancelled + q) as u128, ..e }
    }
}

/// A broken invariant as values: its label and what was observed.
pub struct Fault {
    pub label: Seq<char>,
    pub detail: Seq<char>,
}

/// The fault with label `label` and detail `detail`.
pub open spec fn fault(label: Seq<char>, detail: Seq<char>) -> Fault {
    Fault { label, detail }
}

/// `r` is the violation that `f` describes.
pub open spec fn reports(r: Result<(), Violation>, f: Fault) -> bool {
    r matches Err(v) && v.invariant@ == f.label && v.detail@ == f.detail
}

/// How an optional limit price reads in a detail: `Some(Price(p))` or
/// `None`.
pub open spec fn limit_text(l: Option<Price>) -> Seq<char> {
    match l {
        Some(p) => "Some(Price("@ + dec_int(p.0 as int) + "))"@,
        None => "None"@,
    }
}

/// How an optional resting place reads in a detail:
/// `Some((Price(p), Seq(s)))` or `None`.
pub open spec fn place_text(p: Option<Place>) -> Seq<char> {
    match p {
        Some(pl) => "Some((Price("@ + dec_int(pl.price.0 as int) + "), Seq("@ + dec(pl.seq.0 as nat)
            + ")))"@,
        None => "None"@,
    }
}

pub open spec fn accepted_twice_text(id: u64) -> Seq<char> {
    "order "@ + dec(id as nat) + " accepted twice"@
}

pub open spec fn never_accepted_text(id: u64) -> Seq<char> {
    "event for order "@ + dec(id as nat) + " that was never accepted"@
}

pub open spec fn amend_text(id: u64, old_qty: u64, open: Option<u128>) -> Seq<char> {
    "amend of "@ + dec(id as nat) + " from "@ + dec(old_qty as nat) + ", ledger has "@ + open_text(open)
        + " open"@
}

pub open spec fn not_resting_text(maker: u64) -> Seq<char> {
    "maker "@ + dec(maker as nat) + " was not resting"@
}

pub open spec fn same_side_text(maker: u64) -> Seq<char> {
    "maker "@ + dec(maker as nat) + " is on the taker's side"@
}

pub open spec fn off_price_text(price: Price, maker: u64, maker_price: Price) -> Seq<char> {
    "trade at "@ + dec_int(price.0 as int) + " but maker "@ + dec(maker as nat) + " rests at "@ + dec_int(
        maker_price.0 as int,
    )
}

pub open spec fn taker_side_text(taker: u64) -> Seq<char> {
    "taker "@ + dec(taker as nat) + " side mismatch"@
}

pub open spec fn outside_limit_text(taker: u64, price: Price, limit: Option<Price>) -> Seq<char> {
    "taker "@ + dec(taker as nat) + " traded at "@ + dec_int(price.0 as int) + " outside its limit "@
        + limit_text(limit)
}

pub open spec fn priority_text(taker: u64, maker: u64, price: Price, prev: Price) -> Seq<char> {
    "taker "@ + dec(taker as nat) + " filled maker "@ + dec(maker as nat) + " at "@ + dec_int(price.0 as int)
        + " after "@ + dec_int(prev.0 as int)
}

pub open spec fn filled_text(id: u64, open: Option<u128>) -> Seq<char> {
    "order "@ + dec(id as nat) + " reported filled with "@ + open_text(open) + " open"@
}

pub open spec fn rested_text(id: u64, qty: u64, open: Option<u128>) -> Seq<char> {
    "order "@ + dec(id as nat) + " rested "@ + dec(qty as nat) + ", ledger has "@ + open_text(open)
        + " open"@
}

pub open spec fn cancelled_text(id: u64, qty: u64, open: Option<u128>) -> Seq<char> {
    "order "@ + dec(id as nat) + " cancelled "@ + dec(qty as nat) + " leaving "@ + open_text(open)
        + " open"@
}

pub open spec fn stray_rejection_text() -> Seq<char> {
    "a rejection among other events"@
}

pub open spec fn fills_text(buy: u128, sell: u128, traded: u128) -> Seq<char> {
    "buy fills "@ + dec(buy as nat) + " / sell fills "@ + dec(sell as nat) + " / traded "@ + dec(
        traded as nat,
    )
}

pub open spec fn no_events_text(cmd: Command) -> Seq<char> {
    "`"@ + command_text(cmd) + "` emitted no events"@
}

pub open spec fn mixed_rejection_text(cmd: Command) -> Seq<char> {
    "`"@ + command_text(cmd) + "` was rejected but also emitted other events"@
}

pub open spec fn count_text(ledger: nat, book: nat) -> Seq<char> {
    "ledger has "@ + dec(ledger) + " resting orders, book has "@ + dec(book)
}

pub open spec fn unbalanced_text(id: u64, e: Entry, open: nat) -> Seq<char> {
    "order "@ + dec(id as nat) + ": accepted "@ + dec(e.accepted as nat) + " != filled "@ + dec(
        e.filled as nat,
    ) + " + open "@ + dec(open) + " + cancelled "@ + dec(e.cancelled as nat)
}

pub open spec fn misplaced_text(id: u64, expected: Option<Place>, actual: Option<Place>) -> Seq<char> {
    "order "@ + dec(id as nat) + ": ledger expects resting at "@ + place_text(expected) + ", book has "@
        + place_text(actual)
}

/// One event applied to the ledger, with the price and priority of the
/// current taker's previous fill: the ledger afterwards and the new last
/// fill, or the invariant the event breaks and what was observed.
pub open spec fn step_spec(l: Ledger, last: Option<Place>, e: Event) -> Result<
    (Ledger, Option<Place>),
    Fault,
> {
    let m = l.orders;
    match e {
        Event::Accepted { id, side, kind, qty, .. } => if m.contains_key(id.0) {
            Err(fault("I1"@, accepted_twice_text(id.0)))
        } else {
            let fresh = Entry {
                side,
                limit: crate::types::spec_limit(kind),
                resting: None,
                accepted: qty.0 as u128,
                filled: 0,
                cancelled: 0,
            };
            Ok((Ledger { orders: m.insert(id.0, fresh), ..l }, None))
        },
        Event::Amended { id, price, old_qty, qty, priority, .. } => if !m.contains_key(id.0) {
            Err(fault("I1"@, never_accepted_text(id.0)))
        } else {
            let e0 = m[id.0];
            if e0.resting is None || open_of(e0) != Some(old_qty.0 as u128) {
                Err(fault("I1"@, amend_text(id.0, old_qty.0, open_of(e0))))
            } else {
                let e1 = if qty.0 > old_qty.0 {
                    with_more(e0, 0, qty.0 - old_qty.0)
                } else {
                    with_more(e0, 2, old_qty.0 - qty.0)
                };
                let e2 = Entry {
                    limit: Some(price),
                    resting: if priority == Priority::Lost {
                        None
                    } else {
                        e1.resting
                    },
                    ..e1
                };
                Ok((Ledger { orders: m.insert(id.0, e2), ..l }, None))
            }
        },
        Event::Trade { maker, taker, taker_side, price, qty } => if !m.contains_key(maker.0) {
            Err(fault("I1"@, never_accepted_text(maker.0)))
        } else {
            let mk = m[maker.0];
            if mk.resting is None {
                Err(fault("I9"@, not_resting_text(maker.0)))
            } else if mk.side == taker_side {
                Err(fault("I9"@, same_side_text(maker.0)))
            } else if price != mk.resting.unwrap().price {
                Err(fault("I9"@, off_price_text(price, maker.0, mk.resting.unwrap().price)))
            } else {
                let m1 = m.insert(maker.0, with_more(mk, 1, qty.0 as int));
                if !m1.contains_key(taker.0) {
                    Err(fault("I1"@, never_accepted_text(taker.0)))
                } else {
                    let tk = m1[taker.0];
                    if tk.side != taker_side {
                        Err(fault("I9"@, taker_side_text(taker.0)))
                    } else if tk.limit is Some && !spec_crosses(
                        taker_side,
                        tk.limit.unwrap().0,
                        price.0,
                    ) {
                        Err(fault("I9"@, outside_limit_text(taker.0, price, tk.limit)))
                    } else {
                        let maker_seq = mk.resting.unwrap().seq;
                        let worse = match last {
                            Some(f) => {
                                let not_worse = match taker_side {
                                    Side::Buy => price.0 >= f.price.0,
                                    Side::Sell => price.0 <= f.price.0,
                                };
                                !not_worse || (price == f.price && maker_seq.0 <= f.seq.0)
                            },
                            None => false,
                        };
                        if worse {
                            Err(fault("I10"@, priority_text(taker.0, maker.0, price, last.unwrap().price)))
                        } else {
                            let m2 = m1.insert(taker.0, with_more(tk, 1, qty.0 as int));
                            Ok(
                                (
                                    Ledger {
                                        orders: m2,
                                        buy: (l.buy + qty.0) as u128,
                                        sell: (l.sell + qty.0) as u128,
                                        traded: (l.traded + qty.0) as u128,
                                    },
                                    Some(Place { price, seq: maker_seq }),
                                ),
                            )
                        }
                    }
                }
            }
        },
        Event::Filled { id } => if !m.contains_key(id.0) {
            Err(fault("I1"@, never_accepted_text(id.0)))
        } else if open_of(m[id.0]) != Some(0u128) {
            Err(fault("I1"@, filled_text(id.0, open_of(m[id.0]))))
        } else {
            Ok((Ledger { orders: m.insert(id.0, Entry { resting: None, ..m[id.0] }), ..l }, last))
        },
        Event::Rested { id, side, price, qty, seq } => if !m.contains_key(id.0) {
            Err(fault("I1"@, never_accepted_text(id.0)))
        } else {
            let e0 = m[id.0];
            if e0.side != side || open_of(e0) != Some(qty.0 as u128) || e0.resting is Some {
                Err(fault("I1"@, rested_text(id.0, qty.0, open_of(e0))))
            } else {
                Ok(
                    (
                        Ledger {
                            orders: m.insert(id.0, Entry { resting: Some(Place { price, seq }), ..e0 }),
                            ..l
                        },
                        last,
                    ),
                )
            }
        },
        Event::Cancelled { id, qty, .. } => if !m.contains_key(id.0) {
            Err(fault("I1"@, never_accepted_text(id.0)))
        } else {
            let e1 = with_more(m[id.0], 2, qty.0 as int);
            if open_of(e1) != Some(0u128) {
                Err(fault("I1"@, cancelled_text(id.0, qty.0, open_of(e1))))
            } else {
                Ok((Ledger { orders: m.insert(id.0, Entry { resting: None, ..e1 }), ..l }, last))
            }
        },
        Event::Rejected { .. } => Err(fault("I3"@, stray_rejection_text())),
    }
}

/// The events of one command applied in order from `l`.
pub open spec fn steps_spec(l: Ledger, last: Option<Place>, events: Seq<Event>) -> Result<Ledger, Fault>
    decreases events.len(),
{
    if events.len() == 0 {
        Ok(l)
    } else {
        match step_spec(l, last, events[0]) {
            Err(v) => Err(v),
            Ok((l1, last1)) => steps_spec(l1, last1, events.drop_first()),
        }
    }
}

/// The checks of one command's events: a command emits events (I3); a
/// rejection is its only event (I3); every event balances the ledger (I1),
/// trades at the maker's price within the taker's limit (I9) in priority
/// order (I10); and buy fills, sell fills and traded quantity agree (I2).
pub open spec fn check_events_spec(l: Ledger, cmd: Command, events: Seq<Event>) -> Result<Ledger, Fault> {
    if events.len() == 0 {
        Err(fault("I3"@, no_events_text(cmd)))
    } else if events.len() == 1 && events[0] is Rejected {
        Ok(l)
    } else if exists|i: int| 0 <= i < events.len() && #[trigger] events[i] is Rejected {
        Err(fault("I3"@, mixed_rejection_text(cmd)))
    } else {
        match steps_spec(l, None, events) {
            Err(v) => Err(v),
            Ok(l1) => if l1.buy != l1.traded || l1.sell != l1.traded {
                Err(fault("I2"@, fills_text(l1.buy, l1.sell, l1.traded)))
            } else {
                Ok(l1)
            },
        }
    }
}

/// Where the book has an order: its price and priority.
pub open spec fn place_of(o: Option<RestingOrder>) -> Option<Place> {
    match o {
        Some(o) => Some(Place { price: o.price, seq: o.seq }),
        None => None,
    }
}

/// The book's open quantity of an order: `0` when it does not rest.
pub open spec fn open_in_book(o: Option<RestingOrder>) -> nat {
    match o {
        Some(o) => o.qty.0 as nat,
        None => 0,
    }
}

/// I1 and I5 for order `id`: `A = F + O + C` with the book's open
/// quantity, and the order rests where the ledger expects.
pub open spec fn balance_spec(id: u64, e: Entry, o: Option<RestingOrder>) -> Result<(), Fault> {
    if e.filled + open_in_book(o) + e.cancelled != e.accepted {
        Err(fault("I1"@, unbalanced_text(id, e, open_in_book(o))))
    } else if e.resting != place_of(o) {
        Err(fault("I5"@, misplaced_text(id, e.resting, place_of(o))))
    } else {
        Ok(())
    }
}

/// The order an event is about: its id, or the maker of a trade.
pub open spec fn touched(e: Event) -> Option<u64> {
    match e {
        Event::Accepted { id, .. } => Some(id.0),
        Event::Amended { id, .. } => Some(id.0),
        Event::Filled { id } => Some(id.0),
        Event::Rested { id, .. } => Some(id.0),
        Event::Cancelled { id, .. } => Some(id.0),
        Event::Trade { maker, .. } => Some(maker.0),
        Event::Rejected { .. } => None,
    }
}

/// Every order an event of `events` is about, in `m`.
pub open spec fn touched_in(m: Map<u64, Entry>, events: Seq<Event>) -> bool {
    forall|i: int|
        0 <= i < events.len() && #[trigger] touched(events[i]) is Some ==> m.contains_key(
            touched(events[i]).unwrap(),
        )
}

/// I1 and I5 for the orders the events are about, in event order, then the
/// number of resting orders against the book's.
pub open spec fn reconcile_spec(m: Map<u64, Entry>, events: Seq<Event>, b: OrderBook) -> Result<(), Fault>
    decreases events.len(),
{
    if events.len() == 0 {
        let n = b.queue(Side::Buy).len() + b.queue(Side::Sell).len();
        if resting_count(m) != n {
            Err(fault("I1"@, count_text(resting_count(m), n)))
        } else {
            Ok(())
        }
    } else {
        match touched(events[0]) {
            Some(id) => match balance_spec(id, m[id], b.find(OrderId(id))) {
                Err(v) => Err(v),
                Ok(_) => reconcile_spec(m, events.drop_first(), b),
            },
            None => reconcile_spec(m, events.drop_first(), b),
        }
    }
}

/// I1 and I5 for the orders `ids`, in order.
pub open spec fn reconcile_ids_spec(m: Map<u64, Entry>, ids: Seq<u64>, b: OrderBook) -> Result<(), Fault>
    decreases ids.len(),
{
    if ids.len() == 0 {
        Ok(())
    } else {
        match balance_spec(ids[0], m[ids[0]], b.find(OrderId(ids[0]))) {
            Err(v) => Err(v),
            Ok(_) => reconcile_ids_spec(m, ids.drop_first(), b),
        }
    }
}
/// The ids of `m` in increasing order.
pub open spec fn sorted_ids(m: Map<u64, Entry>, ids: Seq<u64>) -> bool {
    &&& forall|i: int, j: int| 0 <= i < j < ids.len() ==> ids[i] < ids[j]
    &&& forall|k: u64| m.contains_key(k) <==> ids.contains(k)
}

/// Price-time priority (I10): when a taker's second fill of a command is at
/// a better price than its first (lower for a buyer, higher for a seller),
/// or at the same price with a maker whose sequence number is not above the
/// first maker's, the command's events are rejected as an I10 violation,
/// whatever follows them.
pub proof fn lemma_fill_priority(
    l: Ledger,
    cmd: Command,
    t: u64,
    side: Side,
    a: u64,
    b: u64,
    pa: Price,
    pb: Price,
    sa: SeqNo,
    sb: SeqNo,
    qa: Qty,
    qb: Qty,
    rest: Seq<Event>,
)
    requires
        a != b && a != t && b != t,
        l.orders.contains_key(a) && l.orders.contains_key(b) && l.orders.contains_key(t),
        l.orders[a].side != side && l.orders[b].side != side && l.orders[t].side == side,
        l.orders[a].resting == Some(Place { price: pa, seq: sa }),
        l.orders[b].resting == Some(Place { price: pb, seq: sb }),
        (side == Side::Buy && pb.0 < pa.0) || (side == Side::Sell && pb.0 > pa.0) || (pb == pa && sb.0
            <= sa.0),
        l.orders[t].limit is Some ==> spec_crosses(side, l.orders[t].limit.unwrap().0, pa.0),
        l.orders[t].limit is Some ==> spec_crosses(side, l.orders[t].limit.unwrap().0, pb.0),
        forall|i: int| 0 <= i < rest.len() ==> !(#[trigger] rest[i] is Rejected),
    ensures
        ({
            let ev = seq![
                Event::Trade { maker: OrderId(a), taker: OrderId(t), taker_side: side, price: pa, qty: qa },
                Event::Trade { maker: OrderId(b), taker: OrderId(t), taker_side: side, price: pb, qty: qb },
            ] + rest;
            check_events_spec(l, cmd, ev) matches Err(f) && f.label == "I10"@
        }),
{
    let ta = Event::Trade { maker: OrderId(a), taker: OrderId(t), taker_side: side, price: pa, qty: qa };
    let tb = Event::Trade { maker: OrderId(b), taker: OrderId(t), taker_side: side, price: pb, qty: qb };
    let ev = seq![ta, tb] + rest;
    assert(ev[0] == ta && ev[1] == tb);
    assert forall|i: int| 0 <= i < ev.len() implies !(#[trigger] ev[i] is Rejected) by {
        if i >= 2 {
            assert(ev[i] == rest[i - 2]);
        }
    }
    let r1 = step_spec(l, None, ta);
    assert(r1 is Ok);
    let (l1, last1) = r1->Ok_0;
    assert(last1 == Some(Place { price: pa, seq: sa }));
    assert(l1.orders[b] == l.orders[b]);
    assert(l1.orders[t] == with_more(l.orders[t], 1, qa.0 as int));
    assert(l1.orders[t].side == side && l1.orders[t].limit == l.orders[t].limit);
    let tail = ev.drop_first();
    assert(tail =~= seq![tb] + rest);
    assert(tail[0] == tb);
    assert(step_spec(l1, last1, tb) is Err);
    assert(step_spec(l1, last1, tb)->Err_0.label == "I10"@);
    assert(steps_spec(l1, last1, tail) == Err::<Ledger, Fault>(step_spec(l1, last1, tb)->Err_0));
    assert(steps_spec(l, None, ev) == steps_spec(l1, last1, tail));
}

/// Order `k` balances against the book and rests where the ledger has it.
pub open spec fn balances(m: Map<u64, Entry>, k: u64, b: OrderBook) -> bool {
    balance_spec(k, m[k], b.find(OrderId(k))) is Ok
}

/// The checks of `reconcile_ids_spec` in order: it passes exactly when every
/// order of `ids` balances, and otherwise reports the first that does not.
pub proof fn lemma_reconcile_ids_first(m: Map<u64, Entry>, ids: Seq<u64>, b: OrderBook)
    ensures
        reconcile_ids_spec(m, ids, b) is Ok <==> forall|i: int| 0 <= i < ids.len() ==> balances(m, #[trigger] ids[i], b),
        reconcile_ids_spec(m, ids, b) is Err ==> exists|i: int|
            0 <= i < ids.len() && reconcile_ids_spec(m, ids, b) == balance_spec(
                ids[i],
                m[ids[i]],
                b.find(OrderId(ids[i])),
            ) && forall|j: int| 0 <= j < i ==> balances(m, #[trigger] ids[j], b),
    decreases ids.len(),
{
    if ids.len() > 0 {
        let t = ids.drop_first();
        lemma_reconcile_ids_first(m, t, b);
        if balances(m, ids[0], b) {
            assert forall|i: int| 0 <= i < t.len() implies #[trigger] t[i] == ids[i + 1] by {}
            if reconcile_ids_spec(m, ids, b) is Ok {
                assert forall|i: int| 0 <= i < ids.len() implies balances(m, #[trigger] ids[i], b) by {
                    if i > 0 {
                        assert(ids[i] == t[i - 1]);
                    }
                }
            } else {
                let i = choose|i: int|
                    0 <= i < t.len() && reconcile_ids_spec(m, t, b) == balance_spec(
                        t[i],
                        m[t[i]],
                        b.find(OrderId(t[i])),
                    ) && forall|j: int| 0 <= j < i ==> balances(m, #[trigger] t[j], b);
                assert(ids[i + 1] == t[i]);
                assert forall|j: int| 0 <= j < i + 1 implies balances(m, #[trigger] ids[j], b) by {
                    if j > 0 {
                        assert(ids[j] == t[j - 1]);
                    }
                }
                assert(!balances(m, t[i], b));
            }
        }
    }
}

/// The full reconcile of a ledger: it passes exactly when every order the
/// ledger has seen balances (`A = F + O + C` with the book's open quantity)
/// and rests where the ledger records it; otherwise it reports the order
/// with the smallest id that does not, as I1 for the balance or I5 for the
/// place.
pub proof fn lemma_reconcile_all(m: Map<u64, Entry>, ids: Seq<u64>, b: OrderBook)
    requires
        sorted_ids(m, ids),
    ensures
        reconcile_ids_spec(m, ids, b) is Ok <==> forall|k: u64| #[trigger] m.contains_key(k) ==> balances(m, k, b),
        reconcile_ids_spec(m, ids, b) is Err ==> exists|k: u64|
            #[trigger] m.contains_key(k) && reconcile_ids_spec(m, ids, b) == balance_spec(k, m[k], b.find(OrderId(k)))
                && forall|j: u64| #[trigger] m.contains_key(j) && j < k ==> balances(m, j, b),
        forall|k: u64| #[trigger] m.contains_key(k) ==> (balances(m, k, b) <==> {
            let o = b.find(OrderId(k));
            &&& m[k].filled + open_in_book(o) + m[k].cancelled == m[k].accepted
            &&& m[k].resting == place_of(o)
        }),
        forall|k: u64| #[trigger] m.contains_key(k) && !balances(m, k, b) ==> {
            let f = balance_spec(k, m[k], b.find(OrderId(k)))->Err_0;
            f.label == "I1"@ || f.label == "I5"@
        },
{
    lemma_reconcile_ids_first(m, ids, b);
    if reconcile_ids_spec(m, ids, b) is Ok {
        assert forall|k: u64| #[trigger] m.contains_key(k) implies balances(m, k, b) by {
            assert(ids.contains(k));
            let i = choose|i: int| 0 <= i < ids.len() && ids[i] == k;
            assert(balances(m, ids[i], b));
        }
    } else {
        let i = choose|i: int|
            0 <= i < ids.len() && reconcile_ids_spec(m, ids, b) == balance_spec(
                ids[i],
                m[ids[i]],
                b.find(OrderId(ids[i])),
            ) && forall|j: int| 0 <= j < i ==> balances(m, #[trigger] ids[j], b);
        let k = ids[i];
        assert(ids.contains(k));
        assert(m.contains_key(k));
        assert forall|j: u64| #[trigger] m.contains_key(j) && j < k implies balances(m, j, b) by {
            assert(ids.contains(j));
            let x = choose|x: int| 0 <= x < ids.len() && ids[x] == j;
            if x >= i {
                if x > i {
                    assert(ids[i] < ids[x]);
                }
            }
            assert(balances(m, ids[x], b));
        }
        if forall|k2: u64| #[trigger] m.contains_key(k2) ==> balances(m, k2, b) {
            assert(balances(m, k, b));
        }
    }
    assert forall|i: int| 0 <= i < ids.len() implies m.contains_key(#[trigger] ids[i]) by {
        assert(ids.contains(ids[i]));
    }
    if forall|k2: u64| #[trigger] m.contains_key(k2) ==> balances(m, k2, b) {
        assert forall|i: int| 0 <= i < ids.len() implies balances(m, #[trigger] ids[i], b) by {
            assert(m.contains_key(ids[i]));
        }
    }
}

/// The ledger entry of a resting order restored from a snapshot: accepted
/// with its open quantity, resting where it is.
pub open spec fn restored_entry(o: RestingOrder) -> Entry {
    Entry {
        side: o.side,
        limit: Some(o.price),
        resting: Some(Place { price: o.price, seq: o.seq }),
        accepted: o.qty.0 as u128,
        filled: 0,
        cancelled: 0,
    }
}

/// The entries of the orders `os`, a later order with an id replacing an
/// earlier one.
pub open spec fn restored(os: Seq<RestingOrder>) -> Map<u64, Entry>
    decreases os.len(),
{
    if os.len() == 0 {
        Map::empty()
    } else {
        restored(os.drop_last()).insert(os.last().id.0, restored_entry(os.last()))
    }
}

proof fn lemma_step_keeps(l: Ledger, last: Option<Place>, e: Event)
    requires
        step_spec(l, last, e) is Ok,
    ensures
        forall|k: u64| l.orders.contains_key(k) ==> step_spec(l, last, e)->Ok_0.0.orders.contains_key(k),
        touched(e) is Some ==> step_spec(l, last, e)->Ok_0.0.orders.contains_key(touched(e).unwrap()),
{
}

/// The ledger after a command's accepted events has every order they are
/// about.
pub proof fn lemma_checked_touched(l: Ledger, cmd: Command, events: Seq<Event>)
    requires
        check_events_spec(l, cmd, events) is Ok,
    ensures
        touched_in(check_events_spec(l, cmd, events)->Ok_0.orders, events),
{
    if !(events.len() == 1 && events[0] is Rejected) {
        lemma_steps_touched(l, None, events);
    }
}

proof fn lemma_steps_touched(l: Ledger, last: Option<Place>, events: Seq<Event>)
    requires
        steps_spec(l, last, events) is Ok,
    ensures
        touched_in(steps_spec(l, last, events)->Ok_0.orders, events),
        forall|k: u64| l.orders.contains_key(k) ==> steps_spec(l, last, events)->Ok_0.orders.contains_key(k),
    decreases events.len(),
{
    if events.len() > 0 {
        lemma_step_keeps(l, last, events[0]);
        let (l1, last1) = step_spec(l, last, events[0])->Ok_0;
        lemma_steps_touched(l1, last1, events.drop_first());
        let r = steps_spec(l, last, events)->Ok_0;
        assert forall|i: int|
            0 <= i < events.len() && #[trigger] touched(events[i]) is Some implies r.orders.contains_key(
            touched(events[i]).unwrap(),
        ) by {
            if i > 0 {
                assert(events[i] == events.drop_first()[i - 1]);
            }
        }
    }
}

fn restore_entry(o: &RestingOrder) -> (e: Entry)
    ensures
        e == restored_entry(*o),
{
    Entry {
        side: o.side,
        limit: Some(o.price),
        resting: Some(Place { price: o.price, seq: o.seq }),
        accepted: o.qty.0 as u128,
        filled: 0,
        cancelled: 0,
    }
}

/// Quantity one event can add to any running sum, twice over.
pub open spec fn per_event() -> int {
    0x2_0000_0000_0000_0000
}

fn violation(label: &'static str, detail: &Vec<char>) -> (v: Violation)
    ensures
        v.invariant == label,
        v.detail@ == detail@,
{
    Violation { invariant: label, detail: string_of(detail) }
}

/// How an open quantity reads in a violation's detail: `Some(n)` or `None`.
pub open spec fn open_text(o: Option<u128>) -> Seq<char> {
    match o {
        Some(v) => "Some("@ + dec(v as nat) + ")"@,
        None => "None"@,
    }
}

fn push_open(out: &mut Vec<char>, o: Option<u128>)
    ensures
        final(out)@ == old(out)@ + open_text(o),
{
    broadcast use crate::text::lemma_add_assoc;
    match o {
        Some(v) => {
            push_str(out, "Some(");
            push_dec_wide(out, v);
            push_str(out, ")");
        },
        None => push_str(out, "None"),
    }
}

fn open_exec(e: &Entry) -> (r: Option<u128>)
    ensures
        r == open_of(*e),
{
    if e.filled <= e.accepted && e.cancelled <= e.accepted - e.filled {
        Some(e.accepted - e.filled - e.cancelled)
    } else {
        None
    }
}

fn push_limit(out: &mut Vec<char>, l: Option<Price>)
    ensures
        final(out)@ == old(out)@ + limit_text(l),
{
    broadcast use crate::text::lemma_add_assoc;
    match l {
        Some(p) => {
            push_str(out, "Some(Price(");
            push_dec_i64(out, p.0);
            push_str(out, "))");
        },
        None => push_str(out, "None"),
    }
}

fn push_place(out: &mut Vec<char>, p: Option<Place>)
    ensures
        final(out)@ == old(out)@ + place_text(p),
{
    broadcast use crate::text::lemma_add_assoc;
    match p {
        Some(pl) => {
            push_str(out, "Some((Price(");
            push_dec_i64(out, pl.price.0);
            push_str(out, "), Seq(");
            push_dec(out, pl.seq.0);
            push_str(out, ")))");
        },
        None => push_str(out, "None"),
    }
}

fn accepted_twice(id: u64) -> (v: Violation)
    ensures
        reports(Err(v), fault("I1"@, accepted_twice_text(id))),
{
    let mut d = chars_of("order ");
    push_dec(&mut d, id);
    push_str(&mut d, " accepted twice");
    violation("I1", &d)
}

fn never_accepted(id: u64) -> (v: Violation)
    ensures
        reports(Err(v), fault("I1"@, never_accepted_text(id))),
{
    let mut d = chars_of("event for order ");
    push_dec(&mut d, id);
    push_str(&mut d, " that was never accepted");
    violation("I1", &d)
}

fn amend_mismatch(id: u64, old_qty: u64, open: Option<u128>) -> (v: Violation)
    ensures
        reports(Err(v), fault("I1"@, amend_text(id, old_qty, open))),
{
    let mut d = chars_of("amend of ");
    push_dec(&mut d, id);
    push_str(&mut d, " from ");
    push_dec(&mut d, old_qty);
    push_str(&mut d, ", ledger has ");
    push_open(&mut d, open);
    push_str(&mut d, " open");
    violation("I1", &d)
}

fn not_resting(maker: u64) -> (v: Violation)
    ensures
        reports(Err(v), fault("I9"@, not_resting_text(maker))),
{
    let mut d = chars_of("maker ");
    push_dec(&mut d, maker);
    push_str(&mut d, " was not resting");
    violation("I9", &d)
}

fn same_side(maker: u64) -> (v: Violation)
    ensures
        reports(Err(v), fault("I9"@, same_side_text(maker))),
{
    let mut d = chars_of("maker ");
    push_dec(&mut d, maker);
    push_str(&mut d, " is on the taker's side");
    violation("I9", &d)
}

fn off_price(price: Price, maker: u64, maker_price: Price) -> (v: Violation)
    ensures
        reports(Err(v), fault("I9"@, off_price_text(price, maker, maker_price))),
{
    let mut d = chars_of("trade at ");
    push_dec_i64(&mut d, price.0);
    push_str(&mut d, " but maker ");
    push_dec(&mut d, maker);
    push_str(&mut d, " rests at ");
    push_dec_i64(&mut d, maker_price.0);
    violation("I9", &d)
}

fn wrong_taker_side(taker: u64) -> (v: Violation)
    ensures
        reports(Err(v), fault("I9"@, taker_side_text(taker))),
{
    let mut d = chars_of("taker ");
    push_dec(&mut d, taker);
    push_str(&mut d, " side mismatch");
    violation("I9", &d)
}

fn outside_limit(taker: u64, price: Price, limit: Option<Price>) -> (v: Violation)
    ensures
        reports(Err(v), fault("I9"@, outside_limit_text(taker, price, limit))),
{
    let mut d = chars_of("taker ");
    push_dec(&mut d, taker);
    push_str(&mut d, " traded at ");
    push_dec_i64(&mut d, price.0);
    push_str(&mut d, " outside its limit ");
    push_limit(&mut d, limit);
    violation("I9", &d)
}

fn out_of_priority(taker: u64, maker: u64, price: Price, prev: Price) -> (v: Violation)
    ensures
        reports(Err(v), fault("I10"@, priority_text(taker, maker, price, prev))),
{
    let mut d = chars_of("taker ");
    push_dec(&mut d, taker);
    push_str(&mut d, " filled maker ");
    push_dec(&mut d, maker);
    push_str(&mut d, " at ");
    push_dec_i64(&mut d, price.0);
    push_str(&mut d, " after ");
    push_dec_i64(&mut d, prev.0);
    violation("I10", &d)
}

fn filled_open(id: u64, open: Option<u128>) -> (v: Violation)
    ensures
        reports(Err(v), fault("I1"@, filled_text(id, open))),
{
    let mut d = chars_of("order ");
    push_dec(&mut d, id);
    push_str(&mut d, " reported filled with ");
    push_open(&mut d, open);
    push_str(&mut d, " open");
    violation("I1", &d)
}

fn rested_open(id: u64, qty: u64, open: Option<u128>) -> (v: Violation)
    ensures
        reports(Err(v), fault("I1"@, rested_text(id, qty, open))),
{
    let mut d = chars_of("order ");
    push_dec(&mut d, id);
    push_str(&mut d, " rested ");
    push_dec(&mut d, qty);
    push_str(&mut d, ", ledger has ");
    push_open(&mut d, open);
    push_str(&mut d, " open");
    violation("I1", &d)
}

fn cancelled_open(id: u64, qty: u64, open: Option<u128>) -> (v: Violation)
    ensures
        reports(Err(v), fault("I1"@, cancelled_text(id, qty, open))),
{
    let mut d = chars_of("order ");
    push_dec(&mut d, id);
    push_str(&mut d, " cancelled ");
    push_dec(&mut d, qty);
    push_str(&mut d, " leaving ");
    push_open(&mut d, open);
    push_str(&mut d, " open");
    violation("I1", &d)
}

fn stray_rejection() -> (v: Violation)
    ensures
        reports(Err(v), fault("I3"@, stray_rejection_text())),
{
    let d = chars_of("a rejection among other events");
    violation("I3", &d)
}

fn unbalanced_fills(buy: u128, sell: u128, traded: u128) -> (v: Violation)
    ensures
        reports(Err(v), fault("I2"@, fills_text(buy, sell, traded))),
{
    let mut d = chars_of("buy fills ");
    push_dec_wide(&mut d, buy);
    push_str(&mut d, " / sell fills ");
    push_dec_wide(&mut d, sell);
    push_str(&mut d, " / traded ");
    push_dec_wide(&mut d, traded);
    violation("I2", &d)
}

fn no_events(cmd: Command) -> (v: Violation)
    ensures
        reports(Err(v), fault("I3"@, no_events_text(cmd))),
{
    let mut d = chars_of("`");
    push_command(&mut d, cmd);
    push_str(&mut d, "` emitted no events");
    violation("I3", &d)
}

fn mixed_rejection(cmd: Command) -> (v: Violation)
    ensures
        reports(Err(v), fault("I3"@, mixed_rejection_text(cmd))),
{
    let mut d = chars_of("`");
    push_command(&mut d, cmd);
    push_str(&mut d, "` was rejected but also emitted other events");
    violation("I3", &d)
}

fn count_mismatch(ledger: usize, book: usize) -> (v: Violation)
    ensures
        reports(Err(v), fault("I1"@, count_text(ledger as nat, book as nat))),
{
    let mut d = chars_of("ledger has ");
    push_dec(&mut d, ledger as u64);
    push_str(&mut d, " resting orders, book has ");
    push_dec(&mut d, book as u64);
    violation("I1", &d)
}

fn unbalanced(id: u64, e: &Entry, open: u128) -> (v: Violation)
    ensures
        reports(Err(v), fault("I1"@, unbalanced_text(id, *e, open as nat))),
{
    let mut d = chars_of("order ");
    push_dec(&mut d, id);
    push_str(&mut d, ": accepted ");
    push_dec_wide(&mut d, e.accepted);
    push_str(&mut d, " != filled ");
    push_dec_wide(&mut d, e.filled);
    push_str(&mut d, " + open ");
    push_dec_wide(&mut d, open);
    push_str(&mut d, " + cancelled ");
    push_dec_wide(&mut d, e.cancelled);
    violation("I1", &d)
}

fn misplaced(id: u64, expected: Option<Place>, actual: Option<Place>) -> (v: Violation)
    ensures
        reports(Err(v), fault("I5"@, misplaced_text(id, expected, actual))),
{
    let mut d = chars_of("order ");
    push_dec(&mut d, id);
    push_str(&mut d, ": ledger expects resting at ");
    push_place(&mut d, expected);
    push_str(&mut d, ", book has ");
    push_place(&mut d, actual);
    violation("I5", &d)
}

/// Checks each command's events and the resulting book against I1-I10.
///
/// Feed it every command, the events it produced and the book afterwards.
pub struct Auditor {
    orders: BTreeMap<u64, Entry>,
    resting: usize,
    buy_filled: u128,
    sell_filled: u128,
    traded: u128,
    /// Bound on every running sum of the ledger.
    volume: Ghost<int>,
}

impl Auditor {
    /// The ledger as values.
    pub closed spec fn ledger(self) -> Ledger {
        Ledger {
            orders: self.orders@,
            buy: self.buy_filled,
            sell: self.sell_filled,
            traded: self.traded,
        }
    }

    /// A bound on every running sum of the ledger: it grows by
    /// `per_event()` with each event observed.
    pub closed spec fn volume(self) -> int {
        self.volume@
    }

    /// The auditor's internal invariant.
    pub closed spec fn inv(self) -> bool {
        &&& self.orders@.dom().finite()
        &&& self.resting == resting_count(self.orders@)
        &&& 0 <= self.volume@
        &&& forall|id: u64| #[trigger] self.orders@.contains_key(id) ==> {
            let e = self.orders@[id];
            e.accepted <= self.volume@ && e.filled <= self.volume@ && e.cancelled <= self.volume@
        }
        &&& self.buy_filled <= self.volume@
        &&& self.sell_filled <= self.volume@
        &&& self.traded <= self.volume@
    }

    /// Under the invariant every running sum is at most `volume()`, and the
    /// ledger holds finitely many orders.
    pub proof fn lemma_bounds(self)
        requires
            self.inv(),
        ensures
            self.ledger().orders.dom().finite(),
            0 <= self.volume(),
            forall|k: u64| #[trigger]
                self.ledger().orders.contains_key(k) ==> self.ledger().orders[k].accepted <= self.volume()
                    && self.ledger().orders[k].filled <= self.volume() && self.ledger().orders[k].cancelled
                    <= self.volume(),
            self.ledger().buy <= self.volume(),
            self.ledger().sell <= self.volume(),
            self.ledger().traded <= self.volume(),
    {
    }

    /// An auditor for an engine starting from an empty book.
    pub fn new() -> (a: Auditor)
        ensures
            a.inv(),
            a.ledger() == (Ledger { orders: Map::empty(), buy: 0, sell: 0, traded: 0 }),
            a.volume() == 0,
    {
        broadcast use vstd::std_specs::btree::group_btree_axioms;
        let a = Auditor {
            orders: BTreeMap::new(),
            resting: 0,
            buy_filled: 0,
            sell_filled: 0,
            traded: 0,
            volume: Ghost(0),
        };
        proof {
            assert(a.orders@.dom().filter(|id: u64| a.orders@[id].resting is Some) =~= Set::<u64>::empty());
        }
        a
    }

    /// The entry of `id`, if the ledger has one.
    fn entry(&self, id: u64) -> (r: Option<Entry>)
        ensures
            r == (if self.orders@.contains_key(id) {
                Some(self.orders@[id])
            } else {
                None::<Entry>
            }),
    {
        broadcast use vstd::std_specs::btree::group_btree_axioms;
        proof {
            assert(vstd::laws_cmp::obeys_cmp::<u64>()) by {
                broadcast use vstd::laws_cmp::group_laws_cmp;
            }
        }
        match self.orders.get(&id) {
            Some(e) => Some(*e),
            None => None,
        }
    }

    /// Records `e` as the entry of `id`, keeping the resting count.
    fn put(&mut self, id: u64, e: Entry)
        requires
            old(self).orders@.dom().finite(),
            old(self).resting == resting_count(old(self).orders@),
        ensures
            final(self).orders@ == old(self).orders@.insert(id, e),
            final(self).orders@.dom().finite(),
            final(self).resting == resting_count(final(self).orders@),
            final(self).buy_filled == old(self).buy_filled,
            final(self).sell_filled == old(self).sell_filled,
            final(self).traded == old(self).traded,
            final(self).volume == old(self).volume,
    {
        broadcast use vstd::std_specs::btree::group_btree_axioms;
        proof {
            assert(vstd::laws_cmp::obeys_cmp::<u64>()) by {
                broadcast use vstd::laws_cmp::group_laws_cmp;
            }
        }
        let ghost m0 = self.orders@;
        let was = match self.orders.get(&id) {
            Some(x) => x.resting.is_some(),
            None => false,
        };
        let now = e.resting.is_some();
        self.orders.insert(id, e);
        let n = self.orders.len();
        proof {
            let m1 = self.orders@;
            let f0 = |k: u64| m0[k].resting is Some;
            let f1 = |k: u64| m1[k].resting is Some;
            let s0 = m0.dom().filter(f0);
            let s1 = m1.dom().filter(f1);
            m0.dom().lemma_len_filter(f0);
            m1.dom().lemma_len_filter(f1);
            let base = s0.remove(id);
            if now {
                assert(s1 =~= base.insert(id));
            } else {
                assert(s1 =~= base);
            }
            assert(n == m1.dom().len());
        }
        if was && !now {
            self.resting = self.resting - 1;
        } else if !was && now {
            self.resting = self.resting + 1;
        }
    }

    /// Total traded quantity seen so far.
    pub fn traded(&self) -> (t: u128)
        ensures
            t == self.ledger().traded,
    {
        self.traded
    }

    /// One event, with the previous fill of the current taker.
    #[verifier::rlimit(80)]
    fn step(&mut self, ev: &Event, last: &mut Option<Place>) -> (r: Result<(), Violation>)
        requires
            old(self).inv(),
            old(self).volume() + per_event() <= u128::MAX,
        ensures
            match step_spec(old(self).ledger(), *old(last), *ev) {
                Ok((l1, last1)) => {
                    &&& r is Ok
                    &&& final(self).ledger() == l1
                    &&& *final(last) == last1
                    &&& final(self).inv()
                    &&& final(self).volume() == old(self).volume() + per_event()
                },
                Err(f) => reports(r, f),
            },
    {
        proof {
            self.volume@ = self.volume@ + per_event();
        }
        match *ev {
            Event::Accepted { id, side, kind, qty, .. } => {
                if self.entry(id.0).is_some() {
                    return Err(accepted_twice(id.0));
                }
                let fresh = Entry {
                    side,
                    limit: kind.limit(),
                    resting: None,
                    accepted: qty.0 as u128,
                    filled: 0,
                    cancelled: 0,
                };
                self.put(id.0, fresh);
                *last = None;
            },
            Event::Amended { id, price, old_qty, qty, priority, .. } => {
                let e = match self.entry(id.0) {
                    Some(e) => e,
                    None => return Err(never_accepted(id.0)),
                };
                let open = open_exec(&e);
                if e.resting.is_none() || open != Some(old_qty.0 as u128) {
                    return Err(amend_mismatch(id.0, old_qty.0, open));
                }
                let mut e1 = e;
                if qty.0 > old_qty.0 {
                    e1.accepted = e.accepted + (qty.0 - old_qty.0) as u128;
                } else {
                    e1.cancelled = e.cancelled + (old_qty.0 - qty.0) as u128;
                }
                e1.limit = Some(price);
                if priority == Priority::Lost {
                    e1.resting = None;
                }
                self.put(id.0, e1);
                *last = None;
            },
            Event::Trade { maker, taker, taker_side, price, qty } => {
                let q = qty.0 as u128;
                let m = match self.entry(maker.0) {
                    Some(m) => m,
                    None => return Err(never_accepted(maker.0)),
                };
                let spot = match m.resting {
                    Some(p) => p,
                    None => return Err(not_resting(maker.0)),
                };
                if m.side == taker_side {
                    return Err(same_side(maker.0));
                }
                if price.0 != spot.price.0 {
                    return Err(off_price(price, maker.0, spot.price));
                }
                let mut m1 = m;
                m1.filled = m.filled + q;
                self.put(maker.0, m1);
                let t = match self.entry(taker.0) {
                    Some(t) => t,
                    None => return Err(never_accepted(taker.0)),
                };
                if t.side != taker_side {
                    return Err(wrong_taker_side(taker.0));
                }
                if let Some(limit) = t.limit {
                    if !taker_side.crosses(limit, price) {
                        return Err(outside_limit(taker.0, price, t.limit));
                    }
                }
                if let Some(f) = *last {
                    let not_worse = match taker_side {
                        Side::Buy => price.0 >= f.price.0,
                        Side::Sell => price.0 <= f.price.0,
                    };
                    if !not_worse || (price.0 == f.price.0 && spot.seq.0 <= f.seq.0) {
                        return Err(out_of_priority(taker.0, maker.0, price, f.price));
                    }
                }
                let mut t1 = t;
                t1.filled = t.filled + q;
                self.put(taker.0, t1);
                *last = Some(Place { price, seq: spot.seq });
                self.buy_filled = self.buy_filled + q;
                self.sell_filled = self.sell_filled + q;
                self.traded = self.traded + q;
            },
            Event::Filled { id } => {
                let e = match self.entry(id.0) {
                    Some(e) => e,
                    None => return Err(never_accepted(id.0)),
                };
                let open = open_exec(&e);
                if open != Some(0u128) {
                    return Err(filled_open(id.0, open));
                }
                let mut e1 = e;
                e1.resting = None;
                self.put(id.0, e1);
            },
            Event::Rested { id, side, price, qty, seq } => {
                let e = match self.entry(id.0) {
                    Some(e) => e,
                    None => return Err(never_accepted(id.0)),
                };
                let open = open_exec(&e);
                if e.side != side || open != Some(qty.0 as u128) || e.resting.is_some() {
                    return Err(rested_open(id.0, qty.0, open));
                }
                let mut e1 = e;
                e1.resting = Some(Place { price, seq });
                self.put(id.0, e1);
            },
            Event::Cancelled { id, qty, .. } => {
                let e = match self.entry(id.0) {
                    Some(e) => e,
                    None => return Err(never_accepted(id.0)),
                };
                let mut e1 = e;
                e1.cancelled = e.cancelled + qty.0 as u128;
                let open = open_exec(&e1);
                if open != Some(0u128) {
                    return Err(cancelled_open(id.0, qty.0, open));
                }
                e1.resting = None;
                self.put(id.0, e1);
            },
            Event::Rejected { .. } => {
                return Err(stray_rejection());
            },
        }
        Ok(())
    }

    /// Checks one command's events.
    fn check_events(&mut self, cmd: &Command, events: &[Event]) -> (r: Result<(), Violation>)
        requires
            old(self).inv(),
            old(self).volume() + events@.len() * per_event() <= u128::MAX,
        ensures
            match check_events_spec(old(self).ledger(), *cmd, events@) {
                Ok(l1) => {
                    &&& r is Ok
                    &&& final(self).ledger() == l1
                    &&& final(self).inv()
                    &&& final(self).volume() <= old(self).volume() + events@.len() * per_event()
                    &&& touched_in(l1.orders, events@)
                },
                Err(f) => reports(r, f),
            },
    {
        let ghost l0 = self.ledger();
        let ghost v0 = self.volume();
        if events.len() == 0 {
            return Err(no_events(*cmd));
        }
        if events.len() == 1 {
            if let Event::Rejected { .. } = events[0] {
                return Ok(());
            }
        }
        let mut k: usize = 0;
        while k < events.len()
            invariant
                0 <= k <= events@.len(),
                events@.len() > 0,
                !(events@.len() == 1 && events@[0] is Rejected),
                forall|i: int| 0 <= i < k ==> !(#[trigger] events@[i] is Rejected),
            decreases events@.len() - k,
        {
            if let Event::Rejected { .. } = events[k] {
                proof {
                    assert(events@[k as int] is Rejected);
                }
                return Err(mixed_rejection(*cmd));
            }
            k = k + 1;
        }
        let mut last: Option<Place> = None;
        let mut i: usize = 0;
        proof {
            assert(events@.skip(0) =~= events@);
            assert(!(exists|j: int| 0 <= j < events@.len() && #[trigger] events@[j] is Rejected));
            if events@.len() == 1 {
                assert(!(events@[0] is Rejected));
            }
        }
        while i < events.len()
            invariant
                0 <= i <= events@.len(),
                self.inv(),
                forall|j: int| 0 <= j < events@.len() ==> !(#[trigger] events@[j] is Rejected),
                self.volume() == v0 + i * per_event(),
                v0 + events@.len() * per_event() <= u128::MAX,
                l0 == old(self).ledger(),
                events@.len() > 0,
                steps_spec(l0, None, events@) == steps_spec(self.ledger(), last, events@.skip(i as int)),
            decreases events@.len() - i,
        {
            proof {
                assert(events@.skip(i as int)[0] == events@[i as int]);
                assert(events@.skip(i as int).drop_first() =~= events@.skip(i as int + 1));
                assert(v0 + (i + 1) * per_event() <= v0 + events@.len() * per_event()) by (nonlinear_arith)
                    requires
                        i + 1 <= events@.len(),
                        per_event() >= 0,
                ;
            }
            let ghost li = self.ledger();
            let ghost lasti = last;
            match self.step(&events[i], &mut last) {
                Err(v) => {
                    proof {
                        assert(step_spec(li, lasti, events@[i as int]) is Err);
                        assert(steps_spec(li, lasti, events@.skip(i as int)) == Err::<Ledger, Fault>(
                            step_spec(li, lasti, events@[i as int])->Err_0,
                        ));
                    }
                    return Err(v);
                },
                Ok(()) => {},
            }
            i = i + 1;
        }
        proof {
            assert(events@.skip(i as int) =~= Seq::<Event>::empty());
            lemma_steps_touched(l0, None, events@);
        }
        if self.buy_filled != self.traded || self.sell_filled != self.traded {
            return Err(unbalanced_fills(self.buy_filled, self.sell_filled, self.traded));
        }
        Ok(())
    }

    /// I1 and I5 for one order against the book.
    fn balance(&self, id: u64, book: &OrderBook) -> (r: Result<(), Violation>)
        requires
            self.orders@.contains_key(id),
            book.wf(),
        ensures
            match balance_spec(id, self.orders@[id], book.find(OrderId(id))) {
                Ok(_) => r is Ok,
                Err(f) => reports(r, f),
            },
    {
        let e = self.entry(id).unwrap();
        let resting = book.order(OrderId(id));
        let open: u128 = match resting {
            Some(o) => o.qty.0 as u128,
            None => 0,
        };
        let sum = match e.filled.checked_add(open) {
            Some(x) => x.checked_add(e.cancelled),
            None => None,
        };
        if sum != Some(e.accepted) {
            return Err(unbalanced(id, &e, open));
        }
        let actual = match resting {
            Some(o) => Some(Place { price: o.price, seq: o.seq }),
            None => None,
        };
        if e.resting != actual {
            return Err(misplaced(id, e.resting, actual));
        }
        Ok(())
    }

    /// I1 against the book for every order the events touched, and the
    /// number of resting orders.
    fn reconcile(&self, events: &[Event], book: &OrderBook) -> (r: Result<(), Violation>)
        requires
            self.inv(),
            book.wf(),
            touched_in(self.orders@, events@),
        ensures
            match reconcile_spec(self.orders@, events@, *book) {
                Ok(_) => r is Ok,
                Err(f) => reports(r, f),
            },
    {
        let mut i: usize = 0;
        proof {
            assert(events@.skip(0) =~= events@);
        }
        while i < events.len()
            invariant
                0 <= i <= events@.len(),
                self.inv(),
                book.wf(),
                touched_in(self.orders@, events@),
                reconcile_spec(self.orders@, events@, *book) == reconcile_spec(
                    self.orders@,
                    events@.skip(i as int),
                    *book,
                ),
            decreases events@.len() - i,
        {
            proof {
                assert(events@.skip(i as int)[0] == events@[i as int]);
                assert(events@.skip(i as int).drop_first() =~= events@.skip(i as int + 1));
            }
            let id = match events[i] {
                Event::Accepted { id, .. } => Some(id.0),
                Event::Amended { id, .. } => Some(id.0),
                Event::Filled { id } => Some(id.0),
                Event::Rested { id, .. } => Some(id.0),
                Event::Cancelled { id, .. } => Some(id.0),
                Event::Trade { maker, .. } => Some(maker.0),
                Event::Rejected { .. } => None,
            };
            if let Some(id) = id {
                proof {
                    assert(touched(events@[i as int]) is Some);
                }
                self.balance(id, book)?;
            }
            i = i + 1;
        }
        proof {
            assert(events@.skip(i as int) =~= Seq::<Event>::empty());
        }
        let n = book.len();
        if self.resting != n {
            return Err(count_mismatch(self.resting, n));
        }
        Ok(())
    }

    /// Checks one command's events and the resulting book, returning the
    /// first invariant found broken.
    pub fn observe(&mut self, cmd: &Command, events: &[Event], book: &OrderBook) -> (r: Result<(), Violation>)
        requires
            old(self).inv(),
            old(self).volume() + events@.len() * per_event() <= u128::MAX,
            book.wf(),
        ensures
            match check_events_spec(old(self).ledger(), *cmd, events@) {
                Ok(l1) => {
                    &&& final(self).ledger() == l1
                    &&& final(self).inv()
                    &&& final(self).volume() <= old(self).volume() + events@.len() * per_event()
                    &&& match reconcile_spec(l1.orders, events@, *book) {
                        Ok(_) => r is Ok,
                        Err(f) => reports(r, f),
                    }
                },
                Err(f) => reports(r, f),
            },
    {
        self.check_events(cmd, events)?;
        self.reconcile(events, book)
    }

    /// Full I1 and I5 check over every order ever seen, in id order,
    /// returning the first order whose accounting does not balance.
    pub fn reconcile_all(&self, book: &OrderBook) -> (r: Result<(), Violation>)
        requires
            self.inv(),
            book.wf(),
        ensures
            forall|ids: Seq<u64>| #[trigger] sorted_ids(self.ledger().orders, ids) ==> match reconcile_ids_spec(
                self.ledger().orders,
                ids,
                *book,
            ) {
                Ok(_) => r is Ok,
                Err(f) => reports(r, f),
            },
            exists|ids: Seq<u64>| #[trigger] sorted_ids(self.ledger().orders, ids),
            r is Ok <==> forall|k: u64| #[trigger] self.ledger().orders.contains_key(k) ==> balances(
                self.ledger().orders,
                k,
                *book,
            ),
            r is Err ==> exists|k: u64|
                #[trigger] self.ledger().orders.contains_key(k) && reports(
                    r,
                    balance_spec(k, self.ledger().orders[k], book.find(OrderId(k)))->Err_0,
                ) && forall|j: u64| #[trigger] self.ledger().orders.contains_key(j) && j < k ==> balances(
                    self.ledger().orders,
                    j,
                    *book,
                ),
    {
        let ids = ledger_ids(&self.orders);
        let ghost ks = ids@;
        let mut i: usize = 0;
        proof {
            assert(ks.skip(0) =~= ks);
        }
        while i < ids.len()
            invariant
                ks == ids@,
                sorted_ids(self.orders@, ks),
                0 <= i <= ks.len(),
                self.inv(),
                book.wf(),
                reconcile_ids_spec(self.orders@, ks, *book) == reconcile_ids_spec(
                    self.orders@,
                    ks.skip(i as int),
                    *book,
                ),
            decreases ks.len() - i,
        {
            proof {
                assert(ks.skip(i as int)[0] == ks[i as int]);
                assert(ks.skip(i as int).drop_first() =~= ks.skip(i as int + 1));
                assert(ks.contains(ks[i as int]));
            }
            match self.balance(ids[i], book) {
                Err(v) => {
                    proof {
                        assert(sorted_ids(self.ledger().orders, ks));
                        assert forall|other: Seq<u64>| #[trigger] sorted_ids(self.orders@, other) implies other
                            == ks by {
                            lemma_sorted_unique(other, ks);
                        }
                        lemma_reconcile_all(self.orders@, ks, *book);
                    }
                    return Err(v);
                },
                Ok(()) => {},
            }
            i = i + 1;
        }
        proof {
            assert(sorted_ids(self.ledger().orders, ks));
            assert(ks.skip(i as int) =~= Seq::<u64>::empty());
            assert forall|other: Seq<u64>| #[trigger] sorted_ids(self.orders@, other) implies other == ks by {
                lemma_sorted_unique(other, ks);
            }
            lemma_reconcile_all(self.orders@, ks, *book);
        }
        Ok(())
    }

    /// An auditor for an engine restored from `snapshot`: orders already
    /// resting count as accepted with their current open quantity.
    pub fn from_snapshot(snapshot: &Snapshot) -> (a: Auditor)
        ensures
            a.inv(),
            a.ledger() == (Ledger {
                orders: restored(snapshot.bids@ + snapshot.asks@),
                buy: 0,
                sell: 0,
                traded: 0,
            }),
            a.volume() == 0x1_0000_0000_0000_0000,
    {
        let mut a = Auditor::new();
        proof {
            a.volume@ = 0x1_0000_0000_0000_0000;
        }
        let ghost all = snapshot.bids@ + snapshot.asks@;
        let mut i: usize = 0;
        while i < snapshot.bids.len()
            invariant
                all == snapshot.bids@ + snapshot.asks@,
                0 <= i <= snapshot.bids@.len(),
                a.inv(),
                a.volume() == 0x1_0000_0000_0000_0000,
                a.ledger() == (Ledger { orders: restored(all.take(i as int)), buy: 0, sell: 0, traded: 0 }),
            decreases snapshot.bids@.len() - i,
        {
            let o = snapshot.bids[i];
            proof {
                assert(o == all[i as int]);
                assert(all.take(i as int + 1).drop_last() =~= all.take(i as int));
            }
            a.put(o.id.0, restore_entry(&o));
            i = i + 1;
        }
        let nb = snapshot.bids.len();
        let mut j: usize = 0;
        while j < snapshot.asks.len()
            invariant
                all == snapshot.bids@ + snapshot.asks@,
                nb == snapshot.bids@.len(),
                0 <= j <= snapshot.asks@.len(),
                a.inv(),
                a.volume() == 0x1_0000_0000_0000_0000,
                a.ledger() == (Ledger {
                    orders: restored(all.take(nb + j)),
                    buy: 0,
                    sell: 0,
                    traded: 0,
                }),
            decreases snapshot.asks@.len() - j,
        {
            let o = snapshot.asks[j];
            proof {
                assert(o == all[nb + j]);
                assert(all.take(nb + j + 1).drop_last() =~= all.take(nb + j));
            }
            a.put(o.id.0, restore_entry(&o));
            j = j + 1;
        }
        let ghost i = nb + j;
        proof {
            assert(all.take(i as int) =~= all);
        }
        a
    }

}

/// Two increasing id sequences with the same elements are equal.
proof fn lemma_sorted_unique(a: Seq<u64>, b: Seq<u64>)
    requires
        forall|i: int, j: int| 0 <= i < j < a.len() ==> a[i] < a[j],
        forall|i: int, j: int| 0 <= i < j < b.len() ==> b[i] < b[j],
        forall|k: u64| a.contains(k) <==> b.contains(k),
    ensures
        a == b,
    decreases a.len() + b.len(),
{
    if a.len() == 0 {
        if b.len() > 0 {
            assert(b.contains(b[0]));
        }
        assert(a =~= b);
    } else if b.len() == 0 {
        assert(a.contains(a[0]));
    } else {
        assert(a.contains(a[0]));
        assert(b.contains(b[0]));
        let ia = choose|i: int| 0 <= i < a.len() && a[i] == b[0];
        let ib = choose|i: int| 0 <= i < b.len() && b[i] == a[0];
        assert(a[0] == b[0]) by {
            if ia > 0 {
                assert(a[0] < a[ia]);
            }
            if ib > 0 {
                assert(b[0] < b[ib]);
            }
        }
        let a1 = a.drop_first();
        let b1 = b.drop_first();
        assert forall|k: u64| a1.contains(k) <==> b1.contains(k) by {
            if a1.contains(k) {
                let i = choose|i: int| 0 <= i < a1.len() && a1[i] == k;
                assert(a[i + 1] == k);
                assert(b.contains(k));
                let j = choose|j: int| 0 <= j < b.len() && b[j] == k;
                assert(j != 0);
                assert(b1[j - 1] == k);
            }
            if b1.contains(k) {
                let i = choose|i: int| 0 <= i < b1.len() && b1[i] == k;
                assert(b[i + 1] == k);
                assert(a.contains(k));
                let j = choose|j: int| 0 <= j < a.len() && a[j] == k;
                assert(j != 0);
                assert(a1[j - 1] == k);
            }
        }
        lemma_sorted_unique(a1, b1);
        assert(a =~= seq![a[0]] + a1);
        assert(b =~= seq![b[0]] + b1);
    }
}

/// The ids of the ledger, in increasing order.
fn ledger_ids(m: &BTreeMap<u64, Entry>) -> (r: Vec<u64>)
    ensures
        sorted_ids(m@, r@),
{
    broadcast use vstd::std_specs::btree::group_btree_axioms;
    proof {
        let it = spec_keys_iter(m).remaining();
        let s = it.unref();
        assert(obeys_cmp::<&u64>()) by {
            broadcast use vstd::laws_cmp::group_laws_cmp;
            assert(obeys_cmp::<u64>());
            reveal(obeys_cmp_partial_ord);
            reveal(obeys_cmp_ord);
            reveal(obeys_partial_cmp_spec_properties);
            reveal(vstd::laws_eq::obeys_eq_spec_properties);
        }
        assert(increasing_seq(it));
        vstd::std_specs::btree::axiom_increasing_seq_meaning::<&u64>(it);
        assert forall|i: int, j: int| 0 <= i < j < s.len() implies s[i] < s[j] by {
            assert(OrdSpec::cmp_spec(&it[i], &it[j]) is Less);
        }
        assert(s.to_set() == m@.dom());
        assert forall|k: u64| m@.contains_key(k) <==> s.contains(k) by {
            if s.contains(k) {
                assert(s.to_set().contains(k));
            }
            if m@.contains_key(k) {
                assert(s.to_set().contains(k));
            }
        }
    }
    let ghost ks = spec_keys_iter(m).remaining().unref();
    let mut r: Vec<u64> = Vec::new();
    for k in it: m.keys()
        invariant
            ks == it.seq().unref(),
            r@ == ks.take(it.index()),
    {
        r.push(*k);
        proof {
            assert(r@ =~= ks.take(it.index() + 1));
        }
    }
    proof {
        assert(r@ =~= ks);
    }
    r
}

impl Default for Auditor {
    /// An auditor for an empty book, as `new`.
    fn default() -> (a: Self)
        ensures
            a.inv(),
            a.ledger() == (Ledger { orders: Map::empty(), buy: 0, sell: 0, traded: 0 }),
            a.volume() == 0,
    {
        Auditor::new()
    }
}

} // verus!
