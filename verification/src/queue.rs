//! The book's semantics as sequences: each side is one queue of resting
//! orders in priority order (best price first, time priority within a price).
use vstd::prelude::*;

use crate::book::RestingOrder;
use crate::command::Event;
use crate::types::{spec_crosses, OrderId, Price, Qty, Side};

verus! {

/// The sort key of a price on `side`: smaller keys have priority.
pub open spec fn key_of(side: Side, p: i64) -> int {
    match side {
        Side::Buy => -p,
        Side::Sell => p as int,
    }
}

/// The sort key of a resting order.
pub open spec fn okey(o: RestingOrder) -> int {
    key_of(o.side, o.price.0)
}

/// `q` with `o` placed at the back of its price level: after every order
/// whose price is at least as good.
pub open spec fn rest_into(q: Seq<RestingOrder>, o: RestingOrder) -> Seq<RestingOrder>
    decreases q.len(),
{
    if q.len() == 0 {
        seq![o]
    } else if okey(q[0]) > okey(o) {
        seq![o] + q
    } else {
        seq![q[0]] + rest_into(q.drop_first(), o)
    }
}

/// The first order in `q` with id `id`.
pub open spec fn find_in(q: Seq<RestingOrder>, id: OrderId) -> Option<RestingOrder>
    decreases q.len(),
{
    if q.len() == 0 {
        None
    } else if q[0].id == id {
        Some(q[0])
    } else {
        find_in(q.drop_first(), id)
    }
}

/// `q` without the first order with id `id`.
pub open spec fn remove_id(q: Seq<RestingOrder>, id: OrderId) -> Seq<RestingOrder>
    decreases q.len(),
{
    if q.len() == 0 {
        q
    } else if q[0].id == id {
        q.drop_first()
    } else {
        seq![q[0]] + remove_id(q.drop_first(), id)
    }
}

/// `q` with the open quantity of the first order with id `id` set to `qty`.
pub open spec fn set_qty(q: Seq<RestingOrder>, id: OrderId, qty: Qty) -> Seq<RestingOrder>
    decreases q.len(),
{
    if q.len() == 0 {
        q
    } else if q[0].id == id {
        q.update(0, RestingOrder { qty, ..q[0] })
    } else {
        seq![q[0]] + set_qty(q.drop_first(), id, qty)
    }
}

/// Whether an incoming order on `side` with limit `limit` (`None`: any price)
/// can trade at `price`.
pub open spec fn limit_allows(side: Side, limit: Option<Price>, price: Price) -> bool {
    match limit {
        None => true,
        Some(l) => spec_crosses(side, l.0, price.0),
    }
}

/// Trading an incoming order against the opposite queue `q` in priority
/// order: returns the queue afterwards, the `Trade` and maker `Filled`
/// events, and the unfilled remainder. Each trade executes at the maker's
/// price; matching stops when the remainder is zero, the queue is empty or
/// the next maker's price does not cross the limit.
pub open spec fn match_spec(
    q: Seq<RestingOrder>,
    taker: OrderId,
    side: Side,
    limit: Option<Price>,
    remaining: u64,
) -> (Seq<RestingOrder>, Seq<Event>, u64)
    decreases q.len(),
{
    if remaining == 0 || q.len() == 0 || !limit_allows(side, limit, q[0].price) {
        (q, Seq::empty(), remaining)
    } else {
        let m = q[0];
        if remaining >= m.qty.0 {
            let r = match_spec(q.drop_first(), taker, side, limit, (remaining - m.qty.0) as u64);
            (
                r.0,
                seq![
                    Event::Trade { maker: m.id, taker, taker_side: side, price: m.price, qty: m.qty },
                    Event::Filled { id: m.id },
                ] + r.1,
                r.2,
            )
        } else {
            (
                q.update(0, RestingOrder { qty: Qty((m.qty.0 - remaining) as u64), ..m }),
                seq![
                    Event::Trade {
                        maker: m.id,
                        taker,
                        taker_side: side,
                        price: m.price,
                        qty: Qty(remaining),
                    },
                ],
                0,
            )
        }
    }
}

/// Concatenation of the levels `m[k]` for the keys `ks`, in order.
pub open spec fn concat_levels(ks: Seq<i64>, m: Map<i64, Seq<RestingOrder>>) -> Seq<RestingOrder>
    decreases ks.len(),
{
    if ks.len() == 0 {
        Seq::empty()
    } else {
        m[ks[0]] + concat_levels(ks.drop_first(), m)
    }
}

/// Strictly increasing keys.
pub open spec fn increasing(ks: Seq<i64>) -> bool {
    forall|i: int, j: int| 0 <= i < j < ks.len() ==> ks[i] < ks[j]
}

/// Keys of `q` never decrease.
pub open spec fn keys_sorted(q: Seq<RestingOrder>) -> bool {
    forall|i: int, j: int| 0 <= i <= j < q.len() ==> okey(q[i]) <= okey(q[j])
}

/// The ids in `q` are pairwise distinct.
pub open spec fn ids_unique(q: Seq<RestingOrder>) -> bool {
    forall|i: int, j: int| 0 <= i < j < q.len() ==> q[i].id != q[j].id
}

/// Some order in `q` has id `id`.
pub open spec fn has_id(q: Seq<RestingOrder>, id: OrderId) -> bool {
    exists|i: int| 0 <= i < q.len() && q[i].id == id
}

pub proof fn lemma_concat_levels_add(a: Seq<i64>, b: Seq<i64>, m: Map<i64, Seq<RestingOrder>>)
    ensures
        concat_levels(a + b, m) == concat_levels(a, m) + concat_levels(b, m),
    decreases a.len(),
{
    if a.len() == 0 {
        assert(a + b =~= b);
        assert(concat_levels(a, m) =~= Seq::<RestingOrder>::empty());
        assert(concat_levels(b, m) =~= Seq::<RestingOrder>::empty() + concat_levels(b, m));
    } else {
        assert((a + b).drop_first() =~= a.drop_first() + b);
        lemma_concat_levels_add(a.drop_first(), b, m);
        assert(m[a[0]] + (concat_levels(a.drop_first(), m) + concat_levels(b, m)) =~= (m[a[0]]
            + concat_levels(a.drop_first(), m)) + concat_levels(b, m));
    }
}

pub proof fn lemma_concat_levels_one(k: i64, m: Map<i64, Seq<RestingOrder>>)
    ensures
        concat_levels(seq![k], m) == m[k],
{
    assert(seq![k].drop_first() =~= Seq::<i64>::empty());
    reveal_with_fuel(concat_levels, 2);
    assert(m[k] + Seq::<RestingOrder>::empty() =~= m[k]);
}

/// Splits the concatenation at key position `i`.
pub proof fn lemma_concat_levels_split(ks: Seq<i64>, i: int, m: Map<i64, Seq<RestingOrder>>)
    requires
        0 <= i < ks.len(),
    ensures
        concat_levels(ks, m) == concat_levels(ks.take(i), m) + m[ks[i]] + concat_levels(
            ks.skip(i + 1),
            m,
        ),
{
    assert(ks =~= ks.take(i) + (seq![ks[i]] + ks.skip(i + 1)));
    lemma_concat_levels_add(ks.take(i), seq![ks[i]] + ks.skip(i + 1), m);
    lemma_concat_levels_add(seq![ks[i]], ks.skip(i + 1), m);
    lemma_concat_levels_one(ks[i], m);
    assert(concat_levels(ks.take(i), m) + (m[ks[i]] + concat_levels(ks.skip(i + 1), m))
        =~= concat_levels(ks.take(i), m) + m[ks[i]] + concat_levels(ks.skip(i + 1), m));
}

/// The concatenation only depends on the levels of its keys.
pub proof fn lemma_concat_levels_frame(
    ks: Seq<i64>,
    m1: Map<i64, Seq<RestingOrder>>,
    m2: Map<i64, Seq<RestingOrder>>,
)
    requires
        forall|j: int| 0 <= j < ks.len() ==> m1[#[trigger] ks[j]] == m2[ks[j]],
    ensures
        concat_levels(ks, m1) == concat_levels(ks, m2),
    decreases ks.len(),
{
    if ks.len() > 0 {
        assert(m1[ks[0]] == m2[ks[0]]);
        assert forall|j: int| 0 <= j < ks.drop_first().len() implies m1[#[trigger] ks.drop_first()[j]]
            == m2[ks.drop_first()[j]] by {
            assert(ks.drop_first()[j] == ks[j + 1]);
        }
        lemma_concat_levels_frame(ks.drop_first(), m1, m2);
    }
}

/// Every element of the concatenation comes from one of the levels.
pub proof fn lemma_concat_levels_member(ks: Seq<i64>, m: Map<i64, Seq<RestingOrder>>, x: int)
    requires
        0 <= x < concat_levels(ks, m).len(),
    ensures
        exists|j: int, y: int|
            0 <= j < ks.len() && 0 <= y < m[ks[j]].len() && concat_levels(ks, m)[x] == m[ks[j]][y],
    decreases ks.len(),
{
    let c = concat_levels(ks, m);
    if x < m[ks[0]].len() {
        assert(c[x] == m[ks[0]][x]);
    } else {
        let r = concat_levels(ks.drop_first(), m);
        assert(c[x] == r[x - m[ks[0]].len()]);
        lemma_concat_levels_member(ks.drop_first(), m, x - m[ks[0]].len());
        let (j, y) = choose|j: int, y: int|
            0 <= j < ks.drop_first().len() && 0 <= y < m[ks.drop_first()[j]].len() && r[x
                - m[ks[0]].len()] == m[ks.drop_first()[j]][y];
        assert(ks.drop_first()[j] == ks[j + 1]);
    }
}

/// Placing `o` behind a prefix of no-worse keys and before a suffix that
/// starts with a worse key.
pub proof fn lemma_rest_into_split(a: Seq<RestingOrder>, c: Seq<RestingOrder>, o: RestingOrder)
    requires
        forall|i: int| 0 <= i < a.len() ==> okey(#[trigger] a[i]) <= okey(o),
        c.len() > 0 ==> okey(c[0]) > okey(o),
    ensures
        rest_into(a + c, o) == a + seq![o] + c,
    decreases a.len(),
{
    if a.len() == 0 {
        assert(a + c =~= c);
        if c.len() == 0 {
            assert(a + seq![o] + c =~= seq![o]);
        } else {
            assert(a + seq![o] + c =~= seq![o] + c);
        }
    } else {
        assert((a + c)[0] == a[0]);
        assert((a + c).drop_first() =~= a.drop_first() + c);
        assert forall|i: int| 0 <= i < a.drop_first().len() implies okey(
            #[trigger] a.drop_first()[i],
        ) <= okey(o) by {
            assert(a.drop_first()[i] == a[i + 1]);
        }
        lemma_rest_into_split(a.drop_first(), c, o);
        assert(seq![a[0]] + (a.drop_first() + seq![o] + c) =~= a + seq![o] + c);
    }
}

/// Removing an id that occurs in `b` but not in `a`.
pub proof fn lemma_remove_id_add(a: Seq<RestingOrder>, b: Seq<RestingOrder>, id: OrderId)
    requires
        forall|i: int| 0 <= i < a.len() ==> (#[trigger] a[i]).id != id,
    ensures
        remove_id(a + b, id) == a + remove_id(b, id),
        find_in(a + b, id) == find_in(b, id),
    decreases a.len(),
{
    if a.len() == 0 {
        assert(a + b =~= b);
        assert(a + remove_id(b, id) =~= remove_id(b, id));
    } else {
        assert((a + b)[0] == a[0]);
        assert((a + b).drop_first() =~= a.drop_first() + b);
        assert forall|i: int| 0 <= i < a.drop_first().len() implies (
        #[trigger] a.drop_first()[i]).id != id by {
            assert(a.drop_first()[i] == a[i + 1]);
        }
        lemma_remove_id_add(a.drop_first(), b, id);
        assert(seq![a[0]] + (a.drop_first() + remove_id(b, id)) =~= a + remove_id(b, id));
    }
}

/// Setting the quantity of an id that occurs in `b` but not in `a`.
pub proof fn lemma_set_qty_add(a: Seq<RestingOrder>, b: Seq<RestingOrder>, id: OrderId, qty: Qty)
    requires
        forall|i: int| 0 <= i < a.len() ==> (#[trigger] a[i]).id != id,
    ensures
        set_qty(a + b, id, qty) == a + set_qty(b, id, qty),
    decreases a.len(),
{
    if a.len() == 0 {
        assert(a + b =~= b);
        assert(a + set_qty(b, id, qty) =~= set_qty(b, id, qty));
    } else {
        assert((a + b)[0] == a[0]);
        assert((a + b).drop_first() =~= a.drop_first() + b);
        assert forall|i: int| 0 <= i < a.drop_first().len() implies (
        #[trigger] a.drop_first()[i]).id != id by {
            assert(a.drop_first()[i] == a[i + 1]);
        }
        lemma_set_qty_add(a.drop_first(), b, id, qty);
        assert(seq![a[0]] + (a.drop_first() + set_qty(b, id, qty)) =~= a + set_qty(b, id, qty));
    }
}

/// On a queue whose id occurs at position `i` and nowhere before, the
/// id-based operations act at position `i`.
pub proof fn lemma_id_ops_at(q: Seq<RestingOrder>, i: int, qty: Qty)
    requires
        0 <= i < q.len(),
        forall|j: int| 0 <= j < i ==> (#[trigger] q[j]).id != q[i].id,
    ensures
        remove_id(q, q[i].id) == q.remove(i),
        set_qty(q, q[i].id, qty) == q.update(i, RestingOrder { qty, ..q[i] }),
        find_in(q, q[i].id) == Some(q[i]),
    decreases i,
{
    if i == 0 {
        assert(q.drop_first() =~= q.remove(0));
    } else {
        let t = q.drop_first();
        assert(t[i - 1] == q[i]);
        assert forall|j: int| 0 <= j < i - 1 implies (#[trigger] t[j]).id != t[i - 1].id by {
            assert(t[j] == q[j + 1]);
        }
        lemma_id_ops_at(t, i - 1, qty);
        assert(seq![q[0]] + t.remove(i - 1) =~= q.remove(i));
        assert(seq![q[0]] + t.update(i - 1, RestingOrder { qty, ..t[i - 1] }) =~= q.update(
            i,
            RestingOrder { qty, ..q[i] },
        ));
    }
}

/// An id absent from `q` leaves the id-based operations without effect.
pub proof fn lemma_id_ops_absent(q: Seq<RestingOrder>, id: OrderId, qty: Qty)
    requires
        forall|j: int| 0 <= j < q.len() ==> (#[trigger] q[j]).id != id,
    ensures
        remove_id(q, id) == q,
        set_qty(q, id, qty) == q,
        find_in(q, id) == None::<RestingOrder>,
    decreases q.len(),
{
    if q.len() > 0 {
        let t = q.drop_first();
        assert forall|j: int| 0 <= j < t.len() implies (#[trigger] t[j]).id != id by {
            assert(t[j] == q[j + 1]);
        }
        lemma_id_ops_absent(t, id, qty);
        assert(seq![q[0]] + t =~= q);
    }
}

/// Removing an id from a queue with unique ids leaves no order with that
/// id, and one order fewer exactly when it was there.
pub proof fn lemma_remove_id_gone(q: Seq<RestingOrder>, id: OrderId)
    requires
        ids_unique(q),
    ensures
        !has_id(remove_id(q, id), id),
        find_in(remove_id(q, id), id) is None,
        remove_id(q, id).len() == (if has_id(q, id) {
            q.len() - 1
        } else {
            q.len() as int
        }),
        !has_id(q, id) ==> find_in(q, id) is None,
{
    let z = Qty(0);
    if has_id(q, id) {
        let i = choose|i: int| 0 <= i < q.len() && q[i].id == id;
        assert forall|j: int| 0 <= j < i implies (#[trigger] q[j]).id != q[i].id by {}
        lemma_id_ops_at(q, i, z);
        let r = q.remove(i);
        assert forall|j: int| 0 <= j < r.len() implies (#[trigger] r[j]).id != id by {
            if j < i {
                assert(r[j] == q[j]);
            } else {
                assert(r[j] == q[j + 1]);
            }
        }
        lemma_id_ops_absent(r, id, z);
    } else {
        assert forall|j: int| 0 <= j < q.len() implies (#[trigger] q[j]).id != id by {
            if q[j].id == id {
                assert(has_id(q, id));
            }
        }
        lemma_id_ops_absent(q, id, z);
    }
}

/// Two strictly increasing key sequences with the same elements are equal.
pub proof fn lemma_increasing_unique(a: Seq<i64>, b: Seq<i64>)
    requires
        increasing(a),
        increasing(b),
        forall|k: i64| a.contains(k) <==> b.contains(k),
    ensures
        a == b,
    decreases a.len() + b.len(),
{
    if a.len() == 0 {
        if b.len() > 0 {
            assert(b.contains(b[0]));
        }
        assert(a =~= b);
    } else if b.len() == 0 {
        assert(a.contains(a[0]));
    } else {
        assert(a.contains(a[0]));
        assert(b.contains(b[0]));
        let ia = choose|i: int| 0 <= i < a.len() && a[i] == b[0];
        let ib = choose|i: int| 0 <= i < b.len() && b[i] == a[0];
        assert(a[0] == b[0]) by {
            if ia > 0 {
                assert(a[0] < a[ia]);
            }
            if ib > 0 {
                assert(b[0] < b[ib]);
            }
        }
        let a1 = a.drop_first();
        let b1 = b.drop_first();
        assert forall|k: i64| a1.contains(k) <==> b1.contains(k) by {
            if a1.contains(k) {
                let i = choose|i: int| 0 <= i < a1.len() && a1[i] == k;
                assert(a[i + 1] == k);
                assert(a[0] < k);
                assert(b.contains(k));
                let j = choose|j: int| 0 <= j < b.len() && b[j] == k;
                assert(j != 0);
                assert(b1[j - 1] == k);
            }
            if b1.contains(k) {
                let i = choose|i: int| 0 <= i < b1.len() && b1[i] == k;
                assert(b[i + 1] == k);
                assert(b[0] < k);
                assert(a.contains(k));
                let j = choose|j: int| 0 <= j < a.len() && a[j] == k;
                assert(j != 0);
                assert(a1[j - 1] == k);
            }
        }
        lemma_increasing_unique(a1, b1);
        assert(a =~= seq![a[0]] + a1);
        assert(b =~= seq![b[0]] + b1);
    }
}


/// Number of leading keys of `ks` below `k`.
pub open spec fn count_below(ks: Seq<i64>, k: i64) -> int
    decreases ks.len(),
{
    if ks.len() == 0 {
        0
    } else if ks[0] < k {
        1 + count_below(ks.drop_first(), k)
    } else {
        0
    }
}

/// In increasing keys, `count_below` splits the keys below `k` from the rest.
pub proof fn lemma_count_below(ks: Seq<i64>, k: i64)
    requires
        increasing(ks),
    ensures
        0 <= count_below(ks, k) <= ks.len(),
        forall|j: int| 0 <= j < count_below(ks, k) ==> ks[j] < k,
        forall|j: int| count_below(ks, k) <= j < ks.len() ==> ks[j] >= k,
    decreases ks.len(),
{
    if ks.len() > 0 {
        let t = ks.drop_first();
        assert(increasing(t)) by {
            assert forall|i: int, j: int| 0 <= i < j < t.len() implies t[i] < t[j] by {
                assert(t[i] == ks[i + 1] && t[j] == ks[j + 1]);
            }
        }
        lemma_count_below(t, k);
        if ks[0] < k {
            assert forall|j: int| 1 <= j < count_below(ks, k) implies ks[j] < k by {
                assert(ks[j] == t[j - 1]);
            }
            assert forall|j: int| count_below(ks, k) <= j < ks.len() implies ks[j] >= k by {
                assert(ks[j] == t[j - 1]);
            }
        } else {
            assert forall|j: int| 0 <= j < ks.len() implies ks[j] >= k by {
                if j > 0 {
                    assert(ks[0] < ks[j]);
                }
            }
        }
    }
}

/// Every element of a concatenation of levels whose orders carry their
/// level's key has the key of one of the levels.
pub proof fn lemma_concat_levels_keys(ks: Seq<i64>, m: Map<i64, Seq<RestingOrder>>, x: int)
    requires
        0 <= x < concat_levels(ks, m).len(),
        forall|j: int, y: int|
            0 <= j < ks.len() && 0 <= y < m[ks[j]].len() ==> okey(#[trigger] m[ks[j]][y]) == ks[j],
    ensures
        exists|j: int| 0 <= j < ks.len() && okey(concat_levels(ks, m)[x]) == ks[j],
{
    lemma_concat_levels_member(ks, m, x);
    let (j, y) = choose|j: int, y: int|
        0 <= j < ks.len() && 0 <= y < m[ks[j]].len() && concat_levels(ks, m)[x] == m[ks[j]][y];
    assert(okey(m[ks[j]][y]) == ks[j]);
}


/// Levels with strictly increasing keys, each holding orders of its own key,
/// concatenate to a queue whose keys never decrease.
pub proof fn lemma_concat_levels_sorted(ks: Seq<i64>, m: Map<i64, Seq<RestingOrder>>)
    requires
        increasing(ks),
        forall|j: int, y: int|
            0 <= j < ks.len() && 0 <= y < m[ks[j]].len() ==> okey(#[trigger] m[ks[j]][y]) == ks[j],
    ensures
        keys_sorted(concat_levels(ks, m)),
    decreases ks.len(),
{
    if ks.len() > 0 {
        let t = ks.drop_first();
        assert(increasing(t)) by {
            assert forall|i: int, j: int| 0 <= i < j < t.len() implies t[i] < t[j] by {
                assert(t[i] == ks[i + 1] && t[j] == ks[j + 1]);
            }
        }
        assert forall|j: int, y: int| 0 <= j < t.len() && 0 <= y < m[t[j]].len() implies okey(
            #[trigger] m[t[j]][y],
        ) == t[j] by {
            assert(t[j] == ks[j + 1]);
        }
        lemma_concat_levels_sorted(t, m);
        let h = m[ks[0]];
        let r = concat_levels(t, m);
        let c = concat_levels(ks, m);
        assert(c == h + r);
        assert forall|i: int, j: int| 0 <= i <= j < c.len() implies okey(c[i]) <= okey(c[j]) by {
            if j < h.len() {
                assert(okey(h[i]) == ks[0] && okey(h[j]) == ks[0]);
            } else if i >= h.len() {
                assert(c[i] == r[i - h.len()] && c[j] == r[j - h.len()]);
            } else {
                assert(okey(h[i]) == ks[0]);
                assert(c[j] == r[j - h.len()]);
                lemma_concat_levels_keys(t, m, j - h.len());
                let jj = choose|jj: int| 0 <= jj < t.len() && okey(r[j - h.len()]) == t[jj];
                assert(t[jj] == ks[jj + 1]);
            }
        }
    }
}

/// `rest_into` inserts `o` at some position.
pub proof fn lemma_rest_into_shape(q: Seq<RestingOrder>, o: RestingOrder)
    ensures
        exists|n: int| 0 <= n <= q.len() && rest_into(q, o) == q.take(n) + seq![o] + q.skip(n),
    decreases q.len(),
{
    if q.len() == 0 {
        assert(rest_into(q, o) =~= q.take(0) + seq![o] + q.skip(0));
    } else if okey(q[0]) > okey(o) {
        assert(rest_into(q, o) =~= q.take(0) + seq![o] + q.skip(0));
    } else {
        let t = q.drop_first();
        lemma_rest_into_shape(t, o);
        let n = choose|n: int| 0 <= n <= t.len() && rest_into(t, o) == t.take(n) + seq![o] + t.skip(n);
        assert(rest_into(q, o) =~= q.take(n + 1) + seq![o] + q.skip(n + 1));
    }
}

/// Ids stay unique when `o`, whose id is new, is inserted anywhere.
pub proof fn lemma_unique_insert(q: Seq<RestingOrder>, n: int, o: RestingOrder)
    requires
        ids_unique(q),
        !has_id(q, o.id),
        0 <= n <= q.len(),
    ensures
        ids_unique(q.take(n) + seq![o] + q.skip(n)),
        (q.take(n) + seq![o] + q.skip(n)).len() == q.len() + 1,
{
    let r = q.take(n) + seq![o] + q.skip(n);
    assert forall|i: int, j: int| 0 <= i < j < r.len() implies r[i].id != r[j].id by {
        if i < n && j < n {
            assert(r[i] == q[i] && r[j] == q[j]);
        } else if i < n && j == n {
            assert(r[i] == q[i]);
        } else if i < n {
            assert(r[i] == q[i] && r[j] == q[j - 1]);
        } else if i == n {
            assert(r[j] == q[j - 1]);
        } else {
            assert(r[i] == q[i - 1] && r[j] == q[j - 1]);
        }
    }
}

/// Ids stay unique when an order is removed.
pub proof fn lemma_unique_remove(q: Seq<RestingOrder>, pos: int)
    requires
        ids_unique(q),
        0 <= pos < q.len(),
    ensures
        ids_unique(q.remove(pos)),
        forall|id: OrderId| has_id(q.remove(pos), id) ==> has_id(q, id),
{
    let r = q.remove(pos);
    assert forall|i: int, j: int| 0 <= i < j < r.len() implies r[i].id != r[j].id by {
        let i0 = if i < pos { i } else { i + 1 };
        let j0 = if j < pos { j } else { j + 1 };
        assert(r[i] == q[i0] && r[j] == q[j0]);
    }
    assert forall|id: OrderId| has_id(r, id) implies has_id(q, id) by {
        let i = choose|i: int| 0 <= i < r.len() && r[i].id == id;
        let i0 = if i < pos { i } else { i + 1 };
        assert(r[i] == q[i0]);
    }
}

/// Ids stay unique when one order's fields other than its id change.
pub proof fn lemma_unique_update(q: Seq<RestingOrder>, pos: int, x: RestingOrder)
    requires
        ids_unique(q),
        0 <= pos < q.len(),
        x.id == q[pos].id,
    ensures
        ids_unique(q.update(pos, x)),
        forall|id: OrderId| has_id(q.update(pos, x), id) <==> has_id(q, id),
{
    let r = q.update(pos, x);
    assert forall|i: int, j: int| 0 <= i < j < r.len() implies r[i].id != r[j].id by {
        assert(r[i].id == q[i].id && r[j].id == q[j].id);
    }
    assert forall|id: OrderId| has_id(r, id) <==> has_id(q, id) by {
        if has_id(r, id) {
            let i = choose|i: int| 0 <= i < r.len() && r[i].id == id;
            assert(r[i].id == q[i].id);
        }
        if has_id(q, id) {
            let i = choose|i: int| 0 <= i < q.len() && q[i].id == id;
            assert(r[i].id == q[i].id);
        }
    }
}

/// Ids of two queues whose concatenation has unique ids.
pub proof fn lemma_unique_split(a: Seq<RestingOrder>, b: Seq<RestingOrder>)
    requires
        ids_unique(a + b),
    ensures
        ids_unique(a),
        ids_unique(b),
        forall|id: OrderId| has_id(a, id) ==> !has_id(b, id),
{
    let c = a + b;
    assert forall|i: int, j: int| 0 <= i < j < a.len() implies a[i].id != a[j].id by {
        assert(c[i] == a[i] && c[j] == a[j]);
    }
    assert forall|i: int, j: int| 0 <= i < j < b.len() implies b[i].id != b[j].id by {
        assert(c[i + a.len()] == b[i] && c[j + a.len()] == b[j]);
    }
    assert forall|id: OrderId| has_id(a, id) implies !has_id(b, id) by {
        let i = choose|i: int| 0 <= i < a.len() && a[i].id == id;
        if has_id(b, id) {
            let j = choose|j: int| 0 <= j < b.len() && b[j].id == id;
            assert(c[i] == a[i] && c[j + a.len()] == b[j]);
        }
    }
}

/// Two queues with unique ids and no id in common have unique ids together.
pub proof fn lemma_unique_join(a: Seq<RestingOrder>, b: Seq<RestingOrder>)
    requires
        ids_unique(a),
        ids_unique(b),
        forall|id: OrderId| has_id(a, id) ==> !has_id(b, id),
    ensures
        ids_unique(a + b),
{
    let c = a + b;
    assert forall|i: int, j: int| 0 <= i < j < c.len() implies c[i].id != c[j].id by {
        if j < a.len() {
            assert(c[i] == a[i] && c[j] == a[j]);
        } else if i >= a.len() {
            assert(c[i] == b[i - a.len()] && c[j] == b[j - a.len()]);
        } else {
            assert(c[i] == a[i] && c[j] == b[j - a.len()]);
            assert(has_id(a, a[i].id));
            assert(has_id(b, b[j - a.len()].id));
        }
    }
}

/// `r` is what is left of `q` after its first `k` orders went: the rest of
/// `q`, except that the first remaining order may have less open quantity.
pub open spec fn tail_of(r: Seq<RestingOrder>, q: Seq<RestingOrder>, k: int) -> bool {
    &&& 0 <= k <= q.len()
    &&& r.len() == q.len() - k
    &&& forall|i: int| 1 <= i < r.len() ==> #[trigger] r[i] == q[k + i]
    &&& r.len() > 0 ==> {
        &&& r[0] == RestingOrder { qty: r[0].qty, ..q[k] }
        &&& 0 < r[0].qty.0 <= q[k].qty.0
    }
}

/// Matching leaves a tail of the opposite queue, never returns more than it
/// was given, and stops with a remainder only when the queue is empty or its
/// best order does not cross the limit.
pub proof fn lemma_match_shape(
    q: Seq<RestingOrder>,
    taker: OrderId,
    side: Side,
    limit: Option<Price>,
    remaining: u64,
) -> (k: int)
    requires
        forall|i: int| 0 <= i < q.len() ==> (#[trigger] q[i]).qty.0 > 0,
    ensures
        tail_of(match_spec(q, taker, side, limit, remaining).0, q, k),
        match_spec(q, taker, side, limit, remaining).2 <= remaining,
        match_spec(q, taker, side, limit, remaining).2 > 0 ==> {
            let r = match_spec(q, taker, side, limit, remaining).0;
            r.len() == 0 || !limit_allows(side, limit, r[0].price)
        },
    decreases q.len(),
{
    if remaining == 0 || q.len() == 0 || !limit_allows(side, limit, q[0].price) {
        0
    } else {
        let m = q[0];
        if remaining >= m.qty.0 {
            let t = q.drop_first();
            assert forall|i: int| 0 <= i < t.len() implies (#[trigger] t[i]).qty.0 > 0 by {
                assert(t[i] == q[i + 1]);
            }
            let k = lemma_match_shape(t, taker, side, limit, (remaining - m.qty.0) as u64);
            let r = match_spec(t, taker, side, limit, (remaining - m.qty.0) as u64).0;
            assert forall|i: int| 1 <= i < r.len() implies #[trigger] r[i] == q[k + 1 + i] by {
                assert(r[i] == t[k + i]);
            }
            if r.len() > 0 {
                assert(t[k] == q[k + 1]);
            }
            k + 1
        } else {
            0
        }
    }
}

/// Quantity of a trade event; nothing for any other event.
pub open spec fn trade_qty(e: Event) -> int {
    match e {
        Event::Trade { qty, .. } => qty.0 as int,
        _ => 0,
    }
}

/// Total quantity of the trades among `ev`.
pub open spec fn traded_qty(ev: Seq<Event>) -> int
    decreases ev.len(),
{
    if ev.len() == 0 {
        0
    } else {
        trade_qty(ev[0]) + traded_qty(ev.drop_first())
    }
}

/// Maker and price of each trade among `ev`, in order.
pub open spec fn trade_makers(ev: Seq<Event>) -> Seq<(OrderId, Price)>
    decreases ev.len(),
{
    if ev.len() == 0 {
        Seq::empty()
    } else {
        match ev[0] {
            Event::Trade { maker, price, .. } => seq![(maker, price)] + trade_makers(ev.drop_first()),
            _ => trade_makers(ev.drop_first()),
        }
    }
}

/// Id and price of each order of `q`, in order.
pub open spec fn ids_prices(q: Seq<RestingOrder>) -> Seq<(OrderId, Price)> {
    q.map_values(|o: RestingOrder| (o.id, o.price))
}

/// Matching conserves quantity and takes makers in priority order: the
/// quantity traded plus the remainder is the incoming quantity; each trade
/// is by this taker on its side, for a positive quantity; the makers traded
/// are the first orders of the queue, in order, each at its own price; and
/// what is left is the queue after them, except that the last maker may
/// stay at the head, same order, with less open quantity.
pub proof fn lemma_match_conserves(
    q: Seq<RestingOrder>,
    taker: OrderId,
    side: Side,
    limit: Option<Price>,
    remaining: u64,
)
    requires
        forall|i: int| 0 <= i < q.len() ==> (#[trigger] q[i]).qty.0 > 0,
    ensures
        ({
            let m = match_spec(q, taker, side, limit, remaining);
            let n = trade_makers(m.1).len() as int;
            &&& traded_qty(m.1) + m.2 == remaining
            &&& forall|i: int|
                0 <= i < m.1.len() ==> (#[trigger] m.1[i] matches Event::Trade { taker: t, taker_side, qty, .. }
                    ==> t == taker && taker_side == side && qty.0 > 0)
            &&& n <= q.len()
            &&& trade_makers(m.1) == ids_prices(q.take(n))
            &&& (m.0 == q.skip(n) || (n > 0 && m.0 == q.skip(n - 1).update(
                0,
                RestingOrder { qty: m.0[0].qty, ..q[n - 1] },
            ) && m.0[0].qty.0 < q[n - 1].qty.0))
        }),
    decreases q.len(),
{
    let m = match_spec(q, taker, side, limit, remaining);
    if remaining == 0 || q.len() == 0 || !limit_allows(side, limit, q[0].price) {
        assert(q.take(0) =~= Seq::<RestingOrder>::empty());
        assert(ids_prices(q.take(0)) =~= Seq::<(OrderId, Price)>::empty());
        assert(q.skip(0) =~= q);
    } else {
        let o = q[0];
        let tr = Event::Trade { maker: o.id, taker, taker_side: side, price: o.price, qty: o.qty };
        if remaining >= o.qty.0 {
            let t = q.drop_first();
            assert forall|i: int| 0 <= i < t.len() implies (#[trigger] t[i]).qty.0 > 0 by {
                assert(t[i] == q[i + 1]);
            }
            let r = match_spec(t, taker, side, limit, (remaining - o.qty.0) as u64);
            lemma_match_conserves(t, taker, side, limit, (remaining - o.qty.0) as u64);
            let k = trade_makers(r.1).len() as int;
            let ev = seq![tr, Event::Filled { id: o.id }] + r.1;
            assert(ev == m.1);
            assert(ev[0] == tr);
            assert(ev.drop_first() =~= seq![Event::Filled { id: o.id }] + r.1);
            assert((seq![Event::Filled { id: o.id }] + r.1)[0] == Event::Filled { id: o.id });
            assert((seq![Event::Filled { id: o.id }] + r.1).drop_first() =~= r.1);
            let fl = seq![Event::Filled { id: o.id }] + r.1;
            assert(traded_qty(fl) == trade_qty(fl[0]) + traded_qty(fl.drop_first()));
            assert(traded_qty(fl) == traded_qty(r.1));
            assert(traded_qty(ev) == trade_qty(ev[0]) + traded_qty(ev.drop_first()));
            assert(traded_qty(ev) == o.qty.0 + traded_qty(r.1));
            assert(trade_makers(fl) == trade_makers(fl.drop_first()));
            assert(trade_makers(fl) == trade_makers(r.1));
            assert(trade_makers(ev) == seq![(o.id, o.price)] + trade_makers(ev.drop_first()));
            assert(trade_makers(ev) == seq![(o.id, o.price)] + trade_makers(r.1));
            assert(ids_prices(q.take(k + 1)) =~= seq![(o.id, o.price)] + ids_prices(t.take(k)));
            assert forall|i: int| 0 <= i < ev.len() implies (#[trigger] ev[i] matches Event::Trade {
                taker: tk,
                taker_side,
                qty,
                ..
            } ==> tk == taker && taker_side == side && qty.0 > 0) by {
                if i >= 2 {
                    assert(ev[i] == r.1[i - 2]);
                }
            }
            assert(t.skip(k) =~= q.skip(k + 1));
            if k > 0 {
                assert(t.skip(k - 1) =~= q.skip(k));
                assert(t[k - 1] == q[k]);
            }
        } else {
            let ev = seq![
                Event::Trade { maker: o.id, taker, taker_side: side, price: o.price, qty: Qty(remaining) },
            ];
            assert(ev == m.1);
            assert(ev.drop_first() =~= Seq::<Event>::empty());
            assert(traded_qty(ev.drop_first()) == 0);
            assert(traded_qty(ev) == trade_qty(ev[0]) + traded_qty(ev.drop_first()));
            assert(traded_qty(ev) == remaining);
            assert(trade_makers(ev.drop_first()) == Seq::<(OrderId, Price)>::empty());
            assert(trade_makers(ev) == seq![(o.id, o.price)] + trade_makers(ev.drop_first()));
            assert(trade_makers(ev) =~= seq![(o.id, o.price)]);
            assert(ids_prices(q.take(1)) =~= seq![(o.id, o.price)]);
            assert(q.skip(0) =~= q);
        }
    }
}

/// A maker is reported filled exactly when its trade takes all it had
/// open: every `Filled` of matching directly follows a trade of that maker,
/// and a trade is followed by its maker's `Filled` if and only if its
/// quantity is the maker's whole open quantity.
pub proof fn lemma_match_fills(
    q: Seq<RestingOrder>,
    taker: OrderId,
    side: Side,
    limit: Option<Price>,
    remaining: u64,
)
    ensures
        ({
            let ev = match_spec(q, taker, side, limit, remaining).1;
            &&& forall|i: int|
                0 <= i < ev.len() && #[trigger] ev[i] is Filled ==> i > 0 && (ev[i - 1] matches Event::Trade {
                    maker,
                    ..
                } && maker == ev[i]->Filled_id)
            &&& forall|i: int|
                0 <= i < ev.len() && #[trigger] ev[i] is Trade ==> exists|j: int|
                    0 <= j < q.len() && q[j].id == ev[i]->Trade_maker && ((i + 1 < ev.len() && ev[i + 1]
                        == Event::Filled { id: q[j].id }) <==> ev[i]->Trade_qty == q[j].qty)
        }),
    decreases q.len(),
{
    let ev = match_spec(q, taker, side, limit, remaining).1;
    if !(remaining == 0 || q.len() == 0 || !limit_allows(side, limit, q[0].price)) {
        let o = q[0];
        if remaining >= o.qty.0 {
            let t = q.drop_first();
            let r = match_spec(t, taker, side, limit, (remaining - o.qty.0) as u64);
            lemma_match_fills(t, taker, side, limit, (remaining - o.qty.0) as u64);
            assert forall|i: int| 0 <= i < ev.len() && #[trigger] ev[i] is Filled implies i > 0 && (
            ev[i - 1] matches Event::Trade { maker, .. } && maker == ev[i]->Filled_id) by {
                if i >= 2 {
                    assert(ev[i] == r.1[i - 2]);
                    if i >= 3 {
                        assert(ev[i - 1] == r.1[i - 3]);
                    } else {
                        assert(r.1[0] is Filled);
                    }
                }
            }
            assert forall|i: int| 0 <= i < ev.len() && #[trigger] ev[i] is Trade implies exists|j: int|
                0 <= j < q.len() && q[j].id == ev[i]->Trade_maker && ((i + 1 < ev.len() && ev[i + 1]
                    == Event::Filled { id: q[j].id }) <==> ev[i]->Trade_qty == q[j].qty) by {
                if i == 0 {
                    assert(q[0].id == ev[0]->Trade_maker);
                } else {
                    assert(i >= 2);
                    assert(ev[i] == r.1[i - 2]);
                    let j = choose|j: int|
                        0 <= j < t.len() && t[j].id == r.1[i - 2]->Trade_maker && ((i - 2 + 1 < r.1.len()
                            && r.1[i - 2 + 1] == Event::Filled { id: t[j].id }) <==> r.1[i - 2]->Trade_qty
                            == t[j].qty);
                    assert(q[j + 1] == t[j]);
                    if i + 1 < ev.len() {
                        assert(ev[i + 1] == r.1[i - 1]);
                    }
                }
            }
        } else {
            assert(q[0].id == ev[0]->Trade_maker);
        }
    }
}

/// `rest_into` places `o` after the orders with keys no worse than its own
/// and before the orders with worse keys.
pub proof fn lemma_rest_into_pos(q: Seq<RestingOrder>, o: RestingOrder) -> (n: int)
    requires
        keys_sorted(q),
    ensures
        0 <= n <= q.len(),
        rest_into(q, o) == q.take(n) + seq![o] + q.skip(n),
        forall|i: int| 0 <= i < n ==> okey(#[trigger] q[i]) <= okey(o),
        forall|i: int| n <= i < q.len() ==> okey(#[trigger] q[i]) > okey(o),
    decreases q.len(),
{
    if q.len() == 0 {
        assert(rest_into(q, o) =~= q.take(0) + seq![o] + q.skip(0));
        0
    } else if okey(q[0]) > okey(o) {
        assert(rest_into(q, o) =~= q.take(0) + seq![o] + q.skip(0));
        assert forall|i: int| 0 <= i < q.len() implies okey(#[trigger] q[i]) > okey(o) by {
            assert(okey(q[0]) <= okey(q[i]));
        }
        0
    } else {
        let t = q.drop_first();
        assert(keys_sorted(t)) by {
            assert forall|i: int, j: int| 0 <= i <= j < t.len() implies okey(t[i]) <= okey(t[j]) by {
                assert(t[i] == q[i + 1] && t[j] == q[j + 1]);
            }
        }
        let n = lemma_rest_into_pos(t, o);
        assert(rest_into(q, o) =~= q.take(n + 1) + seq![o] + q.skip(n + 1));
        assert forall|i: int| 0 <= i < n + 1 implies okey(#[trigger] q[i]) <= okey(o) by {
            if i > 0 {
                assert(q[i] == t[i - 1]);
            }
        }
        assert forall|i: int| n + 1 <= i < q.len() implies okey(#[trigger] q[i]) > okey(o) by {
            assert(q[i] == t[i - 1]);
        }
        n + 1
    }
}

/// How the queue operations change a queue's length.
pub proof fn lemma_lens(q: Seq<RestingOrder>, o: RestingOrder, id: OrderId, qty: Qty)
    ensures
        rest_into(q, o).len() == q.len() + 1,
        remove_id(q, id).len() <= q.len(),
        set_qty(q, id, qty).len() == q.len(),
    decreases q.len(),
{
    if q.len() > 0 {
        lemma_lens(q.drop_first(), o, id, qty);
    }
}

/// The orders of `q` at price `p`, in queue order.
pub open spec fn at_price(q: Seq<RestingOrder>, p: Price) -> Seq<RestingOrder>
    decreases q.len(),
{
    if q.len() == 0 {
        Seq::empty()
    } else if q[0].price == p {
        seq![q[0]] + at_price(q.drop_first(), p)
    } else {
        at_price(q.drop_first(), p)
    }
}

pub proof fn lemma_at_price_add(a: Seq<RestingOrder>, b: Seq<RestingOrder>, p: Price)
    ensures
        at_price(a + b, p) == at_price(a, p) + at_price(b, p),
    decreases a.len(),
{
    if a.len() == 0 {
        assert(a + b =~= b);
        assert(at_price(a, p) + at_price(b, p) =~= at_price(b, p));
    } else {
        assert((a + b).drop_first() =~= a.drop_first() + b);
        assert((a + b)[0] == a[0]);
        lemma_at_price_add(a.drop_first(), b, p);
        if a[0].price == p {
            assert(seq![a[0]] + (at_price(a.drop_first(), p) + at_price(b, p)) =~= seq![a[0]]
                + at_price(a.drop_first(), p) + at_price(b, p));
        }
    }
}

/// All orders of `q` are at `p`, or none is.
pub proof fn lemma_at_price_uniform(q: Seq<RestingOrder>, p: Price)
    ensures
        (forall|i: int| 0 <= i < q.len() ==> (#[trigger] q[i]).price == p) ==> at_price(q, p) == q,
        (forall|i: int| 0 <= i < q.len() ==> (#[trigger] q[i]).price != p) ==> at_price(q, p)
            == Seq::<RestingOrder>::empty(),
    decreases q.len(),
{
    if q.len() > 0 {
        let t = q.drop_first();
        lemma_at_price_uniform(t, p);
        if forall|i: int| 0 <= i < q.len() ==> (#[trigger] q[i]).price == p {
            assert forall|i: int| 0 <= i < t.len() implies (#[trigger] t[i]).price == p by {
                assert(t[i] == q[i + 1]);
            }
            assert(seq![q[0]] + t =~= q);
        }
        if forall|i: int| 0 <= i < q.len() ==> (#[trigger] q[i]).price != p {
            assert forall|i: int| 0 <= i < t.len() implies (#[trigger] t[i]).price != p by {
                assert(t[i] == q[i + 1]);
            }
        }
    }
}

/// Number of leading orders of `q` with sort key `k`.
pub open spec fn lead_len(q: Seq<RestingOrder>, k: int) -> nat
    decreases q.len(),
{
    if q.len() == 0 || okey(q[0]) != k {
        0
    } else {
        1 + lead_len(q.drop_first(), k)
    }
}

pub proof fn lemma_lead_len_bound(q: Seq<RestingOrder>, k: int)
    ensures
        lead_len(q, k) <= q.len(),
    decreases q.len(),
{
    if q.len() > 0 {
        lemma_lead_len_bound(q.drop_first(), k);
    }
}

/// The price levels of a queue: maximal runs of orders with the same key.
pub open spec fn runs(q: Seq<RestingOrder>) -> Seq<Seq<RestingOrder>>
    decreases q.len(),
{
    if q.len() == 0 {
        Seq::empty()
    } else {
        let n = 1 + lead_len(q.drop_first(), okey(q[0])) as int;
        proof {
            lemma_lead_len_bound(q.drop_first(), okey(q[0]));
        }
        seq![q.take(n)] + runs(q.skip(n))
    }
}

/// Leading orders of key `k` in `a + b`, where all of `a` has key `k`.
pub proof fn lemma_lead_len_add(a: Seq<RestingOrder>, b: Seq<RestingOrder>, k: int)
    requires
        forall|i: int| 0 <= i < a.len() ==> okey(#[trigger] a[i]) == k,
    ensures
        lead_len(a + b, k) == a.len() + lead_len(b, k),
    decreases a.len(),
{
    if a.len() == 0 {
        assert(a + b =~= b);
    } else {
        assert((a + b).drop_first() =~= a.drop_first() + b);
        assert((a + b)[0] == a[0]);
        assert forall|i: int| 0 <= i < a.drop_first().len() implies okey(#[trigger] a.drop_first()[i]) == k by {
            assert(a.drop_first()[i] == a[i + 1]);
        }
        lemma_lead_len_add(a.drop_first(), b, k);
    }
}

/// The runs of a concatenation of non-empty levels with increasing keys are
/// the levels themselves.
pub proof fn lemma_runs_concat(ks: Seq<i64>, m: Map<i64, Seq<RestingOrder>>)
    requires
        increasing(ks),
        forall|j: int, y: int|
            0 <= j < ks.len() && 0 <= y < m[ks[j]].len() ==> okey(#[trigger] m[ks[j]][y]) == ks[j],
        forall|j: int| 0 <= j < ks.len() ==> #[trigger] m[ks[j]].len() > 0,
    ensures
        runs(concat_levels(ks, m)) == ks.map_values(|k: i64| m[k]),
    decreases ks.len(),
{
    if ks.len() == 0 {
        assert(ks.map_values(|k: i64| m[k]) =~= Seq::<Seq<RestingOrder>>::empty());
    } else {
        let t = ks.drop_first();
        assert(increasing(t)) by {
            assert forall|i: int, j: int| 0 <= i < j < t.len() implies t[i] < t[j] by {
                assert(t[i] == ks[i + 1] && t[j] == ks[j + 1]);
            }
        }
        assert forall|j: int, y: int| 0 <= j < t.len() && 0 <= y < m[t[j]].len() implies okey(
            #[trigger] m[t[j]][y],
        ) == t[j] by {
            assert(t[j] == ks[j + 1]);
        }
        assert forall|j: int| 0 <= j < t.len() implies #[trigger] m[t[j]].len() > 0 by {
            assert(t[j] == ks[j + 1]);
        }
        lemma_runs_concat(t, m);
        let h = m[ks[0]];
        let r = concat_levels(t, m);
        let c = concat_levels(ks, m);
        assert(c == h + r);
        let k0 = ks[0] as int;
        assert(okey(h[0]) == k0);
        assert(c[0] == h[0]);
        assert(c.drop_first() =~= h.drop_first() + r);
        assert forall|i: int| 0 <= i < h.drop_first().len() implies okey(#[trigger] h.drop_first()[i]) == k0 by {
            assert(h.drop_first()[i] == h[i + 1]);
        }
        lemma_lead_len_add(h.drop_first(), r, k0);
        if r.len() > 0 {
            assert(t.len() > 0);
            assert(r == m[t[0]] + concat_levels(t.drop_first(), m));
            assert(r[0] == m[t[0]][0]);
            assert(okey(r[0]) == t[0]);
            assert(t[0] == ks[1]);
        }
        assert(lead_len(r, k0) == 0);
        let n = 1 + lead_len(c.drop_first(), okey(c[0])) as int;
        assert(n == h.len());
        assert(c.take(n) =~= h);
        assert(c.skip(n) =~= r);
        assert(ks.map_values(|k: i64| m[k]) =~= seq![h] + t.map_values(|k: i64| m[k]));
    }
}

/// The orders at price `p` in a concatenation of levels, each holding orders
/// of one key on one side, are the level of `p`'s key, if there is one.
pub proof fn lemma_at_price_concat(ks: Seq<i64>, m: Map<i64, Seq<RestingOrder>>, side: Side, p: Price)
    requires
        forall|j: int, y: int|
            0 <= j < ks.len() && 0 <= y < m[ks[j]].len() ==> okey(#[trigger] m[ks[j]][y]) == ks[j]
                && m[ks[j]][y].side == side,
        ks.no_duplicates(),
    ensures
        at_price(concat_levels(ks, m), p) == (if ks.contains(key_of(side, p.0) as i64) && key_of(
            side,
            p.0,
        ) == key_of(side, p.0) as i64 as int {
            m[key_of(side, p.0) as i64]
        } else {
            Seq::<RestingOrder>::empty()
        }),
    decreases ks.len(),
{
    let kp = key_of(side, p.0);
    if ks.len() == 0 {
    } else {
        let t = ks.drop_first();
        assert forall|j: int, y: int| 0 <= j < t.len() && 0 <= y < m[t[j]].len() implies okey(
            #[trigger] m[t[j]][y],
        ) == t[j] && m[t[j]][y].side == side by {
            assert(t[j] == ks[j + 1]);
        }
        assert(t.no_duplicates()) by {
            assert forall|i: int, j: int| 0 <= i < t.len() && 0 <= j < t.len() && i != j implies t[i] != t[j] by {
                assert(t[i] == ks[i + 1] && t[j] == ks[j + 1]);
            }
        }
        lemma_at_price_concat(t, m, side, p);
        let h = m[ks[0]];
        lemma_at_price_add(h, concat_levels(t, m), p);
        assert forall|i: int| 0 <= i < h.len() implies ((#[trigger] h[i]).price == p) == (ks[0] == kp) by {
            assert(okey(h[i]) == ks[0]);
            assert(h[i].side == side);
        }
        lemma_at_price_uniform(h, p);
        if ks[0] == kp {
            assert(ks.contains(kp as i64));
            assert(!t.contains(kp as i64)) by {
                if t.contains(kp as i64) {
                    let j = choose|j: int| 0 <= j < t.len() && t[j] == kp as i64;
                    assert(ks[j + 1] == ks[0]);
                }
            }
            assert(h + Seq::<RestingOrder>::empty() =~= h);
        } else {
            assert(Seq::<RestingOrder>::empty() + at_price(concat_levels(t, m), p) =~= at_price(
                concat_levels(t, m),
                p,
            ));
            assert(ks.contains(kp as i64) && kp == kp as i64 as int <==> t.contains(kp as i64) && kp
                == kp as i64 as int) by {
                if ks.contains(kp as i64) && kp == kp as i64 as int {
                    let j = choose|j: int| 0 <= j < ks.len() && ks[j] == kp as i64;
                    assert(j != 0);
                    assert(t[j - 1] == ks[j]);
                }
                if t.contains(kp as i64) {
                    let j = choose|j: int| 0 <= j < t.len() && t[j] == kp as i64;
                    assert(ks[j + 1] == t[j]);
                }
            }
        }
    }
}

/// The first `lead_len(q, k)` orders of `q` have key `k`, and the order
/// after them does not.
proof fn lemma_lead(q: Seq<RestingOrder>, k: int)
    ensures
        lead_len(q, k) <= q.len(),
        forall|j: int| 0 <= j < lead_len(q, k) ==> okey(#[trigger] q[j]) == k,
        lead_len(q, k) < q.len() ==> okey(q[lead_len(q, k) as int]) != k,
    decreases q.len(),
{
    if q.len() > 0 && okey(q[0]) == k {
        let t = q.drop_first();
        lemma_lead(t, k);
        assert forall|j: int| 0 <= j < lead_len(q, k) implies okey(#[trigger] q[j]) == k by {
            if j > 0 {
                assert(q[j] == t[j - 1]);
            }
        }
        if lead_len(q, k) < q.len() {
            assert(q[lead_len(q, k) as int] == t[lead_len(t, k) as int]);
        }
    }
}

/// The price levels of a queue partition it: joined in order they give the
/// queue back, the first starts with the queue's best order, and each is a
/// non-empty run of orders with one key. In a
/// queue in priority order the keys strictly worsen from one level to the
/// next, so no two levels share a price and the levels' order counts add up
/// to the queue's length.
pub proof fn lemma_runs_partition(q: Seq<RestingOrder>)
    ensures
        runs(q).flatten() == q,
        q.len() > 0 ==> runs(q).len() > 0 && runs(q)[0][0] == q[0],
        forall|i: int|
            0 <= i < runs(q).len() ==> (#[trigger] runs(q)[i]).len() > 0 && forall|j: int|
                0 <= j < runs(q)[i].len() ==> okey(#[trigger] runs(q)[i][j]) == okey(runs(q)[i][0]),
        keys_sorted(q) ==> forall|i: int, j: int|
            0 <= i < j < runs(q).len() ==> okey(#[trigger] runs(q)[i][0]) < okey(#[trigger] runs(q)[j][0]),
        keys_sorted(q) && q.len() > 0 ==> forall|i: int|
            0 <= i < runs(q).len() ==> okey(q[0]) <= okey(#[trigger] runs(q)[i][0]),
    decreases q.len(),
{
    if q.len() > 0 {
        let k = okey(q[0]);
        let t = q.drop_first();
        lemma_lead(t, k);
        let n = 1 + lead_len(t, k) as int;
        let head = q.take(n);
        let rest = q.skip(n);
        lemma_runs_partition(rest);
        let rs = runs(q);
        assert(rs == seq![head] + runs(rest));
        assert(rs.first() == head);
        assert(rs.drop_first() =~= runs(rest));
        assert(rs.flatten() == head + runs(rest).flatten());
        assert(head + rest =~= q);
        assert forall|j: int| 0 <= j < head.len() implies okey(#[trigger] head[j]) == k by {
            if j > 0 {
                assert(head[j] == t[j - 1]);
            }
        }
        assert forall|i: int|
            0 <= i < rs.len() implies (#[trigger] rs[i]).len() > 0 && forall|j: int|
                0 <= j < rs[i].len() ==> okey(#[trigger] rs[i][j]) == okey(rs[i][0]) by {
            if i > 0 {
                assert(rs[i] == runs(rest)[i - 1]);
            }
        }
        if keys_sorted(q) {
            assert(keys_sorted(rest)) by {
                assert forall|a: int, b: int| 0 <= a <= b < rest.len() implies okey(rest[a]) <= okey(rest[b]) by {
                    assert(rest[a] == q[a + n] && rest[b] == q[b + n]);
                }
            }
            if rest.len() > 0 {
                assert(rest[0] == q[n]);
                assert(q[n] == t[n - 1]);
                assert(okey(q[0]) <= okey(q[n]));
            }
            assert forall|i: int| 0 <= i < rs.len() implies k <= okey(#[trigger] rs[i][0]) by {
                if i > 0 {
                    assert(rs[i] == runs(rest)[i - 1]);
                    assert(rest.len() > 0);
                }
            }
            assert forall|i: int, j: int| 0 <= i < j < rs.len() implies okey(#[trigger] rs[i][0]) < okey(
                #[trigger] rs[j][0],
            ) by {
                assert(rs[j] == runs(rest)[j - 1]);
                if i > 0 {
                    assert(rs[i] == runs(rest)[i - 1]);
                } else {
                    assert(rest.len() > 0);
                    assert(okey(rest[0]) <= okey(runs(rest)[j - 1][0]));
                }
            }
        }
    } else {
        assert(runs(q).flatten() =~= q);
    }
}

/// The orders `at_price` lists are orders of the queue at that price, and
/// there are no more of them than the queue holds.
pub proof fn lemma_at_price_members(q: Seq<RestingOrder>, p: Price)
    ensures
        at_price(q, p).len() <= q.len(),
        forall|i: int|
            0 <= i < at_price(q, p).len() ==> (#[trigger] at_price(q, p)[i]).price == p && exists|x: int|
                0 <= x < q.len() && q[x] == at_price(q, p)[i],
    decreases q.len(),
{
    if q.len() > 0 {
        let t = q.drop_first();
        lemma_at_price_members(t, p);
        let a = at_price(q, p);
        let b = at_price(t, p);
        assert forall|i: int| 0 <= i < a.len() implies (#[trigger] a[i]).price == p && exists|x: int|
            0 <= x < q.len() && q[x] == a[i] by {
            if q[0].price == p {
                if i == 0 {
                    assert(q[0] == a[0]);
                } else {
                    assert(a[i] == b[i - 1]);
                    let x = choose|x: int| 0 <= x < t.len() && t[x] == b[i - 1];
                    assert(q[x + 1] == t[x]);
                }
            } else {
                assert(a[i] == b[i]);
                let x = choose|x: int| 0 <= x < t.len() && t[x] == b[i];
                assert(q[x + 1] == t[x]);
            }
        }
    }
}

/// Number of orders over all the levels `rs`.
pub open spec fn runs_total(rs: Seq<Seq<RestingOrder>>) -> int
    decreases rs.len(),
{
    if rs.len() == 0 {
        0
    } else {
        rs[0].len() + runs_total(rs.drop_first())
    }
}

/// The orders of one side priced `p` are what rests there.
proof fn lemma_at_price_none(q: Seq<RestingOrder>, p: Price)
    requires
        forall|i: int| 0 <= i < q.len() ==> (#[trigger] q[i]).price != p,
    ensures
        at_price(q, p) == Seq::<RestingOrder>::empty(),
{
    lemma_at_price_uniform(q, p);
}

/// The levels of one side's queue, in priority order, are its price
/// levels: each holds exactly the orders at its price, a price rests only
/// at one level, the best price leads, prices strictly worsen from level to
/// level (descending for bids, ascending for asks), and the levels hold
/// every order of the queue between them.
pub proof fn lemma_runs_levels(q: Seq<RestingOrder>, side: Side)
    requires
        keys_sorted(q),
        forall|i: int| 0 <= i < q.len() ==> (#[trigger] q[i]).side == side,
    ensures
        runs_total(runs(q)) == q.len(),
        forall|k: int| 0 <= k < runs(q).len() ==> at_price(q, (#[trigger] runs(q)[k])[0].price) == runs(q)[k],
        forall|k: int, j: int|
            0 <= k < runs(q).len() && 0 <= j < runs(q)[k].len() ==> (#[trigger] runs(q)[k][j]).price
                == runs(q)[k][0].price,
        forall|i: int, j: int|
            0 <= i < j < runs(q).len() ==> (side == Side::Buy ==> (#[trigger] runs(q)[i])[0].price.0 > (
            #[trigger] runs(q)[j])[0].price.0) && (side == Side::Sell ==> runs(q)[i][0].price.0
                < runs(q)[j][0].price.0),
        forall|x: int|
            0 <= x < q.len() ==> exists|k: int| 0 <= k < runs(q).len() && (#[trigger] runs(q)[k])[0].price
                == (#[trigger] q[x]).price,
    decreases q.len(),
{
    lemma_runs_partition(q);
    let rs = runs(q);
    assert forall|k: int, j: int|
        0 <= k < rs.len() && 0 <= j < rs[k].len() implies (#[trigger] rs[k][j]).price == rs[k][0].price by {
        assert(okey(rs[k][j]) == okey(rs[k][0]));
        lemma_run_in(q, k, j);
        lemma_run_in(q, k, 0);
    }
    assert forall|i: int, j: int| 0 <= i < j < rs.len() implies (side == Side::Buy ==> (
    #[trigger] rs[i])[0].price.0 > (#[trigger] rs[j])[0].price.0) && (side == Side::Sell ==> rs[i][0].price.0
        < rs[j][0].price.0) by {
        assert(okey(rs[i][0]) < okey(rs[j][0]));
        lemma_run_in(q, i, 0);
        lemma_run_in(q, j, 0);
    }
    if q.len() > 0 {
        let k0 = okey(q[0]);
        let t = q.drop_first();
        lemma_lead(t, k0);
        let n = 1 + lead_len(t, k0) as int;
        let head = q.take(n);
        let rest = q.skip(n);
        assert(rs == seq![head] + runs(rest));
        assert(rs.drop_first() =~= runs(rest));
        assert(head + rest =~= q);
        assert(keys_sorted(rest)) by {
            assert forall|a: int, b: int| 0 <= a <= b < rest.len() implies okey(rest[a]) <= okey(rest[b]) by {
                assert(rest[a] == q[a + n] && rest[b] == q[b + n]);
            }
        }
        assert forall|i: int| 0 <= i < rest.len() implies (#[trigger] rest[i]).side == side by {
            assert(rest[i] == q[i + n]);
        }
        lemma_runs_levels(rest, side);
        assert forall|j: int| 0 <= j < head.len() implies okey(#[trigger] head[j]) == k0 by {
            if j > 0 {
                assert(head[j] == t[j - 1]);
            }
        }
        // every order after the first level has a worse key
        assert forall|i: int| 0 <= i < rest.len() implies okey(#[trigger] rest[i]) > k0 by {
            assert(rest[0] == q[n]);
            assert(q[n] == t[n - 1]);
            assert(okey(q[0]) <= okey(q[n]));
            assert(rest[i] == q[i + n]);
            assert(okey(q[n]) <= okey(q[i + n]));
        }
        assert(runs_total(rs) == head.len() + runs_total(runs(rest)));
        assert forall|k: int| 0 <= k < rs.len() implies at_price(q, (#[trigger] rs[k])[0].price) == rs[k] by {
            let p = rs[k][0].price;
            lemma_at_price_add(head, rest, p);
            if k == 0 {
                assert(rs[0] == head);
                assert forall|j: int| 0 <= j < head.len() implies (#[trigger] head[j]).price == p by {
                    assert(head[j] == q[j] && head[0] == q[0]);
                }
                lemma_at_price_uniform(head, p);
                assert forall|i: int| 0 <= i < rest.len() implies (#[trigger] rest[i]).price != p by {
                    assert(okey(rest[i]) > k0);
                    assert(head[0] == q[0]);
                }
                lemma_at_price_none(rest, p);
                assert(head + Seq::<RestingOrder>::empty() =~= head);
            } else {
                let r = runs(rest);
                assert(rs[k] == r[k - 1]);
                lemma_run_in(rest, k - 1, 0);
                let x = choose|x: int| 0 <= x < rest.len() && rest[x] == r[k - 1][0];
                assert(okey(rest[x]) > k0);
                assert forall|j: int| 0 <= j < head.len() implies (#[trigger] head[j]).price != p by {
                    assert(okey(head[j]) == k0);
                }
                lemma_at_price_none(head, p);
                assert(Seq::<RestingOrder>::empty() + at_price(rest, p) =~= at_price(rest, p));
            }
        }
        assert forall|x: int| 0 <= x < q.len() implies exists|k: int| 0 <= k < rs.len() && (
        #[trigger] rs[k])[0].price == (#[trigger] q[x]).price by {
            if x < n {
                assert(head[x] == q[x]);
                assert(okey(head[x]) == k0);
                assert(rs[0] == head);
                assert(head[0] == q[0]);
            } else {
                assert(rest[x - n] == q[x]);
                let k = choose|k: int| 0 <= k < runs(rest).len() && (#[trigger] runs(rest)[k])[0].price
                    == rest[x - n].price;
                assert(0 <= k < runs(rest).len() && runs(rest)[k][0].price == rest[x - n].price);
                assert(rs[k + 1] == runs(rest)[k]);
            }
        }
    }
}

/// Each order of level `k` of `q` is an order of `q`.
proof fn lemma_run_in(q: Seq<RestingOrder>, k: int, j: int)
    requires
        0 <= k < runs(q).len(),
        0 <= j < runs(q)[k].len(),
    ensures
        exists|x: int| 0 <= x < q.len() && q[x] == runs(q)[k][j],
    decreases q.len(),
{
    let k0 = okey(q[0]);
    let t = q.drop_first();
    lemma_lead(t, k0);
    let n = 1 + lead_len(t, k0) as int;
    let head = q.take(n);
    let rest = q.skip(n);
    assert(runs(q) == seq![head] + runs(rest));
    if k == 0 {
        assert(q[j] == head[j]);
    } else {
        assert(runs(q)[k] == runs(rest)[k - 1]);
        lemma_run_in(rest, k - 1, j);
        let x = choose|x: int| 0 <= x < rest.len() && rest[x] == runs(rest)[k - 1][j];
        assert(q[x + n] == rest[x]);
    }
}

pub proof fn lemma_runs_len(q: Seq<RestingOrder>)
    ensures
        runs(q).len() <= q.len(),
    decreases q.len(),
{
    if q.len() > 0 {
        let n = 1 + lead_len(q.drop_first(), okey(q[0])) as int;
        lemma_lead_len_bound(q.drop_first(), okey(q[0]));
        lemma_runs_len(q.skip(n));
    }
}

} // verus!
