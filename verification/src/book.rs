//! Both sides of the book, the order arena and the id index.
//!
//! Each side is a `BTreeMap` from a sort key to a [`Level`]; the key of a
//! price is the price itself for asks and its negation for bids, so on both
//! sides the smallest key is the best price.
use std::collections::BTreeMap;
use std::collections::HashMap;
use vstd::prelude::*;
use vstd::std_specs::btree::{increasing_seq, spec_keys_iter};
use vstd::std_specs::iter::IteratorSpec;
use vstd::laws_cmp::{obeys_cmp, obeys_cmp_ord, obeys_cmp_partial_ord, obeys_partial_cmp_spec_properties};
use vstd::std_specs::cmp::OrdSpec;

use crate::level::{lemma_qty_sum_bound, node_order, order_of, qty_sum, same_at, Arena, Level, Node};
use crate::queue::{
    concat_levels, count_below, has_id, ids_unique, increasing, key_of, lemma_concat_levels_add,
    lemma_concat_levels_frame, lemma_concat_levels_keys, lemma_concat_levels_member,
    lemma_concat_levels_split, lemma_count_below, lemma_rest_into_shape, lemma_rest_into_split,
    lemma_id_ops_absent, lemma_id_ops_at, lemma_remove_id_gone, lemma_unique_insert, lemma_unique_join, lemma_unique_remove,
    lemma_unique_split, lemma_unique_update, find_in, limit_allows, match_spec, okey, remove_id,
    rest_into, set_qty, keys_sorted, lemma_increasing_unique, runs, at_price, lemma_runs_concat,
    lemma_at_price_concat, lemma_at_price_uniform, lemma_concat_levels_one, lemma_concat_levels_sorted,
    lemma_at_price_members, lemma_runs_len, lemma_runs_levels, lemma_runs_partition, runs_total,
};
use crate::command::Event;
use crate::types::spec_opposite;
use crate::types::{price_in_range, qty_in_range, OrderId, Price, Qty, SeqNo, Side, MAX_QTY};

verus! {

/// A resting order as seen from outside the book.
#[derive(Clone, Copy, Debug, PartialEq, Eq, Structural)]
pub struct RestingOrder {
    /// Order id.
    pub id: OrderId,
    /// Side.
    pub side: Side,
    /// Price level the order rests at.
    pub price: Price,
    /// Open quantity.
    pub qty: Qty,
    /// Priority sequence number.
    pub seq: SeqNo,
}

/// Aggregate view of one price level.
#[derive(Clone, Copy, Debug, PartialEq, Eq, Structural)]
pub struct LevelSummary {
    /// Level price.
    pub price: Price,
    /// Total open quantity at the level.
    pub qty: Qty,
    /// Number of orders at the level.
    pub orders: u32,
}

/// The keys that iterating `m` yields are its keys in increasing order.
proof fn lemma_keys_iter(m: &BTreeMap<i64, Level>, ks: Seq<i64>)
    requires
        increasing(ks),
        forall|k: i64| m@.contains_key(k) <==> ks.contains(k),
    ensures
        spec_keys_iter(m).remaining().unref() == ks,
{
    broadcast use vstd::std_specs::btree::group_btree_axioms;
    let it = spec_keys_iter(m).remaining();
    let s = it.unref();
    assert(s.to_set() == m@.dom());
    assert(obeys_cmp::<&i64>()) by {
        broadcast use vstd::laws_cmp::group_laws_cmp;
        assert(obeys_cmp::<i64>());
        reveal(obeys_cmp_partial_ord);
        reveal(obeys_cmp_ord);
        reveal(obeys_partial_cmp_spec_properties);
        reveal(vstd::laws_eq::obeys_eq_spec_properties);
    }
    assert(increasing(s)) by {
        assert(increasing_seq(it));
        vstd::std_specs::btree::axiom_increasing_seq_meaning::<&i64>(it);
        assert forall|i: int, j: int| 0 <= i < j < s.len() implies s[i] < s[j] by {
            assert(OrdSpec::cmp_spec(&it[i], &it[j]) is Less);
        }
    }
    assert forall|k: i64| s.contains(k) <==> ks.contains(k) by {
        if s.contains(k) {
            assert(s.to_set().contains(k));
        }
        if ks.contains(k) {
            assert(m@.dom().contains(k));
            assert(s.to_set().contains(k));
        }
    }
    lemma_increasing_unique(s, ks);
}

/// The least key of `m`, if it has one: the first key its iterator yields.
fn first_key(m: &BTreeMap<i64, Level>, Ghost(ks): Ghost<Seq<i64>>) -> (r: Option<i64>)
    requires
        increasing(ks),
        forall|k: i64| m@.contains_key(k) <==> ks.contains(k),
    ensures
        r == (if ks.len() == 0 {
            None
        } else {
            Some(ks[0])
        }),
{
    proof {
        lemma_keys_iter(m, ks);
    }
    let mut r: Option<i64> = None;
    for k in it: m.keys()
        invariant_except_break
            ks == it.seq().unref(),
            r is None,
            it.index() == 0,
        ensures
            (ks.len() == 0 && r is None) || (ks.len() > 0 && r == Some(ks[0])),
    {
        r = Some(*k);
        break;
    }
    r
}

/// The keys of `m`, in increasing order.
fn sorted_keys(m: &BTreeMap<i64, Level>, Ghost(ks): Ghost<Seq<i64>>) -> (r: Vec<i64>)
    requires
        increasing(ks),
        forall|k: i64| m@.contains_key(k) <==> ks.contains(k),
    ensures
        r@ == ks,
{
    proof {
        lemma_keys_iter(m, ks);
    }
    let mut r: Vec<i64> = Vec::new();
    for k in it: m.keys()
        invariant
            ks == it.seq().unref(),
            r@ == ks.take(it.index()),
    {
        r.push(*k);
        proof {
            assert(r@ =~= ks.take(it.index() + 1));
        }
    }
    proof {
        assert(r@ =~= ks);
    }
    r
}

/// Aggregate of one price level: its price, total open quantity and
/// number of orders.
pub open spec fn summary(run: Seq<RestingOrder>) -> LevelSummary {
    LevelSummary { price: run[0].price, qty: Qty(qty_sum(run) as u64), orders: run.len() as u32 }
}

/// The first `n` price levels of a queue, best first, summarised.
pub open spec fn depth_of(q: Seq<RestingOrder>, n: int) -> Seq<LevelSummary> {
    let rs = runs(q);
    rs.take(
        if n < rs.len() {
            n
        } else {
            rs.len() as int
        },
    ).map_values(|run: Seq<RestingOrder>| summary(run))
}

/// Number of orders over the levels `ds`.
pub open spec fn orders_total(ds: Seq<LevelSummary>) -> int
    decreases ds.len(),
{
    if ds.len() == 0 {
        0
    } else {
        ds[0].orders + orders_total(ds.drop_first())
    }
}

proof fn lemma_orders_total(rs: Seq<Seq<RestingOrder>>)
    requires
        forall|k: int| 0 <= k < rs.len() ==> (#[trigger] rs[k]).len() <= u32::MAX,
    ensures
        orders_total(rs.map_values(|run: Seq<RestingOrder>| summary(run))) == runs_total(rs),
    decreases rs.len(),
{
    if rs.len() > 0 {
        let t = rs.drop_first();
        assert forall|k: int| 0 <= k < t.len() implies (#[trigger] t[k]).len() <= u32::MAX by {
            assert(t[k] == rs[k + 1]);
        }
        lemma_orders_total(t);
        let ds = rs.map_values(|run: Seq<RestingOrder>| summary(run));
        assert(ds.drop_first() =~= t.map_values(|run: Seq<RestingOrder>| summary(run)));
        assert(ds[0] == summary(rs[0]));
    }
}

/// Slot `h` of `a` holds an order of `side` whose price has sort key `k`.
pub(crate) open spec fn at_level(a: Arena, side: Side, k: i64, h: u32) -> bool {
    &&& a.has(h)
    &&& a.node(h).side == side
    &&& key_of(side, a.node(h).price.0) == k
    &&& price_in_range(a.node(h).price.0)
}

/// One side of the book is well formed over arena `a`: `ks` lists the keys
/// of `m` in increasing order, and every level is a non-empty well-formed
/// queue of orders of `side` at its key.
pub(crate) open spec fn side_ok(m: Map<i64, Level>, ks: Seq<i64>, a: Arena, side: Side) -> bool {
    &&& increasing(ks)
    &&& forall|k: i64| m.contains_key(k) <==> ks.contains(k)
    &&& forall|k: i64| #[trigger] m.contains_key(k) ==> m[k].wf(a) && m[k].hs@.len() > 0
    &&& forall|k: i64, y: int|
        m.contains_key(k) && 0 <= y < m[k].hs@.len() ==> #[trigger] at_level(a, side, k, m[k].hs@[y])
}

/// The orders of each level of `m`, as stored in `a`.
pub(crate) open spec fn level_views(m: Map<i64, Level>, a: Arena) -> Map<i64, Seq<RestingOrder>> {
    Map::new(|k: i64| m.contains_key(k), |k: i64| m[k].view_in(a))
}

/// A side is unaffected by arena changes outside its slots.
pub(crate) proof fn lemma_side_frame(m: Map<i64, Level>, ks: Seq<i64>, a: Arena, b: Arena, side: Side)
    requires
        side_ok(m, ks, a, side),
        forall|k: i64, h: u32| m.contains_key(k) && m[k].hs@.contains(h) ==> same_at(a, b, h),
    ensures
        side_ok(m, ks, b, side),
        level_views(m, b) == level_views(m, a),
{
    assert forall|k: i64| #[trigger] m.contains_key(k) implies m[k].wf(b) && m[k].view_in(b)
        == m[k].view_in(a) by {
        assert forall|h: u32| m[k].hs@.contains(h) implies same_at(a, b, h) by {}
        m[k].lemma_frame(a, b);
    }
    assert forall|k: i64, y: int| m.contains_key(k) && 0 <= y < m[k].hs@.len() implies #[trigger] at_level(
        b,
        side,
        k,
        m[k].hs@[y],
    ) by {
        assert(at_level(a, side, k, m[k].hs@[y]));
        assert(m[k].hs@.contains(m[k].hs@[y]));
        assert(same_at(a, b, m[k].hs@[y]));
    }
    assert(level_views(m, b) =~= level_views(m, a));
}

/// Every order of a well-formed side carries its level's key, and levels are
/// non-empty.
pub(crate) proof fn lemma_views_keyed(m: Map<i64, Level>, ks: Seq<i64>, a: Arena, side: Side)
    requires
        side_ok(m, ks, a, side),
    ensures
        forall|j: int, y: int|
            0 <= j < ks.len() && 0 <= y < level_views(m, a)[ks[j]].len() ==> okey(
                #[trigger] level_views(m, a)[ks[j]][y],
            ) == ks[j],
        forall|j: int| 0 <= j < ks.len() ==> #[trigger] level_views(m, a)[ks[j]].len() > 0,
        forall|j: int| 0 <= j < ks.len() ==> m.contains_key(#[trigger] ks[j]),
{
    assert forall|j: int, y: int|
        0 <= j < ks.len() && 0 <= y < level_views(m, a)[ks[j]].len() implies okey(
        #[trigger] level_views(m, a)[ks[j]][y],
    ) == ks[j] by {
        assert(ks.contains(ks[j]));
        let k = ks[j];
        assert(m.contains_key(k));
        assert(at_level(a, side, k, m[k].hs@[y]));
    }
    assert forall|j: int| 0 <= j < ks.len() implies #[trigger] level_views(m, a)[ks[j]].len() > 0 by {
        assert(ks.contains(ks[j]));
    }
    assert forall|j: int| 0 <= j < ks.len() implies m.contains_key(#[trigger] ks[j]) by {
        assert(ks.contains(ks[j]));
    }
}

/// Appends the unlinked order in slot `h` at the back of the level with key
/// `key`, creating the level if needed.
fn push_into(
    levels: &mut BTreeMap<i64, Level>,
    keys: &mut Ghost<Seq<i64>>,
    arena: &mut Arena,
    side: Side,
    key: i64,
    h: u32,
)
    requires
        side_ok(old(levels)@, old(keys)@, *old(arena), side),
        old(arena).wf(),
        at_level(*old(arena), side, key, h),
        old(arena).node(h).prev is None,
        old(arena).node(h).next is None,
        qty_in_range(old(arena).node(h).open.0),
        forall|k: i64| old(levels)@.contains_key(k) ==> !old(levels)@[k].hs@.contains(h),
    ensures
        side_ok(final(levels)@, final(keys)@, *final(arena), side),
        final(arena).wf(),
        final(arena).live@ == old(arena).live@,
        concat_levels(final(keys)@, level_views(final(levels)@, *final(arena))) == rest_into(
            concat_levels(old(keys)@, level_views(old(levels)@, *old(arena))),
            node_order(old(arena).node(h)),
        ),
        forall|g: u32|
            g != h && (forall|k: i64|
                old(levels)@.contains_key(k) ==> !old(levels)@[k].hs@.contains(g)) ==> same_at(
                *final(arena),
                *old(arena),
                g,
            ),
        forall|g: u32|
            old(arena).has(g) ==> final(arena).has(g) && node_order(final(arena).node(g))
                == node_order(old(arena).node(g)),
        forall|k: i64, g: u32|
            #![trigger final(levels)@[k].hs@.contains(g)]
            #![trigger old(levels)@[k].hs@.contains(g)]
            (final(levels)@.contains_key(k) && final(levels)@[k].hs@.contains(g)) <==> ((old(
                levels,
            )@.contains_key(k) && old(levels)@[k].hs@.contains(g)) || (k == key && g == h)),
{
    let ghost m0 = levels@;
    let ghost ks0 = keys@;
    let ghost a0 = *arena;
    let ghost o = node_order(a0.node(h));
    proof {
        lemma_views_keyed(m0, ks0, a0, side);
    }
    let existing = levels.remove(&key);
    let was_new = existing.is_none();
    let mut level = match existing {
        Some(l) => l,
        None => Level::new(),
    };
    let ghost hs_before = level.hs@;
    proof {
        if !was_new {
            assert(m0.contains_key(key));
            assert(hs_before == m0[key].hs@);
        } else {
            assert(hs_before == Seq::<u32>::empty());
        }
    }
    level.push_back(arena, h);
    levels.insert(key, level);
    let ghost m1 = levels@;
    let ghost a1 = *arena;
    proof {
        if was_new {
            let i = count_below(ks0, key);
            lemma_count_below(ks0, key);
            assert(!ks0.contains(key));
            keys@ = ks0.take(i) + seq![key] + ks0.skip(i);
        }
        let ks1 = keys@;
        let lv0 = level_views(m0, a0);
        let lv1 = level_views(m1, a1);
        // levels other than `key` are untouched
        assert forall|k: i64| #[trigger] m0.contains_key(k) && k != key implies m1[k].wf(a1)
            && m1[k].view_in(a1) == m0[k].view_in(a0) by {
            assert forall|g: u32| m0[k].hs@.contains(g) implies same_at(a0, a1, g) by {
                let y = choose|y: int| 0 <= y < m0[k].hs@.len() && m0[k].hs@[y] == g;
                assert(at_level(a0, side, k, m0[k].hs@[y]));
                assert(g != h);
                assert(!hs_before.contains(g)) by {
                    if !was_new {
                        assert(!m0[key].hs@.contains(g)) by {
                        if m0[key].hs@.contains(g) {
                            let z = choose|z: int| 0 <= z < m0[key].hs@.len() && m0[key].hs@[z] == g;
                            assert(at_level(a0, side, key, m0[key].hs@[z]));
                        }
                    }
                    }
                }
                assert(same_at(a1, a0, g));
            }
            m0[k].lemma_frame(a0, a1);
        }
        assert(increasing(ks1)) by {
            if was_new {
                let i = count_below(ks0, key);
                assert forall|x: int, y: int| 0 <= x < y < ks1.len() implies ks1[x] < ks1[y] by {
                    if y < i {
                    } else if y == i {
                    } else if x < i {
                        assert(ks1[y] == ks0[y - 1]);
                    } else if x == i {
                        assert(ks1[y] == ks0[y - 1]);
                        assert(ks0[y - 1] != key) by {
                            assert(ks0.contains(ks0[y - 1]));
                        }
                    } else {
                        assert(ks1[y] == ks0[y - 1]);
                        assert(ks1[x] == ks0[x - 1]);
                    }
                }
            }
        }
        assert forall|k: i64| m1.contains_key(k) <==> ks1.contains(k) by {
            if was_new {
                let i = count_below(ks0, key);
                if ks1.contains(k) {
                    let x = choose|x: int| 0 <= x < ks1.len() && ks1[x] == k;
                    if x < i {
                        assert(ks0.contains(ks0[x]));
                    } else if x > i {
                        assert(ks1[x] == ks0[x - 1]);
                        assert(ks0.contains(ks0[x - 1]));
                    }
                }
                if m1.contains_key(k) && k != key {
                    assert(ks0.contains(k));
                    let x = choose|x: int| 0 <= x < ks0.len() && ks0[x] == k;
                    if x < i {
                        assert(ks1[x] == k);
                    } else {
                        assert(ks1[x + 1] == k);
                    }
                }
                if k == key {
                    assert(ks1[i] == key);
                }
            }
        }
        assert forall|k: i64, y: int| m1.contains_key(k) && 0 <= y < m1[k].hs@.len() implies #[trigger] at_level(
            a1,
            side,
            k,
            m1[k].hs@[y],
        ) by {
            if k != key {
                assert(at_level(a0, side, k, m0[k].hs@[y]));
                assert(m0[k].hs@.contains(m0[k].hs@[y]));
            } else if y + 1 == m1[k].hs@.len() {
                assert(m1[k].hs@[y] == h);
            } else {
                assert(m1[k].hs@[y] == m0[k].hs@[y]);
                assert(at_level(a0, side, k, m0[k].hs@[y]));
            }
        }
        assert(side_ok(m1, ks1, a1, side));
        // the queue
        assert forall|k: i64| ks0.contains(k) && k != key implies lv1[k] == lv0[k] by {}
        let q0 = concat_levels(ks0, lv0);
        let q1 = concat_levels(ks1, lv1);
        if was_new {
            let i = count_below(ks0, key);
            let a_keys = ks0.take(i);
            let c_keys = ks0.skip(i);
            assert(ks0 =~= a_keys + c_keys);
            lemma_concat_levels_add(a_keys, c_keys, lv0);
            assert(ks1 =~= a_keys + seq![key] + c_keys);
            lemma_concat_levels_split(ks1, i, lv1);
            assert(ks1.take(i) =~= a_keys);
            assert(ks1.skip(i + 1) =~= c_keys);
            assert forall|j: int| 0 <= j < a_keys.len() implies lv1[#[trigger] a_keys[j]] == lv0[a_keys[j]] by {
                assert(ks0.contains(a_keys[j]));
            }
            lemma_concat_levels_frame(a_keys, lv1, lv0);
            assert forall|j: int| 0 <= j < c_keys.len() implies lv1[#[trigger] c_keys[j]] == lv0[c_keys[j]] by {
                assert(c_keys[j] == ks0[j + i]);
                assert(ks0.contains(c_keys[j]));
            }
            lemma_concat_levels_frame(c_keys, lv1, lv0);
            assert(lv1[key] =~= seq![o]);
            let av = concat_levels(a_keys, lv0);
            let cv = concat_levels(c_keys, lv0);
            assert forall|x: int| 0 <= x < av.len() implies okey(#[trigger] av[x]) <= okey(o) by {
                assert forall|j: int, y: int|
                    0 <= j < a_keys.len() && 0 <= y < lv0[a_keys[j]].len() implies okey(
                    #[trigger] lv0[a_keys[j]][y],
                ) == a_keys[j] by {
                    assert(a_keys[j] == ks0[j]);
                }
                lemma_concat_levels_keys(a_keys, lv0, x);
            }
            if cv.len() > 0 {
                assert(c_keys.len() > 0);
                assert(cv == lv0[c_keys[0]] + concat_levels(c_keys.drop_first(), lv0));
                assert(c_keys[0] == ks0[i]);
                assert(lv0[ks0[i]].len() > 0);
                assert(cv[0] == lv0[ks0[i]][0]);
            }
            lemma_rest_into_split(av, cv, o);
            assert(q1 =~= av + seq![o] + cv);
        } else {
            assert(m0.contains_key(key));
            assert(ks0.contains(key));
            let i = choose|i: int| 0 <= i < ks0.len() && ks0[i] == key;
            assert(ks1 == ks0);
            lemma_concat_levels_split(ks0, i, lv0);
            lemma_concat_levels_split(ks0, i, lv1);
            let a_keys = ks0.take(i);
            let c_keys = ks0.skip(i + 1);
            assert forall|j: int| 0 <= j < a_keys.len() implies lv1[#[trigger] a_keys[j]] == lv0[a_keys[j]] by {
                assert(ks0.contains(a_keys[j]));
                assert(a_keys[j] < key);
            }
            lemma_concat_levels_frame(a_keys, lv1, lv0);
            assert forall|j: int| 0 <= j < c_keys.len() implies lv1[#[trigger] c_keys[j]] == lv0[c_keys[j]] by {
                assert(c_keys[j] == ks0[j + i + 1]);
                assert(ks0.contains(c_keys[j]));
                assert(c_keys[j] > key);
            }
            lemma_concat_levels_frame(c_keys, lv1, lv0);
            let av = concat_levels(a_keys, lv0);
            let lk = lv0[key];
            let cv = concat_levels(c_keys, lv0);
            assert(lv1[key] == lk.push(o));
            assert forall|x: int| 0 <= x < (av + lk).len() implies okey(#[trigger] (av + lk)[x]) <= okey(o) by {
                if x < av.len() {
                    assert forall|j: int, y: int|
                        0 <= j < a_keys.len() && 0 <= y < lv0[a_keys[j]].len() implies okey(
                        #[trigger] lv0[a_keys[j]][y],
                    ) == a_keys[j] by {
                        assert(a_keys[j] == ks0[j]);
                    }
                    lemma_concat_levels_keys(a_keys, lv0, x);
                    assert((av + lk)[x] == av[x]);
                } else {
                    assert((av + lk)[x] == lk[x - av.len()]);
                }
            }
            if cv.len() > 0 {
                assert(c_keys.len() > 0);
                assert(cv == lv0[c_keys[0]] + concat_levels(c_keys.drop_first(), lv0));
                assert(c_keys[0] == ks0[i + 1]);
                assert(lv0[ks0[i + 1]].len() > 0);
                assert(cv[0] == lv0[ks0[i + 1]][0]);
            }
            lemma_rest_into_split(av + lk, cv, o);
            assert(q0 =~= (av + lk) + cv);
            assert(q1 =~= (av + lk) + seq![o] + cv);
        }
        // slots outside the side are untouched
        assert forall|g: u32|
            g != h && (forall|k: i64| m0.contains_key(k) ==> !m0[k].hs@.contains(g)) implies same_at(
            a1,
            a0,
            g,
        ) by {
            if !was_new {
                assert(!m0[key].hs@.contains(g));
            }
            assert(!hs_before.contains(g));
        }
        assert forall|k: i64, g: u32|
            (m1.contains_key(k) && m1[k].hs@.contains(g)) <==> ((m0.contains_key(k)
                && m0[k].hs@.contains(g)) || (k == key && g == h)) by {
            if k == key {
                if m1[k].hs@.contains(g) {
                    let y = choose|y: int| 0 <= y < m1[k].hs@.len() && m1[k].hs@[y] == g;
                    if y + 1 < m1[k].hs@.len() {
                        assert(m0[k].hs@[y] == g);
                    }
                }
                if m0.contains_key(k) && m0[k].hs@.contains(g) {
                    let y = choose|y: int| 0 <= y < m0[k].hs@.len() && m0[k].hs@[y] == g;
                    assert(m1[k].hs@[y] == g);
                }
                assert(m1[k].hs@.last() == h);
            }
        }
    }
}

/// Unlinks the order in slot `h` from the level with key `key`, dropping the
/// level if it empties. The slot stays allocated. Returns the order's
/// position in the side's queue.
#[verifier::rlimit(80)]
#[verifier::spinoff_prover]
fn pull_from(
    levels: &mut BTreeMap<i64, Level>,
    keys: &mut Ghost<Seq<i64>>,
    arena: &mut Arena,
    side: Side,
    key: i64,
    h: u32,
) -> (pos: Ghost<int>)
    requires
        side_ok(old(levels)@, old(keys)@, *old(arena), side),
        old(arena).wf(),
        old(levels)@.contains_key(key),
        old(levels)@[key].hs@.contains(h),
    ensures
        side_ok(final(levels)@, final(keys)@, *final(arena), side),
        final(arena).wf(),
        final(arena).live@ == old(arena).live@,
        final(arena).has(h),
        final(arena).node(h) == (Node { prev: None, next: None, ..old(arena).node(h) }),
        0 <= pos@ < concat_levels(old(keys)@, level_views(old(levels)@, *old(arena))).len(),
        concat_levels(old(keys)@, level_views(old(levels)@, *old(arena)))[pos@] == node_order(
            old(arena).node(h),
        ),
        concat_levels(final(keys)@, level_views(final(levels)@, *final(arena))) == concat_levels(
            old(keys)@,
            level_views(old(levels)@, *old(arena)),
        ).remove(pos@),
        forall|g: u32|
            (forall|k: i64| old(levels)@.contains_key(k) ==> !old(levels)@[k].hs@.contains(g))
                ==> same_at(*final(arena), *old(arena), g),
        forall|g: u32|
            old(arena).has(g) ==> final(arena).has(g) && node_order(final(arena).node(g))
                == node_order(old(arena).node(g)),
        forall|k: i64, g: u32|
            #![trigger final(levels)@[k].hs@.contains(g)]
            #![trigger old(levels)@[k].hs@.contains(g)]
            (final(levels)@.contains_key(k) && final(levels)@[k].hs@.contains(g)) <==> (old(
                levels,
            )@.contains_key(k) && old(levels)@[k].hs@.contains(g) && g != h),
{
    let ghost m0 = levels@;
    let ghost ks0 = keys@;
    let ghost a0 = *arena;
    let ghost lv0 = level_views(m0, a0);
    let ghost y = choose|y: int| 0 <= y < m0[key].hs@.len() && m0[key].hs@[y] == h;
    proof {
        lemma_views_keyed(m0, ks0, a0, side);
        assert(ks0.contains(key));
    }
    let ghost i = choose|i: int| 0 <= i < ks0.len() && ks0[i] == key;
    let mut level = levels.remove(&key).unwrap();
    let ghost l0 = level;
    proof {
        assert(l0.hs@.contains(h));
    }
    level.unlink(arena, h);
    let ghost a1 = *arena;
    let emptied = level.is_empty();
    if !emptied {
        levels.insert(key, level);
    } else {
        proof {
            keys@ = ks0.remove(i);
        }
    }
    proof {
        let m1 = levels@;
        let ks1 = keys@;
        let lv1 = level_views(m1, a1);
        // other levels are untouched
        assert forall|k: i64| #[trigger] m0.contains_key(k) && k != key implies m1[k].wf(a1)
            && m1[k].view_in(a1) == m0[k].view_in(a0) by {
            assert forall|g: u32| m0[k].hs@.contains(g) implies same_at(a0, a1, g) by {
                let z = choose|z: int| 0 <= z < m0[k].hs@.len() && m0[k].hs@[z] == g;
                assert(at_level(a0, side, k, m0[k].hs@[z]));
                assert(!l0.hs@.contains(g)) by {
                    if l0.hs@.contains(g) {
                        let w = choose|w: int| 0 <= w < l0.hs@.len() && l0.hs@[w] == g;
                        assert(at_level(a0, side, key, m0[key].hs@[w]));
                    }
                }
                assert(same_at(a1, a0, g));
            }
            m0[k].lemma_frame(a0, a1);
        }
        assert(increasing(ks1)) by {
            if emptied {
                assert forall|x: int, z: int| 0 <= x < z < ks1.len() implies ks1[x] < ks1[z] by {
                    let x0 = if x < i { x } else { x + 1 };
                    let z0 = if z < i { z } else { z + 1 };
                    assert(ks1[x] == ks0[x0] && ks1[z] == ks0[z0]);
                }
            }
        }
        assert forall|k: i64| m1.contains_key(k) <==> ks1.contains(k) by {
            if emptied {
                if ks1.contains(k) {
                    let x = choose|x: int| 0 <= x < ks1.len() && ks1[x] == k;
                    let x0 = if x < i { x } else { x + 1 };
                    assert(ks1[x] == ks0[x0]);
                    assert(ks0.contains(k));
                    assert(k != key);
                }
                if m1.contains_key(k) {
                    assert(ks0.contains(k));
                    let x = choose|x: int| 0 <= x < ks0.len() && ks0[x] == k;
                    assert(x != i);
                    if x < i {
                        assert(ks1[x] == k);
                    } else {
                        assert(ks1[x - 1] == k);
                    }
                }
            }
        }
        assert forall|k: i64, z: int| m1.contains_key(k) && 0 <= z < m1[k].hs@.len() implies #[trigger] at_level(
            a1,
            side,
            k,
            m1[k].hs@[z],
        ) by {
            if k != key {
                assert(at_level(a0, side, k, m0[k].hs@[z]));
                assert(m0[k].hs@.contains(m0[k].hs@[z]));
            } else {
                let z0 = if z < y { z } else { z + 1 };
                assert(m1[k].hs@[z] == l0.hs@[z0]);
                assert(at_level(a0, side, k, m0[k].hs@[z0]));
            }
        }
        assert(side_ok(m1, ks1, a1, side));
        // the queue
        lemma_concat_levels_split(ks0, i, lv0);
        let a_keys = ks0.take(i);
        let c_keys = ks0.skip(i + 1);
        assert forall|j: int| 0 <= j < a_keys.len() implies lv1[#[trigger] a_keys[j]] == lv0[a_keys[j]] by {
            assert(ks0.contains(a_keys[j]));
            assert(a_keys[j] < key);
        }
        lemma_concat_levels_frame(a_keys, lv1, lv0);
        assert forall|j: int| 0 <= j < c_keys.len() implies lv1[#[trigger] c_keys[j]] == lv0[c_keys[j]] by {
            assert(c_keys[j] == ks0[j + i + 1]);
            assert(ks0.contains(c_keys[j]));
            assert(c_keys[j] > key);
        }
        lemma_concat_levels_frame(c_keys, lv1, lv0);
        let av = concat_levels(a_keys, lv0);
        let cv = concat_levels(c_keys, lv0);
        let lk = lv0[key];
        let p = av.len() + y;
        assert(concat_levels(ks0, lv0)[p] == lk[y]);
        assert(lk[y] == node_order(a0.node(h)));
        if emptied {
            assert(ks1 =~= a_keys + c_keys);
            lemma_concat_levels_add(a_keys, c_keys, lv1);
            assert(lk.len() == 1);
            assert(concat_levels(ks1, lv1) =~= concat_levels(ks0, lv0).remove(p));
        } else {
            lemma_concat_levels_split(ks1, i, lv1);
            assert(ks1.take(i) == a_keys);
            assert(ks1.skip(i + 1) == c_keys);
            assert(lv1[key] == lk.remove(y));
            assert(concat_levels(ks1, lv1) =~= concat_levels(ks0, lv0).remove(p));
        }
        assert forall|g: u32|
            (forall|k: i64| m0.contains_key(k) ==> !m0[k].hs@.contains(g)) implies same_at(a1, a0, g) by {
            assert(!m0[key].hs@.contains(g));
        }
        assert forall|k: i64, g: u32|
            (m1.contains_key(k) && m1[k].hs@.contains(g)) <==> (m0.contains_key(k) && m0[k].hs@.contains(
                g,
            ) && g != h) by {
            if k == key {
                assert(l0.hs@ == m0[key].hs@);
                if m1.contains_key(k) && m1[k].hs@.contains(g) {
                    assert(!emptied);
                    assert(m1[k].hs@ == l0.hs@.remove(y));
                    let z = choose|z: int| 0 <= z < m1[k].hs@.len() && m1[k].hs@[z] == g;
                    let z0 = if z < y { z } else { z + 1 };
                    assert(l0.hs@[z0] == g);
                    assert(z0 != y);
                    assert(l0.hs@[z0] != l0.hs@[y]);
                    assert(m0[k].hs@.contains(g));
                }
                if m0[k].hs@.contains(g) && g != h {
                    let z = choose|z: int| 0 <= z < m0[k].hs@.len() && m0[k].hs@[z] == g;
                    assert(z != y);
                    let z1 = if z < y { z } else { z - 1 };
                    assert(l0.hs@.remove(y)[z1] == g);
                    assert(level.hs@.len() > 0);
                    assert(!emptied);
                    assert(m1[k] == level);
                    assert(m1[k].hs@.contains(g));
                }
            } else {
                assert(m1.contains_key(k) == m0.contains_key(k));
                if m0.contains_key(k) {
                    assert(m1[k] == m0[k]);
                    if m0[k].hs@.contains(h) {
                        let z = choose|z: int| 0 <= z < m0[k].hs@.len() && m0[k].hs@[z] == h;
                        assert(at_level(a0, side, k, m0[k].hs@[z]));
                        assert(at_level(a0, side, key, m0[key].hs@[y]));
                    }
                }
            }
        }
    }
    Ghost(y + concat_levels(ks0.take(i), lv0).len())
}

/// Lowers the open quantity of the order in slot `h`, in the level with key
/// `key`, by `by`, in place. Returns the order's position in the side's queue.
#[verifier::rlimit(80)]
#[verifier::spinoff_prover]
fn reduce_in(
    levels: &mut BTreeMap<i64, Level>,
    keys: &Ghost<Seq<i64>>,
    arena: &mut Arena,
    side: Side,
    key: i64,
    h: u32,
    by: Qty,
) -> (pos: Ghost<int>)
    requires
        side_ok(old(levels)@, keys@, *old(arena), side),
        old(arena).wf(),
        old(levels)@.contains_key(key),
        old(levels)@[key].hs@.contains(h),
        by.0 < old(arena).node(h).open.0,
    ensures
        side_ok(final(levels)@, keys@, *final(arena), side),
        final(arena).wf(),
        final(arena).live@ == old(arena).live@,
        final(arena).has(h),
        final(arena).node(h) == (Node {
            open: Qty((old(arena).node(h).open.0 - by.0) as u64),
            ..old(arena).node(h)
        }),
        0 <= pos@ < concat_levels(keys@, level_views(old(levels)@, *old(arena))).len(),
        concat_levels(keys@, level_views(old(levels)@, *old(arena)))[pos@] == node_order(
            old(arena).node(h),
        ),
        concat_levels(keys@, level_views(final(levels)@, *final(arena))) == concat_levels(
            keys@,
            level_views(old(levels)@, *old(arena)),
        ).update(
            pos@,
            node_order(
                Node { open: Qty((old(arena).node(h).open.0 - by.0) as u64), ..old(arena).node(h) },
            ),
        ),
        forall|g: u32| g != h ==> same_at(*final(arena), *old(arena), g),
        forall|k: i64, g: u32|
            #![trigger final(levels)@[k].hs@.contains(g)]
            #![trigger old(levels)@[k].hs@.contains(g)]
            (final(levels)@.contains_key(k) && final(levels)@[k].hs@.contains(g)) <==> (old(
                levels,
            )@.contains_key(k) && old(levels)@[k].hs@.contains(g)),
{
    let ghost m0 = levels@;
    let ghost ks0 = keys@;
    let ghost a0 = *arena;
    let ghost lv0 = level_views(m0, a0);
    let ghost y = choose|y: int| 0 <= y < m0[key].hs@.len() && m0[key].hs@[y] == h;
    proof {
        lemma_views_keyed(m0, ks0, a0, side);
        assert(ks0.contains(key));
    }
    let ghost i = choose|i: int| 0 <= i < ks0.len() && ks0[i] == key;
    let mut level = levels.remove(&key).unwrap();
    let ghost l0 = level;
    proof {
        assert(l0.hs@.contains(h));
    }
    level.reduce(arena, h, by);
    levels.insert(key, level);
    proof {
        let a1 = *arena;
        let m1 = levels@;
        let lv1 = level_views(m1, a1);
        let nn = Node { open: Qty((a0.node(h).open.0 - by.0) as u64), ..a0.node(h) };
        assert forall|k: i64| #[trigger] m0.contains_key(k) && k != key implies m1[k].wf(a1)
            && m1[k].view_in(a1) == m0[k].view_in(a0) by {
            assert forall|g: u32| m0[k].hs@.contains(g) implies same_at(a0, a1, g) by {
                let z = choose|z: int| 0 <= z < m0[k].hs@.len() && m0[k].hs@[z] == g;
                assert(at_level(a0, side, k, m0[k].hs@[z]));
                assert(at_level(a0, side, key, m0[key].hs@[y]));
                assert(g != h);
                assert(same_at(a1, a0, g));
            }
            m0[k].lemma_frame(a0, a1);
        }
        assert forall|k: i64, z: int| m1.contains_key(k) && 0 <= z < m1[k].hs@.len() implies #[trigger] at_level(
            a1,
            side,
            k,
            m1[k].hs@[z],
        ) by {
            assert(m1[k].hs@ == m0[k].hs@);
            assert(at_level(a0, side, k, m0[k].hs@[z]));
            if m0[k].hs@[z] != h {
                assert(same_at(a1, a0, m0[k].hs@[z]));
            }
        }
        assert forall|k: i64| m1.contains_key(k) <==> ks0.contains(k) by {}
        assert(side_ok(m1, ks0, a1, side));
        lemma_concat_levels_split(ks0, i, lv0);
        lemma_concat_levels_split(ks0, i, lv1);
        let a_keys = ks0.take(i);
        let c_keys = ks0.skip(i + 1);
        assert forall|j: int| 0 <= j < a_keys.len() implies lv1[#[trigger] a_keys[j]] == lv0[a_keys[j]] by {
            assert(ks0.contains(a_keys[j]));
            assert(a_keys[j] < key);
        }
        lemma_concat_levels_frame(a_keys, lv1, lv0);
        assert forall|j: int| 0 <= j < c_keys.len() implies lv1[#[trigger] c_keys[j]] == lv0[c_keys[j]] by {
            assert(c_keys[j] == ks0[j + i + 1]);
            assert(ks0.contains(c_keys[j]));
            assert(c_keys[j] > key);
        }
        lemma_concat_levels_frame(c_keys, lv1, lv0);
        let av = concat_levels(a_keys, lv0);
        let p = av.len() + y;
        assert(concat_levels(ks0, lv0)[p] == lv0[key][y]);
        assert(lv1[key] == lv0[key].update(y, node_order(nn)));
        assert(concat_levels(ks0, lv1) =~= concat_levels(ks0, lv0).update(p, node_order(nn)));
        assert forall|k: i64, g: u32|
            (m1.contains_key(k) && m1[k].hs@.contains(g)) <==> (m0.contains_key(k) && m0[k].hs@.contains(g)) by {
            if k == key {
                assert(m1[k].hs@ == m0[k].hs@);
            } else {
                assert(m1.contains_key(k) == m0.contains_key(k));
            }
        }
    }
    Ghost(y + concat_levels(ks0.take(i), lv0).len())
}

/// The resting orders of a single instrument.
pub struct OrderBook {
    bids: BTreeMap<i64, Level>,
    asks: BTreeMap<i64, Level>,
    bid_keys: Ghost<Seq<i64>>,
    ask_keys: Ghost<Seq<i64>>,
    arena: Arena,
    index: HashMap<u64, u32>,
}

impl OrderBook {
    pub(crate) closed spec fn levels(self, side: Side) -> Map<i64, Level> {
        match side {
            Side::Buy => self.bids@,
            Side::Sell => self.asks@,
        }
    }

    pub(crate) closed spec fn keys(self, side: Side) -> Seq<i64> {
        match side {
            Side::Buy => self.bid_keys@,
            Side::Sell => self.ask_keys@,
        }
    }

    /// The resting orders of `side` in priority order: best price first,
    /// time priority within a price.
    pub closed spec fn queue(self, side: Side) -> Seq<RestingOrder> {
        concat_levels(self.keys(side), level_views(self.levels(side), self.arena))
    }

    /// Slot `h` is linked into the level of its side and price.
    pub(crate) closed spec fn placed(self, h: u32) -> bool {
        let n = self.arena.node(h);
        let k = key_of(n.side, n.price.0) as i64;
        &&& self.levels(n.side).contains_key(k)
        &&& self.levels(n.side)[k].hs@.contains(h)
    }

    /// The book's internal invariant.
    pub closed spec fn wf(self) -> bool {
        &&& self.arena.wf()
        &&& side_ok(self.bids@, self.bid_keys@, self.arena, Side::Buy)
        &&& side_ok(self.asks@, self.ask_keys@, self.arena, Side::Sell)
        &&& forall|h: u32| #[trigger] self.arena.has(h) ==> self.placed(h)
        &&& forall|id: u64|
            #[trigger] self.index@.contains_key(id) ==> self.arena.has(self.index@[id])
                && self.arena.node(self.index@[id]).id.0 == id
        &&& forall|h: u32|
            #[trigger] self.arena.has(h) ==> self.index@.contains_key(self.arena.node(h).id.0)
                && self.index@[self.arena.node(h).id.0] == h
        &&& self.arena.live@ == self.index@.len()
        &&& self.index@.len() == self.queue(Side::Buy).len() + self.queue(Side::Sell).len()
        &&& ids_unique(self.queue(Side::Buy) + self.queue(Side::Sell))
    }

    /// What every well-formed book holds of its queues: each order is on its
    /// queue's side, with a price and quantity in range; prices come in
    /// priority order; and no id rests twice.
    pub proof fn lemma_queues(self)
        requires
            self.wf(),
        ensures
            forall|side: Side, x: int|
                0 <= x < self.queue(side).len() ==> {
                    let o = #[trigger] self.queue(side)[x];
                    &&& o.side == side
                    &&& price_in_range(o.price.0)
                    &&& qty_in_range(o.qty.0)
                },
            keys_sorted(self.queue(Side::Buy)),
            keys_sorted(self.queue(Side::Sell)),
            ids_unique(self.queue(Side::Buy) + self.queue(Side::Sell)),
            self.queue(Side::Buy).len() + self.queue(Side::Sell).len() <= u32::MAX,
    {
        assert forall|side: Side, x: int| 0 <= x < self.queue(side).len() implies {
            let o = #[trigger] self.queue(side)[x];
            &&& o.side == side
            &&& price_in_range(o.price.0)
            &&& qty_in_range(o.qty.0)
        } by {
            let m = self.levels(side);
            let ks = self.keys(side);
            let lv = level_views(m, self.arena);
            lemma_concat_levels_member(ks, lv, x);
            let (j, y) = choose|j: int, y: int|
                0 <= j < ks.len() && 0 <= y < lv[ks[j]].len() && concat_levels(ks, lv)[x]
                    == lv[ks[j]][y];
            let k = ks[j];
            assert(ks.contains(k));
            assert(m.contains_key(k));
            assert(at_level(self.arena, side, k, m[k].hs@[y]));
            assert(m[k].wf(self.arena));
            assert(m[k].link_ok(self.arena, y));
        }
        lemma_views_keyed(self.bids@, self.bid_keys@, self.arena, Side::Buy);
        lemma_views_keyed(self.asks@, self.ask_keys@, self.arena, Side::Sell);
        lemma_concat_levels_sorted(self.bid_keys@, level_views(self.bids@, self.arena));
        lemma_concat_levels_sorted(self.ask_keys@, level_views(self.asks@, self.arena));
    }

    /// What `depth(side, n)` reports: `min(n, levels)` summaries, a prefix
    /// of the full depth; prices strictly worsen from the best (descending
    /// for bids, ascending for asks), the first level is at the best price,
    /// every resting price has a level, and each summary gives the number
    /// and the total quantity of the orders `level_orders` lists at its
    /// price, of which there is at least one.
    pub proof fn lemma_depth(self, side: Side, n: int)
        requires
            self.wf(),
            0 <= n,
        ensures
            ({
                let q = self.queue(side);
                let levels = runs(q).len() as int;
                let d = depth_of(q, n);
                let all = depth_of(q, levels);
                &&& d.len() == (if n < levels {
                    n
                } else {
                    levels
                })
                &&& d == all.take(d.len() as int)
                &&& forall|i: int, j: int|
                    0 <= i < j < d.len() ==> (side == Side::Buy ==> (#[trigger] d[i]).price.0 > (
                    #[trigger] d[j]).price.0) && (side == Side::Sell ==> d[i].price.0 < d[j].price.0)
                &&& n > 0 && q.len() > 0 ==> d[0].price == q[0].price
                &&& forall|x: int|
                    0 <= x < q.len() ==> exists|k: int| 0 <= k < all.len() && (#[trigger] all[k]).price
                        == (#[trigger] q[x]).price
                &&& forall|k: int|
                    0 <= k < d.len() ==> {
                        &&& (#[trigger] d[k]).orders as int == at_price(q, d[k].price).len()
                        &&& at_price(q, d[k].price).len() > 0
                        &&& d[k].qty.0 == qty_sum(at_price(q, d[k].price))
                    }
            }),
    {
        self.lemma_queues();
        let q = self.queue(side);
        let rs = runs(q);
        let levels = rs.len() as int;
        let d = depth_of(q, n);
        let all = depth_of(q, levels);
        lemma_runs_partition(q);
        lemma_runs_levels(q, side);
        lemma_runs_len(q);
        assert(rs.take(levels) =~= rs);
        assert(d =~= all.take(d.len() as int));
        assert forall|k: int| 0 <= k < rs.len() implies {
            &&& (#[trigger] rs[k]).len() <= u32::MAX
            &&& summary(rs[k]).orders as int == rs[k].len()
            &&& summary(rs[k]).qty.0 == qty_sum(rs[k])
        } by {
            let p = rs[k][0].price;
            lemma_at_price_members(q, p);
            assert(rs[k].len() <= q.len());
            assert forall|i: int| 0 <= i < rs[k].len() implies rs[k][i].qty.0 <= MAX_QTY by {
                let x = choose|x: int| 0 <= x < q.len() && q[x] == at_price(q, p)[i];
                assert(qty_in_range(q[x].qty.0));
            }
            lemma_qty_sum_bound(rs[k]);
            crate::types::level_total_fits();
            assert(rs[k].len() * MAX_QTY <= (u32::MAX as int) * (MAX_QTY as int)) by (nonlinear_arith)
                requires
                    rs[k].len() <= u32::MAX,
            ;
        }
        assert forall|x: int| 0 <= x < q.len() implies exists|k: int| 0 <= k < all.len() && (
        #[trigger] all[k]).price == (#[trigger] q[x]).price by {
            let k = choose|k: int| 0 <= k < rs.len() && (#[trigger] rs[k])[0].price == q[x].price;
            assert(all[k] == summary(rs[k]));
        }
    }

    /// The book is consistent level by level: it holds as many orders as
    /// the full depth of both sides counts, and every order `level_orders`
    /// lists at a price is on that side at that price, with a valid
    /// quantity, and is the order the book finds under its id.
    pub proof fn lemma_book_levels(self, side: Side, p: Price)
        requires
            self.wf(),
        ensures
            self.queue(Side::Buy).len() + self.queue(Side::Sell).len() == orders_total(
                depth_of(self.queue(Side::Buy), usize::MAX as int),
            ) + orders_total(depth_of(self.queue(Side::Sell), usize::MAX as int)),
            forall|i: int|
                0 <= i < at_price(self.queue(side), p).len() ==> {
                    let o = #[trigger] at_price(self.queue(side), p)[i];
                    &&& o.side == side
                    &&& o.price == p
                    &&& qty_in_range(o.qty.0)
                    &&& self.find(o.id) == Some(o)
                },
    {
        self.lemma_queues();
        self.lemma_side_total(Side::Buy);
        self.lemma_side_total(Side::Sell);
        let q = self.queue(side);
        lemma_at_price_members(q, p);
        assert forall|i: int| 0 <= i < at_price(q, p).len() implies {
            let o = #[trigger] at_price(q, p)[i];
            &&& o.side == side
            &&& o.price == p
            &&& qty_in_range(o.qty.0)
            &&& self.find(o.id) == Some(o)
        } by {
            let x = choose|x: int| 0 <= x < q.len() && q[x] == at_price(q, p)[i];
            self.lemma_queue_order(side, x);
        }
    }

    /// One side's full depth counts every order of its queue.
    proof fn lemma_side_total(self, side: Side)
        requires
            self.wf(),
        ensures
            orders_total(depth_of(self.queue(side), usize::MAX as int)) == self.queue(side).len(),
    {
        self.lemma_queues();
        let q = self.queue(side);
        let rs = runs(q);
        lemma_runs_levels(q, side);
        lemma_runs_len(q);
        assert(rs.take(rs.len() as int) =~= rs);
        assert forall|k: int| 0 <= k < rs.len() implies (#[trigger] rs[k]).len() <= u32::MAX by {
            lemma_at_price_members(q, rs[k][0].price);
        }
        lemma_orders_total(rs);
    }

    /// Every order on a side of a well-formed book is on that side, has a
    /// price and quantity in range, and is the order the book finds under
    /// its id.
    pub proof fn lemma_queue_order(self, side: Side, x: int)
        requires
            self.wf(),
            0 <= x < self.queue(side).len(),
        ensures
            self.queue(side)[x].side == side,
            price_in_range(self.queue(side)[x].price.0),
            qty_in_range(self.queue(side)[x].qty.0),
            self.find(self.queue(side)[x].id) == Some(self.queue(side)[x]),
    {
        self.lemma_queues();
        let q = self.queue(side);
        let o = q[x];
        assert(o == q[x]);
        lemma_unique_split(self.queue(Side::Buy), self.queue(Side::Sell));
        assert forall|j: int| 0 <= j < x implies (#[trigger] q[j]).id != q[x].id by {}
        lemma_id_ops_at(q, x, o.qty);
        assert(has_id(q, o.id));
        if side == Side::Sell {
            assert(!has_id(self.queue(Side::Buy), o.id));
        }
    }

    /// Each order of a queue is stored in some slot.
    proof fn lemma_elem_handle(self, side: Side, x: int)
        requires
            self.wf(),
            0 <= x < self.queue(side).len(),
        ensures
            exists|h: u32|
                self.arena.has(h) && self.queue(side)[x] == node_order(self.arena.node(h))
                    && self.arena.node(h).side == side,
    {
        let m = self.levels(side);
        let ks = self.keys(side);
        let lv = level_views(m, self.arena);
        lemma_concat_levels_member(ks, lv, x);
        let (j, y) = choose|j: int, y: int|
            0 <= j < ks.len() && 0 <= y < lv[ks[j]].len() && concat_levels(ks, lv)[x] == lv[ks[j]][y];
        let k = ks[j];
        assert(ks.contains(k));
        assert(m.contains_key(k));
        let h = m[k].hs@[y];
        assert(at_level(self.arena, side, k, h));
        assert(self.queue(side)[x] == node_order(self.arena.node(h)));
    }

    /// Each stored order appears in the queue of its side.
    proof fn lemma_handle_elem(self, h: u32)
        requires
            self.wf(),
            self.arena.has(h),
        ensures
            has_id(self.queue(self.arena.node(h).side), self.arena.node(h).id),
            exists|x: int|
                0 <= x < self.queue(self.arena.node(h).side).len() && self.queue(
                    self.arena.node(h).side,
                )[x] == node_order(self.arena.node(h)),
    {
        let n = self.arena.node(h);
        let side = n.side;
        let k = key_of(side, n.price.0) as i64;
        assert(self.placed(h));
        let m = self.levels(side);
        let ks = self.keys(side);
        let lv = level_views(m, self.arena);
        assert(m.contains_key(k));
        assert(ks.contains(k));
        let i = choose|i: int| 0 <= i < ks.len() && ks[i] == k;
        let y = choose|y: int| 0 <= y < m[k].hs@.len() && m[k].hs@[y] == h;
        lemma_concat_levels_split(ks, i, lv);
        let a = concat_levels(ks.take(i), lv);
        let x = a.len() + y;
        assert(self.queue(side)[x] == lv[k][y]);
        assert(lv[k][y] == node_order(n));
    }

    /// An id is indexed exactly when an order with that id rests.
    proof fn lemma_index_ids(self, id: OrderId)
        requires
            self.wf(),
        ensures
            self.index@.contains_key(id.0) <==> (has_id(self.queue(Side::Buy), id) || has_id(
                self.queue(Side::Sell),
                id,
            )),
    {
        if self.index@.contains_key(id.0) {
            let h = self.index@[id.0];
            self.lemma_handle_elem(h);
            assert(self.arena.node(h).id == id);
        }
        if has_id(self.queue(Side::Buy), id) {
            let x = choose|x: int| 0 <= x < self.queue(Side::Buy).len() && self.queue(Side::Buy)[x].id == id;
            self.lemma_elem_handle(Side::Buy, x);
        }
        if has_id(self.queue(Side::Sell), id) {
            let x = choose|x: int| 0 <= x < self.queue(Side::Sell).len() && self.queue(Side::Sell)[x].id == id;
            self.lemma_elem_handle(Side::Sell, x);
        }
    }

    /// Places a new order at the back of its price level.
    pub fn insert(&mut self, id: OrderId, side: Side, price: Price, qty: Qty, seq: SeqNo)
        requires
            old(self).wf(),
            price_in_range(price.0),
            qty_in_range(qty.0),
            !has_id(old(self).queue(Side::Buy), id),
            !has_id(old(self).queue(Side::Sell), id),
            old(self).queue(Side::Buy).len() + old(self).queue(Side::Sell).len() < u32::MAX,
        ensures
            final(self).wf(),
            final(self).queue(side) == rest_into(
                old(self).queue(side),
                RestingOrder { id, side, price, qty, seq },
            ),
            final(self).queue(spec_opposite(side)) == old(self).queue(spec_opposite(side)),
    {
        let ghost b0 = *self;
        proof {
            b0.lemma_index_ids(id);
        }
        let h = self.arena.allocate(id, side, price, qty, seq);
        let ghost a1 = self.arena;
        proof {
            // the new slot belongs to no level yet
            assert forall|sd: Side, k: i64|
                b0.levels(sd).contains_key(k) implies !b0.levels(sd)[k].hs@.contains(h) by {
                if b0.levels(sd)[k].hs@.contains(h) {
                    let y = choose|y: int| 0 <= y < b0.levels(sd)[k].hs@.len() && b0.levels(sd)[k].hs@[y] == h;
                    assert(at_level(b0.arena, sd, k, b0.levels(sd)[k].hs@[y]));
                }
            }
            assert forall|k: i64, g: u32| b0.bids@.contains_key(k) && b0.bids@[k].hs@.contains(g) implies same_at(b0.arena, a1, g) by {
                assert(g != h);
                assert(same_at(a1, b0.arena, g));
            }
            lemma_side_frame(b0.bids@, b0.bid_keys@, b0.arena, a1, Side::Buy);
            assert forall|k: i64, g: u32| b0.asks@.contains_key(k) && b0.asks@[k].hs@.contains(g) implies same_at(b0.arena, a1, g) by {
                assert(g != h);
                assert(same_at(a1, b0.arena, g));
            }
            lemma_side_frame(b0.asks@, b0.ask_keys@, b0.arena, a1, Side::Sell);
        }
        self.index.insert(id.0, h);
        let key: i64 = match side {
            Side::Buy => -price.0,
            Side::Sell => price.0,
        };
        match side {
            Side::Buy => {
                push_into(&mut self.bids, &mut self.bid_keys, &mut self.arena, side, key, h);
                assert(self.bids@[key].hs@.contains(h));
            },
            Side::Sell => {
                push_into(&mut self.asks, &mut self.ask_keys, &mut self.arena, side, key, h);
                assert(self.asks@[key].hs@.contains(h));
            },
        }
        proof {
            let b1 = *self;
            let a2 = self.arena;
            let o = RestingOrder { id, side, price, qty, seq };
            let os = spec_opposite(side);
            // the other side is untouched
            assert forall|k: i64, g: u32| b0.levels(os).contains_key(k) && b0.levels(os)[k].hs@.contains(g) implies same_at(a1, a2, g) by {
                let y = choose|y: int| 0 <= y < b0.levels(os)[k].hs@.len() && b0.levels(os)[k].hs@[y] == g;
                assert(at_level(b0.arena, os, k, b0.levels(os)[k].hs@[y]));
                assert(g != h);
                assert forall|k2: i64| b0.levels(side).contains_key(k2) implies !b0.levels(side)[k2].hs@.contains(g) by {
                    if b0.levels(side)[k2].hs@.contains(g) {
                        let z = choose|z: int| 0 <= z < b0.levels(side)[k2].hs@.len() && b0.levels(side)[k2].hs@[z] == g;
                        assert(at_level(b0.arena, side, k2, b0.levels(side)[k2].hs@[z]));
                    }
                }
                assert(same_at(a2, a1, g));
            }
            match side {
                Side::Buy => lemma_side_frame(b0.asks@, b0.ask_keys@, a1, a2, Side::Sell),
                Side::Sell => lemma_side_frame(b0.bids@, b0.bid_keys@, a1, a2, Side::Buy),
            }
            assert(b1.levels(os) == b0.levels(os));
            assert(b1.keys(os) == b0.keys(os));
            assert(b1.queue(os) == b0.queue(os));
            assert(b1.queue(side) == rest_into(b0.queue(side), o));
            // every slot is placed and indexed
            assert forall|g: u32| a2.has(g) && g != h implies #[trigger] b0.arena.has(g) by {
                if exists|k: i64| b0.levels(side).contains_key(k) && b0.levels(side)[k].hs@.contains(g) {
                    let k = choose|k: i64| b0.levels(side).contains_key(k) && b0.levels(side)[k].hs@.contains(g);
                    let y = choose|y: int| 0 <= y < b0.levels(side)[k].hs@.len() && b0.levels(side)[k].hs@[y] == g;
                    assert(at_level(b0.arena, side, k, b0.levels(side)[k].hs@[y]));
                } else {
                    assert(same_at(a2, a1, g));
                    assert(same_at(a1, b0.arena, g));
                }
            }
            assert forall|g: u32| #[trigger] a2.has(g) implies b1.placed(g) by {
                if g != h {
                    assert(b0.arena.has(g));
                    assert(b0.placed(g));
                    assert(same_at(a1, b0.arena, g));
                    assert(node_order(a2.node(g)) == node_order(a1.node(g)));
                    let n = b0.arena.node(g);
                    let k = key_of(n.side, n.price.0) as i64;
                    assert(b0.levels(n.side).contains_key(k) && b0.levels(n.side)[k].hs@.contains(g));
                    if n.side == side {
                        assert(b1.levels(side).contains_key(k) && b1.levels(side)[k].hs@.contains(g));
                    } else {
                        assert(n.side == os);
                    }
                } else {
                    assert(key == key_of(side, price.0) as i64);
                    match side {
                        Side::Buy => {
                            assert(b1.bids@.contains_key(key) && b1.bids@[key].hs@.contains(h));
                        },
                        Side::Sell => {
                            assert(b1.asks@.contains_key(key) && b1.asks@[key].hs@.contains(h));
                        },
                    }
                }
            }
            assert forall|id2: u64| #[trigger] b1.index@.contains_key(id2) implies a2.has(b1.index@[id2])
                && a2.node(b1.index@[id2]).id.0 == id2 by {
                if id2 != id.0 {
                    assert(b0.index@.contains_key(id2));
                }
            }
            assert forall|g: u32| #[trigger] a2.has(g) implies b1.index@.contains_key(a2.node(g).id.0)
                && b1.index@[a2.node(g).id.0] == g by {
                if g != h {
                    assert(a1.has(g));
                    assert(b0.arena.has(g));
                    assert(b0.index@.contains_key(b0.arena.node(g).id.0));
                }
            }
            lemma_rest_into_shape(b0.queue(side), o);
            let n = choose|n: int| 0 <= n <= b0.queue(side).len() && rest_into(b0.queue(side), o) == b0.queue(side).take(n) + seq![o] + b0.queue(side).skip(n);
            match side {
                Side::Buy => {
                    lemma_unique_split(b0.queue(Side::Buy), b0.queue(Side::Sell));
                    lemma_unique_insert(b0.queue(Side::Buy), n, o);
                    let q = b0.queue(Side::Buy);
                    let r = q.take(n) + seq![o] + q.skip(n);
                    assert forall|id2: OrderId| has_id(r, id2) implies !has_id(b0.queue(Side::Sell), id2) by {
                        let i = choose|i: int| 0 <= i < r.len() && r[i].id == id2;
                        if i < n {
                            assert(r[i] == q[i]);
                            assert(has_id(q, id2));
                        } else if i > n {
                            assert(r[i] == q[i - 1]);
                            assert(has_id(q, id2));
                        }
                    }
                    lemma_unique_join(r, b0.queue(Side::Sell));
                },
                Side::Sell => {
                    lemma_unique_split(b0.queue(Side::Buy), b0.queue(Side::Sell));
                    lemma_unique_insert(b0.queue(Side::Sell), n, o);
                    let q = b0.queue(Side::Sell);
                    let r = q.take(n) + seq![o] + q.skip(n);
                    assert forall|id2: OrderId| has_id(b0.queue(Side::Buy), id2) implies !has_id(r, id2) by {
                        if has_id(r, id2) {
                            let i = choose|i: int| 0 <= i < r.len() && r[i].id == id2;
                            if i < n {
                                assert(r[i] == q[i]);
                                assert(has_id(q, id2));
                            } else if i > n {
                                assert(r[i] == q[i - 1]);
                                assert(has_id(q, id2));
                            }
                        }
                    }
                    lemma_unique_join(b0.queue(Side::Buy), r);
                },
            }
        }
    }

    /// An empty book.
    pub fn new() -> (b: OrderBook)
        ensures
            b.wf(),
            b.queue(Side::Buy) == Seq::<RestingOrder>::empty(),
            b.queue(Side::Sell) == Seq::<RestingOrder>::empty(),
    {
        let b = OrderBook {
            bids: BTreeMap::new(),
            asks: BTreeMap::new(),
            bid_keys: Ghost(Seq::empty()),
            ask_keys: Ghost(Seq::empty()),
            arena: Arena::new(),
            index: HashMap::new(),
        };
        proof {
            assert(b.queue(Side::Buy) =~= Seq::<RestingOrder>::empty());
            assert(b.queue(Side::Sell) =~= Seq::<RestingOrder>::empty());
        }
        b
    }

    /// Removes a resting order, returning its final state.
    pub fn remove(&mut self, id: OrderId) -> (r: Option<RestingOrder>)
        requires
            old(self).wf(),
        ensures
            final(self).wf(),
            r == old(self).find(id),
            match r {
                None => {
                    &&& !has_id(old(self).queue(Side::Buy), id)
                    &&& !has_id(old(self).queue(Side::Sell), id)
                    &&& final(self).queue(Side::Buy) == old(self).queue(Side::Buy)
                    &&& final(self).queue(Side::Sell) == old(self).queue(Side::Sell)
                },
                Some(o) => {
                    &&& o.id == id
                    &&& find_in(old(self).queue(o.side), id) == Some(o)
                    &&& final(self).queue(o.side) == remove_id(old(self).queue(o.side), id)
                    &&& final(self).queue(spec_opposite(o.side)) == old(self).queue(
                        spec_opposite(o.side),
                    )
                },
            },
            final(self).find(id) is None,
            final(self).queue(Side::Buy).len() + final(self).queue(Side::Sell).len() + (if r is Some {
                1int
            } else {
                0int
            }) == old(self).queue(Side::Buy).len() + old(self).queue(Side::Sell).len(),
    {
        let ghost b0 = *self;
        proof {
            b0.lemma_index_ids(id);
            b0.lemma_find(id);
            b0.lemma_queues();
            lemma_unique_split(b0.queue(Side::Buy), b0.queue(Side::Sell));
            lemma_remove_id_gone(b0.queue(Side::Buy), id);
            lemma_remove_id_gone(b0.queue(Side::Sell), id);
        }
        let found = self.index.remove(&id.0);
        match found {
            None => {
                None
            },
            Some(h) => {
                proof {
                    assert(b0.index@.contains_key(id.0));
                    assert(b0.arena.has(h));
                    assert(b0.placed(h));
                    let nh = b0.arena.node(h);
                    let kh = key_of(nh.side, nh.price.0) as i64;
                    let y = choose|y: int| 0 <= y < b0.levels(nh.side)[kh].hs@.len() && b0.levels(nh.side)[kh].hs@[y] == h;
                    assert(at_level(b0.arena, nh.side, kh, b0.levels(nh.side)[kh].hs@[y]));
                }
                let n = self.arena.get(h);
                let side = n.side;
                let key: i64 = match side {
                    Side::Buy => -n.price.0,
                    Side::Sell => n.price.0,
                };
                let pos = match side {
                    Side::Buy => {
                        let p = pull_from(&mut self.bids, &mut self.bid_keys, &mut self.arena, side, key, h);
                        assert(self.arena.has(h));
                        p
                    },
                    Side::Sell => {
                        let p = pull_from(&mut self.asks, &mut self.ask_keys, &mut self.arena, side, key, h);
                        assert(self.arena.has(h));
                        p
                    },
                };
                let ghost a1 = self.arena;
                let ghost b1 = *self;
                let node = self.arena.free(h);
                let o = RestingOrder { id: node.id, side: node.side, price: node.price, qty: node.open, seq: node.seq };
                proof {
                    let a2 = self.arena;
                    let os = spec_opposite(side);
                    let q0 = b0.queue(side);
                    // the other side does not hold `h`
                    assert forall|k: i64, g: u32| b0.levels(os).contains_key(k) && b0.levels(os)[k].hs@.contains(g) implies same_at(b0.arena, a2, g) by {
                        let y = choose|y: int| 0 <= y < b0.levels(os)[k].hs@.len() && b0.levels(os)[k].hs@[y] == g;
                        assert(at_level(b0.arena, os, k, b0.levels(os)[k].hs@[y]));
                        assert forall|k2: i64| b0.levels(side).contains_key(k2) implies !b0.levels(side)[k2].hs@.contains(g) by {
                            if b0.levels(side)[k2].hs@.contains(g) {
                                let z = choose|z: int| 0 <= z < b0.levels(side)[k2].hs@.len() && b0.levels(side)[k2].hs@[z] == g;
                                assert(at_level(b0.arena, side, k2, b0.levels(side)[k2].hs@[z]));
                            }
                        }
                        assert(same_at(a1, b0.arena, g));
                        assert(g != h);
                        assert(same_at(a2, a1, g));
                    }
                    match side {
                        Side::Buy => lemma_side_frame(b0.asks@, b0.ask_keys@, b0.arena, a2, Side::Sell),
                        Side::Sell => lemma_side_frame(b0.bids@, b0.bid_keys@, b0.arena, a2, Side::Buy),
                    }
                    // this side no longer holds `h`
                    assert forall|k: i64, g: u32| b1.levels(side).contains_key(k) && b1.levels(side)[k].hs@.contains(g) implies same_at(a1, a2, g) by {
                        assert(g != h);
                        assert(same_at(a2, a1, g));
                    }
                    match side {
                        Side::Buy => lemma_side_frame(b1.bids@, b1.bid_keys@, a1, a2, Side::Buy),
                        Side::Sell => lemma_side_frame(b1.asks@, b1.ask_keys@, a1, a2, Side::Sell),
                    }
                    assert(self.queue(os) == b0.queue(os));
                    assert(self.queue(side) == q0.remove(pos@));
                    assert(q0[pos@] == o);
                    // ids are unique, so the position is the first with this id
                    lemma_unique_split(b0.queue(Side::Buy), b0.queue(Side::Sell));
                    assert forall|j: int| 0 <= j < pos@ implies (#[trigger] q0[j]).id != q0[pos@].id by {}
                    lemma_id_ops_at(q0, pos@, o.qty);
                    lemma_unique_remove(q0, pos@);
                    match side {
                        Side::Buy => lemma_unique_join(q0.remove(pos@), b0.queue(Side::Sell)),
                        Side::Sell => lemma_unique_join(b0.queue(Side::Buy), q0.remove(pos@)),
                    }
                    // slots, index
                    assert forall|g: u32| #[trigger] a2.has(g) implies self.placed(g) by {
                        assert(g != h);
                        assert(same_at(a2, a1, g));
                        assert(a1.has(g));
                        if b0.arena.has(g) {
                            assert(b0.placed(g));
                            let ng = b0.arena.node(g);
                            let kg = key_of(ng.side, ng.price.0) as i64;
                            if ng.side == side {
                                assert(b1.levels(side)[kg].hs@.contains(g));
                            }
                        } else {
                            let k2 = key_of(side, n.price.0) as i64;
                            assert(forall|k: i64| b0.levels(side).contains_key(k) ==> !b0.levels(side)[k].hs@.contains(g)) by {
                                assert forall|k: i64| b0.levels(side).contains_key(k) implies !b0.levels(side)[k].hs@.contains(g) by {
                                    if b0.levels(side)[k].hs@.contains(g) {
                                        let z = choose|z: int| 0 <= z < b0.levels(side)[k].hs@.len() && b0.levels(side)[k].hs@[z] == g;
                                        assert(at_level(b0.arena, side, k, b0.levels(side)[k].hs@[z]));
                                    }
                                }
                            }
                            assert(same_at(a1, b0.arena, g));
                        }
                    }
                    assert forall|id2: u64| #[trigger] self.index@.contains_key(id2) implies a2.has(self.index@[id2])
                        && a2.node(self.index@[id2]).id.0 == id2 by {
                        assert(b0.index@.contains_key(id2));
                        let g = b0.index@[id2];
                        assert(g != h);
                        assert(a1.has(g) && node_order(a1.node(g)) == node_order(b0.arena.node(g)));
                        assert(same_at(a2, a1, g));
                    }
                    assert forall|g: u32| #[trigger] a2.has(g) implies self.index@.contains_key(a2.node(g).id.0)
                        && self.index@[a2.node(g).id.0] == g by {
                        assert(g != h);
                        assert(same_at(a2, a1, g));
                        if b0.arena.has(g) {
                            assert(node_order(a1.node(g)) == node_order(b0.arena.node(g)));
                            assert(b0.index@[b0.arena.node(g).id.0] == g);
                        } else {
                            assert(forall|k: i64| b0.levels(side).contains_key(k) ==> !b0.levels(side)[k].hs@.contains(g)) by {
                                assert forall|k: i64| b0.levels(side).contains_key(k) implies !b0.levels(side)[k].hs@.contains(g) by {
                                    if b0.levels(side)[k].hs@.contains(g) {
                                        let z = choose|z: int| 0 <= z < b0.levels(side)[k].hs@.len() && b0.levels(side)[k].hs@[z] == g;
                                        assert(at_level(b0.arena, side, k, b0.levels(side)[k].hs@[z]));
                                    }
                                }
                            }
                            assert(same_at(a1, b0.arena, g));
                        }
                    }
                }
                Some(o)
            },
        }
    }

    /// The resting order with id `id`, if any.
    pub open spec fn find(self, id: OrderId) -> Option<RestingOrder> {
        if has_id(self.queue(Side::Buy), id) {
            find_in(self.queue(Side::Buy), id)
        } else {
            find_in(self.queue(Side::Sell), id)
        }
    }

    /// Where an indexed order sits: its slot and its queue position.
    proof fn lemma_find(self, id: OrderId)
        requires
            self.wf(),
        ensures
            self.find(id) is Some <==> self.index@.contains_key(id.0),
            self.index@.contains_key(id.0) ==> ({
                let h = self.index@[id.0];
                let o = node_order(self.arena.node(h));
                &&& self.arena.has(h)
                &&& self.find(id) == Some(o)
                &&& o.id == id
                &&& has_id(self.queue(o.side), id)
                &&& !has_id(self.queue(spec_opposite(o.side)), id)
            }),
    {
        self.lemma_index_ids(id);
        lemma_unique_split(self.queue(Side::Buy), self.queue(Side::Sell));
        if self.index@.contains_key(id.0) {
            let h = self.index@[id.0];
            let o = node_order(self.arena.node(h));
            self.lemma_handle_elem(h);
            let q = self.queue(o.side);
            let x = choose|x: int| 0 <= x < q.len() && q[x] == o;
            assert forall|j: int| 0 <= j < x implies (#[trigger] q[j]).id != q[x].id by {}
            lemma_id_ops_at(q, x, o.qty);
            if o.side == Side::Sell {
                assert(has_id(self.queue(Side::Sell), id));
                assert(!has_id(self.queue(Side::Buy), id));
            }
        } else {
            lemma_id_ops_absent(self.queue(Side::Buy), id, Qty(0));
            lemma_id_ops_absent(self.queue(Side::Sell), id, Qty(0));
        }
    }

    /// Lowers a resting order's open quantity to `qty` without moving it.
    pub fn reduce(&mut self, id: OrderId, qty: Qty)
        requires
            old(self).wf(),
            old(self).find(id) is Some,
            0 < qty.0 < old(self).find(id).unwrap().qty.0,
        ensures
            final(self).wf(),
            final(self).queue(old(self).find(id).unwrap().side) == set_qty(
                old(self).queue(old(self).find(id).unwrap().side),
                id,
                qty,
            ),
            final(self).queue(spec_opposite(old(self).find(id).unwrap().side)) == old(self).queue(
                spec_opposite(old(self).find(id).unwrap().side),
            ),
    {
        let ghost b0 = *self;
        proof {
            b0.lemma_find(id);
        }
        let h = *self.index.get(&id.0).unwrap();
        let n = self.arena.get(h);
        let side = n.side;
        proof {
            assert(b0.placed(h));
            let kh = key_of(n.side, n.price.0) as i64;
            let y = choose|y: int| 0 <= y < b0.levels(n.side)[kh].hs@.len() && b0.levels(n.side)[kh].hs@[y] == h;
            assert(at_level(b0.arena, n.side, kh, b0.levels(n.side)[kh].hs@[y]));
        }
        let key: i64 = match side {
            Side::Buy => -n.price.0,
            Side::Sell => n.price.0,
        };
        let by = Qty(n.open.0 - qty.0);
        let pos = match side {
            Side::Buy => {
                let p = reduce_in(&mut self.bids, &self.bid_keys, &mut self.arena, side, key, h, by);
                assert(self.arena.has(h));
                p
            },
            Side::Sell => {
                let p = reduce_in(&mut self.asks, &self.ask_keys, &mut self.arena, side, key, h, by);
                assert(self.arena.has(h));
                p
            },
        };
        proof {
            let a1 = self.arena;
            let os = spec_opposite(side);
            let q0 = b0.queue(side);
            let o = node_order(n);
            let o2 = RestingOrder { qty, ..o };
            assert forall|k: i64, g: u32| b0.levels(os).contains_key(k) && b0.levels(os)[k].hs@.contains(g) implies same_at(b0.arena, a1, g) by {
                let y = choose|y: int| 0 <= y < b0.levels(os)[k].hs@.len() && b0.levels(os)[k].hs@[y] == g;
                assert(at_level(b0.arena, os, k, b0.levels(os)[k].hs@[y]));
                assert(g != h);
                assert(same_at(a1, b0.arena, g));
            }
            match side {
                Side::Buy => lemma_side_frame(b0.asks@, b0.ask_keys@, b0.arena, a1, Side::Sell),
                Side::Sell => lemma_side_frame(b0.bids@, b0.bid_keys@, b0.arena, a1, Side::Buy),
            }
            assert(self.queue(os) == b0.queue(os));
            assert(q0[pos@] == o);
            lemma_unique_split(b0.queue(Side::Buy), b0.queue(Side::Sell));
            assert forall|j: int| 0 <= j < pos@ implies (#[trigger] q0[j]).id != q0[pos@].id by {}
            lemma_id_ops_at(q0, pos@, qty);
            assert(self.queue(side) == q0.update(pos@, o2));
            lemma_unique_update(q0, pos@, o2);
            match side {
                Side::Buy => {
                    assert forall|id2: OrderId| has_id(q0.update(pos@, o2), id2) implies !has_id(b0.queue(Side::Sell), id2) by {}
                    lemma_unique_join(q0.update(pos@, o2), b0.queue(Side::Sell));
                },
                Side::Sell => {
                    assert forall|id2: OrderId| has_id(b0.queue(Side::Buy), id2) implies !has_id(q0.update(pos@, o2), id2) by {}
                    lemma_unique_join(b0.queue(Side::Buy), q0.update(pos@, o2));
                },
            }
            assert forall|g: u32| #[trigger] a1.has(g) implies self.placed(g) by {
                if g != h {
                    assert(same_at(a1, b0.arena, g));
                    assert(b0.placed(g));
                    let ng = b0.arena.node(g);
                    let kg = key_of(ng.side, ng.price.0) as i64;
                    if ng.side == side {
                        assert(self.levels(side)[kg].hs@.contains(g));
                    }
                } else {
                    assert(b0.placed(h));
                    let kh = key_of(side, n.price.0) as i64;
                    assert(self.levels(side)[kh].hs@.contains(h));
                }
            }
            assert forall|id2: u64| #[trigger] self.index@.contains_key(id2) implies a1.has(self.index@[id2])
                && a1.node(self.index@[id2]).id.0 == id2 by {
                let g = self.index@[id2];
                if g != h {
                    assert(same_at(a1, b0.arena, g));
                }
            }
            assert forall|g: u32| #[trigger] a1.has(g) implies self.index@.contains_key(a1.node(g).id.0)
                && self.index@[a1.node(g).id.0] == g by {
                if g != h {
                    assert(same_at(a1, b0.arena, g));
                }
            }
        }
    }

    /// The order at the front of `side`'s queue, if any.
    pub fn front(&self, side: Side) -> (r: Option<RestingOrder>)
        requires
            self.wf(),
        ensures
            r == (if self.queue(side).len() == 0 {
                None
            } else {
                Some(self.queue(side)[0])
            }),
    {
        let levels = match side {
            Side::Buy => &self.bids,
            Side::Sell => &self.asks,
        };
        let ghost m = self.levels(side);
        let ghost ks = self.keys(side);
        let ghost lv = level_views(m, self.arena);
        proof {
            lemma_views_keyed(m, ks, self.arena, side);
        }
        match first_key(levels, Ghost(ks)) {
            None => {
                proof {
                    if ks.len() > 0 {
                        assert(ks.contains(ks[0]));
                        assert(m.dom().contains(ks[0]));
                    }
                }
                None
            },
            Some(k) => {
                proof {
                    assert(ks.contains(k));
                    let i = choose|i: int| 0 <= i < ks.len() && ks[i] == k;
                    assert(ks.contains(ks[0]));
                    if i > 0 {
                        assert(ks[0] < ks[i]);
                    }
                    assert(k == ks[0]);
                }
                let level = levels.get(&k).unwrap();
                proof {
                    assert(m[k].wf(self.arena));
                    assert(m[k].link_ok(self.arena, 0));
                }
                let h = level.head().unwrap();
                let n = self.arena.get(h);
                proof {
                    assert(self.queue(side) == lv[ks[0]] + concat_levels(ks.drop_first(), lv));
                    assert(lv[k][0] == node_order(n));
                }
                Some(order_of(&n))
            },
        }
    }

    /// Highest bid price.
    pub fn best_bid(&self) -> (r: Option<Price>)
        requires
            self.wf(),
        ensures
            r == (if self.queue(Side::Buy).len() == 0 {
                None
            } else {
                Some(self.queue(Side::Buy)[0].price)
            }),
    {
        match self.front(Side::Buy) {
            Some(o) => Some(o.price),
            None => None,
        }
    }

    /// Lowest ask price.
    pub fn best_ask(&self) -> (r: Option<Price>)
        requires
            self.wf(),
        ensures
            r == (if self.queue(Side::Sell).len() == 0 {
                None
            } else {
                Some(self.queue(Side::Sell)[0].price)
            }),
    {
        match self.front(Side::Sell) {
            Some(o) => Some(o.price),
            None => None,
        }
    }

    /// Best price on `side`.
    pub fn best(&self, side: Side) -> (r: Option<Price>)
        requires
            self.wf(),
        ensures
            r == (if self.queue(side).len() == 0 {
                None
            } else {
                Some(self.queue(side)[0].price)
            }),
    {
        match side {
            Side::Buy => self.best_bid(),
            Side::Sell => self.best_ask(),
        }
    }

    /// Number of resting orders.
    pub fn len(&self) -> (r: usize)
        requires
            self.wf(),
        ensures
            r == self.queue(Side::Buy).len() + self.queue(Side::Sell).len(),
    {
        self.index.len()
    }

    /// Whether no orders are resting.
    pub fn is_empty(&self) -> (r: bool)
        requires
            self.wf(),
        ensures
            r == (self.queue(Side::Buy).len() == 0 && self.queue(Side::Sell).len() == 0),
    {
        self.index.len() == 0
    }

    /// A resting order by id.
    pub fn order(&self, id: OrderId) -> (r: Option<RestingOrder>)
        requires
            self.wf(),
        ensures
            r == self.find(id),
    {
        proof {
            self.lemma_find(id);
        }
        match self.index.get(&id.0) {
            Some(h) => {
                let n = self.arena.get(*h);
                Some(order_of(&n))
            },
            None => None,
        }
    }

    /// The resting orders of `side` in priority order.
    pub fn orders(&self, side: Side) -> (r: Vec<RestingOrder>)
        requires
            self.wf(),
        ensures
            r@ == self.queue(side),
    {
        let levels = match side {
            Side::Buy => &self.bids,
            Side::Sell => &self.asks,
        };
        let ghost m = self.levels(side);
        let ghost ks = self.keys(side);
        let ghost lv = level_views(m, self.arena);
        proof {
            lemma_views_keyed(m, ks, self.arena, side);
        }
        let keys = sorted_keys(levels, Ghost(ks));
        let mut out: Vec<RestingOrder> = Vec::new();
        let mut j: usize = 0;
        while j < keys.len()
            invariant
                self.wf(),
                *levels == (match side {
                    Side::Buy => self.bids,
                    Side::Sell => self.asks,
                }),
                m == self.levels(side),
                ks == self.keys(side),
                lv == level_views(m, self.arena),
                keys@ == ks,
                0 <= j <= ks.len(),
                forall|i: int| 0 <= i < ks.len() ==> m.contains_key(#[trigger] ks[i]),
                out@ == concat_levels(ks.take(j as int), lv),
            decreases ks.len() - j,
        {
            let k = keys[j];
            let level = levels.get(&k).unwrap();
            proof {
                assert(m[k].wf(self.arena));
            }
            let ghost before = out@;
            level.append_orders(&self.arena, &mut out);
            proof {
                assert(ks.take(j as int + 1) =~= ks.take(j as int) + seq![k]);
                lemma_concat_levels_add(ks.take(j as int), seq![k], lv);
                lemma_concat_levels_one(k, lv);
            }
            j = j + 1;
        }
        proof {
            assert(ks.take(j as int) =~= ks);
        }
        out
    }

    /// Up to `max_levels` levels of `side`, best price first.
    pub fn depth(&self, side: Side, max_levels: usize) -> (r: Vec<LevelSummary>)
        requires
            self.wf(),
        ensures
            r@ == depth_of(self.queue(side), max_levels as int),
    {
        let levels = match side {
            Side::Buy => &self.bids,
            Side::Sell => &self.asks,
        };
        let ghost m = self.levels(side);
        let ghost ks = self.keys(side);
        let ghost lv = level_views(m, self.arena);
        proof {
            lemma_views_keyed(m, ks, self.arena, side);
            lemma_runs_concat(ks, lv);
        }
        let keys = sorted_keys(levels, Ghost(ks));
        let mut out: Vec<LevelSummary> = Vec::new();
        let mut j: usize = 0;
        while j < keys.len() && j < max_levels
            invariant
                self.wf(),
                *levels == (match side {
                    Side::Buy => self.bids,
                    Side::Sell => self.asks,
                }),
                m == self.levels(side),
                ks == self.keys(side),
                lv == level_views(m, self.arena),
                keys@ == ks,
                0 <= j <= ks.len(),
                j <= max_levels,
                forall|i: int| 0 <= i < ks.len() ==> m.contains_key(#[trigger] ks[i]),
                forall|i: int| 0 <= i < ks.len() ==> #[trigger] lv[ks[i]].len() > 0,
                forall|i: int, y: int|
                    0 <= i < ks.len() && 0 <= y < lv[ks[i]].len() ==> okey(#[trigger] lv[ks[i]][y])
                        == ks[i],
                out@ == ks.take(j as int).map_values(|k: i64| summary(lv[k])),
            decreases ks.len() - j,
        {
            let k = keys[j];
            let level = levels.get(&k).unwrap();
            proof {
                assert(m[k].wf(self.arena));
                assert(m[k].hs@.len() > 0);
                assert(m[k].link_ok(self.arena, 0));
                assert(at_level(self.arena, side, k, m[k].hs@[0]));
                assert(lv[k][0] == node_order(self.arena.node(m[k].hs@[0])));
            }
            let price = match side {
                Side::Buy => Price(-k),
                Side::Sell => Price(k),
            };
            out.push(LevelSummary { price, qty: level.total(), orders: level.count() });
            proof {
                assert(ks.take(j as int + 1).map_values(|k: i64| summary(lv[k])) =~= ks.take(
                    j as int,
                ).map_values(|k: i64| summary(lv[k])).push(summary(lv[k])));
            }
            j = j + 1;
        }
        proof {
            let rs = runs(self.queue(side));
            assert(rs == ks.map_values(|k: i64| lv[k]));
            assert(rs.len() == ks.len());
            assert forall|i: int| 0 <= i < ks.len() implies rs[i] == lv[ks[i]] by {}
            assert(rs.take(j as int).map_values(|run: Seq<RestingOrder>| summary(run)) =~= ks.take(
                j as int,
            ).map_values(|k: i64| summary(lv[k])));
        }
        out
    }

    /// The orders resting at `price` on `side`, in time priority.
    pub fn level_orders(&self, side: Side, price: Price) -> (r: Vec<RestingOrder>)
        requires
            self.wf(),
        ensures
            r@ == at_price(self.queue(side), price),
    {
        let ghost m = self.levels(side);
        let ghost ks = self.keys(side);
        let ghost lv = level_views(m, self.arena);
        proof {
            self.lemma_queues();
            lemma_views_keyed(m, ks, self.arena, side);
            assert forall|j: int, y: int| 0 <= j < ks.len() && 0 <= y < lv[ks[j]].len() implies okey(
                #[trigger] lv[ks[j]][y],
            ) == ks[j] && lv[ks[j]][y].side == side by {
                assert(ks.contains(ks[j]));
                assert(at_level(self.arena, side, ks[j], m[ks[j]].hs@[y]));
            }
            assert(ks.no_duplicates()) by {
                assert forall|i: int, j: int| 0 <= i < ks.len() && 0 <= j < ks.len() && i != j implies ks[i] != ks[j] by {
                    if i < j {
                        assert(ks[i] < ks[j]);
                    } else {
                        assert(ks[j] < ks[i]);
                    }
                }
            }
            lemma_at_price_concat(ks, lv, side, price);
        }
        if !price.is_valid() {
            proof {
                let q = self.queue(side);
                assert forall|i: int| 0 <= i < q.len() implies (#[trigger] q[i]).price != price by {}
                lemma_at_price_uniform(q, price);
            }
            return Vec::new();
        }
        let levels = match side {
            Side::Buy => &self.bids,
            Side::Sell => &self.asks,
        };
        let k = match side {
            Side::Buy => -price.0,
            Side::Sell => price.0,
        };
        let mut out: Vec<RestingOrder> = Vec::new();
        match levels.get(&k) {
            None => {
                proof {
                    assert(!ks.contains(k));
                }
            },
            Some(level) => {
                proof {
                    assert(ks.contains(k));
                    assert(m[k].wf(self.arena));
                    assert(Seq::<RestingOrder>::empty() + lv[k] =~= lv[k]);
                }
                level.append_orders(&self.arena, &mut out);
            },
        }
        out
    }

    /// Trades an incoming order against the opposite side in price-time
    /// priority, appending `Trade` and maker `Filled` events. Stops when
    /// `qty` is exhausted, the opposite side is empty, or the best opposite
    /// price no longer crosses `limit` (`None` crosses everything). Returns
    /// the unfilled remainder.
    pub(crate) fn match_incoming(
        &mut self,
        taker: OrderId,
        taker_side: Side,
        limit: Option<Price>,
        qty: Qty,
        out: &mut Vec<Event>,
    ) -> (rem: Qty)
        requires
            old(self).wf(),
        ensures
            final(self).wf(),
            ({
                let r = match_spec(
                    old(self).queue(spec_opposite(taker_side)),
                    taker,
                    taker_side,
                    limit,
                    qty.0,
                );
                &&& final(self).queue(spec_opposite(taker_side)) == r.0
                &&& final(out)@ == old(out)@ + r.1
                &&& rem.0 == r.2
            }),
            final(self).queue(taker_side) == old(self).queue(taker_side),
    {
        let ghost b0 = *self;
        let ghost out0 = out@;
        let opp = taker_side.opposite();
        let ghost r0 = match_spec(b0.queue(opp), taker, taker_side, limit, qty.0);
        let mut remaining = qty.0;
        let ghost mut evs: Seq<Event> = Seq::empty();
        loop
            invariant
                self.wf(),
                opp == spec_opposite(taker_side),
                self.queue(taker_side) == b0.queue(taker_side),
                out@ == out0 + evs,
                r0 == ({
                    let r = match_spec(self.queue(opp), taker, taker_side, limit, remaining);
                    (r.0, evs + r.1, r.2)
                }),
            ensures
                self.wf(),
                self.queue(taker_side) == b0.queue(taker_side),
                out@ == out0 + evs,
                r0 == (self.queue(opp), evs, remaining),
            decreases self.queue(opp).len() + (if remaining > 0 { 1int } else { 0int }),
        {
            let ghost q = self.queue(opp);
            if remaining == 0 {
                proof {
                    assert(evs + Seq::<Event>::empty() =~= evs);
                }
                break;
            }
            let head = self.front(opp);
            let m = match head {
                None => {
                    proof {
                        assert(evs + Seq::<Event>::empty() =~= evs);
                    }
                    break;
                },
                Some(m) => m,
            };
            let allowed = match limit {
                None => true,
                Some(l) => taker_side.crosses(l, m.price),
            };
            if !allowed {
                proof {
                    assert(!limit_allows(taker_side, limit, m.price));
                    assert(evs + Seq::<Event>::empty() =~= evs);
                }
                break;
            }
            let fill = if remaining < m.qty.0 {
                remaining
            } else {
                m.qty.0
            };
            let trade = Event::Trade { maker: m.id, taker, taker_side, price: m.price, qty: Qty(fill) };
            out.push(trade);
            remaining = remaining - fill;
            proof {
                self.lemma_queues();
                self.lemma_find(m.id);
                lemma_unique_split(self.queue(Side::Buy), self.queue(Side::Sell));
                lemma_id_ops_at(q, 0, Qty((m.qty.0 - fill) as u64));
                assert(has_id(q, m.id));
                assert(q[0].side == opp);
                assert(self.find(m.id) == Some(m));
            }
            if fill == m.qty.0 {
                let _ = self.remove(m.id);
                out.push(Event::Filled { id: m.id });
                proof {
                    assert(q.remove(0) =~= q.drop_first());
                    let e = seq![trade, Event::Filled { id: m.id }];
                    assert(evs + e + match_spec(q.drop_first(), taker, taker_side, limit, remaining).1
                        =~= evs + (e + match_spec(q.drop_first(), taker, taker_side, limit, remaining).1));
                    evs = evs + e;
                    assert(out@ =~= out0 + evs);
                }
            } else {
                self.reduce(m.id, Qty(m.qty.0 - fill));
                proof {
                    let e = seq![trade];
                    assert(evs + e + Seq::<Event>::empty() =~= evs + e);
                    evs = evs + e;
                    assert(out@ =~= out0 + evs);
                }
            }
        }
        Qty(remaining)
    }
}

impl Default for OrderBook {
    /// An empty book, as `new`.
    fn default() -> (b: Self)
        ensures
            b.wf(),
            b.queue(Side::Buy) == Seq::<RestingOrder>::empty(),
            b.queue(Side::Sell) == Seq::<RestingOrder>::empty(),
    {
        OrderBook::new()
    }
}

} // verus!
