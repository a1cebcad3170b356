//! Order storage and per-price FIFO queues.
//!
//! Every resting order lives in one [`Arena`] slot. A [`Level`] threads its
//! orders into a doubly linked list through those slots, which gives O(1)
//! append at the tail, removal at the head and removal from the middle.
use vstd::prelude::*;

use crate::book::RestingOrder;
use crate::types::{qty_in_range, OrderId, Price, Qty, SeqNo, Side, MAX_QTY};

verus! {

/// A resting order and its queue links.
#[derive(Clone, Copy, Debug)]
pub struct Node {
    pub id: OrderId,
    pub side: Side,
    pub price: Price,
    pub open: Qty,
    pub seq: SeqNo,
    pub prev: Option<u32>,
    pub next: Option<u32>,
}

/// The outside view of a node.
pub open spec fn node_order(n: Node) -> RestingOrder {
    RestingOrder { id: n.id, side: n.side, price: n.price, qty: n.open, seq: n.seq }
}

/// Total open quantity of a sequence of orders.
pub open spec fn qty_sum(s: Seq<RestingOrder>) -> int
    decreases s.len(),
{
    if s.len() == 0 {
        0
    } else {
        qty_sum(s.drop_last()) + s.last().qty.0
    }
}

/// A sum of quantities is never negative.
pub proof fn lemma_qty_sum_nonneg(s: Seq<RestingOrder>)
    ensures
        qty_sum(s) >= 0,
    decreases s.len(),
{
    if s.len() > 0 {
        lemma_qty_sum_nonneg(s.drop_last());
    }
}

/// `qty_sum` distributes over concatenation.
pub proof fn lemma_qty_sum_add(a: Seq<RestingOrder>, b: Seq<RestingOrder>)
    ensures
        qty_sum(a + b) == qty_sum(a) + qty_sum(b),
    decreases b.len(),
{
    if b.len() == 0 {
        assert(a + b =~= a);
    } else {
        assert((a + b).drop_last() =~= a + b.drop_last());
        lemma_qty_sum_add(a, b.drop_last());
    }
}

proof fn lemma_qty_sum_one(x: RestingOrder)
    ensures
        qty_sum(seq![x]) == x.qty.0,
{
    assert(seq![x].drop_last() =~= Seq::<RestingOrder>::empty());
    reveal_with_fuel(qty_sum, 2);
}

/// `qty_sum` after removing one element.
pub proof fn lemma_qty_sum_remove(s: Seq<RestingOrder>, i: int)
    requires
        0 <= i < s.len(),
    ensures
        qty_sum(s.remove(i)) == qty_sum(s) - s[i].qty.0,
{
    let a = s.take(i);
    let b = s.skip(i + 1);
    assert(s =~= a + (seq![s[i]] + b));
    assert(s.remove(i) =~= a + b);
    lemma_qty_sum_add(a, seq![s[i]] + b);
    lemma_qty_sum_add(seq![s[i]], b);
    lemma_qty_sum_add(a, b);
    assert(seq![s[i]].drop_last() =~= Seq::<RestingOrder>::empty());
    lemma_qty_sum_one(s[i]);
}

/// `qty_sum` after replacing one element.
pub proof fn lemma_qty_sum_update(s: Seq<RestingOrder>, i: int, x: RestingOrder)
    requires
        0 <= i < s.len(),
    ensures
        qty_sum(s.update(i, x)) == qty_sum(s) - s[i].qty.0 + x.qty.0,
{
    let a = s.take(i);
    let b = s.skip(i + 1);
    assert(s =~= a + (seq![s[i]] + b));
    assert(s.update(i, x) =~= a + (seq![x] + b));
    lemma_qty_sum_add(a, seq![s[i]] + b);
    lemma_qty_sum_add(seq![s[i]], b);
    lemma_qty_sum_add(a, seq![x] + b);
    lemma_qty_sum_add(seq![x], b);
    assert(seq![s[i]].drop_last() =~= Seq::<RestingOrder>::empty());
    assert(seq![x].drop_last() =~= Seq::<RestingOrder>::empty());
    lemma_qty_sum_one(s[i]);
    lemma_qty_sum_one(x);
}

/// A sequence of orders each of at most `MAX_QTY` sums to at most
/// `len * MAX_QTY`.
pub proof fn lemma_qty_sum_bound(s: Seq<RestingOrder>)
    requires
        forall|i: int| 0 <= i < s.len() ==> s[i].qty.0 <= MAX_QTY,
    ensures
        0 <= qty_sum(s) <= s.len() * MAX_QTY,
    decreases s.len(),
{
    if s.len() > 0 {
        lemma_qty_sum_bound(s.drop_last());
    }
}

/// The set of `u32` values below `n`.
pub open spec fn u32_below(n: int) -> Set<u32> {
    Set::new(|x: u32| (x as int) < n)
}

proof fn lemma_u32_below_len(n: int)
    requires
        0 <= n <= 0x1_0000_0000,
    ensures
        u32_below(n).finite(),
        u32_below(n).len() == n,
    decreases n,
{
    if n == 0 {
        assert(u32_below(0) =~= Set::empty());
    } else {
        lemma_u32_below_len(n - 1);
        assert(u32_below(n) =~= u32_below(n - 1).insert((n - 1) as u32));
    }
}

/// Distinct `u32` values all below `n` number at most `n`.
pub proof fn lemma_distinct_below(s: Seq<u32>, n: int)
    requires
        0 <= n <= 0x1_0000_0000,
        s.no_duplicates(),
        forall|i: int| 0 <= i < s.len() ==> (s[i] as int) < n,
    ensures
        s.len() <= n,
{
    lemma_u32_below_len(n);
    s.unique_seq_to_set();
    assert(s.to_set().subset_of(u32_below(n)));
    vstd::set_lib::lemma_len_subset(s.to_set(), u32_below(n));
}

/// The outside view of a node.
pub fn order_of(n: &Node) -> (r: RestingOrder)
    ensures
        r == node_order(*n),
{
    RestingOrder { id: n.id, side: n.side, price: n.price, qty: n.open, seq: n.seq }
}

/// Slot storage for nodes, reusing freed slots.
///
/// A slot is `None` while free.
pub struct Arena {
    pub slots: Vec<Option<Node>>,
    pub free: Vec<u32>,
    /// Number of occupied slots.
    pub live: Ghost<nat>,
}

/// `a` and `b` agree at handle `g`.
pub open spec fn same_at(a: Arena, b: Arena, g: u32) -> bool {
    &&& a.has(g) == b.has(g)
    &&& a.has(g) ==> a.node(g) == b.node(g)
}

impl Arena {
    pub open spec fn has(self, h: u32) -> bool {
        &&& (h as int) < self.slots@.len()
        &&& self.slots@[h as int] is Some
    }

    pub open spec fn node(self, h: u32) -> Node {
        self.slots@[h as int].unwrap()
    }

    pub open spec fn wf(self) -> bool {
        &&& self.slots@.len() <= u32::MAX
        &&& self.free@.no_duplicates()
        &&& forall|i: int|
            #![trigger self.free@[i]]
            0 <= i < self.free@.len() ==> (self.free@[i] as int) < self.slots@.len()
                && self.slots@[self.free@[i] as int] is None
        &&& self.slots@.len() == self.free@.len() + self.live@
    }

    pub fn new() -> (a: Arena)
        ensures
            a.wf(),
            a.live@ == 0,
            forall|g: u32| !a.has(g),
    {
        Arena { slots: Vec::new(), free: Vec::new(), live: Ghost(0) }
    }

    /// Stores a new unlinked node and returns its slot.
    pub fn allocate(&mut self, id: OrderId, side: Side, price: Price, open: Qty, seq: SeqNo) -> (h: u32)
        requires
            old(self).wf(),
            old(self).live@ < u32::MAX,
        ensures
            final(self).wf(),
            final(self).live@ == old(self).live@ + 1,
            !old(self).has(h),
            final(self).has(h),
            final(self).node(h) == (Node { id, side, price, open, seq, prev: None, next: None }),
            forall|g: u32| g != h ==> same_at(*final(self), *old(self), g),
    {
        let node = Node { id, side, price, open, seq, prev: None, next: None };
        if self.free.len() > 0 {
            let slot = self.free.pop().unwrap();
            proof {
                assert(old(self).free@[old(self).free@.len() - 1] == slot);
                assert forall|i: int| 0 <= i < self.free@.len() implies self.free@[i] != slot by {
                    assert(self.free@[i] == old(self).free@[i]);
                }
            }
            self.slots.set(slot as usize, Some(node));
            self.live = Ghost(self.live@ + 1);
            proof {
                assert forall|i: int|
                    #![trigger self.free@[i]]
                    0 <= i < self.free@.len() implies (self.free@[i] as int) < self.slots@.len()
                    && self.slots@[self.free@[i] as int] is None by {
                    assert(self.free@[i] == old(self).free@[i]);
                }
            }
            slot
        } else {
            let slot = self.slots.len() as u32;
            self.slots.push(Some(node));
            self.live = Ghost(self.live@ + 1);
            slot
        }
    }

    /// Releases a slot and returns the node it held.
    pub fn free(&mut self, h: u32) -> (n: Node)
        requires
            old(self).wf(),
            old(self).has(h),
        ensures
            final(self).wf(),
            final(self).live@ + 1 == old(self).live@,
            !final(self).has(h),
            n == old(self).node(h),
            forall|g: u32| g != h ==> same_at(*final(self), *old(self), g),
    {
        let n = self.slots[h as usize].unwrap();
        proof {
            let s = self.free@.push(h);
            assert forall|i: int, j: int| 0 <= i < s.len() && 0 <= j < s.len() && i != j implies s[i]
                != s[j] by {
                if i < self.free@.len() && j < self.free@.len() {
                } else if i < self.free@.len() {
                    assert(s[i] == self.free@[i]);
                } else {
                    assert(s[j] == self.free@[j]);
                }
            }
            lemma_distinct_below(s, self.slots@.len() as int);
        }
        self.slots.set(h as usize, None);
        self.free.push(h);
        self.live = Ghost((self.live@ - 1) as nat);
        proof {
            assert forall|i: int|
                #![trigger self.free@[i]]
                0 <= i < self.free@.len() implies (self.free@[i] as int) < self.slots@.len()
                && self.slots@[self.free@[i] as int] is None by {
                if i < old(self).free@.len() {
                    assert(self.free@[i] == old(self).free@[i]);
                }
            }
            assert forall|i: int, j: int|
                0 <= i < self.free@.len() && 0 <= j < self.free@.len() && i != j implies self.free@[i]
                != self.free@[j] by {
                if i < old(self).free@.len() && j < old(self).free@.len() {
                    assert(self.free@[i] == old(self).free@[i]);
                    assert(self.free@[j] == old(self).free@[j]);
                } else if i < old(self).free@.len() {
                    assert(self.free@[i] == old(self).free@[i]);
                } else {
                    assert(self.free@[j] == old(self).free@[j]);
                }
            }
        }
        n
    }

    /// The node in slot `h`.
    pub fn get(&self, h: u32) -> (n: Node)
        requires
            self.has(h),
        ensures
            n == self.node(h),
    {
        self.slots[h as usize].unwrap()
    }

    /// Replaces the node in an occupied slot.
    pub fn put(&mut self, h: u32, n: Node)
        requires
            old(self).wf(),
            old(self).has(h),
        ensures
            final(self).wf(),
            final(self).live@ == old(self).live@,
            final(self).has(h),
            final(self).node(h) == n,
            forall|g: u32| g != h ==> same_at(*final(self), *old(self), g),
    {
        self.slots.set(h as usize, Some(n));
        proof {
            assert forall|i: int|
                #![trigger self.free@[i]]
                0 <= i < self.free@.len() implies (self.free@[i] as int) < self.slots@.len()
                && self.slots@[self.free@[i] as int] is None by {
                assert(old(self).slots@[old(self).free@[i] as int] is None);
            }
        }
    }
}


/// The position of slot `h` in the queue `hs`.
pub open spec fn slot_pos(hs: Seq<u32>, h: u32) -> int {
    choose|i: int| 0 <= i < hs.len() && hs[i] == h
}

/// All resting orders at one price on one side, in time priority.
pub struct Level {
    pub head: Option<u32>,
    pub tail: Option<u32>,
    pub total: Qty,
    pub count: u32,
    /// The slots of the queue, head first.
    pub hs: Ghost<Seq<u32>>,
}

impl Level {
    /// The queue's orders, head first, as stored in `a`.
    pub open spec fn view_in(self, a: Arena) -> Seq<RestingOrder> {
        self.hs@.map_values(|h: u32| node_order(a.node(h)))
    }

    /// The node at queue position `i` is stored and linked to its neighbours.
    pub open spec fn link_ok(self, a: Arena, i: int) -> bool {
        let h = self.hs@[i];
        let n = a.node(h);
        &&& a.has(h)
        &&& n.prev == (if i == 0 {
            None::<u32>
        } else {
            Some(self.hs@[i - 1])
        })
        &&& n.next == (if i + 1 == self.hs@.len() {
            None::<u32>
        } else {
            Some(self.hs@[i + 1])
        })
        &&& qty_in_range(n.open.0)
    }

    pub open spec fn wf(self, a: Arena) -> bool {
        &&& self.count as int == self.hs@.len()
        &&& self.hs@.no_duplicates()
        &&& forall|i: int| 0 <= i < self.hs@.len() ==> #[trigger] self.link_ok(a, i)
        &&& self.head == (if self.hs@.len() == 0 {
            None::<u32>
        } else {
            Some(self.hs@[0])
        })
        &&& self.tail == (if self.hs@.len() == 0 {
            None::<u32>
        } else {
            Some(self.hs@.last())
        })
        &&& self.total.0 as int == qty_sum(self.view_in(a))
    }

    /// A level's structure and view only depend on its own slots.
    pub proof fn lemma_frame(self, a: Arena, b: Arena)
        requires
            self.wf(a),
            forall|g: u32| self.hs@.contains(g) ==> same_at(a, b, g),
        ensures
            self.wf(b),
            self.view_in(b) == self.view_in(a),
    {
        assert forall|i: int| 0 <= i < self.hs@.len() implies #[trigger] self.link_ok(b, i) by {
            assert(self.hs@.contains(self.hs@[i]));
            assert(self.link_ok(a, i));
        }
        assert forall|i: int| 0 <= i < self.hs@.len() implies self.view_in(b)[i] == self.view_in(
            a,
        )[i] by {
            assert(self.hs@.contains(self.hs@[i]));
            assert(self.link_ok(a, i));
        }
        assert(self.view_in(b) =~= self.view_in(a));
    }

    /// Every order in a well-formed level has a quantity in range.
    pub proof fn lemma_view_qty(self, a: Arena)
        requires
            self.wf(a),
        ensures
            forall|i: int|
                0 <= i < self.view_in(a).len() ==> qty_in_range(#[trigger] self.view_in(a)[i].qty.0),
            qty_sum(self.view_in(a)) <= self.hs@.len() * MAX_QTY,
    {
        assert forall|i: int| 0 <= i < self.view_in(a).len() implies qty_in_range(
            #[trigger] self.view_in(a)[i].qty.0,
        ) by {
            assert(self.link_ok(a, i));
        }
        lemma_qty_sum_bound(self.view_in(a));
    }

    pub fn new() -> (l: Level)
        ensures
            l.hs@ == Seq::<u32>::empty(),
            forall|a: Arena| #[trigger] l.wf(a),
    {
        let l = Level { head: None, tail: None, total: Qty(0), count: 0, hs: Ghost(Seq::empty()) };
        assert forall|a: Arena| #[trigger] l.wf(a) by {
            assert(l.view_in(a) =~= Seq::<RestingOrder>::empty());
        }
        l
    }

    pub fn head(&self) -> (r: Option<u32>)
        ensures
            r == self.head,
    {
        self.head
    }

    pub fn total(&self) -> (r: Qty)
        ensures
            r == self.total,
    {
        self.total
    }

    pub fn count(&self) -> (r: u32)
        ensures
            r == self.count,
    {
        self.count
    }

    pub fn is_empty(&self) -> (r: bool)
        ensures
            r == (self.head is None),
    {
        self.head.is_none()
    }

    /// Appends the queue's orders, head first, to `out`.
    pub fn append_orders(&self, arena: &Arena, out: &mut Vec<RestingOrder>)
        requires
            self.wf(*arena),
        ensures
            final(out)@ == old(out)@ + self.view_in(*arena),
    {
        let ghost out0 = out@;
        let ghost mut i: int = 0;
        let mut cur = self.head;
        loop
            invariant
                self.wf(*arena),
                0 <= i <= self.hs@.len(),
                cur == (if i < self.hs@.len() {
                    Some(self.hs@[i])
                } else {
                    None::<u32>
                }),
                out@ == out0 + self.view_in(*arena).take(i),
            ensures
                out@ == out0 + self.view_in(*arena),
            decreases self.hs@.len() - i,
        {
            match cur {
                None => {
                    proof {
                        assert(self.view_in(*arena).take(i) =~= self.view_in(*arena));
                    }
                    break;
                },
                Some(h) => {
                    proof {
                        assert(self.link_ok(*arena, i));
                    }
                    let n = arena.get(h);
                    out.push(order_of(&n));
                    cur = n.next;
                    proof {
                        assert(self.view_in(*arena).take(i + 1) =~= self.view_in(*arena).take(i).push(
                            node_order(n),
                        ));
                        i = i + 1;
                    }
                },
            }
        }
    }

    /// Walks the queue from head to tail, checking each node's link back to
    /// the one before it and that the walk ends at the tail: the slots in
    /// queue order, or what is wrong. A walk longer than `max` is reported
    /// as too long, as a cycle would be.
    pub fn walk_checked(&self, arena: &Arena, max: usize) -> (r: Result<Vec<u32>, &'static str>)
        requires
            self.wf(*arena),
        ensures
            self.hs@.len() <= max ==> (r matches Ok(v) && v@ == self.hs@),
            self.hs@.len() > max ==> (r matches Err(m) && m@
                == "queue longer than the number of indexed orders (cycle?)"@),
    {
        let mut out: Vec<u32> = Vec::new();
        let mut prev: Option<u32> = None;
        let mut cur = self.head;
        loop
            invariant
                self.wf(*arena),
                out@.len() <= self.hs@.len(),
                out@.len() <= max,
                out@ == self.hs@.take(out@.len() as int),
                prev == (if out@.len() == 0 {
                    None::<u32>
                } else {
                    Some(self.hs@[out@.len() - 1])
                }),
                cur == (if out@.len() < self.hs@.len() {
                    Some(self.hs@[out@.len() as int])
                } else {
                    None::<u32>
                }),
            ensures
                out@ == self.hs@,
                out@.len() <= max,
                prev == self.tail,
            decreases self.hs@.len() - out@.len(),
        {
            match cur {
                None => {
                    proof {
                        assert(self.hs@.take(out@.len() as int) =~= self.hs@);
                    }
                    break;
                },
                Some(h) => {
                    if out.len() >= max {
                        return Err("queue longer than the number of indexed orders (cycle?)");
                    }
                    let i = out.len();
                    proof {
                        assert(self.link_ok(*arena, i as int));
                    }
                    let node = arena.get(h);
                    if node.prev != prev {
                        return Err("prev link does not match traversal order");
                    }
                    out.push(h);
                    prev = Some(h);
                    cur = node.next;
                    proof {
                        assert(self.hs@.take(i as int + 1) =~= self.hs@.take(i as int).push(h));
                    }
                },
            }
        }
        if prev != self.tail {
            return Err("tail does not match last node");
        }
        Ok(out)
    }

    /// Appends `h` at the back of the queue.
    pub fn push_back(&mut self, arena: &mut Arena, h: u32)
        requires
            old(self).wf(*old(arena)),
            old(arena).wf(),
            old(arena).has(h),
            !old(self).hs@.contains(h),
            old(arena).node(h).prev is None,
            old(arena).node(h).next is None,
            qty_in_range(old(arena).node(h).open.0),
        ensures
            final(self).wf(*final(arena)),
            final(arena).wf(),
            final(arena).live@ == old(arena).live@,
            final(self).hs@ == old(self).hs@.push(h),
            final(self).view_in(*final(arena)) == old(self).view_in(*old(arena)).push(
                node_order(old(arena).node(h)),
            ),
            forall|g: u32|
                !old(self).hs@.contains(g) && g != h ==> same_at(*final(arena), *old(arena), g),
            forall|g: u32|
                old(arena).has(g) ==> final(arena).has(g) && node_order(final(arena).node(g))
                    == node_order(old(arena).node(g)),
    {
        let ghost a0 = *arena;
        let ghost l0 = *self;
        let ghost hs0 = self.hs@;
        let ghost v0 = self.view_in(a0);
        let mut n = arena.get(h);
        n.prev = self.tail;
        let open = n.open;
        arena.put(h, n);
        let ghost am = *arena;
        match self.tail {
            Some(t) => {
                proof {
                    assert(l0.link_ok(a0, hs0.len() - 1));
                    assert(hs0.contains(t));
                    assert(same_at(*arena, a0, t));
                }
                let mut tn = arena.get(t);
                tn.next = Some(h);
                arena.put(t, tn);
            },
            None => {
                self.head = Some(h);
            },
        }
        self.tail = Some(h);
        proof {
            let s = hs0.push(h);
            assert forall|i: int| 0 <= i < s.len() implies (s[i] as int) < a0.slots@.len() by {
                if i < hs0.len() {
                    assert(l0.link_ok(a0, i));
                }
            }
            assert(s.no_duplicates()) by {
                assert forall|i: int, j: int| 0 <= i < s.len() && 0 <= j < s.len() && i != j implies s[i]
                    != s[j] by {
                    if i < hs0.len() && j < hs0.len() {
                    } else if i < hs0.len() {
                        assert(hs0.contains(s[i]));
                    } else {
                        assert(hs0.contains(s[j]));
                    }
                }
            }
            lemma_distinct_below(s, a0.slots@.len() as int);
            l0.lemma_view_qty(a0);
            assert(hs0.len() * MAX_QTY <= (u32::MAX - 1) * MAX_QTY) by (nonlinear_arith)
                requires
                    hs0.len() <= u32::MAX - 1,
            ;
        }
        self.total = Qty(self.total.0 + open.0);
        self.count = self.count + 1;
        self.hs = Ghost(self.hs@.push(h));
        proof {
            let a1 = *arena;
            let hs1 = self.hs@;
            assert forall|g: u32| !hs0.contains(g) && g != h implies same_at(a1, a0, g) by {
                assert(same_at(am, a0, g));
                if hs0.len() > 0 {
                    assert(hs0.contains(hs0.last()));
                    assert(same_at(a1, am, g));
                }
            }
            assert(hs0.len() > 0 ==> a1.node(hs0.last()) == (Node {
                next: Some(h),
                ..a0.node(hs0.last())
            }));
            assert(hs0.len() > 0 ==> a1.has(hs0.last()));
            if hs0.len() > 0 {
                assert(hs0.contains(hs0.last()));
                assert(same_at(a1, am, h));
            }
            assert(a1.has(h) && a1.node(h) == (Node {
                prev: if hs0.len() == 0 {
                    None
                } else {
                    Some(hs0.last())
                },
                ..a0.node(h)
            }));
            assert forall|i: int| 0 <= i < hs1.len() implies #[trigger] self.link_ok(a1, i) by {
                assert(hs1[i] == if i < hs0.len() { hs0[i] } else { h });
                if i + 1 < hs0.len() {
                    assert(l0.link_ok(a0, i));
                    assert(hs0.contains(hs0[i]));
                    assert(hs0.contains(hs0.last()));
                    assert(hs0[i] != hs0.last());
                    assert(same_at(am, a0, hs0[i]));
                    assert(same_at(a1, am, hs0[i]));
                    assert(hs1[i + 1] == hs0[i + 1]);
                    if i > 0 {
                        assert(hs1[i - 1] == hs0[i - 1]);
                    }
                } else if i + 1 == hs0.len() {
                    assert(l0.link_ok(a0, i));
                    if i > 0 {
                        assert(hs1[i - 1] == hs0[i - 1]);
                    }
                }
            }
            assert forall|i: int| 0 <= i < hs1.len() implies self.view_in(a1)[i] == v0.push(
                node_order(a0.node(h)),
            )[i] by {
                if i < hs0.len() {
                    assert(hs1[i] == hs0[i]);
                    assert(hs0.contains(hs0[i]));
                    assert(hs0.contains(hs0.last()));
                    assert(same_at(am, a0, hs0[i]));
                    assert(l0.link_ok(a0, i));
                    if i + 1 < hs0.len() {
                        assert(hs0[i] != hs0.last());
                        assert(same_at(a1, am, hs0[i]));
                    }
                }
            }
            assert(self.view_in(a1) =~= v0.push(node_order(a0.node(h))));
            assert(v0.push(node_order(a0.node(h))).drop_last() =~= v0);
            assert(hs1.no_duplicates());
            assert(self.head == if hs1.len() == 0 { None::<u32> } else { Some(hs1[0]) });
            assert(self.tail == if hs1.len() == 0 { None::<u32> } else { Some(hs1.last()) });
            assert(self.total.0 as int == qty_sum(self.view_in(a1)));
            assert forall|g: u32| a0.has(g) implies a1.has(g) && node_order(a1.node(g)) == node_order(
                a0.node(g),
            ) by {
                if g != h && !hs0.contains(g) {
                } else if g != h {
                    let j = choose|j: int| 0 <= j < hs0.len() && hs0[j] == g;
                    assert(self.link_ok(a1, j));
                    assert(hs1[j] == g);
                    assert(l0.link_ok(a0, j));
                    assert(same_at(am, a0, g));
                    if j + 1 < hs0.len() {
                        assert(g != hs0.last());
                        assert(same_at(a1, am, g));
                    }
                }
            }
        }
    }

    /// Removes the order at queue position `i`, stored in slot `h`. The slot
    /// stays allocated, unlinked.
    #[verifier::rlimit(60)]
    #[verifier::spinoff_prover]
    pub fn unlink(&mut self, arena: &mut Arena, h: u32)
        requires
            old(self).wf(*old(arena)),
            old(arena).wf(),
            old(self).hs@.contains(h),
        ensures
            final(self).wf(*final(arena)),
            final(arena).wf(),
            final(arena).live@ == old(arena).live@,
            final(self).hs@ == old(self).hs@.remove(slot_pos(old(self).hs@, h)),
            final(self).view_in(*final(arena)) == old(self).view_in(*old(arena)).remove(slot_pos(old(self).hs@, h)),
            final(arena).has(h),
            final(arena).node(h) == (Node { prev: None, next: None, ..old(arena).node(h) }),
            forall|g: u32| !old(self).hs@.contains(g) ==> same_at(*final(arena), *old(arena), g),
            forall|g: u32|
                old(arena).has(g) ==> final(arena).has(g) && node_order(final(arena).node(g))
                    == node_order(old(arena).node(g)),
    {
        let ghost i = slot_pos(old(self).hs@, h);
        let ghost a0 = *arena;
        let ghost l0 = *self;
        let ghost hs0 = self.hs@;
        let ghost v0 = self.view_in(a0);
        let ghost len = hs0.len();
        proof {
            assert(l0.link_ok(a0, i));
            if i > 0 {
                assert(l0.link_ok(a0, i - 1));
                assert(hs0[i - 1] != h);
            }
            if i + 1 < len {
                assert(l0.link_ok(a0, i + 1));
                assert(hs0[i + 1] != h);
            }
            if i > 0 && i + 1 < len {
                assert(hs0[i + 1] != hs0[i - 1]);
            }
        }
        let n = arena.get(h);
        let prev = n.prev;
        let next = n.next;
        let open = n.open;
        arena.put(h, Node { prev: None, next: None, ..n });
        let ghost am = *arena;
        match prev {
            Some(p) => {
                proof {
                    assert(p == hs0[i - 1]);
                    assert(same_at(*arena, a0, p));
                }
                let mut pn = arena.get(p);
                pn.next = next;
                arena.put(p, pn);
                proof {
                    assert(arena.node(p) == (Node { next: next, ..a0.node(p) }));
                }
            },
            None => {
                self.head = next;
            },
        }
        let ghost am2 = *arena;
        match next {
            Some(x) => {
                proof {
                    assert(x == hs0[i + 1]);
                    assert(same_at(am, a0, x));
                    assert(same_at(*arena, am, x));
                }
                let mut xn = arena.get(x);
                xn.prev = prev;
                arena.put(x, xn);
                proof {
                    assert(arena.node(x) == (Node { prev: prev, ..a0.node(x) }));
                }
            },
            None => {
                self.tail = prev;
            },
        }
        proof {
            l0.lemma_view_qty(a0);
            lemma_qty_sum_remove(v0, i);
            assert forall|k: int| 0 <= k < v0.remove(i).len() implies #[trigger] v0.remove(i)[k].qty.0
                <= MAX_QTY by {
                if k < i {
                    assert(v0.remove(i)[k] == v0[k]);
                } else {
                    assert(v0.remove(i)[k] == v0[k + 1]);
                }
            }
            lemma_qty_sum_bound(v0.remove(i));
        }
        self.total = Qty(self.total.0 - open.0);
        self.count = self.count - 1;
        self.hs = Ghost(hs0.remove(i));
        proof {
            let a3 = *arena;
            let hs1 = self.hs@;
            // how each slot of the old queue ended up
            assert forall|k: int| 0 <= k < len implies {
                &&& a3.has(#[trigger] hs0[k])
                &&& (k != i && k + 1 != i && k != i + 1 ==> a3.node(hs0[k]) == a0.node(hs0[k]))
                &&& (k + 1 == i ==> a3.node(hs0[k]) == (Node { next: next, ..a0.node(hs0[k]) }))
                &&& (k == i + 1 ==> a3.node(hs0[k]) == (Node { prev: prev, ..a0.node(hs0[k]) }))
            } by {
                assert(l0.link_ok(a0, k));
                let g = hs0[k];
                if k != i {
                    assert(g != h);
                    assert(same_at(am, a0, g));
                }
                if i > 0 && k != i - 1 {
                    assert(g != hs0[i - 1]);
                    assert(same_at(am2, am, g));
                }
                if i + 1 < len && k != i + 1 {
                    assert(g != hs0[i + 1]);
                    assert(same_at(a3, am2, g));
                }
                if i > 0 && k == i - 1 && i + 1 < len {
                    assert(g != hs0[i + 1]);
                    assert(same_at(a3, am2, g));
                }
                if i + 1 < len && k == i + 1 && i > 0 {
                    assert(g != hs0[i - 1]);
                    assert(same_at(am2, am, g));
                }
            }
            assert forall|g: u32| !hs0.contains(g) implies same_at(a3, a0, g) by {
                assert(g != h);
                assert(same_at(am, a0, g));
                if i > 0 {
                    assert(hs0.contains(hs0[i - 1]));
                    assert(same_at(am2, am, g));
                }
                if i + 1 < len {
                    assert(hs0.contains(hs0[i + 1]));
                    assert(same_at(a3, am2, g));
                }
            }
            assert(a3.node(h) == (Node { prev: None, next: None, ..a0.node(h) })) by {
                if i > 0 {
                    assert(same_at(am2, am, h));
                }
                if i + 1 < len {
                    assert(same_at(a3, am2, h));
                }
            }
            assert forall|j: int| 0 <= j < hs1.len() implies #[trigger] self.link_ok(a3, j) by {
                let k = if j < i { j } else { j + 1 };
                assert(hs1[j] == hs0[k]);
                assert(l0.link_ok(a0, k));
                assert(a3.has(hs0[k]));
                if j > 0 {
                    let kp = if j - 1 < i { j - 1 } else { j };
                    assert(hs1[j - 1] == hs0[kp]);
                }
                if j + 1 < hs1.len() {
                    let kn = if j + 1 < i { j + 1 } else { j + 2 };
                    assert(hs1[j + 1] == hs0[kn]);
                }
            }
            assert forall|j: int| 0 <= j < hs1.len() implies self.view_in(a3)[j] == v0.remove(i)[j] by {
                let k = if j < i { j } else { j + 1 };
                assert(hs1[j] == hs0[k]);
                assert(a3.has(hs0[k]));
            }
            assert(self.view_in(a3) =~= v0.remove(i));
            assert forall|g: u32| a0.has(g) implies a3.has(g) && node_order(a3.node(g)) == node_order(
                a0.node(g),
            ) by {
                if hs0.contains(g) {
                    let k = choose|k: int| 0 <= k < len && hs0[k] == g;
                    assert(a3.has(hs0[k]));
                }
            }
            assert(hs1.no_duplicates());
            assert(self.head == if hs1.len() == 0 { None::<u32> } else { Some(hs1[0]) });
            assert(self.tail == if hs1.len() == 0 { None::<u32> } else { Some(hs1.last()) });
        }
    }

    /// Lowers the open quantity of the order at queue position `i`, stored in
    /// slot `h`, by `by`, keeping its position.
    pub fn reduce(&mut self, arena: &mut Arena, h: u32, by: Qty)
        requires
            old(self).wf(*old(arena)),
            old(arena).wf(),
            old(self).hs@.contains(h),
            by.0 < old(arena).node(h).open.0,
        ensures
            final(self).wf(*final(arena)),
            final(arena).wf(),
            final(arena).live@ == old(arena).live@,
            final(self).hs@ == old(self).hs@,
            final(self).view_in(*final(arena)) == old(self).view_in(*old(arena)).update(
                slot_pos(old(self).hs@, h),
                RestingOrder {
                    qty: Qty((old(arena).node(h).open.0 - by.0) as u64),
                    ..old(self).view_in(*old(arena))[slot_pos(old(self).hs@, h)]
                },
            ),
            final(arena).has(h),
            final(arena).node(h) == (Node {
                open: Qty((old(arena).node(h).open.0 - by.0) as u64),
                ..old(arena).node(h)
            }),
            forall|g: u32| g != h ==> same_at(*final(arena), *old(arena), g),
    {
        let ghost i = slot_pos(old(self).hs@, h);
        let ghost a0 = *arena;
        let ghost l0 = *self;
        let ghost v0 = self.view_in(a0);
        proof {
            assert(l0.link_ok(a0, i));
        }
        let mut n = arena.get(h);
        n.open = Qty(n.open.0 - by.0);
        arena.put(h, n);
        let ghost nv = RestingOrder { qty: n.open, ..v0[i] };
        proof {
            lemma_qty_sum_update(v0, i, nv);
            lemma_qty_sum_nonneg(v0.update(i, nv));
            l0.lemma_view_qty(a0);
        }
        self.total = Qty(self.total.0 - by.0);
        proof {
            let a1 = *arena;
            let hs = self.hs@;
            assert(a1.node(h) == (Node { open: n.open, ..a0.node(h) }));
            assert forall|j: int| 0 <= j < hs.len() implies #[trigger] self.link_ok(a1, j) by {
                assert(l0.link_ok(a0, j));
                if j != i {
                    assert(hs[j] != h);
                    assert(same_at(a1, a0, hs[j]));
                }
            }
            assert forall|j: int| 0 <= j < hs.len() implies self.view_in(a1)[j] == v0.update(i, nv)[j] by {
                assert(l0.link_ok(a0, j));
                if j != i {
                    assert(hs[j] != h);
                    assert(same_at(a1, a0, hs[j]));
                }
            }
            assert(self.view_in(a1) =~= v0.update(i, nv));
        }
    }
}

impl Default for Arena {
    /// An arena with no slots, as `new`.
    fn default() -> (a: Self)
        ensures
            a.wf(),
            a.live@ == 0,
            forall|g: u32| !a.has(g),
    {
        Arena::new()
    }
}

impl Default for Level {
    /// An empty level, as `new`.
    fn default() -> (l: Self)
        ensures
            l.hs@ == Seq::<u32>::empty(),
            forall|a: Arena| #[trigger] l.wf(a),
    {
        Level::new()
    }
}

} // verus!
