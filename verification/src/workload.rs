//! Deterministic benchmark workloads.
//!
//! A workload is a starting state plus a fixed batch of commands. A
//! benchmark restores the state outside the timed region and times only the
//! batch, so every run measures exactly the same work. All randomness comes
//! from a fixed-seed xorshift generator, so each workload is a fixed value:
//! its contract names it exactly.
use vstd::prelude::*;

use crate::command::{spec_check_fields, Command};
use crate::engine::{lemma_replay_valid, order_count, replay_spec, MatchingEngine};
use crate::snapshot::{lemma_validate_spec, valid_state, Snapshot, State};
use crate::types::{spec_limit, OrderId, OrderType, Price, Qty, Side};
use crate::text::same_text;

verus! {

/// Price around which every workload's book is built.
pub const MID: i64 = 10_000;

/// One step of the xorshift64 generator.
pub open spec fn xorshift(x: u64) -> u64 {
    let a = x ^ (x << 13u64);
    let b = a ^ (a >> 7u64);
    b ^ (b << 17u64)
}

/// The state a generator seeded with `seed` starts in.
pub open spec fn seed_state(seed: u64) -> u64 {
    if seed == 0 {
        1
    } else {
        seed
    }
}

/// Deterministic xorshift64 generator.
#[derive(Debug, Clone)]
pub struct Rng(u64);

impl View for Rng {
    type V = u64;

    closed spec fn view(&self) -> u64 {
        self.0
    }
}

impl Rng {
    /// A generator; a zero seed is replaced with 1.
    pub fn new(seed: u64) -> (r: Rng)
        ensures
            r@ == seed_state(seed),
    {
        Rng(if seed == 0 { 1 } else { seed })
    }

    /// Next raw value: the generator's new state.
    pub fn next_u64(&mut self) -> (v: u64)
        ensures
            final(self)@ == xorshift(old(self)@),
            v == final(self)@,
    {
        self.0 = self.0 ^ (self.0 << 13u64);
        self.0 = self.0 ^ (self.0 >> 7u64);
        self.0 = self.0 ^ (self.0 << 17u64);
        self.0
    }

    /// Value in `0..n` for `n > 0`: the next raw value modulo `n`.
    pub fn below(&mut self, n: u64) -> (v: u64)
        requires
            n > 0,
        ensures
            final(self)@ == xorshift(old(self)@),
            v == xorshift(old(self)@) % n,
    {
        self.next_u64() % n
    }
}

/// A limit order of `qty` at `price`.
pub open spec fn limit_spec(side: Side, price: i64, qty: u64) -> Command {
    Command::Submit { side, kind: OrderType::Limit { price: Price(price) }, qty: Qty(qty) }
}

fn limit(side: Side, price: i64, qty: u64) -> (c: Command)
    ensures
        c == limit_spec(side, price, qty),
{
    Command::Submit { side, kind: OrderType::Limit { price: Price(price) }, qty: Qty(qty) }
}

/// The price `d` ticks away from `MID` on `side`: below it for bids, above
/// it for asks.
pub open spec fn away(side: Side, d: int) -> int {
    match side {
        Side::Buy => MID - d,
        Side::Sell => MID + d,
    }
}

/// Levels `1..=levels` away from `MID` on `side`, nearest first, with
/// `per_level` limit orders of `qty` at each.
pub open spec fn ladder(side: Side, levels: int, per_level: nat, qty: u64) -> Seq<Command>
    decreases levels,
{
    if levels <= 0 {
        Seq::empty()
    } else {
        ladder(side, levels - 1, per_level, qty) + Seq::new(
            per_level,
            |k: int| limit_spec(side, away(side, levels) as i64, qty),
        )
    }
}

proof fn lemma_ladder_len(side: Side, levels: int, per_level: nat, qty: u64)
    requires
        levels >= 0,
    ensures
        ladder(side, levels, per_level, qty).len() == levels * per_level,
    decreases levels,
{
    if levels > 0 {
        lemma_ladder_len(side, levels - 1, per_level, qty);
        assert(ladder(side, levels, per_level, qty).len() == ladder(side, levels - 1, per_level, qty).len()
            + per_level);
        assert((levels - 1) * per_level + per_level == levels * per_level) by (nonlinear_arith);
    } else {
        assert(levels * per_level == 0) by (nonlinear_arith)
            requires
                levels == 0,
        ;
    }
}

/// Appends `n` copies of `cmd`.
fn push_copies(out: &mut Vec<Command>, cmd: Command, n: u64)
    ensures
        final(out)@ == old(out)@ + Seq::new(n as nat, |k: int| cmd),
{
    let ghost o0 = out@;
    let mut k: u64 = 0;
    while k < n
        invariant
            k <= n,
            out@ == o0 + Seq::new(k as nat, |j: int| cmd),
        decreases n - k,
    {
        out.push(cmd);
        k = k + 1;
        assert(out@ =~= o0 + Seq::new(k as nat, |j: int| cmd));
    }
}

/// `n` copies of `cmd`.
fn copies(cmd: Command, n: u64) -> (v: Vec<Command>)
    ensures
        v@ == Seq::new(n as nat, |k: int| cmd),
{
    let mut v: Vec<Command> = Vec::new();
    push_copies(&mut v, cmd, n);
    assert(v@ =~= Seq::new(n as nat, |k: int| cmd));
    v
}

/// Appends the ladder of `levels` levels on `side`.
fn push_ladder(out: &mut Vec<Command>, side: Side, levels: i64, per_level: u64, qty: u64)
    requires
        levels <= i64::MAX - MID,
    ensures
        final(out)@ == old(out)@ + ladder(side, levels as int, per_level as nat, qty),
{
    let ghost o0 = out@;
    if levels < 1 {
        assert(o0 + ladder(side, levels as int, per_level as nat, qty) =~= o0);
        return;
    }
    let mut level: i64 = 1;
    assert(o0 + ladder(side, 0, per_level as nat, qty) =~= o0);
    while level <= levels
        invariant
            1 <= level <= levels + 1,
            levels <= i64::MAX - MID,
            out@ == old(out)@ + ladder(side, level - 1, per_level as nat, qty),
        decreases levels + 1 - level,
    {
        let price = match side {
            Side::Buy => MID - level,
            Side::Sell => MID + level,
        };
        let ghost before = out@;
        push_copies(out, limit(side, price, qty), per_level);
        proof {
            let row = Seq::new(per_level as nat, |k: int| limit_spec(side, price, qty));
            assert(row =~= Seq::new(
                per_level as nat,
                |k: int| limit_spec(side, away(side, level as int) as i64, qty),
            ));
            assert(ladder(side, level as int, per_level as nat, qty) == ladder(
                side,
                level - 1,
                per_level as nat,
                qty,
            ) + row);
            assert(out@ =~= old(out)@ + ladder(side, level as int, per_level as nat, qty));
        }
        level = level + 1;
    }
}

/// `levels` price levels on each side of `MID`, `per_level` orders of
/// `qty` each. Bids get ids first, then asks.
pub open spec fn deep_book_spec(levels: int, per_level: nat, qty: u64) -> Seq<Command> {
    ladder(Side::Buy, levels, per_level, qty) + ladder(Side::Sell, levels, per_level, qty)
}

fn deep_book(levels: i64, per_level: u64, qty: u64) -> (cmds: Vec<Command>)
    requires
        levels <= i64::MAX - MID,
    ensures
        cmds@ == deep_book_spec(levels as int, per_level as nat, qty),
{
    let mut cmds: Vec<Command> = Vec::new();
    push_ladder(&mut cmds, Side::Buy, levels, per_level, qty);
    push_ladder(&mut cmds, Side::Sell, levels, per_level, qty);
    assert(cmds@ =~= deep_book_spec(levels as int, per_level as nat, qty));
    cmds
}

/// A fresh engine's state after `cmds`.
pub open spec fn state_after_spec(cmds: Seq<Command>) -> State {
    replay_spec(MatchingEngine::new_state(), cmds).0
}

/// A state a workload can start from: valid, and small enough to restore.
pub open spec fn startable(s: State) -> bool {
    valid_state(s) && order_count(s) < u32::MAX
}

fn state_after(commands: &Vec<Command>) -> (snap: Snapshot)
    requires
        commands@.len() < u32::MAX,
    ensures
        snap@ == state_after_spec(commands@),
        startable(snap@),
{
    let mut engine = MatchingEngine::new();
    proof {
        let s0 = MatchingEngine::new_state();
        assert(s0.bids + s0.asks =~= Seq::empty());
        assert(valid_state(s0));
        lemma_replay_valid(s0, commands@);
    }
    let _events = engine.replay(commands.as_slice());
    engine.snapshot()
}

/// The ids `1..=max`, in order.
pub open spec fn upto(max: nat) -> Seq<u64> {
    Seq::new(max, |k: int| (k + 1) as u64)
}

/// `s` with the entries at `i` and `j` exchanged.
pub open spec fn swap(s: Seq<u64>, i: int, j: int) -> Seq<u64> {
    s.update(i, s[j]).update(j, s[i])
}

/// The partial Fisher-Yates shuffle from position `i` up to `n`: position
/// `i` is exchanged with a random later-or-equal position. Gives the ids
/// and the generator state after the last draw.
pub open spec fn shuffle_from(ids: Seq<u64>, rng: u64, i: nat, n: nat) -> (Seq<u64>, u64)
    decreases n - i,
{
    if i >= n || i >= ids.len() {
        (ids, rng)
    } else {
        let r = xorshift(rng);
        let j = i + r % ((ids.len() - i) as u64);
        shuffle_from(swap(ids, i as int, j), r, i + 1, n)
    }
}

/// `n` distinct ids from `1..=max`, in the order the shuffle leaves them.
pub open spec fn distinct_ids_spec(rng: u64, max: nat, n: nat) -> Seq<u64> {
    shuffle_from(upto(max), rng, 0, n).0.take(n as int)
}

/// No entry twice, every entry in `1..=max`.
pub open spec fn ids_in(s: Seq<u64>, max: nat) -> bool {
    &&& forall|a: int, b: int| 0 <= a < b < s.len() ==> s[a] != s[b]
    &&& forall|a: int| 0 <= a < s.len() ==> 1 <= #[trigger] s[a] <= max
}

fn fill_upto(max: u64) -> (ids: Vec<u64>)
    requires
        max <= usize::MAX,
    ensures
        ids@ == upto(max as nat),
{
    let mut ids: Vec<u64> = Vec::new();
    let mut k: u64 = 0;
    while k < max
        invariant
            k <= max,
            ids@ == upto(k as nat),
        decreases max - k,
    {
        ids.push(k + 1);
        k = k + 1;
        assert(ids@ =~= upto(k as nat));
    }
    ids
}

/// Distinct ids from `1..=max`, in random order.
fn distinct_ids(rng: &mut Rng, max: u64, n: usize) -> (r: Vec<OrderId>)
    requires
        n <= max <= usize::MAX,
    ensures
        r@ == distinct_ids_spec(old(rng)@, max as nat, n as nat).map_values(|x: u64| OrderId(x)),
        final(rng)@ == shuffle_from(upto(max as nat), old(rng)@, 0, n as nat).1,
        ids_in(distinct_ids_spec(old(rng)@, max as nat, n as nat), max as nat),
{
    let ghost r0 = rng@;
    let ghost goal = shuffle_from(upto(max as nat), r0, 0, n as nat);
    let mut ids = fill_upto(max);
    let mut i: usize = 0;
    while i < n
        invariant
            i <= n <= max,
            ids@.len() == max,
            ids_in(ids@, max as nat),
            shuffle_from(ids@, rng@, i as nat, n as nat) == goal,
        decreases n - i,
    {
        let m = (ids.len() - i) as u64;
        let ghost s = ids@;
        let ghost rs = rng@;
        let j = i + rng.below(m) as usize;
        let a = ids[i];
        let b = ids[j];
        ids.set(i, b);
        ids.set(j, a);
        proof {
            assert(ids@ =~= swap(s, i as int, j as int));
            assert forall|x: int, y: int| 0 <= x < y < ids@.len() implies ids@[x] != ids@[y] by {
                let px = if x == i { j as int } else if x == j { i as int } else { x };
                let py = if y == i { j as int } else if y == j { i as int } else { y };
                assert(ids@[x] == s[px]);
                assert(ids@[y] == s[py]);
                if px < py {
                    assert(s[px] != s[py]);
                } else {
                    assert(s[py] != s[px]);
                }
            }
            assert forall|x: int| 0 <= x < ids@.len() implies 1 <= #[trigger] ids@[x] <= max by {
                let px = if x == i { j as int } else if x == j { i as int } else { x };
                assert(ids@[x] == s[px]);
            }
        }
        i = i + 1;
    }
    let ghost fin = ids@;
    ids.truncate(n);
    let mut out: Vec<OrderId> = Vec::new();
    let mut k: usize = 0;
    while k < n
        invariant
            k <= n <= fin.len(),
            ids@ == fin.take(n as int),
            out@ == fin.take(k as int).map_values(|x: u64| OrderId(x)),
        decreases n - k,
    {
        out.push(OrderId(ids[k]));
        k = k + 1;
        assert(out@ =~= fin.take(k as int).map_values(|x: u64| OrderId(x)));
    }
    proof {
        assert(fin.take(n as int) =~= distinct_ids_spec(r0, max as nat, n as nat));
    }
    out
}

/// A starting state and the commands to time against it.
#[derive(Debug, Clone)]
pub struct Workload {
    /// Short identifier used in benchmark and report names.
    pub name: &'static str,
    /// What the batch does, for reports.
    pub description: &'static str,
    /// State restored before each timed batch.
    pub start: Snapshot,
    /// The timed commands.
    pub commands: Vec<Command>,
}

impl View for Workload {
    type V = (Seq<char>, Seq<char>, State, Seq<Command>);

    open spec fn view(&self) -> (Seq<char>, Seq<char>, State, Seq<Command>) {
        (self.name@, self.description@, self.start@, self.commands@)
    }
}

impl Workload {
    /// A fresh engine in the starting state.
    pub fn engine(&self) -> (e: MatchingEngine)
        requires
            startable(self.start@),
        ensures
            e.inv(),
            e.state() == self.start@,
    {
        proof {
            lemma_validate_spec(self.start@);
        }
        MatchingEngine::restore(&self.start).expect("workload state is valid")
    }
}


/// The commands of `rest_insert` from generator state `rng`: each draws an
/// offset in `1..=100`, then a side, and joins the level that far from
/// `MID` with 5 lots.
pub open spec fn rest_insert_stream(rng: u64, n: nat) -> Seq<Command>
    decreases n,
{
    if n == 0 {
        Seq::empty()
    } else {
        let r1 = xorshift(rng);
        let offset = 1 + r1 % 100;
        let r2 = xorshift(r1);
        let c = if r2 % 2 == 0 {
            limit_spec(Side::Buy, away(Side::Buy, offset) as i64, 5)
        } else {
            limit_spec(Side::Sell, away(Side::Sell, offset) as i64, 5)
        };
        seq![c] + rest_insert_stream(r2, (n - 1) as nat)
    }
}

/// The amends of `amend` for the shuffled `ids`, from generator state
/// `rng`: every even position (counting from the first, which is even
/// when `even`) sizes down to 5 in place; every odd one draws a different
/// level on the order's own side and moves there with 10 lots.
pub open spec fn amend_stream(ids: Seq<u64>, even: bool, rng: u64) -> Seq<Command>
    decreases ids.len(),
{
    if ids.len() == 0 {
        Seq::empty()
    } else {
        let id = ids[0];
        if even {
            seq![Command::Amend { id: OrderId(id), price: None, qty: Qty(5) }] + amend_stream(
                ids.drop_first(),
                false,
                rng,
            )
        } else {
            let r = xorshift(rng);
            let current = (id - 1) % 10_000 / 100;
            let offset = 1 + (current + 1 + r % 99) % 100;
            let side = if id <= 10_000 {
                Side::Buy
            } else {
                Side::Sell
            };
            seq![
                Command::Amend {
                    id: OrderId(id),
                    price: Some(Price(away(side, offset) as i64)),
                    qty: Qty(10),
                },
            ] + amend_stream(ids.drop_first(), true, r)
        }
    }
}

/// One command of the mixed flow from generator state `rng`, with `issued`
/// orders submitted so far: the command, the generator state after it and
/// the new count of submitted orders. The draws, in order: side, price
/// offset, quantity, how far back the targeted id lies, the kind of
/// command, and for an amend whether it re-prices.
pub open spec fn mixed_next(rng: u64, issued: u64) -> (Command, u64, u64) {
    let r1 = xorshift(rng);
    let side = if r1 % 2 == 0 {
        Side::Buy
    } else {
        Side::Sell
    };
    let r2 = xorshift(r1);
    let price = Price(away(side, r2 % 20 - 4) as i64);
    let r3 = xorshift(r2);
    let qty = Qty((1 + r3 % 20) as u64);
    let r4 = xorshift(r3);
    let window: u64 = if issued < 1 {
        1
    } else if issued > 200 {
        200
    } else {
        issued
    };
    let back = r4 % window;
    let recent = OrderId(
        if back <= issued {
            (issued - back) as u64
        } else {
            0
        },
    );
    let r5 = xorshift(r4);
    let roll = r5 % 100;
    if roll <= 54 {
        (Command::Submit { side, kind: OrderType::Limit { price }, qty }, r5, (issued + 1) as u64)
    } else if roll <= 62 {
        (Command::Submit { side, kind: OrderType::Ioc { price }, qty }, r5, (issued + 1) as u64)
    } else if roll <= 67 {
        (Command::Submit { side, kind: OrderType::Market, qty }, r5, (issued + 1) as u64)
    } else if roll <= 83 {
        (Command::Cancel { id: recent }, r5, issued)
    } else {
        let r6 = xorshift(r5);
        let p = if r6 % 2 == 0 {
            Some(price)
        } else {
            None
        };
        (Command::Amend { id: recent, price: p, qty }, r6, issued)
    }
}

/// `n` commands of the mixed flow.
pub open spec fn mixed_spec(rng: u64, issued: u64, n: nat) -> Seq<Command>
    decreases n,
{
    if n == 0 {
        Seq::empty()
    } else {
        let step = mixed_next(rng, issued);
        seq![step.0] + mixed_spec(step.1, step.2, (n - 1) as nat)
    }
}

/// What a generated command holds: a quantity in `1..=20` and any price
/// within 15 ticks of `MID`, so it passes the field checks; a cancel or
/// amend targets an id no later than `issued`.
pub open spec fn mixed_fields(c: Command, issued: int) -> bool {
    &&& spec_check_fields(c) is Ok
    &&& match c {
        Command::Submit { kind, qty, .. } => 1 <= qty.0 <= 20 && (spec_limit(kind) matches Some(p) ==> MID
            - 15 <= p.0 <= MID + 15),
        Command::Cancel { id } => id.0 <= issued,
        Command::Amend { id, price, qty } => id.0 <= issued && 1 <= qty.0 <= 20 && (price matches Some(p) ==> MID
            - 15 <= p.0 <= MID + 15),
    }
}

proof fn lemma_mixed_next(rng: u64, issued: u64)
    requires
        issued < u64::MAX,
    ensures
        mixed_fields(mixed_next(rng, issued).0, issued as int),
        issued <= mixed_next(rng, issued).2 <= issued + 1,
        mixed_next(rng, issued).0 is Submit ==> mixed_next(rng, issued).2 == issued + 1,
{
}

/// Every command of the mixed stream passes the field checks, with a
/// quantity in `1..=20` and any price within 15 ticks of `MID`; the `i`-th
/// one targets no id later than the orders submitted before it could have
/// taken.
pub proof fn lemma_mixed_fields(rng: u64, issued: u64, n: nat)
    requires
        issued + n <= u64::MAX,
    ensures
        mixed_spec(rng, issued, n).len() == n,
        forall|i: int| 0 <= i < n ==> mixed_fields(#[trigger] mixed_spec(rng, issued, n)[i], issued + i),
    decreases n,
{
    if n > 0 {
        let step = mixed_next(rng, issued);
        lemma_mixed_next(rng, issued);
        lemma_mixed_fields(step.1, step.2, (n - 1) as nat);
        let s = mixed_spec(rng, issued, n);
        let t = mixed_spec(step.1, step.2, (n - 1) as nat);
        assert(s == seq![step.0] + t);
        assert forall|i: int| 0 <= i < n implies mixed_fields(#[trigger] s[i], issued + i) by {
            if i > 0 {
                assert(s[i] == t[i - 1]);
                assert(mixed_fields(t[i - 1], step.2 + i - 1));
            }
        }
    }
}

fn mixed_command(rng: &mut Rng, issued: u64) -> (r: (Command, u64))
    requires
        issued < u64::MAX,
    ensures
        (r.0, final(rng)@, r.1) == mixed_next(old(rng)@, issued),
{
    let side = if rng.below(2) == 0 {
        Side::Buy
    } else {
        Side::Sell
    };
    let offset = rng.below(20) as i64 - 4;
    let price = Price(
        match side {
            Side::Buy => MID - offset,
            Side::Sell => MID + offset,
        },
    );
    let qty = Qty(1 + rng.below(20));
    let window: u64 = if issued < 1 {
        1
    } else if issued > 200 {
        200
    } else {
        issued
    };
    let recent = OrderId(issued.saturating_sub(rng.below(window)));
    let roll = rng.below(100);
    if roll <= 54 {
        (Command::Submit { side, kind: OrderType::Limit { price }, qty }, issued + 1)
    } else if roll <= 62 {
        (Command::Submit { side, kind: OrderType::Ioc { price }, qty }, issued + 1)
    } else if roll <= 67 {
        (Command::Submit { side, kind: OrderType::Market, qty }, issued + 1)
    } else if roll <= 83 {
        (Command::Cancel { id: recent }, issued)
    } else {
        let p = if rng.below(2) == 0 {
            Some(price)
        } else {
            None
        };
        (Command::Amend { id: recent, price: p, qty }, issued)
    }
}

/// Deterministic mixed order flow around `MID`: 55% limit, 8% IOC, 5%
/// market, 16% cancel, 16% amend of one of the 200 most recent ids.
pub fn mixed_stream(seed: u64, len: usize) -> (out: Vec<Command>)
    ensures
        out@ == mixed_spec(seed_state(seed), 0, len as nat),
        out@.len() == len,
{
    let mut rng = Rng::new(seed);
    let mut issued: u64 = 0;
    let mut out: Vec<Command> = Vec::with_capacity(len);
    let mut i: usize = 0;
    while i < len
        invariant
            i <= len,
            issued <= i,
            out@.len() == i,
            out@ + mixed_spec(rng@, issued, (len - i) as nat) == mixed_spec(
                seed_state(seed),
                0,
                len as nat,
            ),
        decreases len - i,
    {
        let ghost before = (rng@, issued);
        let (cmd, next) = mixed_command(&mut rng, issued);
        proof {
            let rest = mixed_spec(rng@, next, (len - i - 1) as nat);
            assert(mixed_spec(before.0, before.1, (len - i) as nat) == seq![cmd] + rest);
            assert(out@.push(cmd) + rest =~= out@ + (seq![cmd] + rest));
        }
        out.push(cmd);
        issued = next;
        i = i + 1;
    }
    assert(out@ + mixed_spec(rng@, issued, 0) =~= out@);
    out
}


/// What a workload is: its name, its description, the state it starts
/// from and the commands it times.
pub open spec fn plan(
    name: &str,
    description: &str,
    start: Seq<Command>,
    commands: Seq<Command>,
) -> (Seq<char>, Seq<char>, State, Seq<Command>) {
    (name@, description@, state_after_spec(start), commands)
}

/// A ladder of `levels` levels holds an order at each of its distances
/// `1..=levels` from `MID`.
proof fn lemma_ladder_has(side: Side, levels: int, per_level: nat, qty: u64, d: int)
    requires
        1 <= d <= levels,
        per_level > 0,
    ensures
        ladder(side, levels, per_level, qty).contains(limit_spec(side, away(side, d) as i64, qty)),
    decreases levels,
{
    let lower = ladder(side, levels - 1, per_level, qty);
    let top = Seq::new(per_level, |k: int| limit_spec(side, away(side, levels) as i64, qty));
    let all = ladder(side, levels, per_level, qty);
    assert(all == lower + top);
    if d == levels {
        assert(all[lower.len() as int] == top[0]);
    } else {
        lemma_ladder_has(side, levels - 1, per_level, qty, d);
        let j = choose|j: int| 0 <= j < lower.len() && lower[j] == limit_spec(side, away(side, d) as i64, qty);
        assert(all[j] == lower[j]);
    }
}

/// Every command of the `rest_insert` stream, whatever the generator
/// state, is a 5-lot limit at 1 to 100 ticks from `MID` on its side (below
/// for a bid, above for an ask): a price at which the workload's starting
/// book, 100 levels of 10 orders a side, already has a level.
pub proof fn lemma_rest_insert_joins_levels(rng: u64, n: nat)
    ensures
        rest_insert_stream(rng, n).len() == n,
        forall|i: int|
            0 <= i < n ==> exists|side: Side, d: int|
                1 <= d <= 100 && #[trigger] rest_insert_stream(rng, n)[i] == limit_spec(side, away(side, d) as i64, 5)
                    && deep_book_spec(100, 10, 10).contains(limit_spec(side, away(side, d) as i64, 10)),
    decreases n,
{
    if n > 0 {
        let r1 = xorshift(rng);
        let r2 = xorshift(r1);
        let offset = 1 + r1 % 100;
        lemma_rest_insert_joins_levels(r2, (n - 1) as nat);
        let s = rest_insert_stream(rng, n);
        let t = rest_insert_stream(r2, (n - 1) as nat);
        assert(s == seq![s[0]] + t);
        let side = if r2 % 2 == 0 {
            Side::Buy
        } else {
            Side::Sell
        };
        assert(s[0] == limit_spec(side, away(side, offset) as i64, 5));
        lemma_ladder_has(side, 100, 10, 10, offset);
        let bids = ladder(Side::Buy, 100, 10, 10);
        let asks = ladder(Side::Sell, 100, 10, 10);
        let book = deep_book_spec(100, 10, 10);
        assert(book == bids + asks);
        let target = limit_spec(side, away(side, offset) as i64, 10);
        if side == Side::Buy {
            let j = choose|j: int| 0 <= j < bids.len() && bids[j] == target;
            assert(book[j] == bids[j]);
        } else {
            let j = choose|j: int| 0 <= j < asks.len() && asks[j] == target;
            assert(book[bids.len() + j] == asks[j]);
        }
        assert(book.contains(target));
        assert forall|i: int| 0 <= i < n implies exists|sd: Side, d: int|
            1 <= d <= 100 && #[trigger] s[i] == limit_spec(sd, away(sd, d) as i64, 5)
                && book.contains(limit_spec(sd, away(sd, d) as i64, 10)) by {
            if i == 0 {
                assert(1 <= offset <= 100 && s[0] == limit_spec(side, away(side, offset) as i64, 5) && book.contains(
                    target,
                ));
            } else {
                assert(s[i] == t[i - 1]);
            }
        }
    }
}

pub open spec fn rest_insert_plan() -> (Seq<char>, Seq<char>, State, Seq<Command>) {
    plan(
        "rest_insert",
        "non-crossing limit joins an existing level (100 levels x 10 orders per side)",
        deep_book_spec(100, 10, 10),
        rest_insert_stream(11, 1000),
    )
}

pub open spec fn cancel_plan() -> (Seq<char>, Seq<char>, State, Seq<Command>) {
    plan(
        "cancel",
        "cancel a random resting order (20,000 resting, 100 per level)",
        deep_book_spec(100, 100, 10),
        distinct_ids_spec(12, 20_000, 1000).map_values(|x: u64| Command::Cancel { id: OrderId(x) }),
    )
}

pub open spec fn amend_plan() -> (Seq<char>, Seq<char>, State, Seq<Command>) {
    plan(
        "amend",
        "amend a random order: 50% size-down in place, 50% re-price (20,000 resting)",
        deep_book_spec(100, 100, 10),
        amend_stream(
            distinct_ids_spec(13, 20_000, 1000),
            true,
            shuffle_from(upto(20_000), 13, 0, 1000).1,
        ),
    )
}

pub open spec fn cross_plan() -> (Seq<char>, Seq<char>, State, Seq<Command>) {
    plan(
        "cross",
        "crossing limit fully fills exactly one maker (10,000 one-lot asks)",
        ladder(Side::Sell, 100, 100, 1),
        Seq::new(1000, |k: int| limit_spec(Side::Buy, (MID + 100) as i64, 1)),
    )
}

pub open spec fn partial_fill_plan() -> (Seq<char>, Seq<char>, State, Seq<Command>) {
    plan(
        "partial_fill",
        "crossing limit partially fills a large maker at the head of the queue",
        Seq::new(10, |k: int| limit_spec(Side::Sell, (MID + 1) as i64, 1_000_000)),
        Seq::new(1000, |k: int| limit_spec(Side::Buy, (MID + 1) as i64, 7)),
    )
}

/// A market buy of 100 lots.
pub open spec fn market_buy_100() -> Command {
    Command::Submit { side: Side::Buy, kind: OrderType::Market, qty: Qty(100) }
}

pub open spec fn sweep_plan() -> (Seq<char>, Seq<char>, State, Seq<Command>) {
    plan(
        "sweep",
        "market order sweeps 10 levels x 5 orders (50 fills)",
        ladder(Side::Sell, 1000, 5, 2),
        Seq::new(100, |k: int| market_buy_100()),
    )
}

pub open spec fn mixed_plan() -> (Seq<char>, Seq<char>, State, Seq<Command>) {
    plan(
        "mixed",
        "synthetic mix of limit/IOC/market/cancel/amend after 20,000-command warm-up",
        mixed_spec(21, 0, 30_000).take(20_000),
        mixed_spec(21, 0, 30_000).skip(20_000),
    )
}

/// 1,000 non-crossing limit orders joining existing levels of a
/// 100-level x 10-order book.
pub fn rest_insert() -> (w: Workload)
    ensures
        w@ == rest_insert_plan(),
        startable(w.start@),
{
    let mut rng = Rng::new(11);
    let mut commands: Vec<Command> = Vec::new();
    let mut i: u64 = 0;
    assert(commands@ + rest_insert_stream(11, 1000) =~= rest_insert_stream(11, 1000));
    while i < 1000
        invariant
            i <= 1000,
            commands@ + rest_insert_stream(rng@, (1000 - i) as nat) == rest_insert_stream(11, 1000),
        decreases 1000 - i,
    {
        let ghost r0 = rng@;
        let offset = 1 + rng.below(100) as i64;
        let cmd = if rng.below(2) == 0 {
            limit(Side::Buy, MID - offset, 5)
        } else {
            limit(Side::Sell, MID + offset, 5)
        };
        proof {
            let rest = rest_insert_stream(rng@, (1000 - i - 1) as nat);
            assert(rest_insert_stream(r0, (1000 - i) as nat) == seq![cmd] + rest);
            assert(commands@.push(cmd) + rest =~= commands@ + (seq![cmd] + rest));
        }
        commands.push(cmd);
        i = i + 1;
    }
    assert(commands@ + rest_insert_stream(rng@, 0) =~= commands@);
    let book = deep_book(100, 10, 10);
    proof {
        lemma_ladder_len(Side::Buy, 100, 10, 10);
        lemma_ladder_len(Side::Sell, 100, 10, 10);
    }
    let start = state_after(&book);
    Workload {
        name: "rest_insert",
        description: "non-crossing limit joins an existing level (100 levels x 10 orders per side)",
        start,
        commands,
    }
}

/// A book of 100 levels x 100 orders of 10 lots on each side.
fn deep_start() -> (snap: Snapshot)
    ensures
        snap@ == state_after_spec(deep_book_spec(100, 100, 10)),
        startable(snap@),
{
    let book = deep_book(100, 100, 10);
    proof {
        lemma_ladder_len(Side::Buy, 100, 100, 10);
        lemma_ladder_len(Side::Sell, 100, 100, 10);
    }
    state_after(&book)
}

/// 1,000 cancels of distinct random orders, mostly mid-queue, in a book of
/// 20,000 resting orders.
pub fn cancel() -> (w: Workload)
    ensures
        w@ == cancel_plan(),
        startable(w.start@),
{
    let mut rng = Rng::new(12);
    let ids = distinct_ids(&mut rng, 20_000, 1000);
    let ghost d = distinct_ids_spec(12, 20_000, 1000);
    let mut commands: Vec<Command> = Vec::new();
    let mut k: usize = 0;
    while k < ids.len()
        invariant
            k <= ids@.len(),
            ids@ == d.map_values(|x: u64| OrderId(x)),
            commands@ == d.take(k as int).map_values(|x: u64| Command::Cancel { id: OrderId(x) }),
        decreases ids@.len() - k,
    {
        commands.push(Command::Cancel { id: ids[k] });
        k = k + 1;
        assert(commands@ =~= d.take(k as int).map_values(|x: u64| Command::Cancel { id: OrderId(x) }));
    }
    assert(d.take(d.len() as int) =~= d);
    Workload {
        name: "cancel",
        description: "cancel a random resting order (20,000 resting, 100 per level)",
        start: deep_start(),
        commands,
    }
}


/// 1,000 amends of distinct random orders: half same-price decreases (keep
/// priority), half moves to another non-crossing level (lose priority).
pub fn amend() -> (w: Workload)
    ensures
        w@ == amend_plan(),
        startable(w.start@),
{
    let mut rng = Rng::new(13);
    let ids = distinct_ids(&mut rng, 20_000, 1000);
    let ghost d = distinct_ids_spec(13, 20_000, 1000);
    let ghost r0 = rng@;
    let mut commands: Vec<Command> = Vec::new();
    let mut i: usize = 0;
    assert(d.skip(0) =~= d);
    assert(commands@ + amend_stream(d, true, r0) =~= amend_stream(d, true, r0));
    while i < ids.len()
        invariant
            i <= ids@.len(),
            ids@ == d.map_values(|x: u64| OrderId(x)),
            ids_in(d, 20_000),
            commands@ + amend_stream(d.skip(i as int), i % 2 == 0, rng@) == amend_stream(d, true, r0),
        decreases ids@.len() - i,
    {
        let id = ids[i];
        let ghost rs = rng@;
        let ghost rest_ids = d.skip(i as int);
        assert(rest_ids[0] == id.0);
        assert(1 <= d[i as int] <= 20_000);
        let cmd = if i % 2 == 0 {
            Command::Amend { id, price: None, qty: Qty(5) }
        } else {
            // Ids 1..=10,000 are bids and the rest asks, 100 per level; move
            // to a different level so that the amend is never a no-op.
            let current = ((id.0 - 1) % 10_000 / 100) as i64;
            let offset = 1 + (current + 1 + rng.below(99) as i64) % 100;
            let price = if id.0 <= 10_000 {
                MID - offset
            } else {
                MID + offset
            };
            Command::Amend { id, price: Some(Price(price)), qty: Qty(10) }
        };
        proof {
            assert(rest_ids.drop_first() =~= d.skip(i + 1));
            let rest = amend_stream(d.skip(i + 1), (i + 1) % 2 == 0, rng@);
            assert(amend_stream(rest_ids, i % 2 == 0, rs) == seq![cmd] + rest);
            assert(commands@.push(cmd) + rest =~= commands@ + (seq![cmd] + rest));
        }
        commands.push(cmd);
        i = i + 1;
    }
    assert(commands@ + amend_stream(d.skip(i as int), i % 2 == 0, rng@) =~= commands@);
    Workload {
        name: "amend",
        description: "amend a random order: 50% size-down in place, 50% re-price (20,000 resting)",
        start: deep_start(),
        commands,
    }
}

/// 1,000 crossing limit buys, each filling exactly one resting ask.
pub fn cross() -> (w: Workload)
    ensures
        w@ == cross_plan(),
        startable(w.start@),
{
    let mut setup: Vec<Command> = Vec::new();
    push_ladder(&mut setup, Side::Sell, 100, 100, 1);
    proof {
        lemma_ladder_len(Side::Sell, 100, 100, 1);
        assert(setup@ =~= ladder(Side::Sell, 100, 100, 1));
    }
    let commands = copies(limit(Side::Buy, MID + 100, 1), 1000);
    assert(commands@ =~= Seq::new(1000, |k: int| limit_spec(Side::Buy, (MID + 100) as i64, 1)));
    Workload {
        name: "cross",
        description: "crossing limit fully fills exactly one maker (10,000 one-lot asks)",
        start: state_after(&setup),
        commands,
    }
}

/// 1,000 small takers each partially filling the same large maker.
pub fn partial_fill() -> (w: Workload)
    ensures
        w@ == partial_fill_plan(),
        startable(w.start@),
{
    let setup = copies(limit(Side::Sell, MID + 1, 1_000_000), 10);
    assert(setup@ =~= Seq::new(10, |k: int| limit_spec(Side::Sell, (MID + 1) as i64, 1_000_000)));
    let commands = copies(limit(Side::Buy, MID + 1, 7), 1000);
    assert(commands@ =~= Seq::new(1000, |k: int| limit_spec(Side::Buy, (MID + 1) as i64, 7)));
    Workload {
        name: "partial_fill",
        description: "crossing limit partially fills a large maker at the head of the queue",
        start: state_after(&setup),
        commands,
    }
}

/// 100 market buys, each sweeping 10 price levels (50 fills).
pub fn sweep() -> (w: Workload)
    ensures
        w@ == sweep_plan(),
        startable(w.start@),
{
    let mut setup: Vec<Command> = Vec::new();
    push_ladder(&mut setup, Side::Sell, 1000, 5, 2);
    proof {
        lemma_ladder_len(Side::Sell, 1000, 5, 2);
        assert(setup@ =~= ladder(Side::Sell, 1000, 5, 2));
    }
    let market = Command::Submit { side: Side::Buy, kind: OrderType::Market, qty: Qty(100) };
    let commands = copies(market, 100);
    assert(commands@ =~= Seq::new(100, |k: int| market_buy_100()));
    Workload {
        name: "sweep",
        description: "market order sweeps 10 levels x 5 orders (50 fills)",
        start: state_after(&setup),
        commands,
    }
}

/// Mixed flow: 55% limit, 8% IOC, 5% market, 16% cancel, 16% amend, with
/// prices near `MID`. The state is warmed with 20,000 commands first.
pub fn mixed() -> (w: Workload)
    ensures
        w@ == mixed_plan(),
        startable(w.start@),
{
    let mut warm = mixed_stream(21, 30_000);
    let timed = warm.split_off(20_000);
    let start = state_after(&warm);
    Workload {
        name: "mixed",
        description: "synthetic mix of limit/IOC/market/cancel/amend after 20,000-command warm-up",
        start,
        commands: timed,
    }
}

/// Commands per timed chunk of a latency measurement: `forced` when given,
/// else one for the sweep, whose commands each take long enough to time
/// alone, and sixteen for the others.
pub open spec fn chunk_size_spec(name: Seq<char>, forced: Option<usize>) -> usize {
    match forced {
        Some(n) => n,
        None => if name == "sweep"@ {
            1
        } else {
            16
        },
    }
}

/// Commands per timed chunk of a latency measurement of `w`.
pub fn chunk_size(w: &Workload, forced: Option<usize>) -> (n: usize)
    ensures
        n == chunk_size_spec(w.name@, forced),
{
    if let Some(n) = forced {
        return n;
    }
    if same_text(w.name, "sweep") {
        1
    } else {
        16
    }
}

/// Every workload, in report order.
pub fn all() -> (ws: Vec<Workload>)
    ensures
        ws@.map_values(|w: Workload| w@) == seq![
            rest_insert_plan(),
            cross_plan(),
            cancel_plan(),
            amend_plan(),
            partial_fill_plan(),
            sweep_plan(),
            mixed_plan(),
        ],
        forall|i: int| 0 <= i < ws@.len() ==> startable(#[trigger] ws@[i].start@),
{
    let mut ws: Vec<Workload> = Vec::new();
    ws.push(rest_insert());
    ws.push(cross());
    ws.push(cancel());
    ws.push(amend());
    ws.push(partial_fill());
    ws.push(sweep());
    ws.push(mixed());
    assert(ws@.map_values(|w: Workload| w@) =~= seq![
        rest_insert_plan(),
        cross_plan(),
        cancel_plan(),
        amend_plan(),
        partial_fill_plan(),
        sweep_plan(),
        mixed_plan(),
    ]);
    ws
}

} // verus!
