//! Fuzz harnesses for the engine.
//!
//! Each harness takes decoded input and reports what it finds wrong:
//! - an invariant violation reported by the [`Auditor`];
//! - replay of the same input producing different results, directly or
//!   across a snapshot taken mid-stream;
//! - a snapshot that decodes but does not re-encode to the same bytes, or
//!   restores to a different state;
//! - a journal that parses but does not print and re-parse to the same
//!   commands, or an error on a line the text does not have.
//!
//! Each harness's contract shows that it finds nothing wrong, for every
//! input: the engine passes its audit (see [`crate::audit`]) and the
//! comparisons always agree.
use vstd::prelude::*;

use crate::command::{Command, Event};
use crate::audit::{bounded, lemma_engine_audit, lemma_reconcile, lemma_reconcile_ids, lemma_restored_mirrors, mirrors};
use crate::engine::{
    apply_spec, lemma_apply_events, lemma_inv_valid, lemma_replay_append, lemma_replay_valid, order_count,
    replay_spec, MatchingEngine,
};
use crate::book::RestingOrder;
use crate::invariants::{lemma_checked_touched, sorted_ids, Auditor, Violation};
use crate::journal::{journal_of, lemma_error_line, lemma_parse_journal, line_count, lines_spec, parse, push_command};
use crate::text::string_of;
use crate::snapshot::{
    decode_spec, encode_spec, lemma_decode_encode, lemma_encode_decode, lemma_validate_spec, valid_state,
    Snapshot, State, MAX_COUNTER,
};
use crate::types::{OrderId, OrderType, Price, Qty, Side, MAX_QTY};
use crate::workload::startable;

verus! {

/// How a fuzzed command refers to an order.
#[derive(Debug, Clone, Copy)]
pub enum Target {
    /// k-th most recently issued id, so fuzzed streams keep hitting live,
    /// filled and cancelled orders.
    Recent(u8),
    /// Any id at all: never issued, zero, `u64::MAX`.
    Raw(u64),
}

/// A price: usually near a common mid so orders cross, sometimes anything.
#[derive(Debug, Clone, Copy)]
pub enum FuzzPrice {
    Near(i8),
    Raw(i64),
}

/// A quantity: usually small so partial fills happen, sometimes anything.
#[derive(Debug, Clone, Copy)]
pub enum FuzzQty {
    Small(u8),
    Raw(u64),
}

/// An order type with a fuzzed price.
#[derive(Debug, Clone, Copy)]
pub enum FuzzKind {
    Limit(FuzzPrice),
    Ioc(FuzzPrice),
    Market,
}

/// A command as the fuzzer produces it.
#[derive(Debug, Clone, Copy)]
pub enum FuzzCommand {
    Submit(bool, FuzzKind, FuzzQty),
    Cancel(Target),
    Amend(Target, Option<FuzzPrice>, FuzzQty),
}

pub open spec fn price_of(p: FuzzPrice) -> Price {
    match p {
        FuzzPrice::Near(d) => Price((1000 + d) as i64),
        FuzzPrice::Raw(p) => Price(p),
    }
}

pub open spec fn qty_of(q: FuzzQty) -> Qty {
    match q {
        FuzzQty::Small(q) => Qty(q as u64),
        FuzzQty::Raw(q) => Qty(q),
    }
}

/// The id a target names when `issued` orders have been accepted: the
/// `k`-th most recent one (0 if there are not that many), or the raw id.
pub open spec fn target_id(t: Target, issued: u64) -> OrderId {
    match t {
        Target::Recent(k) => OrderId(
            if k <= issued {
                (issued - k) as u64
            } else {
                0
            },
        ),
        Target::Raw(id) => OrderId(id),
    }
}

pub open spec fn kind_of(k: FuzzKind) -> OrderType {
    match k {
        FuzzKind::Limit(p) => OrderType::Limit { price: price_of(p) },
        FuzzKind::Ioc(p) => OrderType::Ioc { price: price_of(p) },
        FuzzKind::Market => OrderType::Market,
    }
}

/// The engine command a fuzzed command stands for.
pub open spec fn resolve_spec(f: FuzzCommand, issued: u64) -> Command {
    match f {
        FuzzCommand::Submit(buy, kind, qty) => Command::Submit {
            side: if buy {
                Side::Buy
            } else {
                Side::Sell
            },
            kind: kind_of(kind),
            qty: qty_of(qty),
        },
        FuzzCommand::Cancel(t) => Command::Cancel { id: target_id(t, issued) },
        FuzzCommand::Amend(t, p, q) => Command::Amend {
            id: target_id(t, issued),
            price: match p {
                Some(p) => Some(price_of(p)),
                None => None,
            },
            qty: qty_of(q),
        },
    }
}

impl FuzzPrice {
    pub fn resolve(self) -> (p: Price)
        ensures
            p == price_of(self),
    {
        match self {
            FuzzPrice::Near(d) => Price(1000 + d as i64),
            FuzzPrice::Raw(p) => Price(p),
        }
    }
}

impl FuzzQty {
    pub fn resolve(self) -> (q: Qty)
        ensures
            q == qty_of(self),
    {
        match self {
            FuzzQty::Small(q) => Qty(q as u64),
            FuzzQty::Raw(q) => Qty(q),
        }
    }
}

impl Target {
    pub fn resolve(self, issued: u64) -> (id: OrderId)
        ensures
            id == target_id(self, issued),
    {
        match self {
            Target::Recent(k) => OrderId(issued.saturating_sub(k as u64)),
            Target::Raw(id) => OrderId(id),
        }
    }
}

impl FuzzCommand {
    /// The command this stands for when `issued` orders have been accepted.
    pub fn resolve(self, issued: u64) -> (c: Command)
        ensures
            c == resolve_spec(self, issued),
    {
        match self {
            FuzzCommand::Submit(buy, kind, qty) => Command::Submit {
                side: if buy {
                    Side::Buy
                } else {
                    Side::Sell
                },
                kind: match kind {
                    FuzzKind::Limit(p) => OrderType::Limit { price: p.resolve() },
                    FuzzKind::Ioc(p) => OrderType::Ioc { price: p.resolve() },
                    FuzzKind::Market => OrderType::Market,
                },
                qty: qty.resolve(),
            },
            FuzzCommand::Cancel(t) => Command::Cancel { id: t.resolve(issued) },
            FuzzCommand::Amend(t, p, q) => Command::Amend {
                id: t.resolve(issued),
                price: match p {
                    Some(p) => Some(p.resolve()),
                    None => None,
                },
                qty: q.resolve(),
            },
        }
    }
}

/// Number of `Accepted` events in `events`.
pub open spec fn accepted_count(events: Seq<Event>) -> nat
    decreases events.len(),
{
    if events.len() == 0 {
        0
    } else {
        accepted_count(events.drop_last()) + if events.last() is Accepted {
            1nat
        } else {
            0nat
        }
    }
}

fn count_accepted(events: &Vec<Event>) -> (n: u64)
    ensures
        n == accepted_count(events@),
{
    let mut n: u64 = 0;
    let mut i: usize = 0;
    while i < events.len()
        invariant
            i <= events@.len(),
            n == accepted_count(events@.take(i as int)),
            n <= i,
        decreases events@.len() - i,
    {
        assert(events@.take(i as int + 1).drop_last() =~= events@.take(i as int));
        match events[i] {
            Event::Accepted { .. } => {
                n = n + 1;
            },
            _ => {},
        }
        i = i + 1;
    }
    assert(events@.take(i as int) =~= events@);
    n
}

/// The commands a fuzzed stream stands for when run from state `s` with
/// `issued` orders accepted: each is resolved against the number of
/// orders accepted before it (saturating at `u64::MAX`).
pub open spec fn resolve_stream(s: State, issued: u64, fs: Seq<FuzzCommand>) -> Seq<Command>
    decreases fs.len(),
{
    if fs.len() == 0 {
        Seq::empty()
    } else {
        let cmd = resolve_spec(fs[0], issued);
        let a = apply_spec(s, cmd);
        let n = issued + accepted_count(a.1);
        let next: u64 = if n > u64::MAX {
            u64::MAX
        } else {
            n as u64
        };
        seq![cmd] + resolve_stream(a.0, next, fs.drop_first())
    }
}

/// What a harness can report.
#[derive(Debug)]
pub enum Failure {
    /// The auditor found an invariant broken by a command.
    Violated(Violation),
    /// The final reconcile found an order whose accounting does not balance.
    Unbalanced(Violation),
    /// A rerun of the same commands ended in a different state.
    Diverged,
    /// A snapshot the engine wrote did not decode.
    Undecodable,
    /// Events differ across a snapshot split.
    SplitEvents,
    /// The final state differs across a snapshot split.
    SplitState,
    /// A parsed journal did not print and re-parse to the same commands.
    RoundTrip,
    /// A parse error named a line the text does not have.
    BadErrorLine,
    /// A snapshot decoded but did not re-encode to the same bytes.
    NotCanonical,
    /// A decoded snapshot did not restore.
    Unrestorable,
    /// A restored engine's snapshot differs from the one it came from.
    Changed,
}

fn same_bytes(a: &[u8], b: &[u8]) -> (r: bool)
    ensures
        r == (a@ == b@),
{
    if a.len() != b.len() {
        return false;
    }
    let mut i: usize = 0;
    while i < a.len()
        invariant
            a@.len() == b@.len(),
            i <= a@.len(),
            forall|j: int| 0 <= j < i ==> a@[j] == b@[j],
        decreases a@.len() - i,
    {
        if a[i] != b[i] {
            return false;
        }
        i = i + 1;
    }
    assert(a@ =~= b@);
    true
}

fn same_events(a: &Vec<Event>, b: &Vec<Event>) -> (r: bool)
    ensures
        r == (a@ == b@),
{
    if a.len() != b.len() {
        return false;
    }
    let mut i: usize = 0;
    while i < a.len()
        invariant
            a@.len() == b@.len(),
            i <= a@.len(),
            forall|j: int| 0 <= j < i ==> a@[j] == b@[j],
        decreases a@.len() - i,
    {
        if a[i] != b[i] {
            return false;
        }
        i = i + 1;
    }
    assert(a@ =~= b@);
    true
}

/// Largest number of resting orders plus commands that `run_audited` takes:
/// it keeps the auditor's running sums far from `u128::MAX`.
pub open spec fn audit_room(s: State, n: int) -> bool {
    &&& startable(s)
    &&& order_count(s) + n <= 0x7FFF_FFFE
    &&& s.next_id + n <= MAX_COUNTER
    &&& s.next_seq + n <= MAX_COUNTER
}

/// Runs `cmds` from `start` with a full audit after each one, and returns
/// the events and the final snapshot's bytes.
pub fn run_audited(start: &Snapshot, cmds: &[Command]) -> (r: Result<(Vec<Event>, Vec<u8>), Failure>)
    requires
        audit_room(start@, cmds@.len() as int),
    ensures
        r matches Ok(out) && out.0@ == replay_spec(start@, cmds@).1 && out.1@ == encode_spec(
            replay_spec(start@, cmds@).0,
        ),
{
    proof {
        lemma_validate_spec(start@);
        lemma_restored_mirrors(start@);
    }
    let mut engine = MatchingEngine::restore(start).expect("valid start state");
    let mut auditor = Auditor::from_snapshot(start);
    let mut all: Vec<Event> = Vec::new();
    let ghost s0 = start@;
    let mut i: usize = 0;
    while i < cmds.len()
        invariant
            i <= cmds@.len(),
            audit_room(s0, cmds@.len() as int),
            engine.inv(),
            (engine.state(), all@) == replay_spec(s0, cmds@.take(i as int)),
            order_count(engine.state()) <= order_count(s0) + i,
            engine.state().next_id <= s0.next_id + i,
            engine.state().next_seq <= s0.next_seq + i,
            auditor.inv(),
            auditor.volume() <= 0x1_0000_0000_0000_0000 + i * 0x2_0000_0000_0000_0000_0000_0000,
            mirrors(auditor.ledger(), engine.state()),
        decreases cmds@.len() - i,
    {
        let ghost s = engine.state();
        let ghost l = auditor.ledger();
        let cmd = cmds[i];
        let mut out: Vec<Event> = Vec::new();
        proof {
            lemma_apply_events(s, cmd);
            lemma_replay_valid(s0, cmds@.take(i as int + 1));
            assert(cmds@.take(i as int + 1).drop_last() =~= cmds@.take(i as int));
            assert(cmds@.take(i as int + 1).last() == cmd);
            lemma_inv_valid(engine);
            auditor.lemma_bounds();
            assert(bounded(l, auditor.volume()));
            lemma_engine_audit(l, s, cmd, auditor.volume());
            lemma_checked_touched(l, cmd, apply_spec(s, cmd).1);
        }
        engine.apply(cmd, &mut out);
        let book = engine.book();
        match auditor.observe(&cmd, out.as_slice(), book) {
            Err(v) => {
                proof {
                    auditor.lemma_bounds();
                    lemma_inv_valid(engine);
                    lemma_reconcile(auditor.ledger(), engine.state(), *book, out@);
                }
                return Err(Failure::Violated(v));
            },
            Ok(()) => {},
        }
        all.append(&mut out);
        i = i + 1;
    }
    let book = engine.book();
    match auditor.reconcile_all(book) {
        Err(v) => {
            proof {
                lemma_inv_valid(engine);
                let ids = choose|ids: Seq<u64>| #[trigger] sorted_ids(auditor.ledger().orders, ids);
                assert forall|j: int| 0 <= j < ids.len() implies auditor.ledger().orders.contains_key(
                    #[trigger] ids[j],
                ) by {
                    assert(ids.contains(ids[j]));
                }
                lemma_reconcile_ids(auditor.ledger(), engine.state(), *book, ids);
            }
            return Err(Failure::Unbalanced(v));
        },
        Ok(()) => {},
    }
    proof {
        assert(cmds@.take(i as int) =~= cmds@);
    }
    let bytes = engine.snapshot().encode();
    Ok((all, bytes))
}

/// Resolves and applies `fuzzed` in order on `engine`, from a fresh
/// engine, and returns the commands it ran.
fn resolve_all(fuzzed: &[FuzzCommand], engine: &mut MatchingEngine) -> (cmds: Vec<Command>)
    requires
        fuzzed@.len() < 0x7FFF_FFFF,
        old(engine).inv(),
        old(engine).state() == MatchingEngine::new_state(),
    ensures
        cmds@ == resolve_stream(MatchingEngine::new_state(), 0, fuzzed@),
        cmds@.len() == fuzzed@.len(),
        final(engine).inv(),
        final(engine).state() == replay_spec(MatchingEngine::new_state(), cmds@).0,
{
    let ghost s0 = MatchingEngine::new_state();
    let ghost goal = resolve_stream(s0, 0, fuzzed@);
    let mut issued: u64 = 0;
    let mut cmds: Vec<Command> = Vec::with_capacity(fuzzed.len());
    let mut i: usize = 0;
    proof {
        assert(s0.bids + s0.asks =~= Seq::empty());
        assert(fuzzed@.skip(0) =~= fuzzed@);
        assert(cmds@ + goal =~= goal);
    }
    while i < fuzzed.len()
        invariant
            i <= fuzzed@.len() < 0x7FFF_FFFF,
            s0 == MatchingEngine::new_state(),
            valid_state(s0),
            engine.inv(),
            cmds@.len() == i,
            engine.state() == replay_spec(s0, cmds@).0,
            cmds@ + resolve_stream(engine.state(), issued, fuzzed@.skip(i as int)) == goal,
        decreases fuzzed@.len() - i,
    {
        let ghost s = engine.state();
        let ghost is0 = issued;
        let cmd = fuzzed[i].resolve(issued);
        proof {
            lemma_replay_valid(s0, cmds@);
        }
        let mut out: Vec<Event> = Vec::new();
        engine.apply(cmd, &mut out);
        let accepted = count_accepted(&out);
        issued = issued.saturating_add(accepted);
        proof {
            let rest = fuzzed@.skip(i as int);
            assert(rest[0] == fuzzed@[i as int]);
            assert(rest.drop_first() =~= fuzzed@.skip(i as int + 1));
            let tail = resolve_stream(engine.state(), issued, fuzzed@.skip(i as int + 1));
            assert(resolve_stream(s, is0, rest) == seq![cmd] + tail);
            assert(cmds@.push(cmd) + tail =~= cmds@ + (seq![cmd] + tail));
            assert(cmds@.push(cmd).drop_last() =~= cmds@);
        }
        cmds.push(cmd);
        i = i + 1;
    }
    proof {
        assert(fuzzed@.skip(i as int) =~= Seq::<FuzzCommand>::empty());
        assert(cmds@ + Seq::<Command>::empty() =~= cmds@);
    }
    cmds
}

/// Structured command streams: every command is audited, and the whole
/// stream must replay identically, also across a mid-stream snapshot.
pub fn commands(fuzzed: &[FuzzCommand]) -> (r: Result<(), Failure>)
    requires
        fuzzed@.len() < 0x7FFF_FFFF,
    ensures
        r is Ok,
{
    let mut engine = MatchingEngine::new();
    let cmds = resolve_all(fuzzed, &mut engine);
    let ghost s0 = MatchingEngine::new_state();
    proof {
        assert(s0.bids + s0.asks =~= Seq::empty());
        assert(valid_state(s0));
    }
    let empty = MatchingEngine::new().snapshot();
    let whole = match run_audited(&empty, cmds.as_slice()) {
        Ok(w) => w,
        Err(f) => {
            return Err(f);
        },
    };
    let last = engine.snapshot().encode();
    if !same_bytes(whole.1.as_slice(), last.as_slice()) {
        return Err(Failure::Diverged);
    }
    let split = cmds.len() / 2;
    let (first, second) = cmds.as_slice().split_at(split);
    proof {
        assert(first@ + second@ =~= cmds@);
        lemma_replay_append(s0, first@, second@);
        lemma_replay_valid(s0, first@);
    }
    let (ev1, mid_bytes) = match run_audited(&empty, first) {
        Ok(x) => x,
        Err(f) => {
            return Err(f);
        },
    };
    let ghost m = replay_spec(s0, first@).0;
    proof {
        assert forall|i: int| 0 <= i < m.bids.len() implies (#[trigger] m.bids[i]).side == Side::Buy by {}
        assert forall|i: int| 0 <= i < m.asks.len() implies (#[trigger] m.asks[i]).side == Side::Sell by {}
        lemma_decode_encode(m);
        lemma_validate_spec(m);
    }
    let mid = match Snapshot::decode(mid_bytes.as_slice()) {
        Ok(s) => s,
        Err(_) => {
            return Err(Failure::Undecodable);
        },
    };
    let (ev2, end) = match run_audited(&mid, second) {
        Ok(x) => x,
        Err(f) => {
            return Err(f);
        },
    };
    let mut joined = ev1;
    let mut tail = ev2;
    joined.append(&mut tail);
    if !same_events(&joined, &whole.0) {
        return Err(Failure::SplitEvents);
    }
    if !same_bytes(end.as_slice(), whole.1.as_slice()) {
        return Err(Failure::SplitState);
    }
    Ok(())
}

fn same_commands(a: &Vec<Command>, b: &Vec<Command>) -> (r: bool)
    ensures
        r == (a@ == b@),
{
    if a.len() != b.len() {
        return false;
    }
    let mut i: usize = 0;
    while i < a.len()
        invariant
            a@.len() == b@.len(),
            i <= a@.len(),
            forall|j: int| 0 <= j < i ==> a@[j] == b@[j],
        decreases a@.len() - i,
    {
        if a[i] != b[i] {
            return false;
        }
        i = i + 1;
    }
    assert(a@ =~= b@);
    true
}

fn same_orders(a: &Vec<RestingOrder>, b: &Vec<RestingOrder>) -> (r: bool)
    ensures
        r == (a@ == b@),
{
    if a.len() != b.len() {
        return false;
    }
    let mut i: usize = 0;
    while i < a.len()
        invariant
            a@.len() == b@.len(),
            i <= a@.len(),
            forall|j: int| 0 <= j < i ==> a@[j] == b@[j],
        decreases a@.len() - i,
    {
        if a[i] != b[i] {
            return false;
        }
        i = i + 1;
    }
    assert(a@ =~= b@);
    true
}

/// Named result of `String::from_utf8_lossy`: the UTF-8 text of the bytes,
/// each invalid sequence replaced by U+FFFD.
pub uninterp spec fn lossy_text(bytes: Seq<u8>) -> Seq<char>;

/// `String::from_utf8_lossy`, owned: the bytes read as UTF-8 with U+FFFD
/// in place of each invalid sequence. Claimed: the characters are
/// `lossy_text` of the bytes, a function of the bytes alone; nothing more.
#[verifier::external_body]
fn utf8_lossy(bytes: &[u8]) -> (s: String)
    ensures
        s@ == lossy_text(bytes@),
{
    String::from_utf8_lossy(bytes).into_owned()
}

/// Each command's journal form on a line of its own.
fn print_journal(cmds: &Vec<Command>) -> (s: String)
    ensures
        s@ == journal_of(cmds@),
{
    let mut out: Vec<char> = Vec::new();
    let ghost c = cmds@;
    let mut k: usize = 0;
    assert(out@ + journal_of(c.skip(0)) =~= journal_of(c)) by {
        assert(c.skip(0) =~= c);
    }
    while k < cmds.len()
        invariant
            c == cmds@,
            k <= c.len(),
            out@ + journal_of(c.skip(k as int)) == journal_of(c),
        decreases c.len() - k,
    {
        let ghost before = out@;
        push_command(&mut out, cmds[k]);
        out.push('\n');
        proof {
            let r = c.skip(k as int);
            assert(r[0] == c[k as int]);
            assert(r.drop_first() =~= c.skip(k as int + 1));
            assert(journal_of(r) == crate::journal::command_text(c[k as int]) + seq!['\n'] + journal_of(
                c.skip(k as int + 1),
            ));
            assert(out@ + journal_of(c.skip(k as int + 1)) =~= before + journal_of(r));
        }
        k = k + 1;
    }
    proof {
        assert(c.skip(k as int) =~= Seq::<Command>::empty());
        assert(journal_of(Seq::<Command>::empty()) =~= Seq::<char>::empty());
        assert(out@ + Seq::<char>::empty() =~= out@);
    }
    string_of(&out)
}

/// Arbitrary text through the journal parser: anything that parses must
/// print and re-parse to the same commands and run cleanly under audit;
/// an error must name a line the text has.
pub fn journal_text(data: &[u8]) -> (r: Result<(), Failure>)
    ensures
        r is Ok,
{
    let text = utf8_lossy(data);
    match parse(text.as_str()) {
        Ok(cmds) => {
            let printed = print_journal(&cmds);
            proof {
                lemma_parse_journal(cmds@);
            }
            match parse(printed.as_str()) {
                Ok(again) => {
                    if !same_commands(&again, &cmds) {
                        return Err(Failure::RoundTrip);
                    }
                },
                Err(_) => {
                    return Err(Failure::RoundTrip);
                },
            }
            if cmds.len() >= 0x7FFF_FFFF {
                // Beyond what the audit's running sums are sized for.
                return Ok(());
            }
            let empty = MatchingEngine::new().snapshot();
            proof {
                let s0 = MatchingEngine::new_state();
                assert(s0.bids + s0.asks =~= Seq::empty());
                assert(valid_state(s0));
            }
            match run_audited(&empty, cmds.as_slice()) {
                Ok(_) => Ok(()),
                Err(f) => Err(f),
            }
        },
        Err(e) => {
            let n = line_count(text.as_str());
            proof {
                lemma_error_line(lines_spec(text@));
            }
            if e.line < 1 || e.line > n {
                return Err(Failure::BadErrorLine);
            }
            let _message = e.text();
            Ok(())
        },
    }
}

/// A market order for the largest quantity on `side`.
fn sweep_order(side: Side) -> (c: Command)
    ensures
        c == (Command::Submit { side, kind: OrderType::Market, qty: Qty(MAX_QTY) }),
{
    Command::Submit { side, kind: OrderType::Market, qty: Qty(MAX_QTY) }
}

/// Arbitrary bytes through the snapshot decoder: anything accepted must be
/// canonical, restorable and usable as a starting point, traded through
/// from both sides under audit.
pub fn snapshot_bytes(data: &[u8]) -> (r: Result<(), Failure>)
    requires
        data@.len() <= 0xF_0000_0000,
    ensures
        r is Ok,
{
    let snap = match Snapshot::decode(data) {
        Ok(s) => s,
        Err(_) => {
            return Ok(());
        },
    };
    let ghost st = snap@;
    proof {
        lemma_encode_decode(data@);
        lemma_validate_spec(st);
        assert(decode_spec(data@) == Ok::<State, crate::snapshot::SnapshotError>(st));
    }
    let again = snap.encode();
    if !same_bytes(again.as_slice(), data) {
        return Err(Failure::NotCanonical);
    }
    let engine = match MatchingEngine::restore(&snap) {
        Ok(e) => e,
        Err(_) => {
            return Err(Failure::Unrestorable);
        },
    };
    let back = engine.snapshot();
    if back.next_id != snap.next_id || back.next_seq != snap.next_seq || !same_orders(&back.bids, &snap.bids)
        || !same_orders(&back.asks, &snap.asks) {
        return Err(Failure::Changed);
    }
    if snap.next_id > MAX_COUNTER - 2 || snap.next_seq > MAX_COUNTER - 2 {
        // No ids left for the two sweeps.
        return Ok(());
    }
    let mut sweeps: Vec<Command> = Vec::new();
    sweeps.push(sweep_order(Side::Buy));
    sweeps.push(sweep_order(Side::Sell));
    match run_audited(&snap, sweeps.as_slice()) {
        Ok(_) => Ok(()),
        Err(f) => Err(f),
    }
}

} // verus!
