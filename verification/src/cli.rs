//! `lob replay`: the arguments it takes and the report it prints for a
//! journal. Reading and writing files is the program's; everything it
//! computes is here.
use vstd::prelude::*;

use crate::command::{Command, Event};
use crate::engine::{
    apply_spec, lemma_inv_valid, lemma_replay_valid, order_count, replay_spec, room_for_many, MatchingEngine,
};
use crate::journal::{command_text, event_text, push_command, push_event};
use crate::json::{hex, hex_char, log_text};
use crate::snapshot::{encode_spec, fnv1a, fnv1a_spec, valid_state, Snapshot, State};
use crate::text::{chars_of, dec, lemma_add_assoc, push_dec, push_str, same_text, string_of};
use vstd::utf8::encode_utf8;

verus! {

/// The usage message.
pub open spec fn usage() -> Seq<char> {
    "usage: lob replay <journal> [--quiet] [--from <snapshot>] [--save <snapshot>]\n\n  --quiet            print only the summary and digests\n  --from <file>      start from a saved snapshot instead of an empty book\n  --save <file>      write the final snapshot to a file"@
}

fn usage_text() -> (s: String)
    ensures
        s@ == usage(),
{
    let cs = chars_of(
        "usage: lob replay <journal> [--quiet] [--from <snapshot>] [--save <snapshot>]\n\n  --quiet            print only the summary and digests\n  --from <file>      start from a saved snapshot instead of an empty book\n  --save <file>      write the final snapshot to a file",
    );
    string_of(&cs)
}

/// What to replay and how.
pub struct Args {
    /// Path of the journal.
    pub journal: String,
    /// Print only the summary and digests.
    pub quiet: bool,
    /// Snapshot to start from instead of an empty book.
    pub from: Option<String>,
    /// Where to write the final snapshot.
    pub save: Option<String>,
}

/// The arguments as text: journal, quiet, starting snapshot, snapshot to
/// save.
pub struct ArgsView {
    pub journal: Seq<char>,
    pub quiet: bool,
    pub from: Option<Seq<char>>,
    pub save: Option<Seq<char>>,
}

impl View for Args {
    type V = ArgsView;

    open spec fn view(&self) -> ArgsView {
        ArgsView {
            journal: self.journal@,
            quiet: self.quiet,
            from: match self.from {
                Some(f) => Some(f@),
                None => None,
            },
            save: match self.save {
                Some(f) => Some(f@),
                None => None,
            },
        }
    }
}

/// `s` begins with two dashes.
pub open spec fn is_flag(s: Seq<char>) -> bool {
    s.len() >= 2 && s[0] == '-' && s[1] == '-'
}

/// The options after `replay`, scanned left to right: `--quiet`, `--from`
/// and `--save` with a value each, any other `--` word refused, one
/// journal path and nothing else.
pub open spec fn scan_args(
    rest: Seq<Seq<char>>,
    journal: Option<Seq<char>>,
    quiet: bool,
    from: Option<Seq<char>>,
    save: Option<Seq<char>>,
) -> Result<ArgsView, Seq<char>>
    decreases rest.len(),
{
    if rest.len() == 0 {
        match journal {
            Some(j) => Ok(ArgsView { journal: j, quiet, from, save }),
            None => Err(usage()),
        }
    } else {
        let arg = rest[0];
        if arg == "--quiet"@ {
            scan_args(rest.drop_first(), journal, true, from, save)
        } else if arg == "--from"@ {
            if rest.len() < 2 {
                Err("--from needs a file"@)
            } else {
                scan_args(rest.skip(2), journal, quiet, Some(rest[1]), save)
            }
        } else if arg == "--save"@ {
            if rest.len() < 2 {
                Err("--save needs a file"@)
            } else {
                scan_args(rest.skip(2), journal, quiet, from, Some(rest[1]))
            }
        } else if is_flag(arg) {
            Err("unknown option "@ + arg)
        } else if journal is None {
            scan_args(rest.drop_first(), Some(arg), quiet, from, save)
        } else {
            Err(usage())
        }
    }
}

/// The arguments after the program name: `replay`, then the options.
pub open spec fn parse_args_spec(args: Seq<Seq<char>>) -> Result<ArgsView, Seq<char>> {
    if args.len() == 0 || args[0] != "replay"@ {
        Err(usage())
    } else {
        scan_args(args.drop_first(), None, false, None, None)
    }
}

fn flag_like(a: &str) -> (r: bool)
    ensures
        r == is_flag(a@),
{
    let x = chars_of(a);
    x.len() >= 2 && x[0] == '-' && x[1] == '-'
}

/// Parses the arguments after the program name.
pub fn parse_args(args: &[String]) -> (r: Result<Args, String>)
    ensures
        match r {
            Ok(a) => parse_args_spec(args@.map_values(|s: String| s@)) == Ok::<ArgsView, Seq<char>>(a@),
            Err(e) => parse_args_spec(args@.map_values(|s: String| s@)) == Err::<ArgsView, Seq<char>>(e@),
        },
{
    let ghost all = args@.map_values(|s: String| s@);
    if args.len() == 0 || !same_text(args[0].as_str(), "replay") {
        return Err(usage_text());
    }
    let mut journal: Option<String> = None;
    let mut quiet = false;
    let mut from: Option<String> = None;
    let mut save: Option<String> = None;
    let mut i: usize = 1;
    proof {
        assert(all.drop_first().skip(0) =~= all.skip(1));
    }
    while i < args.len()
        invariant
            all == args@.map_values(|s: String| s@),
            1 <= i <= args@.len(),
            args@.len() > 0 && all[0] == "replay"@,
            parse_args_spec(all) == scan_args(
                all.skip(i as int),
                match journal {
                    Some(j) => Some(j@),
                    None => None,
                },
                quiet,
                match from {
                    Some(f) => Some(f@),
                    None => None,
                },
                match save {
                    Some(f) => Some(f@),
                    None => None,
                },
            ),
        decreases args@.len() - i,
    {
        let arg = args[i].as_str();
        let ghost rest = all.skip(i as int);
        proof {
            assert(rest[0] == arg@);
            assert(rest.drop_first() =~= all.skip(i as int + 1));
        }
        if same_text(arg, "--quiet") {
            quiet = true;
            i = i + 1;
        } else if same_text(arg, "--from") {
            if i + 1 >= args.len() {
                return Err(string_of(&chars_of("--from needs a file")));
            }
            proof {
                assert(rest[1] == all[i + 1]);
                assert(rest.skip(2) =~= all.skip(i as int + 2));
            }
            from = Some(args[i + 1].clone());
            i = i + 2;
        } else if same_text(arg, "--save") {
            if i + 1 >= args.len() {
                return Err(string_of(&chars_of("--save needs a file")));
            }
            proof {
                assert(rest[1] == all[i + 1]);
                assert(rest.skip(2) =~= all.skip(i as int + 2));
            }
            save = Some(args[i + 1].clone());
            i = i + 2;
        } else if flag_like(arg) {
            let mut m = chars_of("unknown option ");
            push_str(&mut m, arg);
            return Err(string_of(&m));
        } else if journal.is_none() {
            journal = Some(args[i].clone());
            i = i + 1;
        } else {
            return Err(usage_text());
        }
    }
    proof {
        assert(all.skip(i as int) =~= Seq::<Seq<char>>::empty());
    }
    match journal {
        Some(j) => Ok(Args { journal: j, quiet, from, save }),
        None => Err(usage_text()),
    }
}

/// The events of one command, each indented on a line of its own.
pub open spec fn indented(events: Seq<Event>) -> Seq<char>
    decreases events.len(),
{
    if events.len() == 0 {
        Seq::empty()
    } else {
        indented(events.drop_last()) + "  "@ + event_text(events.last()) + "\n"@
    }
}

/// Each command of `cmds`, run from `s`, after `> `, followed by its
/// events.
pub open spec fn transcript(s: State, cmds: Seq<Command>) -> Seq<char>
    decreases cmds.len(),
{
    if cmds.len() == 0 {
        Seq::empty()
    } else {
        let before = replay_spec(s, cmds.drop_last());
        transcript(s, cmds.drop_last()) + "> "@ + command_text(cmds.last()) + "\n"@ + indented(
            apply_spec(before.0, cmds.last()).1,
        )
    }
}

/// Number of trades among `events`.
pub open spec fn trade_count(events: Seq<Event>) -> nat
    decreases events.len(),
{
    if events.len() == 0 {
        0
    } else {
        trade_count(events.drop_last()) + if events.last() is Trade {
            1nat
        } else {
            0nat
        }
    }
}

/// The report's trades figure counts exactly the trade events: it is the
/// number of `Trade` entries among the events, and appending any event that
/// is not a trade (a `Filled`, say) leaves it unchanged, while appending a
/// trade adds one.
pub proof fn lemma_trade_count(events: Seq<Event>, e: Event)
    ensures
        trade_count(events) == events.filter(|x: Event| x is Trade).len(),
        !(e is Trade) ==> trade_count(events.push(e)) == trade_count(events),
        e is Trade ==> trade_count(events.push(e)) == trade_count(events) + 1,
    decreases events.len(),
{
    reveal(Seq::filter);
    let f = |x: Event| x is Trade;
    let g = events.push(e);
    assert(g.drop_last() =~= events);
    if events.len() > 0 {
        lemma_trade_count(events.drop_last(), e);
        assert(events.filter(f) == if f(events.last()) {
            events.drop_last().filter(f).push(events.last())
        } else {
            events.drop_last().filter(f)
        });
    }
}

/// The `n` low hexadecimal digits of `x`, most significant first.
pub open spec fn hex_digits(x: nat, n: nat) -> Seq<char>
    decreases n,
{
    if n == 0 {
        Seq::empty()
    } else {
        hex_digits(x / 16, (n - 1) as nat).push(hex(x % 16))
    }
}

/// `x` as `0x` and sixteen lowercase hexadecimal digits.
pub open spec fn hex_u64(x: u64) -> Seq<char> {
    "0x"@ + hex_digits(x as nat, 16)
}

fn push_hex_digits(out: &mut Vec<char>, x: u64, n: u64)
    ensures
        final(out)@ == old(out)@ + hex_digits(x as nat, n as nat),
    decreases n,
{
    if n > 0 {
        push_hex_digits(out, x / 16, n - 1);
        out.push(hex_char((x % 16) as u32));
    } else {
        assert(old(out)@ + hex_digits(x as nat, 0) =~= old(out)@);
    }
}

/// What `lob replay` prints after running `cmds` from `s`: unless `quiet`,
/// the transcript; then the counts, the digest of the event lines and the
/// digest of the final snapshot.
pub open spec fn report_spec(s: State, cmds: Seq<Command>, quiet: bool) -> Seq<char> {
    let (fin, events) = replay_spec(s, cmds);
    (if quiet {
        Seq::empty()
    } else {
        transcript(s, cmds)
    }) + "commands "@ + dec(cmds.len()) + "  events "@ + dec(events.len()) + "  trades "@ + dec(
        trade_count(events),
    ) + "  resting "@ + dec(order_count(fin) as nat) + "\n"@ + "event digest "@ + hex_u64(
        fnv1a_spec(encode_utf8(log_text(events))),
    ) + "\n"@ + "state digest "@ + hex_u64(fnv1a_spec(encode_spec(fin))) + "\n"@
}

fn count_trades(events: &Vec<Event>) -> (n: u64)
    ensures
        n == trade_count(events@),
{
    let mut n: u64 = 0;
    let mut i: usize = 0;
    while i < events.len()
        invariant
            i <= events@.len(),
            n == trade_count(events@.take(i as int)),
            n <= i,
        decreases events@.len() - i,
    {
        assert(events@.take(i as int + 1).drop_last() =~= events@.take(i as int));
        match events[i] {
            Event::Trade { .. } => {
                n = n + 1;
            },
            _ => {},
        }
        i = i + 1;
    }
    assert(events@.take(i as int) =~= events@);
    n
}

/// Appends the lines of the events from position `start` on: to `log`
/// each event's text, and, unless `quiet`, to `out` the same indented.
fn push_event_lines(out: &mut Vec<char>, log: &mut Vec<char>, events: &Vec<Event>, start: usize, quiet: bool)
    requires
        start <= events@.len(),
        old(log)@ == log_text(events@.take(start as int)),
    ensures
        final(log)@ == log_text(events@),
        final(out)@ == old(out)@ + (if quiet {
            Seq::<char>::empty()
        } else {
            indented(events@.skip(start as int))
        }),
{
    broadcast use lemma_add_assoc;
    let ghost o0 = out@;
    let mut j = start;
    proof {
        assert(events@.subrange(start as int, start as int) =~= Seq::<Event>::empty());
        assert(o0 + Seq::<char>::empty() =~= o0);
    }
    while j < events.len()
        invariant
            start <= j <= events@.len(),
            log@ == log_text(events@.take(j as int)),
            out@ == o0 + (if quiet {
                Seq::<char>::empty()
            } else {
                indented(events@.subrange(start as int, j as int))
            }),
        decreases events@.len() - j,
    {
        push_event(log, events[j]);
        push_str(log, "\n");
        if !quiet {
            push_str(out, "  ");
            push_event(out, events[j]);
            push_str(out, "\n");
        }
        proof {
            let t = events@.take(j as int + 1);
            assert(t.drop_last() =~= events@.take(j as int));
            assert(t.last() == events@[j as int]);
            let u = events@.subrange(start as int, j as int + 1);
            assert(u.drop_last() =~= events@.subrange(start as int, j as int));
            assert(u.last() == events@[j as int]);
        }
        j = j + 1;
    }
    proof {
        assert(events@.take(j as int) =~= events@);
        assert(events@.subrange(start as int, j as int) =~= events@.skip(start as int));
    }
}

/// Runs `commands` on `engine` and returns what `lob replay` prints, with
/// the final snapshot.
#[verifier::rlimit(40)]
pub fn replay_report(engine: &mut MatchingEngine, commands: &[Command], quiet: bool) -> (r: (String, Snapshot))
    requires
        old(engine).inv(),
        room_for_many(old(engine).state(), commands@.len() as int),
    ensures
        final(engine).inv(),
        final(engine).state() == replay_spec(old(engine).state(), commands@).0,
        r.1@ == final(engine).state(),
        r.0@ == report_spec(old(engine).state(), commands@, quiet),
{
    broadcast use lemma_add_assoc;
    let ghost s0 = engine.state();
    proof {
        lemma_inv_valid(*engine);
        assert(commands@.take(0) =~= Seq::<Command>::empty());
    }
    let mut out: Vec<char> = Vec::new();
    let mut events: Vec<Event> = Vec::new();
    let mut log: Vec<char> = Vec::new();
    let mut i: usize = 0;
    while i < commands.len()
        invariant
            i <= commands@.len(),
            engine.inv(),
            valid_state(s0),
            room_for_many(s0, commands@.len() as int),
            (engine.state(), events@) == replay_spec(s0, commands@.take(i as int)),
            log@ == log_text(events@),
            out@ == (if quiet {
                Seq::<char>::empty()
            } else {
                transcript(s0, commands@.take(i as int))
            }),
        decreases commands@.len() - i,
    {
        let cmd = commands[i];
        let start = events.len();
        let ghost st = engine.state();
        let ghost ev0 = events@;
        proof {
            lemma_replay_valid(s0, commands@.take(i as int));
        }
        engine.apply(cmd, &mut events);
        if !quiet {
            push_str(&mut out, "> ");
            push_command(&mut out, cmd);
            push_str(&mut out, "\n");
        }
        proof {
            assert(events@.take(start as int) =~= ev0);
            assert(events@.skip(start as int) =~= apply_spec(st, cmd).1);
        }
        push_event_lines(&mut out, &mut log, &events, start, quiet);
        proof {
            let t = commands@.take(i as int + 1);
            assert(t.drop_last() =~= commands@.take(i as int));
            assert(t.last() == cmd);
        }
        i = i + 1;
    }
    proof {
        assert(commands@.take(i as int) =~= commands@);
        lemma_replay_valid(s0, commands@);
    }
    let snap = engine.snapshot();
    let trades = count_trades(&events);
    let resting = (snap.bids.len() + snap.asks.len()) as u64;
    push_str(&mut out, "commands ");
    push_dec(&mut out, commands.len() as u64);
    push_str(&mut out, "  events ");
    push_dec(&mut out, events.len() as u64);
    push_str(&mut out, "  trades ");
    push_dec(&mut out, trades);
    push_str(&mut out, "  resting ");
    push_dec(&mut out, resting);
    push_str(&mut out, "\n");
    let log_s = string_of(&log);
    let event_digest = fnv1a(log_s.as_str().as_bytes());
    push_str(&mut out, "event digest ");
    push_str(&mut out, "0x");
    push_hex_digits(&mut out, event_digest, 16);
    push_str(&mut out, "\n");
    let state_digest = snap.digest();
    push_str(&mut out, "state digest ");
    push_str(&mut out, "0x");
    push_hex_digits(&mut out, state_digest, 16);
    push_str(&mut out, "\n");
    proof {
        let fin = replay_spec(s0, commands@);
        assert(out@ =~= report_spec(s0, commands@, quiet));
    }
    (string_of(&out), snap)
}

} // verus!
