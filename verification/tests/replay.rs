use lob::snapshot::fnv1a;
use lob::{Command, Event, MatchingEngine, OrderId, OrderType, Price, Qty, Side, Snapshot, MAX_PRICE, MAX_QTY};

// Deterministic command-stream generator for these tests: a fixed-seed
// xorshift, so streams are identical on every platform and run.


struct Rng(u64);

impl Rng {
    fn new(seed: u64) -> Self {
        Self(seed.max(1))
    }

    fn next(&mut self) -> u64 {
        // xorshift64
        let mut x = self.0;
        x ^= x << 13;
        x ^= x >> 7;
        x ^= x << 17;
        self.0 = x;
        x
    }

    /// Uniform-ish in `0..n` (n > 0); modulo bias is irrelevant here.
    fn below(&mut self, n: u64) -> u64 {
        self.next() % n
    }

    fn chance(&mut self, percent: u64) -> bool {
        self.below(100) < percent
    }
}

/// A mixed stream around a mid price of 1000: mostly valid limit orders,
/// plus market, IOC, cancels and amends that target recent ids, and a small
/// share of invalid commands.
fn mixed_stream(seed: u64, len: usize) -> Vec<Command> {
    let mut rng = Rng::new(seed);
    let mut issued = 0u64; // upper bound on ids the engine could have issued
    let mut out = Vec::with_capacity(len);
    for _ in 0..len {
        let target = OrderId(if issued == 0 {
            1
        } else {
            issued - rng.below(issued.min(40))
        });
        let cmd = match rng.below(100) {
            0..=54 => {
                issued += 1;
                let side = side(&mut rng);
                let kind = OrderType::Limit {
                    price: near_mid(&mut rng, side),
                };
                Command::Submit {
                    side,
                    kind,
                    qty: qty(&mut rng),
                }
            }
            55..=62 => {
                issued += 1;
                let side = side(&mut rng);
                Command::Submit {
                    side,
                    kind: OrderType::Ioc {
                        price: near_mid(&mut rng, side),
                    },
                    qty: qty(&mut rng),
                }
            }
            63..=67 => {
                issued += 1;
                Command::Submit {
                    side: side(&mut rng),
                    kind: OrderType::Market,
                    qty: qty(&mut rng),
                }
            }
            68..=81 => Command::Cancel { id: target },
            82..=95 => {
                let price = if rng.chance(50) {
                    Some(Price(990 + rng.below(21) as i64))
                } else {
                    None
                };
                Command::Amend {
                    id: target,
                    price,
                    qty: qty(&mut rng),
                }
            }
            _ => invalid(&mut rng),
        };
        out.push(cmd);
    }
    out
}

fn side(rng: &mut Rng) -> Side {
    if rng.chance(50) {
        Side::Buy
    } else {
        Side::Sell
    }
}

/// Prices cluster just behind the mid on the order's own side, with some
/// orders crossing.
fn near_mid(rng: &mut Rng, side: Side) -> Price {
    let offset = rng.below(12) as i64 - 3;
    Price(match side {
        Side::Buy => 1000 - offset,
        Side::Sell => 1000 + offset,
    })
}

fn qty(rng: &mut Rng) -> Qty {
    let max = if rng.chance(10) { 500 } else { 20 };
    Qty(1 + rng.below(max))
}

fn invalid(rng: &mut Rng) -> Command {
    let side = side(rng);
    match rng.below(4) {
        0 => Command::Submit {
            side,
            kind: OrderType::Limit { price: Price(1000) },
            qty: Qty(0),
        },
        1 => Command::Submit {
            side,
            kind: OrderType::Limit {
                price: Price(MAX_PRICE + 1),
            },
            qty: Qty(1),
        },
        2 => Command::Submit {
            side,
            kind: OrderType::Market,
            qty: Qty(MAX_QTY + 1),
        },
        _ => Command::Cancel {
            id: OrderId(u64::MAX),
        },
    }
}

struct Outcome {
    events: Vec<Event>,
    snapshot: Vec<u8>,
}

fn replay_from(initial: &Snapshot, commands: &[Command]) -> Outcome {
    let mut engine = MatchingEngine::restore(initial).expect("valid initial state");
    let events = engine.replay(commands);
    Outcome {
        events,
        snapshot: engine.snapshot().encode(),
    }
}

fn empty() -> Snapshot {
    MatchingEngine::new().snapshot()
}

fn event_digest(events: &[Event]) -> u64 {
    let text: String = events.iter().map(|e| format!("{}\n", e.text())).collect();
    fnv1a(text.as_bytes())
}

#[test]
fn replaying_twice_gives_identical_events_and_state() {
    let journals = vec![
        ("mixed-1".to_string(), mixed_stream(1, 20_000)),
        ("mixed-2".to_string(), mixed_stream(2, 20_000)),
    ];
    for (name, cmds) in &journals {
        let a = replay_from(&empty(), cmds);
        let b = replay_from(&empty(), cmds);
        assert_eq!(a.events, b.events, "{name}: events differ");
        assert_eq!(a.snapshot, b.snapshot, "{name}: final state differs");
    }
}

#[test]
fn generated_stream_exercises_every_event_kind() {
    let out = replay_from(&empty(), &mixed_stream(1, 20_000));
    let kinds = [
        "accepted",
        "rejected",
        "amended",
        "trade",
        "filled",
        "rested",
        "cancelled",
    ];
    for kind in kinds {
        let n = out
            .events
            .iter()
            .filter(|e| e.text().starts_with(kind))
            .count();
        assert!(n > 100, "only {n} `{kind}` events; stream is too narrow");
    }
    let resting = Snapshot::decode(&out.snapshot).unwrap();
    assert!(!resting.bids.is_empty() && !resting.asks.is_empty());
}

/// replay(S, E1 ++ E2) == replay(restore(snapshot(replay(S, E1))), E2)
#[test]
fn snapshot_restore_composes_with_replay() {
    let cmds = mixed_stream(3, 5_000);
    let whole = replay_from(&empty(), &cmds);
    for split in [0, 1, 17, 1_000, 2_500, 4_999, 5_000] {
        let (e1, e2) = cmds.split_at(split);
        let first = replay_from(&empty(), e1);
        let mid = Snapshot::decode(&first.snapshot).expect("engine snapshots are valid");
        let second = replay_from(&mid, e2);
        assert_eq!(
            [first.events, second.events].concat(),
            whole.events,
            "split {split}: events differ"
        );
        assert_eq!(
            second.snapshot, whole.snapshot,
            "split {split}: state differs"
        );
    }
}

#[test]
fn every_intermediate_snapshot_is_valid_and_round_trips() {
    let mut engine = MatchingEngine::new();
    let mut out = Vec::new();
    for cmd in mixed_stream(4, 3_000) {
        engine.apply(cmd, &mut out);
        let snap = engine.snapshot();
        let bytes = snap.encode();
        assert_eq!(Snapshot::decode(&bytes).as_ref(), Ok(&snap));
        let restored = MatchingEngine::restore(&snap).unwrap();
        assert_eq!(restored.snapshot().encode(), bytes);
    }
}

#[test]
fn rejected_commands_leave_state_byte_identical() {
    let mut engine = MatchingEngine::new();
    let mut rejected = 0;
    for cmd in mixed_stream(5, 5_000) {
        let before = engine.snapshot().encode();
        let mut out = Vec::new();
        engine.apply(cmd, &mut out);
        if let [Event::Rejected { .. }] = out.as_slice() {
            rejected += 1;
            assert_eq!(engine.snapshot().encode(), before, "`{}` changed state", cmd.text());
        } else {
            assert!(
                !out.iter().any(|e| matches!(e, Event::Rejected { .. })),
                "`{}`: rejection mixed with other events: {out:?}", cmd.text()
            );
        }
    }
    assert!(rejected > 200, "only {rejected} rejections exercised");
}

/// Pinned outputs. The same values must be produced on every platform in CI;
/// a change here means matching behaviour or the encodings changed.
#[test]
fn golden_digests() {
    let out = replay_from(&empty(), &mixed_stream(1, 20_000));
    let snap = Snapshot::decode(&out.snapshot).unwrap();
    println!(
        "empty={:#018x} events={} event_digest={:#018x} state_digest={:#018x}",
        empty().digest(),
        out.events.len(),
        event_digest(&out.events),
        snap.digest()
    );
    assert_eq!(empty().digest(), GOLDEN_EMPTY);
    assert_eq!(out.events.len(), GOLDEN_MIXED_1.0);
    assert_eq!(event_digest(&out.events), GOLDEN_MIXED_1.1);
    assert_eq!(snap.digest(), GOLDEN_MIXED_1.2);
}

const GOLDEN_EMPTY: u64 = 0x68b9_2c18_fb3f_b5ed;
const GOLDEN_MIXED_1: (usize, u64, u64) = (45_666, 0x2667_77a5_0118_baa5, 0x8bdf_e259_7cb7_cc13);
