use lob::invariants::Auditor;
use lob::{
    CancelReason, Command, Event, MatchingEngine, OrderId, OrderType, Price, Priority, Qty,
    RejectReason, SeqNo, Side, MAX_PRICE, MAX_QTY,
};

fn audit(engine: &mut MatchingEngine, auditor: &mut Auditor, commands: &[Command]) {
    let mut out = Vec::new();
    for (i, cmd) in commands.iter().enumerate() {
        out.clear();
        engine.apply(*cmd, &mut out);
        if let Err(v) = auditor.observe(cmd, &out, engine.book()) {
            let journal: String = commands[..=i].iter().map(|c| format!("{}\n", c.text())).collect();
            panic!(
                "after command {i} `{}`: {}: {}\nevents: {out:?}\njournal:\n{journal}",
                cmd.text(),
                v.invariant,
                v.detail
            );
        }
    }
    auditor.reconcile_all(engine.book()).unwrap();
}

// The auditor must reject streams that break the rules. Each case replays a
// valid prefix, then feeds a forged set of events for one command.

struct Forge {
    engine: MatchingEngine,
    auditor: Auditor,
}

impl Forge {
    fn new(setup: &[Command]) -> Self {
        let mut engine = MatchingEngine::new();
        let mut auditor = Auditor::new();
        audit(&mut engine, &mut auditor, setup);
        Self { engine, auditor }
    }

    fn violation(&mut self, cmd: Command, events: &[Event]) -> &'static str {
        self.auditor
            .observe(&cmd, events, self.engine.book())
            .expect_err("forged events should be rejected")
            .invariant
    }

    fn detail(&mut self, cmd: Command, events: &[Event]) -> String {
        self.auditor
            .observe(&cmd, events, self.engine.book())
            .expect_err("forged events should be rejected")
            .detail
    }
}

fn limit(side: Side, price: i64, qty: u64) -> Command {
    Command::Submit {
        side,
        kind: OrderType::Limit {
            price: Price(price),
        },
        qty: Qty(qty),
    }
}

fn accepted(id: u64, side: Side, price: i64, qty: u64) -> Event {
    Event::Accepted {
        id: OrderId(id),
        side,
        kind: OrderType::Limit {
            price: Price(price),
        },
        qty: Qty(qty),
        seq: SeqNo(id),
    }
}

fn trade(maker: u64, taker: u64, side: Side, price: i64, qty: u64) -> Event {
    Event::Trade {
        maker: OrderId(maker),
        taker: OrderId(taker),
        taker_side: side,
        price: Price(price),
        qty: Qty(qty),
    }
}

fn two_asks() -> Forge {
    Forge::new(&[limit(Side::Sell, 101, 5), limit(Side::Sell, 102, 5)])
}

#[test]
fn forged_rejection_with_side_effects_is_i3() {
    let mut f = two_asks();
    let cmd = limit(Side::Buy, 0, 1);
    let events = [
        Event::Rejected {
            id: None,
            reason: RejectReason::PriceOutOfRange,
        },
        accepted(3, Side::Buy, 0, 1),
    ];
    assert_eq!(f.violation(cmd, &events), "I3");
}

#[test]
fn trade_away_from_maker_price_is_i9() {
    let mut f = two_asks();
    let cmd = limit(Side::Buy, 105, 1);
    let events = [
        accepted(3, Side::Buy, 105, 1),
        trade(1, 3, Side::Buy, 103, 1),
    ];
    assert_eq!(f.violation(cmd, &events), "I9");
}

#[test]
fn trade_through_taker_limit_is_i9() {
    let mut f = two_asks();
    let cmd = limit(Side::Buy, 101, 1);
    let events = [
        accepted(3, Side::Buy, 101, 1),
        trade(2, 3, Side::Buy, 102, 1),
    ];
    assert_eq!(f.violation(cmd, &events), "I9");
}

#[test]
fn filling_a_worse_price_first_is_i10() {
    let mut f = two_asks();
    let cmd = limit(Side::Buy, 102, 2);
    let events = [
        accepted(3, Side::Buy, 102, 2),
        trade(2, 3, Side::Buy, 102, 1),
        trade(1, 3, Side::Buy, 101, 1),
    ];
    assert_eq!(f.violation(cmd, &events), "I10");
}

#[test]
fn filled_with_quantity_left_is_i1() {
    let mut f = two_asks();
    let cmd = limit(Side::Buy, 101, 3);
    let events = [
        accepted(3, Side::Buy, 101, 3),
        trade(1, 3, Side::Buy, 101, 2),
        Event::Filled { id: OrderId(3) },
    ];
    assert_eq!(f.violation(cmd, &events), "I1");
}

#[test]
fn quantity_that_vanishes_is_i1() {
    // Cancel reports less than was open: 2 lots would disappear.
    let mut f = two_asks();
    let cmd = Command::Cancel { id: OrderId(1) };
    let events = [Event::Cancelled {
        id: OrderId(1),
        qty: Qty(3),
        reason: CancelReason::User,
    }];
    assert_eq!(f.violation(cmd, &events), "I1");
}

#[test]
fn amend_misreporting_old_quantity_is_i1() {
    let mut f = two_asks();
    let cmd = Command::Amend {
        id: OrderId(1),
        price: None,
        qty: Qty(2),
    };
    let events = [Event::Amended {
        id: OrderId(1),
        price: Price(101),
        old_qty: Qty(4),
        qty: Qty(2),
        seq: SeqNo(1),
        priority: Priority::Kept,
    }];
    assert_eq!(f.violation(cmd, &events), "I1");
}

#[test]
fn events_that_disagree_with_the_book_are_caught() {
    // The events claim an order rested, but the book was never changed.
    let mut f = two_asks();
    let cmd = limit(Side::Buy, 90, 1);
    let events = [
        accepted(3, Side::Buy, 90, 1),
        Event::Rested {
            id: OrderId(3),
            side: Side::Buy,
            price: Price(90),
            qty: Qty(1),
            seq: SeqNo(3),
        },
    ];
    assert_eq!(f.violation(cmd, &events), "I1");
}

#[test]
fn clean_streams_pass_the_audit() {
    let mut engine = MatchingEngine::new();
    let mut auditor = Auditor::new();
    let limit = |side, price, qty| Command::Submit {
        side,
        kind: OrderType::Limit { price: Price(price) },
        qty: Qty(qty),
    };
    audit(
        &mut engine,
        &mut auditor,
        &[
            limit(Side::Sell, 101, 5),
            limit(Side::Sell, 102, 5),
            limit(Side::Buy, 102, 7),
            Command::Amend { id: OrderId(2), price: None, qty: Qty(1) },
            Command::Amend { id: OrderId(2), price: Some(Price(99)), qty: Qty(4) },
            Command::Cancel { id: OrderId(2) },
            Command::Cancel { id: OrderId(2) },
            limit(Side::Buy, 0, 1),
            Command::Submit { side: Side::Sell, kind: OrderType::Market, qty: Qty(3) },
        ],
    );
    assert_eq!(auditor.traded(), 7);
    let snap = engine.snapshot();
    let restored = Auditor::from_snapshot(&snap);
    restored.reconcile_all(engine.book()).unwrap();
}

#[test]
fn empty_event_list_is_i3() {
    let mut f = two_asks();
    let cmd = Command::Cancel { id: OrderId(1) };
    assert_eq!(f.violation(cmd, &[]), "I3");
}

#[test]
fn unbalanced_fills_are_i1_or_i5_against_the_book() {
    let mut f = two_asks();
    // The book still rests order 2 in full; claiming it cancelled breaks
    // the reconcile against the book.
    let cmd = Command::Cancel { id: OrderId(2) };
    let events = [Event::Cancelled {
        id: OrderId(2),
        qty: Qty(5),
        reason: CancelReason::User,
    }];
    assert_eq!(f.violation(cmd, &events), "I1");
}

// Deterministic command-stream generator for these tests: a fixed-seed
// xorshift, so streams are identical on every platform and run.


struct Rng(u64);

impl Rng {
    fn new(seed: u64) -> Self {
        Self(seed.max(1))
    }

    fn next(&mut self) -> u64 {
        // xorshift64
        let mut x = self.0;
        x ^= x << 13;
        x ^= x >> 7;
        x ^= x << 17;
        self.0 = x;
        x
    }

    /// Uniform-ish in `0..n` (n > 0); modulo bias is irrelevant here.
    fn below(&mut self, n: u64) -> u64 {
        self.next() % n
    }

    fn chance(&mut self, percent: u64) -> bool {
        self.below(100) < percent
    }
}

/// A mixed stream around a mid price of 1000: mostly valid limit orders,
/// plus market, IOC, cancels and amends that target recent ids, and a small
/// share of invalid commands.
fn mixed_stream(seed: u64, len: usize) -> Vec<Command> {
    let mut rng = Rng::new(seed);
    let mut issued = 0u64; // upper bound on ids the engine could have issued
    let mut out = Vec::with_capacity(len);
    for _ in 0..len {
        let target = OrderId(if issued == 0 {
            1
        } else {
            issued - rng.below(issued.min(40))
        });
        let cmd = match rng.below(100) {
            0..=54 => {
                issued += 1;
                let side = side(&mut rng);
                let kind = OrderType::Limit {
                    price: near_mid(&mut rng, side),
                };
                Command::Submit {
                    side,
                    kind,
                    qty: qty(&mut rng),
                }
            }
            55..=62 => {
                issued += 1;
                let side = side(&mut rng);
                Command::Submit {
                    side,
                    kind: OrderType::Ioc {
                        price: near_mid(&mut rng, side),
                    },
                    qty: qty(&mut rng),
                }
            }
            63..=67 => {
                issued += 1;
                Command::Submit {
                    side: side(&mut rng),
                    kind: OrderType::Market,
                    qty: qty(&mut rng),
                }
            }
            68..=81 => Command::Cancel { id: target },
            82..=95 => {
                let price = if rng.chance(50) {
                    Some(Price(990 + rng.below(21) as i64))
                } else {
                    None
                };
                Command::Amend {
                    id: target,
                    price,
                    qty: qty(&mut rng),
                }
            }
            _ => invalid(&mut rng),
        };
        out.push(cmd);
    }
    out
}

fn side(rng: &mut Rng) -> Side {
    if rng.chance(50) {
        Side::Buy
    } else {
        Side::Sell
    }
}

/// Prices cluster just behind the mid on the order's own side, with some
/// orders crossing.
fn near_mid(rng: &mut Rng, side: Side) -> Price {
    let offset = rng.below(12) as i64 - 3;
    Price(match side {
        Side::Buy => 1000 - offset,
        Side::Sell => 1000 + offset,
    })
}

fn qty(rng: &mut Rng) -> Qty {
    let max = if rng.chance(10) { 500 } else { 20 };
    Qty(1 + rng.below(max))
}

fn invalid(rng: &mut Rng) -> Command {
    let side = side(rng);
    match rng.below(4) {
        0 => Command::Submit {
            side,
            kind: OrderType::Limit { price: Price(1000) },
            qty: Qty(0),
        },
        1 => Command::Submit {
            side,
            kind: OrderType::Limit {
                price: Price(MAX_PRICE + 1),
            },
            qty: Qty(1),
        },
        2 => Command::Submit {
            side,
            kind: OrderType::Market,
            qty: Qty(MAX_QTY + 1),
        },
        _ => Command::Cancel {
            id: OrderId(u64::MAX),
        },
    }
}


/// Every command is fully checked, so stream length is kept moderate.
#[test]
fn invariants_hold_across_generated_streams() {
    for seed in 1..=4 {
        let mut engine = MatchingEngine::new();
        let mut auditor = Auditor::new();
        audit(&mut engine, &mut auditor, &mixed_stream(seed, 5_000));
        assert!(auditor.traded() > 0, "seed {seed} produced no trades");
    }
}

#[test]
fn invariants_hold_after_restoring_a_snapshot() {
    let cmds = mixed_stream(9, 6_000);
    let (first, second) = cmds.split_at(3_000);
    let mut engine = MatchingEngine::new();
    let mut auditor = Auditor::new();
    audit(&mut engine, &mut auditor, first);

    let snap = engine.snapshot();
    let mut restored = MatchingEngine::restore(&snap).unwrap();
    let mut fresh_auditor = Auditor::from_snapshot(&snap);
    audit(&mut restored, &mut fresh_auditor, second);
}

#[test]
fn violation_text_is_label_then_detail() {
    let v = lob::invariants::Violation {
        invariant: "I2",
        detail: "buy fills 3 / sell fills 2 / traded 3".to_string(),
    };
    assert_eq!(v.text(), "I2: buy fills 3 / sell fills 2 / traded 3");
}

#[test]
fn violation_details_name_what_was_observed() {
    let cmd = limit(Side::Buy, 105, 1);
    let events = [accepted(3, Side::Buy, 105, 1), trade(1, 3, Side::Buy, 103, 1)];
    assert_eq!(
        two_asks().detail(cmd, &events),
        "trade at 103 but maker 1 rests at 101"
    );

    let cmd = limit(Side::Buy, 101, 1);
    let events = [accepted(3, Side::Buy, 101, 1), trade(2, 3, Side::Buy, 102, 1)];
    assert_eq!(
        two_asks().detail(cmd, &events),
        "taker 3 traded at 102 outside its limit Some(Price(101))"
    );

    let cmd = limit(Side::Buy, 102, 2);
    let events = [
        accepted(3, Side::Buy, 102, 2),
        trade(2, 3, Side::Buy, 102, 1),
        trade(1, 3, Side::Buy, 101, 1),
    ];
    assert_eq!(
        two_asks().detail(cmd, &events),
        "taker 3 filled maker 1 at 101 after 102"
    );

    let cmd = limit(Side::Buy, 101, 3);
    let events = [
        accepted(3, Side::Buy, 101, 3),
        trade(1, 3, Side::Buy, 101, 2),
        Event::Filled { id: OrderId(3) },
    ];
    assert_eq!(
        two_asks().detail(cmd, &events),
        "order 3 reported filled with Some(1) open"
    );

    let cmd = Command::Cancel { id: OrderId(1) };
    let events = [Event::Cancelled { id: OrderId(1), qty: Qty(3), reason: CancelReason::User }];
    assert_eq!(
        two_asks().detail(cmd, &events),
        "order 1 cancelled 3 leaving Some(2) open"
    );

    let cmd = Command::Amend { id: OrderId(1), price: None, qty: Qty(2) };
    let events = [Event::Amended {
        id: OrderId(1),
        price: Price(101),
        old_qty: Qty(4),
        qty: Qty(2),
        seq: SeqNo(1),
        priority: Priority::Kept,
    }];
    assert_eq!(
        two_asks().detail(cmd, &events),
        "amend of 1 from 4, ledger has Some(5) open"
    );

    let cmd = Command::Cancel { id: OrderId(9) };
    let events = [Event::Cancelled { id: OrderId(9), qty: Qty(1), reason: CancelReason::User }];
    assert_eq!(
        two_asks().detail(cmd, &events),
        "event for order 9 that was never accepted"
    );
}

#[test]
fn command_level_details_quote_the_command() {
    let cmd = Command::Cancel { id: OrderId(1) };
    assert_eq!(two_asks().detail(cmd, &[]), "`cancel 1` emitted no events");

    let cmd = limit(Side::Buy, 0, 1);
    let events = [
        Event::Rejected { id: None, reason: RejectReason::PriceOutOfRange },
        accepted(3, Side::Buy, 0, 1),
    ];
    assert_eq!(
        two_asks().detail(cmd, &events),
        format!("`{}` was rejected but also emitted other events", cmd.text())
    );
}

#[test]
fn book_disagreements_are_detailed() {
    let cmd = Command::Cancel { id: OrderId(2) };
    let events = [Event::Cancelled { id: OrderId(2), qty: Qty(5), reason: CancelReason::User }];
    assert_eq!(
        two_asks().detail(cmd, &events),
        "order 2: accepted 5 != filled 0 + open 5 + cancelled 5"
    );

    // The events move order 1 to 105, but the book never changed.
    let cmd = Command::Amend { id: OrderId(1), price: Some(Price(105)), qty: Qty(5) };
    let events = [
        Event::Amended {
            id: OrderId(1),
            price: Price(105),
            old_qty: Qty(5),
            qty: Qty(5),
            seq: SeqNo(3),
            priority: Priority::Lost,
        },
        Event::Rested {
            id: OrderId(1),
            side: Side::Sell,
            price: Price(105),
            qty: Qty(5),
            seq: SeqNo(3),
        },
    ];
    let mut f = two_asks();
    let v = f
        .auditor
        .observe(&cmd, &events, f.engine.book())
        .expect_err("the book disagrees");
    assert_eq!(v.invariant, "I5");
    assert_eq!(
        v.detail,
        "order 1: ledger expects resting at Some((Price(105), Seq(3))), book has Some((Price(101), Seq(1)))"
    );
}

#[test]
fn full_reconcile_reports_the_smallest_failing_id() {
    let cmds = [limit(Side::Sell, 101, 5), limit(Side::Sell, 102, 5), limit(Side::Sell, 103, 5)];
    let mut engine = MatchingEngine::new();
    let mut auditor = Auditor::new();
    audit(&mut engine, &mut auditor, &cmds);
    // A book where orders 3 and 2 are gone, unknown to the auditor.
    let mut other = MatchingEngine::new();
    let mut out = Vec::new();
    for c in cmds {
        other.apply(c, &mut out);
    }
    other.cancel(OrderId(3), &mut out);
    other.cancel(OrderId(2), &mut out);
    let v = auditor.reconcile_all(other.book()).expect_err("orders 2 and 3 no longer rest");
    assert_eq!(v.invariant, "I1");
    assert_eq!(v.detail, "order 2: accepted 5 != filled 0 + open 0 + cancelled 0");
    auditor.reconcile_all(engine.book()).unwrap();
}
