use lob::workload::{
    all, amend, cancel, chunk_size, cross, mixed, mixed_stream, partial_fill, rest_insert, sweep, Rng, Workload,
    MID,
};
use lob::{Command, Event, OrderType, Priority, Side};

fn run(w: &Workload) -> Vec<Event> {
    let mut engine = w.engine();
    engine.replay(&w.commands)
}

fn count(events: &[Event], pred: impl Fn(&Event) -> bool) -> usize {
    events.iter().filter(|e| pred(e)).count()
}

fn rejected(e: &Event) -> bool {
    matches!(e, Event::Rejected { .. })
}

#[test]
fn rest_insert_only_rests() {
    let ev = run(&rest_insert());
    assert_eq!(count(&ev, |e| matches!(e, Event::Rested { .. })), 1_000);
    assert_eq!(count(&ev, |e| matches!(e, Event::Trade { .. })), 0);
}

#[test]
fn cancel_cancels_every_target() {
    let ev = run(&cancel());
    assert_eq!(count(&ev, |e| matches!(e, Event::Cancelled { .. })), 1_000);
    assert_eq!(count(&ev, rejected), 0);
}

#[test]
fn amend_is_half_kept_half_lost_and_never_trades() {
    let ev = run(&amend());
    let kept = count(&ev, |e| {
        matches!(
            e,
            Event::Amended {
                priority: Priority::Kept,
                ..
            }
        )
    });
    let lost = count(&ev, |e| {
        matches!(
            e,
            Event::Amended {
                priority: Priority::Lost,
                ..
            }
        )
    });
    assert_eq!((kept, lost), (500, 500));
    assert_eq!(count(&ev, |e| matches!(e, Event::Trade { .. })), 0);
    assert_eq!(count(&ev, rejected), 0);
}

#[test]
fn cross_fills_exactly_one_maker_per_order() {
    let ev = run(&cross());
    assert_eq!(count(&ev, |e| matches!(e, Event::Trade { .. })), 1_000);
    // Every maker and every taker completes.
    assert_eq!(count(&ev, |e| matches!(e, Event::Filled { .. })), 2_000);
}

#[test]
fn partial_fill_never_completes_a_maker() {
    let ev = run(&partial_fill());
    assert_eq!(count(&ev, |e| matches!(e, Event::Trade { .. })), 1_000);
    // Only the takers complete.
    assert_eq!(count(&ev, |e| matches!(e, Event::Filled { .. })), 1_000);
}

#[test]
fn sweep_takes_fifty_fills_per_order() {
    let ev = run(&sweep());
    assert_eq!(count(&ev, |e| matches!(e, Event::Trade { .. })), 100 * 50);
    assert_eq!(count(&ev, |e| matches!(e, Event::Cancelled { .. })), 0);
}

#[test]
fn mixed_exercises_every_path() {
    let ev = run(&mixed());
    for kind in [
        "accepted",
        "rejected",
        "amended",
        "trade",
        "filled",
        "rested",
        "cancelled",
    ] {
        let n = count(&ev, |e| e.text().starts_with(kind));
        assert!(n > 50, "{kind}: {n}");
    }
}

#[test]
fn workloads_are_deterministic() {
    for (a, b) in all().iter().zip(all().iter()) {
        assert_eq!(a.start, b.start, "{}", a.name);
        assert_eq!(a.commands, b.commands, "{}", a.name);
    }
}

#[test]
fn xorshift_matches_the_reference_steps() {
    let mut r = Rng::new(1);
    // 1 ^ 1<<13 = 0x2001; ^ >>7 = 0x2041; ^ <<17 = 0x40822041.
    assert_eq!(r.next_u64(), 0x4082_2041);
    let mut z = Rng::new(0);
    let mut one = Rng::new(1);
    assert_eq!(z.next_u64(), one.next_u64());
    let mut a = Rng::new(7);
    let mut b = Rng::new(7);
    let raw = a.next_u64();
    assert_eq!(b.below(10), raw % 10);
}

#[test]
fn workloads_have_their_names_and_sizes() {
    let names: Vec<&str> = all().iter().map(|w| w.name).collect();
    assert_eq!(
        names,
        ["rest_insert", "cross", "cancel", "amend", "partial_fill", "sweep", "mixed"]
    );
    let w = rest_insert();
    assert_eq!(w.commands.len(), 1_000);
    assert_eq!(w.start.bids.len() + w.start.asks.len(), 2_000);
    let c = cross();
    assert_eq!(c.start.asks.len(), 10_000);
    assert!(c.start.bids.is_empty());
    let m = mixed();
    assert_eq!(m.commands.len(), 10_000);
    assert_eq!(m.commands[..], mixed_stream(21, 30_000)[20_000..]);
}

#[test]
fn mixed_stream_prices_stay_near_mid() {
    for cmd in mixed_stream(5, 2_000) {
        if let Command::Submit {
            side,
            kind: OrderType::Limit { price } | OrderType::Ioc { price },
            ..
        } = cmd
        {
            let off = match side {
                Side::Buy => MID - price.0,
                Side::Sell => price.0 - MID,
            };
            assert!((-4..=15).contains(&off));
        }
    }
}

#[test]
fn chunks_are_single_commands_only_for_the_sweep() {
    for w in all() {
        let expected = if w.name == "sweep" { 1 } else { 16 };
        assert_eq!(chunk_size(&w, None), expected, "{}", w.name);
        assert_eq!(chunk_size(&w, Some(5)), 5);
    }
}

#[test]
fn mixed_stream_fields_stay_near_mid() {
    let mut issued = 0u64;
    for cmd in mixed_stream(7, 5_000) {
        match cmd {
            Command::Submit { kind, qty, .. } => {
                assert!((1..=20).contains(&qty.0));
                if let OrderType::Limit { price } | OrderType::Ioc { price } = kind {
                    assert!((MID - 15..=MID + 15).contains(&price.0));
                }
                issued += 1;
            }
            Command::Cancel { id } => assert!(id.0 <= issued),
            Command::Amend { id, price, qty } => {
                assert!(id.0 <= issued);
                assert!((1..=20).contains(&qty.0));
                if let Some(p) = price {
                    assert!((MID - 15..=MID + 15).contains(&p.0));
                }
            }
        }
    }
}
