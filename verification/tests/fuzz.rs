use lob::fuzz::{
    commands, journal_text, run_audited, snapshot_bytes, FuzzCommand, FuzzKind, FuzzPrice, FuzzQty,
    Target,
};
use lob::workload::mixed_stream;
use lob::{Command, MatchingEngine, OrderId, OrderType, Price, Qty, Side};

struct XorShift(u64);

impl XorShift {
    fn next(&mut self) -> u64 {
        self.0 ^= self.0 << 13;
        self.0 ^= self.0 >> 7;
        self.0 ^= self.0 << 17;
        self.0
    }

    fn bytes(&mut self, len: usize) -> Vec<u8> {
        (0..len).map(|_| self.next().to_le_bytes()[0]).collect()
    }

    fn price(&mut self) -> FuzzPrice {
        if self.next() % 8 == 0 {
            FuzzPrice::Raw(self.next() as i64)
        } else {
            FuzzPrice::Near(self.next() as i8)
        }
    }

    fn qty(&mut self) -> FuzzQty {
        if self.next() % 8 == 0 {
            FuzzQty::Raw(self.next())
        } else {
            FuzzQty::Small(self.next() as u8)
        }
    }

    fn target(&mut self) -> Target {
        if self.next() % 8 == 0 {
            Target::Raw(self.next() % 64)
        } else {
            Target::Recent((self.next() % 16) as u8)
        }
    }

    fn command(&mut self) -> FuzzCommand {
        match self.next() % 10 {
            0..=5 => {
                let kind = match self.next() % 3 {
                    0 => FuzzKind::Limit(self.price()),
                    1 => FuzzKind::Ioc(self.price()),
                    _ => FuzzKind::Market,
                };
                FuzzCommand::Submit(self.next() % 2 == 0, kind, self.qty())
            }
            6 | 7 => FuzzCommand::Cancel(self.target()),
            _ => {
                let p = if self.next() % 2 == 0 { Some(self.price()) } else { None };
                FuzzCommand::Amend(self.target(), p, self.qty())
            }
        }
    }
}

fn journal(cmds: &[Command]) -> String {
    cmds.iter().map(|c| format!("{}\n", c.text())).collect()
}

#[test]
fn resolve_maps_fuzzed_fields_to_commands() {
    let f = FuzzCommand::Submit(true, FuzzKind::Limit(FuzzPrice::Near(-3)), FuzzQty::Small(7));
    assert_eq!(
        f.resolve(0),
        Command::Submit {
            side: Side::Buy,
            kind: OrderType::Limit { price: Price(997) },
            qty: Qty(7),
        }
    );
    assert_eq!(
        FuzzCommand::Cancel(Target::Recent(2)).resolve(10),
        Command::Cancel { id: OrderId(8) }
    );
    assert_eq!(
        FuzzCommand::Cancel(Target::Recent(200)).resolve(10),
        Command::Cancel { id: OrderId(0) }
    );
    assert_eq!(
        FuzzCommand::Amend(Target::Raw(u64::MAX), None, FuzzQty::Raw(5)).resolve(3),
        Command::Amend {
            id: OrderId(u64::MAX),
            price: None,
            qty: Qty(5),
        }
    );
    assert_eq!(
        FuzzCommand::Submit(false, FuzzKind::Ioc(FuzzPrice::Raw(-9)), FuzzQty::Small(0)).resolve(0),
        Command::Submit {
            side: Side::Sell,
            kind: OrderType::Ioc { price: Price(-9) },
            qty: Qty(0),
        }
    );
}

#[test]
fn command_harness_passes_random_streams() {
    let mut rng = XorShift(0x2545_f491_4f6c_dd1d);
    for len in [0, 1, 7, 64, 300] {
        for _ in 0..20 {
            let fuzzed: Vec<FuzzCommand> = (0..len).map(|_| rng.command()).collect();
            assert!(commands(&fuzzed).is_ok());
        }
    }
}

#[test]
fn journal_harness_accepts_a_generated_journal() {
    let text = journal(&mixed_stream(3, 500));
    assert!(journal_text(text.as_bytes()).is_ok());
}

#[test]
fn journal_harness_survives_mangled_text() {
    let mut rng = XorShift(0x9e37_79b9_7f4a_7c15);
    let text = journal(&mixed_stream(4, 60));
    let bytes = text.as_bytes();
    for _ in 0..200 {
        let mut m = bytes.to_vec();
        let flips = 1 + (rng.next() % 4) as usize;
        for _ in 0..flips {
            let i = (rng.next() % m.len() as u64) as usize;
            m[i] = rng.next().to_le_bytes()[0];
        }
        assert!(journal_text(&m).is_ok());
    }
}

#[test]
fn snapshot_harness_on_real_and_corrupted_snapshots() {
    let mut rng = XorShift(0xdead_beef_cafe_f00d);
    let mut engine = MatchingEngine::new();
    engine.replay(&mixed_stream(5, 400));
    let bytes = engine.snapshot().encode();
    assert!(snapshot_bytes(&bytes).is_ok());
    for _ in 0..300 {
        let mut m = bytes.clone();
        let i = (rng.next() % m.len() as u64) as usize;
        m[i] ^= 1 << (rng.next() % 8);
        assert!(snapshot_bytes(&m).is_ok());
        m.truncate(i);
        assert!(snapshot_bytes(&m).is_ok());
    }
    for len in [0, 8, 24, 40, 72, 200] {
        assert!(snapshot_bytes(&rng.bytes(len)).is_ok());
    }
}

#[test]
fn audited_run_returns_the_replay() {
    let cmds = mixed_stream(6, 300);
    let mut engine = MatchingEngine::new();
    let events = engine.replay(&cmds);
    let (ev, bytes) = run_audited(&MatchingEngine::new().snapshot(), &cmds).unwrap();
    assert_eq!(ev, events);
    assert_eq!(bytes, engine.snapshot().encode());
}
