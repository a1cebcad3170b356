use lob::journal::{parse, parse_line, ParseErrorKind};
use lob::{CancelReason, Command, Event, OrderId, OrderType, Price, Priority, Qty, RejectReason, SeqNo, Side};

fn cmd(line: &str) -> Command {
    parse_line(line).unwrap().unwrap()
}

#[test]
fn parses_every_command_form() {
    assert_eq!(
        cmd("submit buy limit 100 5"),
        Command::Submit {
            side: Side::Buy,
            kind: OrderType::Limit { price: Price(100) },
            qty: Qty(5),
        }
    );
    assert_eq!(
        cmd("  submit sell ioc 99 3  # trailing comment"),
        Command::Submit {
            side: Side::Sell,
            kind: OrderType::Ioc { price: Price(99) },
            qty: Qty(3),
        }
    );
    assert_eq!(
        cmd("submit buy market 7"),
        Command::Submit {
            side: Side::Buy,
            kind: OrderType::Market,
            qty: Qty(7),
        }
    );
    assert_eq!(cmd("cancel 3"), Command::Cancel { id: OrderId(3) });
    assert_eq!(
        cmd("amend 3 - 4"),
        Command::Amend {
            id: OrderId(3),
            price: None,
            qty: Qty(4),
        }
    );
    assert_eq!(
        cmd("amend 3 101 4"),
        Command::Amend {
            id: OrderId(3),
            price: Some(Price(101)),
            qty: Qty(4),
        }
    );
}

#[test]
fn out_of_range_values_parse_so_the_engine_can_reject_them() {
    assert_eq!(
        cmd("submit buy limit -5 0"),
        Command::Submit {
            side: Side::Buy,
            kind: OrderType::Limit { price: Price(-5) },
            qty: Qty(0),
        }
    );
}

#[test]
fn blank_and_comment_lines_are_skipped() {
    assert_eq!(parse_line(""), Ok(None));
    assert_eq!(parse_line("   \t"), Ok(None));
    assert_eq!(parse_line("# submit buy limit 1 1"), Ok(None));
}

#[test]
fn malformed_lines_report_what_is_wrong() {
    let err = |s| parse_line(s).unwrap_err();
    assert_eq!(err("buy 5"), ParseErrorKind::UnknownCommand("buy".into()));
    assert_eq!(err("submit"), ParseErrorKind::Missing("side"));
    assert_eq!(err("submit hold limit 1 1"), ParseErrorKind::UnknownSide("hold".into()));
    assert_eq!(
        err("submit buy stop 1 1"),
        ParseErrorKind::UnknownOrderType("stop".into())
    );
    assert_eq!(err("submit buy limit 100"), ParseErrorKind::Missing("quantity"));
    assert_eq!(
        err("submit buy market 1.5"),
        ParseErrorKind::BadNumber {
            field: "quantity",
            text: "1.5".into()
        }
    );
    assert_eq!(
        err("submit buy market -1"),
        ParseErrorKind::BadNumber {
            field: "quantity",
            text: "-1".into()
        }
    );
    assert_eq!(err("cancel"), ParseErrorKind::Missing("order id"));
    assert_eq!(err("cancel 1 2"), ParseErrorKind::Trailing("2".into()));
    assert_eq!(
        err("amend 1 x 2"),
        ParseErrorKind::BadNumber {
            field: "price",
            text: "x".into()
        }
    );
    assert_eq!(
        err("submit buy limit 99999999999999999999 1"),
        ParseErrorKind::BadNumber {
            field: "price",
            text: "99999999999999999999".into()
        }
    );
}

#[test]
fn journal_errors_carry_line_numbers() {
    let e = parse("submit buy limit 1 1\n\ncancel x\n").unwrap_err();
    assert_eq!(e.line, 3);
    assert_eq!(e.text(), "line 3: invalid order id `x`");
}

#[test]
fn command_display_round_trips() {
    let text = "submit buy limit 100 5\nsubmit sell ioc 1 2\nsubmit sell market 9\n\
                cancel 4\namend 2 - 3\namend 2 7 3\n";
    let cmds = parse(text).unwrap();
    let printed: String = cmds.iter().map(|c| format!("{}\n", c.text())).collect();
    assert_eq!(printed, text);
    assert_eq!(parse(&printed).unwrap(), cmds);
}

#[test]
fn event_text_is_stable() {
    let lines = [
        Event::Accepted {
            id: OrderId(1),
            side: Side::Buy,
            kind: OrderType::Limit { price: Price(100) },
            qty: Qty(5),
            seq: SeqNo(1),
        },
        Event::Rejected {
            id: None,
            reason: RejectReason::ZeroQuantity,
        },
        Event::Amended {
            id: OrderId(3),
            price: Price(101),
            old_qty: Qty(5),
            qty: Qty(7),
            seq: SeqNo(4),
            priority: Priority::Lost,
        },
        Event::Trade {
            maker: OrderId(1),
            taker: OrderId(4),
            taker_side: Side::Sell,
            price: Price(100),
            qty: Qty(2),
        },
        Event::Cancelled {
            id: OrderId(4),
            qty: Qty(3),
            reason: CancelReason::IocRemainder,
        },
    ]
    .map(|e| e.text());
    assert_eq!(
        lines,
        [
            "accepted id=1 buy limit 100 qty=5 seq=1",
            "rejected zero-quantity",
            "amended id=3 px=101 qty=5->7 seq=4 lost",
            "trade maker=1 taker=4 sell px=100 qty=2",
            "cancelled id=4 qty=3 ioc-remainder",
        ]
    );
}

#[test]
fn numbers_take_signs_and_reject_overflow() {
    assert_eq!(
        cmd("submit buy limit +7 +3"),
        Command::Submit {
            side: Side::Buy,
            kind: OrderType::Limit { price: Price(7) },
            qty: Qty(3),
        }
    );
    assert_eq!(
        cmd("amend 1 -9223372036854775808 18446744073709551615"),
        Command::Amend {
            id: OrderId(1),
            price: Some(Price(i64::MIN)),
            qty: Qty(u64::MAX),
        }
    );
    assert!(parse_line("cancel 18446744073709551616").is_err());
    assert!(parse_line("amend 1 9223372036854775808 1").is_err());
    assert_eq!(
        parse_line("submit buy market"),
        Err(ParseErrorKind::Missing("quantity"))
    );
    assert_eq!(parse("\n\n").unwrap(), Vec::<Command>::new());
}

#[test]
fn every_text_form_parses_back() {
    let cmds = [
        Command::Submit {
            side: Side::Sell,
            kind: OrderType::Ioc { price: Price(-3) },
            qty: Qty(0),
        },
        Command::Amend {
            id: OrderId(u64::MAX),
            price: Some(Price(i64::MIN)),
            qty: Qty(1),
        },
        Command::Cancel { id: OrderId(0) },
    ];
    for c in cmds {
        assert_eq!(parse_line(&c.text()), Ok(Some(c)));
    }
    let filled = Event::Filled { id: OrderId(12) };
    assert_eq!(filled.text(), "filled id=12");
    let rested = Event::Rested {
        id: OrderId(2),
        side: Side::Sell,
        price: Price(5),
        qty: Qty(1),
        seq: SeqNo(3),
    };
    assert_eq!(rested.text(), "rested id=2 sell px=5 qty=1 seq=3");
    let rejected = Event::Rejected {
        id: Some(OrderId(7)),
        reason: RejectReason::UnknownOrder,
    };
    assert_eq!(rejected.text(), "rejected id=7 unknown-order");
    let kept = Event::Amended {
        id: OrderId(3),
        price: Price(10),
        old_qty: Qty(5),
        qty: Qty(2),
        seq: SeqNo(3),
        priority: Priority::Kept,
    };
    assert_eq!(kept.text(), "amended id=3 px=10 qty=5->2 seq=3 kept");
    let cancelled = Event::Cancelled {
        id: OrderId(1),
        qty: Qty(4),
        reason: CancelReason::User,
    };
    assert_eq!(cancelled.text(), "cancelled id=1 qty=4 user");
}

#[test]
fn field_texts_match_event_text() {
    assert_eq!(Side::Buy.text(), "buy");
    assert_eq!(Side::Sell.text(), "sell");
    assert_eq!(OrderType::Limit { price: Price(101) }.text(), "limit 101");
    assert_eq!(OrderType::Ioc { price: Price(-3) }.text(), "ioc -3");
    assert_eq!(OrderType::Market.text(), "market");
    assert_eq!(RejectReason::AmendNoChange.text(), "amend-no-change");
    assert_eq!(CancelReason::IocRemainder.text(), "ioc-remainder");
    assert_eq!(Priority::Kept.text(), "kept");
}
