use lob::json::{apply_line, book_only, json_str, Session};
use lob::snapshot::fnv1a;
use lob::MatchingEngine;

fn fresh() -> Session {
    Session::new()
}

#[test]
fn applies_a_line_and_reports_events_and_book() {
    let mut s = fresh();
    let (json, ok) = apply_line(&mut s, "submit sell limit 101 5");
    assert!(ok);
    assert_eq!(
        json,
        "{\"ok\":true,\"command\":\"submit sell limit 101 5\",\"events\":[\
         {\"type\":\"accepted\",\"id\":1,\"side\":\"sell\",\"orderType\":\"limit\",\"price\":101,\
         \"qty\":5,\"seq\":1,\"text\":\"accepted id=1 sell limit 101 qty=5 seq=1\"},\
         {\"type\":\"rested\",\"id\":1,\"side\":\"sell\",\"price\":101,\"qty\":5,\"seq\":1,\
         \"text\":\"rested id=1 sell px=101 qty=5 seq=1\"}],\
         \"book\":{\"bids\":[],\"asks\":[{\"price\":101,\"qty\":5,\"orders\":[{\"id\":1,\"qty\":5,\"seq\":1}]}]}}"
    );
}

#[test]
fn trades_and_market_orders_serialise() {
    let mut s = fresh();
    apply_line(&mut s, "submit sell limit 101 5");
    let (json, _) = apply_line(&mut s, "submit buy market 7");
    assert!(json.contains(
        "{\"type\":\"trade\",\"maker\":1,\"taker\":2,\"takerSide\":\"buy\",\"price\":101,\"qty\":5,"
    ));
    assert!(json.contains("\"orderType\":\"market\",\"price\":null"));
    assert!(json.contains("\"reason\":\"no-liquidity\""));
    assert!(json.ends_with("\"book\":{\"bids\":[],\"asks\":[]}}"));
}

#[test]
fn parse_errors_are_reported_not_applied() {
    let mut s = fresh();
    let (json, ok) = apply_line(&mut s, "submit sideways limit 1 1");
    assert!(!ok);
    assert_eq!(
        json,
        "{\"ok\":false,\"error\":\"expected `buy` or `sell`, found `sideways`\"}"
    );
    let (json, ok) = apply_line(&mut s, "cancel \"x\"");
    assert!(!ok);
    assert!(json.contains("invalid order id `\\\"x\\\"`"));
    assert_eq!(s.engine.snapshot(), MatchingEngine::new().snapshot());
}

#[test]
fn blank_lines_are_an_empty_command_error() {
    let mut s = fresh();
    let (json, ok) = apply_line(&mut s, "   # only a comment");
    assert!(!ok);
    assert_eq!(json, "{\"ok\":false,\"error\":\"empty command\"}");
    assert!(s.event_log.is_empty());
}

#[test]
fn event_log_holds_one_line_per_event() {
    let mut s = fresh();
    apply_line(&mut s, "submit sell limit 101 5");
    apply_line(&mut s, "cancel 1");
    assert_eq!(
        s.event_log,
        "accepted id=1 sell limit 101 qty=5 seq=1\n\
         rested id=1 sell px=101 qty=5 seq=1\n\
         cancelled id=1 qty=5 user\n"
    );
    assert_eq!(fnv1a(s.event_log.as_bytes()), fnv1a(s.event_log.clone().as_bytes()));
}

#[test]
fn book_only_lists_levels_best_first() {
    let mut s = fresh();
    apply_line(&mut s, "submit sell limit 102 1");
    apply_line(&mut s, "submit sell limit 101 2");
    apply_line(&mut s, "submit buy limit 99 3");
    apply_line(&mut s, "submit buy limit 100 4");
    assert_eq!(
        book_only(s.engine.book()),
        "{\"ok\":true,\"events\":[],\"book\":{\"bids\":[{\"price\":100,\"qty\":4,\"orders\":[{\"id\":4,\"qty\":4,\"seq\":4}]},\
         {\"price\":99,\"qty\":3,\"orders\":[{\"id\":3,\"qty\":3,\"seq\":3}]}],\
         \"asks\":[{\"price\":101,\"qty\":2,\"orders\":[{\"id\":2,\"qty\":2,\"seq\":2}]},\
         {\"price\":102,\"qty\":1,\"orders\":[{\"id\":1,\"qty\":1,\"seq\":1}]}]}}"
    );
}

#[test]
fn report_strings_escape_quotes_backslashes_and_controls() {
    assert_eq!(json_str("sweep"), "\"sweep\"");
    assert_eq!(json_str("a\"b\\c"), "\"a\\\"b\\\\c\"");
    assert_eq!(json_str("x\ny\u{7f}\u{9f}\u{a0}"), "\"x\\u000ay\\u007f\\u009f\u{a0}\"");
}
