use lob::cli::{parse_args, replay_report};
use lob::journal;
use lob::snapshot::fnv1a;
use lob::MatchingEngine;

fn args(words: &[&str]) -> Vec<String> {
    words.iter().map(|w| w.to_string()).collect()
}

#[test]
fn parses_replay_with_every_option() {
    let a = parse_args(&args(&[
        "replay", "day.journal", "--quiet", "--from", "in.snap", "--save", "out.snap",
    ]))
    .unwrap();
    assert_eq!(a.journal, "day.journal");
    assert!(a.quiet);
    assert_eq!(a.from.as_deref(), Some("in.snap"));
    assert_eq!(a.save.as_deref(), Some("out.snap"));

    let b = parse_args(&args(&["replay", "j"])).unwrap();
    assert_eq!(b.journal, "j");
    assert!(!b.quiet);
    assert!(b.from.is_none() && b.save.is_none());
}

#[test]
fn rejects_bad_arguments() {
    let usage = parse_args(&args(&[])).err().unwrap();
    assert!(usage.starts_with("usage: lob replay <journal>"));
    assert_eq!(parse_args(&args(&["play", "j"])).err().unwrap(), usage);
    assert_eq!(parse_args(&args(&["replay"])).err().unwrap(), usage);
    assert_eq!(parse_args(&args(&["replay", "a", "b"])).err().unwrap(), usage);
    assert_eq!(
        parse_args(&args(&["replay", "j", "--from"])).err().unwrap(),
        "--from needs a file"
    );
    assert_eq!(
        parse_args(&args(&["replay", "j", "--save"])).err().unwrap(),
        "--save needs a file"
    );
    assert_eq!(
        parse_args(&args(&["replay", "j", "--loud"])).err().unwrap(),
        "unknown option --loud"
    );
}

#[test]
fn report_prints_transcript_counts_and_digests() {
    let cmds = journal::parse("submit sell limit 101 5\nsubmit buy limit 101 2\ncancel 9\n").unwrap();
    let mut engine = MatchingEngine::new();
    let (out, snap) = replay_report(&mut engine, &cmds, false);
    let log = "accepted id=1 sell limit 101 qty=5 seq=1\n\
               rested id=1 sell px=101 qty=5 seq=1\n\
               accepted id=2 buy limit 101 qty=2 seq=2\n\
               trade maker=1 taker=2 buy px=101 qty=2\n\
               filled id=2\n\
               rejected id=9 unknown-order\n";
    let expected = format!(
        "> submit sell limit 101 5\n\
         \x20 accepted id=1 sell limit 101 qty=5 seq=1\n\
         \x20 rested id=1 sell px=101 qty=5 seq=1\n\
         > submit buy limit 101 2\n\
         \x20 accepted id=2 buy limit 101 qty=2 seq=2\n\
         \x20 trade maker=1 taker=2 buy px=101 qty=2\n\
         \x20 filled id=2\n\
         > cancel 9\n\
         \x20 rejected id=9 unknown-order\n\
         commands 3  events 6  trades 1  resting 1\n\
         event digest {:#018x}\n\
         state digest {:#018x}\n",
        fnv1a(log.as_bytes()),
        snap.digest()
    );
    assert_eq!(out, expected);
    assert_eq!(snap, engine.snapshot());
}

#[test]
fn quiet_report_prints_only_the_summary() {
    let cmds = journal::parse("submit buy limit 99 1\n").unwrap();
    let mut engine = MatchingEngine::new();
    let (out, snap) = replay_report(&mut engine, &cmds, true);
    assert!(out.starts_with("commands 1  events 2  trades 0  resting 1\nevent digest 0x"));
    assert!(out.ends_with(&format!("state digest {:#018x}\n", snap.digest())));
    assert_eq!(out.lines().count(), 3);
}
