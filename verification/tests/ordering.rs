use std::collections::BTreeSet;

use logsift::log_line::LogLevel;
use logsift::log_line::LogLine;
use logsift::ordered::ordered_index;
use logsift::ordered::Keyed;
use logsift::text::rank_str;
use logsift::text::str_eq;
use logsift::text::Rank;

fn line<'a>(
    level: LogLevel,
    module: &'a str,
    msg: &'a str,
    json_data: &'a str,
    timestamp: &'a str,
    raw: &'a str,
) -> LogLine<'a> {
    LogLine { level, module, msg, json_data, timestamp, line: raw }
}

fn sample<'a>() -> Vec<LogLine<'a>> {
    vec![
        line(LogLevel::Warning, "Peer", "timeout 5", "", "t3", "r3"),
        line(LogLevel::Info, "Peer", "connected", "", "t1", "r1"),
        line(LogLevel::Info, "Ledger", "closed", "", "t2", "r2"),
        line(LogLevel::Info, "Peer", "connected", "", "t1", "r1"),
        line(LogLevel::Info, "Peer", "connected", "{\"a\":1}", "t0", "r0"),
        line(LogLevel::Fatal, "App", "stop", "", "t9", "r9"),
        line(LogLevel::Info, "Peer", "connected", "", "t0", "r8"),
        line(LogLevel::Trace, "Zed", "\u{e9}t\u{e9}", "", "t4", "r4"),
        line(LogLevel::Trace, "Zed", "zebra", "", "t4", "r4"),
        line(LogLevel::Warning, "Peer", "timeout 5", "", "t3", "r3"),
    ]
}

#[test]
fn index_is_ascending_and_without_duplicates() {
    let out = ordered_index(&sample());
    assert_eq!(out.len(), 8);
    for w in out.windows(2) {
        assert_eq!(w[0].rank(&w[1]), Rank::Less);
        assert!(w[0] < w[1]);
    }
    for l in sample() {
        assert!(out.contains(&l));
    }
}

#[test]
fn index_agrees_with_a_sorted_set() {
    let expected: Vec<LogLine> = sample().into_iter().collect::<BTreeSet<_>>().into_iter().collect();
    assert_eq!(ordered_index(&sample()), expected);
}

#[test]
fn indexing_twice_changes_nothing() {
    let once = ordered_index(&sample());
    let twice = ordered_index(&once);
    assert_eq!(once, twice);
}

#[test]
fn index_of_nothing_is_empty() {
    let none: Vec<LogLine> = Vec::new();
    assert!(ordered_index(&none).is_empty());
}

#[test]
fn canonical_key_takes_the_fields_in_order() {
    let base = line(LogLevel::Info, "m", "msg", "", "t", "r");
    assert_eq!(base.rank(&base), Rank::Equal);
    assert_eq!(base.rank(&line(LogLevel::Warning, "a", "a", "", "a", "a")), Rank::Less);
    assert_eq!(base.rank(&line(LogLevel::Info, "n", "a", "", "a", "a")), Rank::Less);
    assert_eq!(base.rank(&line(LogLevel::Info, "m", "msh", "", "a", "a")), Rank::Less);
    assert_eq!(base.rank(&line(LogLevel::Info, "m", "msg", "{}", "a", "a")), Rank::Less);
    assert_eq!(base.rank(&line(LogLevel::Info, "m", "msg", "", "u", "a")), Rank::Less);
    assert_eq!(base.rank(&line(LogLevel::Info, "m", "msg", "", "t", "s")), Rank::Less);
    assert_eq!(line(LogLevel::Info, "m", "msg", "", "t", "s").rank(&base), Rank::Greater);
}

#[test]
fn texts_compare_by_their_bytes() {
    assert_eq!(rank_str("", ""), Rank::Equal);
    assert_eq!(rank_str("", "a"), Rank::Less);
    assert_eq!(rank_str("a", ""), Rank::Greater);
    assert_eq!(rank_str("abc", "abd"), Rank::Less);
    assert_eq!(rank_str("abc", "ab"), Rank::Greater);
    assert_eq!(rank_str("z", "\u{e9}"), Rank::Less);
    assert_eq!(rank_str("\u{ffff}", "\u{10000}"), Rank::Less);
    assert!(str_eq("same", "same"));
    assert!(!str_eq("same", "sane"));
    assert!(!str_eq("same", "same "));
}
