use logsift::log_line::LogLevel;
use logsift::log_line::LogLine;
use logsift::ordered::ordered_index;
use logsift::grouping::group_lines;
use logsift::grouping::ignore;
use logsift::grouping::is_new_group;
use logsift::grouping::n_prefix;

fn plain<'a>(level: LogLevel, module: &'a str, msg: &'a str) -> LogLine<'a> {
    LogLine { level, module, msg, json_data: "", timestamp: "2021-Feb-05 13:52:54.660065778 UTC", line: msg }
}

#[test]
fn n_prefix_counts_numeric_words_as_equal() {
    assert_eq!(n_prefix("Load time 12 ms", "Load time 45 ms"), 4);
    assert_eq!(n_prefix("Load time 45 ms", "Load time done"), 2);
}

#[test]
fn n_prefix_of_an_empty_message_is_zero() {
    assert_eq!(n_prefix("", ""), 0);
    assert_eq!(n_prefix("", "a b"), 0);
    assert_eq!(n_prefix("a b", ""), 0);
}

#[test]
fn numeric_difference_merges_and_literal_difference_splits() {
    let lines = vec![
        plain(LogLevel::Info, "Loader", "Load time 12 ms"),
        plain(LogLevel::Info, "Loader", "Load time 45 ms"),
        plain(LogLevel::Info, "Loader", "Load time done"),
    ];
    let out = group_lines(&lines);
    assert_eq!(out.groups.len(), 2);
    assert_eq!(out.groups[0].len(), 2);
    assert_eq!(out.groups[1].len(), 1);
    assert_eq!(out.groups[1][0].msg, "Load time done");
    assert!(out.ignored.is_empty());
}

#[test]
fn ignore_tells_noise_from_signal() {
    assert!(!ignore("Load time"));
    assert!(!ignore("12 items"));
    assert!(ignore("abc123 items"));
    assert!(ignore(""));
    assert!(ignore(" leading space"));
    assert!(!ignore("[Loader]: done"));
}

fn structured<'a>(level: LogLevel, module: &'a str, msg: &'a str, json: &'a str) -> LogLine<'a> {
    LogLine { level, module, msg, json_data: json, timestamp: "2021-Feb-05 13:52:54.660065778 UTC", line: msg }
}

#[test]
fn n_prefix_is_symmetric_and_bounded_by_the_word_counts() {
    let messages = [
        "Load time 12 ms",
        "Load time 45 ms",
        "Load time done",
        "Load",
        "a  b",
        "a b ",
        " a b",
        "x1 y2 z3",
        "x9 y8 z7 w6",
        "",
    ];
    for a in messages.iter() {
        for b in messages.iter() {
            let n = n_prefix(a, b);
            assert_eq!(n, n_prefix(b, a));
            let words = |m: &str| if m.is_empty() { 0 } else { m.split(' ').count() };
            assert!(n as usize <= words(a).min(words(b)));
        }
    }
    assert_eq!(n_prefix("x1 y2 z3", "x9 y8 z7 w6"), 3);
    assert_eq!(n_prefix("a  b", "a  b"), 3);
    assert_eq!(n_prefix("a b ", "a b"), 2);
    assert_eq!(n_prefix("Load", "Load time"), 1);
    assert_eq!(n_prefix("alpha", "beta"), 0);
}

#[test]
fn n_prefix_takes_any_numeric_character_for_a_digit() {
    assert_eq!(n_prefix("took \u{663}", "took 7"), 2);
    assert_eq!(n_prefix("took \u{663}", "took x"), 1);
    assert_eq!(n_prefix("v1", "w2"), 1);
}

#[test]
fn ignore_follows_the_character_classes() {
    assert!(ignore("::: x"));
    assert!(ignore("<12ab> x"));
    assert!(!ignore("<12> x"));
    assert!(!ignore("word\tmore"));
    assert!(ignore("a1\tmore"));
    assert!(!ignore("\u{2167} rest"));
    assert!(!ignore("\u{663}\u{664} rest"));
    assert!(ignore("\u{663}x rest"));
    assert!(ignore("--- rest"));
}

#[test]
fn every_record_lands_in_one_group_or_among_the_ignored() {
    let lines = vec![
        plain(LogLevel::Info, "A", "alpha one"),
        plain(LogLevel::Info, "A", "x1y noise"),
        plain(LogLevel::Info, "A", "alpha two"),
        plain(LogLevel::Info, "B", "alpha two"),
        structured(LogLevel::Info, "B", "x1y kept", "{}"),
        structured(LogLevel::Info, "B", "x1y kept", "{\"a\":1}"),
        plain(LogLevel::Warning, "B", ""),
        plain(LogLevel::Warning, "B", "beta"),
        plain(LogLevel::Warning, "B", "gamma"),
    ];
    let out = group_lines(&lines);
    let mut seen: Vec<LogLine> = Vec::new();
    for g in out.groups.iter() {
        assert!(!g.is_empty());
        seen.extend(g.iter().cloned());
    }
    let kept: Vec<LogLine> =
        lines.iter().filter(|l| !(l.json_data.is_empty() && ignore(l.msg))).cloned().collect();
    assert_eq!(seen, kept);
    let ignored: Vec<LogLine> =
        lines.iter().filter(|l| l.json_data.is_empty() && ignore(l.msg)).cloned().collect();
    assert_eq!(out.ignored, ignored);
    assert_eq!(ignored.len(), 2);
    assert_eq!(seen.len() + out.ignored.len(), lines.len());
    let sizes: Vec<usize> = out.groups.iter().map(|g| g.len()).collect();
    assert_eq!(sizes, vec![2, 1, 2, 1, 1]);
}

#[test]
fn groups_of_an_index_follow_one_another_in_order() {
    let lines = vec![
        plain(LogLevel::Warning, "B", "gamma"),
        plain(LogLevel::Info, "A", "alpha two"),
        plain(LogLevel::Info, "A", "x1y noise"),
        plain(LogLevel::Info, "B", "alpha two"),
        plain(LogLevel::Info, "A", "alpha one"),
        plain(LogLevel::Info, "A", "alpha two"),
        structured(LogLevel::Info, "B", "x1y kept", "{}"),
    ];
    let index = ordered_index(&lines);
    let out = group_lines(&index);
    let laid_out: Vec<LogLine> = out.groups.iter().flatten().cloned().collect();
    for w in laid_out.windows(2) {
        assert!(w[0] < w[1]);
    }
    assert_eq!(laid_out.len() + out.ignored.len(), index.len());
    assert_eq!(index.len(), 6);
}

#[test]
fn the_first_record_is_filtered_like_the_others() {
    let lines = vec![
        plain(LogLevel::Info, "A", "x1y noise"),
        plain(LogLevel::Info, "A", "alpha one"),
    ];
    let out = group_lines(&lines);
    assert_eq!(out.ignored.len(), 1);
    assert_eq!(out.groups.len(), 1);
    assert_eq!(out.groups[0][0].msg, "alpha one");
}

#[test]
fn no_records_give_no_groups() {
    let out = group_lines(&Vec::new());
    assert!(out.groups.is_empty());
    assert!(out.ignored.is_empty());
}

#[test]
fn is_new_group_follows_its_rules() {
    let a = plain(LogLevel::Info, "A", "m");
    let b = plain(LogLevel::Info, "A", "n");
    let other_level = plain(LogLevel::Error, "A", "m");
    let other_module = plain(LogLevel::Info, "B", "m");
    let s1 = structured(LogLevel::Info, "A", "m", "{}");
    let s2 = structured(LogLevel::Error, "Z", "m", "{\"k\":2}");
    let s3 = structured(LogLevel::Info, "A", "n", "{}");
    assert!(is_new_group(3, 3, &a, &s1));
    assert!(is_new_group(3, 3, &s1, &a));
    assert!(!is_new_group(0, 0, &s1, &s2));
    assert!(is_new_group(5, 1, &s1, &s3));
    assert!(!is_new_group(3, 3, &a, &b));
    assert!(!is_new_group(4, 3, &a, &b));
    assert!(is_new_group(2, 3, &a, &b));
    assert!(!is_new_group(2, 0, &a, &b));
    assert!(is_new_group(0, 0, &a, &b));
    assert!(is_new_group(0, 1, &a, &b));
    assert!(is_new_group(3, 3, &a, &other_level));
    assert!(is_new_group(3, 3, &a, &other_module));
}
