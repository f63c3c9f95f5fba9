use logsift::log_line::LogLevel;
use logsift::log_line::LogLine;
use logsift::parse::ParseError;
use regex::Regex;

const UNSTRUCTURED: &str = r"(?x)
    ^(?P<timestamp>.*UTC)
    [\ ]
    (?P<module>[^:]*):(?P<level>[^\ ]*)
    [\ ]
    (?P<msg>.*$)
";

const STRUCTURED: &str = r"(?x)
    ^(?P<timestamp>.*UTC)
    [\ ]
    (?P<module>[^:]*):(?P<level>[^\ ]*)
    [\ ]
    (?P<msg>[^{]*)
    [\ ]
    (?P<json_data>.*$)
";

/// The five text fields that the two patterns take from a line.
fn by_pattern(line: &str) -> Option<[String; 5]> {
    let structured = line.ends_with("}");
    let re = Regex::new(if structured { STRUCTURED } else { UNSTRUCTURED }).unwrap();
    let caps = re.captures(line)?;
    let field = |name: &str| caps.name(name).map(|m| m.as_str().to_string()).unwrap_or_default();
    Some([field("timestamp"), field("module"), field("level"), field("msg"), field("json_data")])
}

#[test]
fn plain_line_is_split_into_its_fields() {
    let text = "2021-Feb-05 13:52:54.660065778 UTC TaggedCache:DBG LedgerCache target age set to 180000000000";
    let l = LogLine::new(text).unwrap();
    assert_eq!(l.timestamp, "2021-Feb-05 13:52:54.660065778 UTC");
    assert_eq!(l.module, "TaggedCache");
    assert_eq!(l.level, LogLevel::Debug);
    assert_eq!(l.msg, "LedgerCache target age set to 180000000000");
    assert_eq!(l.json_data, "");
    assert_eq!(l.line, text);
}

#[test]
fn structured_line_carries_its_payload() {
    let text = "2021-Feb-12 03:00:04.020060136 UTC LoadMonitor:WRN Job latency {\"job\": \"TransactionAcquire\", \"run(ms)\": 0, \"wait(ms)\": 1366, \"jlogId\": 115}";
    let l = LogLine::new(text).unwrap();
    assert_eq!(l.timestamp, "2021-Feb-12 03:00:04.020060136 UTC");
    assert_eq!(l.module, "LoadMonitor");
    assert_eq!(l.level, LogLevel::Warning);
    assert_eq!(l.msg, "Job latency");
    assert_eq!(
        l.json_data,
        "{\"job\": \"TransactionAcquire\", \"run(ms)\": 0, \"wait(ms)\": 1366, \"jlogId\": 115}"
    );
    assert_eq!(l.line, text);
}

#[test]
fn the_longest_timestamp_wins() {
    let l = LogLine::new("T1 UTC Mod:NFO saw UTC Other:ERR fail").unwrap();
    assert_eq!(l.timestamp, "T1 UTC Mod:NFO saw UTC");
    assert_eq!(l.module, "Other");
    assert_eq!(l.level, LogLevel::Error);
    assert_eq!(l.msg, "fail");
}

#[test]
fn lines_outside_the_grammar_give_no_match() {
    for text in [
        "",
        "garbage",
        "UTC",
        "2021 UTC",
        "2021 UTC ",
        "2021 UTC Mod",
        "2021 UTC Mod:NFO",
        "2021 UTCMod:NFO message",
        "2021 utc Mod:NFO message",
        "2021 UTC Mod:NFO message\nmore",
        "20\n21 UTC Mod:NFO message",
        "2021 UTC Mod:NFO {\"a\": 1}",
    ] {
        assert_eq!(LogLine::new(text).err(), Some(ParseError::NoMatch));
        assert!(by_pattern(text).is_none());
    }
}

#[test]
fn an_unknown_severity_code_is_an_error_of_its_own() {
    assert_eq!(LogLine::new("2021 UTC Mod:XYZ message").err(), Some(ParseError::UnknownLevel));
    assert_eq!(LogLine::new("2021 UTC Mod: message").err(), Some(ParseError::UnknownLevel));
    assert_eq!(LogLine::new("2021 UTC Mod:wrn m {}").err(), Some(ParseError::UnknownLevel));
}

#[test]
fn fields_are_those_that_the_patterns_take() {
    let codes = ["TRC", "DBG", "NFO", "WRN", "ERR", "FTL"];
    let lines = [
        "2021 UTC Mod:NFO message",
        "2021 UTC Mod:NFO ",
        "2021 UTC :NFO message",
        "UTC M:NFO m",
        " UTC M:NFO m",
        "2021 UTC Mod:NFO UTC Two:ERR x",
        "2021 UTC Mod:NFO UTC Two:ERR",
        "2021 UTC Mod:NFO UTC Two ERR x",
        "2021 UTC a b\nc:NFO message",
        "2021 UTC Mod:N\nFO message",
        "2021 UTC Mod:NFO a:b c:d",
        "2021 UTC Mod:NFO Job latency {\"job\": \"X\"}",
        "2021 UTC Mod:NFO Job latency {\"job\": {\"a\": 1} }",
        "2021 UTC Mod:NFO a b c {d e {f}",
        "2021 UTC Mod:NFO a b c{d e }",
        "2021 UTC Mod:NFO  {}",
        "2021 UTC Mod:NFO {}",
        "2021 UTC Mod:NFO x }",
        "2021 UTC Mod:NFO x  }",
        "2021 UTC Mod:NFO x y\n z }",
        "2021 UTC Mod:NFO x y \nz }",
        "2021 UTC Mod:NFO x {a\n b}",
        "2021 UTC Mod:NFO UTC Two:ERR x {\"k\": 1}",
        "2021 UTC Mod:NFO {x UTC Two:ERR y }",
        "2021 UTC M\u{e9}d:NFO caf\u{e9} \u{1f600} {\"\u{e9}\": 1}",
        "}",
        " }",
        "UTC :  }",
        "UTC : }",
        "UTC :}",
    ];
    for text in lines {
        let expected = by_pattern(text);
        match LogLine::new(text) {
            Ok(l) => {
                let e = expected.unwrap();
                assert_eq!(l.timestamp, e[0]);
                assert_eq!(l.module, e[1]);
                assert_eq!(Some(l.level), LogLevel::new(&e[2]));
                assert_eq!(l.msg, e[3]);
                assert_eq!(l.json_data, e[4]);
                assert_eq!(l.line, text);
            }
            Err(ParseError::NoMatch) => assert!(expected.is_none()),
            Err(ParseError::UnknownLevel) => {
                let e = expected.unwrap();
                assert!(!codes.contains(&e[2].as_str()));
            }
        }
    }
}
