use logsift::log_line::LogLevel;
use logsift::text::Rank;

#[test]
fn every_severity_code_is_read() {
    assert_eq!(LogLevel::new("TRC"), Some(LogLevel::Trace));
    assert_eq!(LogLevel::new("DBG"), Some(LogLevel::Debug));
    assert_eq!(LogLevel::new("NFO"), Some(LogLevel::Info));
    assert_eq!(LogLevel::new("WRN"), Some(LogLevel::Warning));
    assert_eq!(LogLevel::new("ERR"), Some(LogLevel::Error));
    assert_eq!(LogLevel::new("FTL"), Some(LogLevel::Fatal));
}

#[test]
fn an_unknown_severity_code_gives_none() {
    assert_eq!(LogLevel::new("XYZ"), None);
    assert_eq!(LogLevel::new(""), None);
    assert_eq!(LogLevel::new("trc"), None);
    assert_eq!(LogLevel::new("TRCX"), None);
}

#[test]
fn level_names_are_those_of_the_reports() {
    assert_eq!(LogLevel::Trace.name(), "Trace");
    assert_eq!(LogLevel::Debug.name(), "Debug");
    assert_eq!(LogLevel::Info.name(), "Info");
    assert_eq!(LogLevel::Warning.name(), "Warning");
    assert_eq!(LogLevel::Error.name(), "Error");
    assert_eq!(LogLevel::Fatal.name(), "Fatal");
    assert_eq!(LogLevel::Warning.name(), format!("{:?}", LogLevel::Warning));
}

#[test]
fn levels_rank_by_increasing_severity() {
    let all = [
        LogLevel::Trace,
        LogLevel::Debug,
        LogLevel::Info,
        LogLevel::Warning,
        LogLevel::Error,
        LogLevel::Fatal,
    ];
    for (i, a) in all.iter().enumerate() {
        assert_eq!(a.ordinal() as usize, i);
        for (j, b) in all.iter().enumerate() {
            let expected = if i < j {
                Rank::Less
            } else if i == j {
                Rank::Equal
            } else {
                Rank::Greater
            };
            assert_eq!(a.rank(b), expected);
            assert_eq!(a < b, i < j);
        }
    }
}
