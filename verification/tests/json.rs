use logsift::log_line::LogLevel;
use logsift::log_line::LogLine;
use logsift::to_json::to_json;

fn line<'a>(msg: &'a str, json: &'a str) -> LogLine<'a> {
    LogLine { level: LogLevel::Warning, module: "LoadMonitor", msg, json_data: json, timestamp: "T UTC", line: "raw" }
}

#[test]
fn payload_is_parsed_where_there_is_one() {
    let v = line("m", "{\"job\": \"X\", \"n\": [1, 2]}").data_to_json_value().unwrap();
    assert_eq!(v.get("job").and_then(|j| j.as_str()), Some("X"));
    assert_eq!(v.get("n").and_then(|n| n.get(1)).and_then(|n| n.as_u64()), Some(2));
    assert!(line("m", "").data_to_json_value().is_none());
    assert!(line("m", "{oops}").data_to_json_value().is_none());
    assert!(line("m", "{\"a\": 1} trailing").data_to_json_value().is_none());
}

#[test]
fn record_becomes_a_json_object() {
    let v = line("Job latency", "{\"job\": \"X\"}").to_json_value().unwrap();
    let expected: serde_json::Value = serde_json::from_str(
        "{\"timestamp\":\"T UTC\",\"module\":\"LoadMonitor\",\"level\":\"Warning\",\
         \"message\":\"Job latency\",\"data\":{\"job\":\"X\"}}",
    )
    .unwrap();
    assert_eq!(v, expected);

    let v = line("plain \"quoted\"", "").to_json_value().unwrap();
    let expected: serde_json::Value = serde_json::from_str(
        "{\"timestamp\":\"T UTC\",\"module\":\"LoadMonitor\",\"level\":\"Warning\",\
         \"message\":\"plain \\\"quoted\\\"\"}",
    )
    .unwrap();
    assert_eq!(v, expected);
    assert!(v.get("data").is_none());

    assert!(line("m", "{oops}").to_json_value().is_none());
}

#[test]
fn record_prints_with_its_payload_on_lines_of_its_own() {
    let mut out = String::from(">");
    assert!(line("Job latency", "{\"job\":\"X\",\"run(ms)\":10,\"wait(ms)\":20}").write_mixed_json(&mut out));
    assert_eq!(
        out,
        ">T UTC LoadMonitor:Warning Job latency\n{\n  \"job\": \"X\",\n  \"run(ms)\": 10,\n  \"wait(ms)\": 20\n}"
    );

    let mut out = String::new();
    assert!(line("no payload", "").write_mixed_json(&mut out));
    assert_eq!(out, "T UTC LoadMonitor:Warning no payload");

    let mut out = String::new();
    assert!(!line("bad payload", "{oops}").write_mixed_json(&mut out));
    assert_eq!(out, "T UTC LoadMonitor:Warning bad payload");
}

#[test]
fn json_report_holds_one_object_for_each_record() {
    let lines = vec![line("a", ""), line("b", "{oops}"), line("c", "{\"k\": true}")];
    let report = to_json(&lines, false);
    let expected = "{\n  \"level\": \"Warning\",\n  \"message\": \"a\",\n  \"module\": \"LoadMonitor\",\n  \"timestamp\": \"T UTC\"\n}\n\
                    {\n  \"data\": {\n    \"k\": true\n  },\n  \"level\": \"Warning\",\n  \"message\": \"c\",\n  \"module\": \"LoadMonitor\",\n  \"timestamp\": \"T UTC\"\n}\n";
    assert_eq!(report.text, expected);
    assert_eq!(report.errors, vec![lines[1]]);
}

#[test]
fn mixed_report_prints_records_as_the_other_reports_do() {
    let lines = vec![line("a", ""), line("b", "{oops}"), line("c", "{\"k\": true}")];
    let report = to_json(&lines, true);
    let expected = "T UTC LoadMonitor:Warning a\n\
                    T UTC LoadMonitor:Warning b\
                    T UTC LoadMonitor:Warning c\n{\n  \"k\": true\n}\n";
    assert_eq!(report.text, expected);
    assert_eq!(report.errors, vec![lines[1]]);
}

#[test]
fn record_prints_with_the_payload_text_that_it_is_given() {
    let mut out = String::from("> ");
    assert!(line("m", "{}").write_with_payload(Some("PAYLOAD"), &mut out));
    assert_eq!(out, "> T UTC LoadMonitor:Warning m\nPAYLOAD");

    let mut out = String::new();
    assert!(!line("m", "{}").write_with_payload(None, &mut out));
    assert_eq!(out, "T UTC LoadMonitor:Warning m");

    let mut out = String::new();
    assert!(line("m", "").write_with_payload(None, &mut out));
    assert_eq!(out, "T UTC LoadMonitor:Warning m");
}

#[test]
fn json_report_of_nothing_is_empty() {
    for mixed in [false, true] {
        let report = to_json(&Vec::new(), mixed);
        assert_eq!(report.text, "");
        assert!(report.errors.is_empty());
    }
}
