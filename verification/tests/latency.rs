use logsift::chart::bucket_of;
use logsift::chart::count_buckets;
use logsift::job_latency::collect_samples;
use logsift::job_latency::job_latency_stats;
use logsift::chart::label_of;
use logsift::chart::render_chart;
use logsift::job_latency::JobLatency;
use logsift::job_latency::JobLatencyCollection;
use logsift::chart::BUCKETS;
use logsift::log_line::LogLevel;
use logsift::log_line::LogLine;

fn event<'a>(msg: &'a str, json: &'a str) -> LogLine<'a> {
    LogLine { level: LogLevel::Warning, module: "LoadMonitor", msg, json_data: json, timestamp: "T UTC", line: json }
}

fn bar(label: u128, count: usize, stars: usize) -> String {
    format!("{:>6} : {:<6} {}\n", label, count, "*".repeat(stars))
}

#[test]
fn durations_fall_into_power_of_two_buckets() {
    let durations = [0u64, 1, 2, 3, 4, 5, 1000];
    let buckets: Vec<usize> = durations.iter().map(|d| bucket_of(*d)).collect();
    assert_eq!(buckets, vec![0, 1, 2, 3, 3, 4, 11]);
    assert_eq!(bucket_of(8), 4);
    assert_eq!(bucket_of(9), 5);
    assert_eq!(bucket_of(1024), 11);
    assert_eq!(bucket_of(1025), 12);
    assert_eq!(bucket_of(1 << 62), 63);
    assert_eq!(bucket_of((1 << 62) + 1), 64);
    assert_eq!(bucket_of(1 << 63), 64);
    assert_eq!(bucket_of(u64::MAX), 65);
}

#[test]
fn bucket_index_never_falls_as_the_duration_grows() {
    let mut last = bucket_of(0);
    assert_eq!(last, 0);
    for d in 1u64..5000 {
        let b = bucket_of(d);
        assert!(b >= 1);
        assert!(b >= last);
        assert!(d as u128 <= label_of(b));
        if b >= 2 {
            assert!(d as u128 > label_of(b - 1));
        }
        last = b;
    }
}

#[test]
fn bucket_labels_are_powers_of_two() {
    assert_eq!(label_of(0), 0);
    assert_eq!(label_of(1), 1);
    assert_eq!(label_of(2), 2);
    assert_eq!(label_of(3), 4);
    assert_eq!(label_of(11), 1024);
    assert_eq!(label_of(BUCKETS - 1), 1u128 << 64);
}

#[test]
fn counts_add_up_to_the_number_of_durations() {
    let values = vec![0, 0, 1, 3, 4, 1000, u64::MAX];
    let counts = count_buckets(&values);
    assert_eq!(counts.len(), BUCKETS);
    assert_eq!(counts.iter().sum::<usize>(), values.len());
    assert_eq!(counts[0], 2);
    assert_eq!(counts[1], 1);
    assert_eq!(counts[2], 0);
    assert_eq!(counts[3], 2);
    assert_eq!(counts[11], 1);
    assert_eq!(counts[65], 1);
}

#[test]
fn chart_runs_from_the_first_to_the_last_filled_bucket() {
    let chart = render_chart(&vec![0, 1, 2, 3, 4, 5, 1000]);
    let mut expected = String::new();
    expected += &bar(0, 1, 16);
    expected += &bar(1, 1, 16);
    expected += &bar(2, 1, 16);
    expected += &bar(4, 2, 32);
    expected += &bar(8, 1, 16);
    for k in 5..11 {
        expected += &bar(1u128 << (k - 1), 0, 0);
    }
    expected += &bar(1024, 1, 16);
    assert_eq!(chart, expected);
    assert!(chart.starts_with("     0 : 1      ****************\n"));
}

#[test]
fn chart_leaves_out_leading_empty_buckets() {
    let chart = render_chart(&vec![5, 6, 7, 100]);
    let mut expected = String::new();
    expected += &bar(8, 3, 32);
    expected += &bar(16, 0, 0);
    expected += &bar(32, 0, 0);
    expected += &bar(64, 0, 0);
    expected += &bar(128, 1, 10);
    assert_eq!(chart, expected);
    assert_eq!(render_chart(&Vec::new()), "");
    assert_eq!(render_chart(&vec![1 << 40]), bar(1 << 40, 1, 32));
}

#[test]
fn write_stats_sorts_and_prints_the_summary() {
    let mut c = JobLatencyCollection { run: vec![5, 0, 3], wait: vec![1000, 2, 2] };
    assert_eq!(c.totals(), (8, 1004));
    let mut out = String::from("before\n");
    c.write_stats("Sweep", "2.67", "334.67", &mut out);
    assert_eq!(c.run, vec![0, 3, 5]);
    assert_eq!(c.wait, vec![2, 2, 1000]);
    let expected = format!(
        "before\nJob: Sweep: Max Run: 5 Max Wait: 1000 Ave Run: 2.67 Ave Wait: 334.67\n\
         Run histogram:\n{}\nWait histogram:\n{}\n\n",
        render_chart(&vec![5, 0, 3]),
        render_chart(&vec![1000, 2, 2])
    );
    assert_eq!(out, expected);
}

#[test]
fn a_job_without_samples_prints_nothing() {
    let mut c = JobLatencyCollection::new();
    let mut out = String::new();
    c.write_stats("Idle", "0.00", "0.00", &mut out);
    assert_eq!(out, "");
}

#[test]
fn sample_is_read_from_a_payload() {
    let v = serde_json::from_str("{\"job\":\"X\",\"run(ms)\":10,\"wait(ms)\":20,\"jlogId\":115}").unwrap();
    let s = JobLatency::from_json_value(v).unwrap();
    assert_eq!(s.job, "X");
    assert_eq!(s.run, 10);
    assert_eq!(s.wait, 20);
    for bad in [
        "{\"job\":\"X\",\"run(ms)\":10}",
        "{\"job\":\"X\",\"wait(ms)\":20}",
        "{\"run(ms)\":10,\"wait(ms)\":20}",
        "{\"job\":7,\"run(ms)\":10,\"wait(ms)\":20}",
        "{\"job\":\"X\",\"run(ms)\":-1,\"wait(ms)\":20}",
        "{\"job\":\"X\",\"run(ms)\":\"10\",\"wait(ms)\":20}",
        "{\"job\":\"X\",\"run(ms)\":1.5,\"wait(ms)\":20}",
        "[\"job\"]",
        "\"job\"",
        "null",
    ] {
        let v = serde_json::from_str(bad).unwrap();
        assert!(JobLatency::from_json_value(v).is_none());
    }
}

#[test]
fn sample_needs_all_three_fields() {
    let s = JobLatency::from_fields(Some(String::from("X")), Some(10), Some(20)).unwrap();
    assert_eq!((s.job.as_str(), s.run, s.wait), ("X", 10, 20));
    assert!(JobLatency::from_fields(None, Some(10), Some(20)).is_none());
    assert!(JobLatency::from_fields(Some(String::from("X")), None, Some(20)).is_none());
    assert!(JobLatency::from_fields(Some(String::from("X")), Some(10), None).is_none());
    assert!(JobLatency::from_fields(None, None, None).is_none());
}

#[test]
fn samples_are_collected_in_the_order_of_first_occurrence() {
    let sample = |job: &str, run: u64, wait: u64| JobLatency { job: String::from(job), run, wait };
    let samples = vec![
        sample("B", 1, 2),
        sample("A", 3, 4),
        sample("B", 5, 6),
        sample("C", 7, 8),
        sample("A", 9, 10),
        sample("B", 11, 12),
    ];
    let jobs = collect_samples(&samples);
    let got: Vec<(&str, &Vec<u64>, &Vec<u64>)> =
        jobs.iter().map(|j| (j.job.as_str(), &j.samples.run, &j.samples.wait)).collect();
    assert_eq!(
        got,
        vec![
            ("B", &vec![1, 5, 11], &vec![2, 6, 12]),
            ("A", &vec![3, 9], &vec![4, 10]),
            ("C", &vec![7], &vec![8]),
        ]
    );
    assert!(collect_samples(&Vec::new()).is_empty());
}

#[test]
fn latency_events_are_collected_by_job() {
    let lines = vec![
        event("Job latency", "{\"job\":\"X\",\"run(ms)\":10,\"wait(ms)\":20}"),
        event("Job latency", "{\"job\":\"X\",\"run(ms)\":10}"),
        event("Job latency", "{\"job\":\"Y\",\"run(ms)\":1,\"wait(ms)\":2}"),
        event("Job latency ", "{\"job\":\"X\",\"run(ms)\":7,\"wait(ms)\":7}"),
        event("Job latency", "{not json}"),
        event("Job latency", ""),
        event("Job latency", "{\"job\":\"X\",\"run(ms)\":30,\"wait(ms)\":0}"),
        event("Other", "{\"job\":\"X\",\"run(ms)\":9,\"wait(ms)\":9}"),
    ];
    let report = job_latency_stats(&lines);
    assert_eq!(report.jobs.len(), 2);
    assert_eq!(report.jobs[0].job, "X");
    assert_eq!(report.jobs[0].samples.run, vec![10, 30]);
    assert_eq!(report.jobs[0].samples.wait, vec![20, 0]);
    assert_eq!(report.jobs[1].job, "Y");
    assert_eq!(report.jobs[1].samples.run, vec![1]);
    assert_eq!(report.jobs[1].samples.wait, vec![2]);
    assert_eq!(report.errors, vec![lines[1], lines[4], lines[5]]);
}

#[test]
fn no_records_give_no_jobs() {
    let report = job_latency_stats(&Vec::new());
    assert!(report.jobs.is_empty());
    assert!(report.errors.is_empty());
}
