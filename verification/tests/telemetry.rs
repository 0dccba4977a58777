//! The agent's own metrics.

use prometheus_scrape_rs::model::Label;
use prometheus_scrape_rs::parser;
use prometheus_scrape_rs::telemetry::{Kind, Metrics, ProcessStats, Value};

fn read_float(text: &str) -> Option<u64> {
    text.parse::<f64>().ok().map(f64::to_bits)
}

fn print(bits: u64) -> String {
    format!("{}", f64::from_bits(bits))
}

#[test]
fn renders_exposition_format_that_parses() {
    let mut metrics = Metrics::new();
    metrics.scrapes_total.inc();
    metrics.tracked_series.set(42);
    let body = metrics.render(None, "1.2.3", print);
    let series = parser::parse(&body, 1_000, true, read_float).expect("must parse");
    assert!(series
        .iter()
        .any(|s| s.labels[0].value == "prometheus_scrape_rs_tracked_series"));
    assert!(series
        .iter()
        .any(|s| s.labels[0].value == "prometheus_scrape_rs_build_info"));
}

#[test]
fn series_snapshot_is_sorted_and_labeled() {
    let metrics = Metrics::new();
    let extra = vec![Label::new("job", "self"), Label::new("instance", "here")];
    let series = metrics.series(None, "1.2.3", &extra, 5_000);
    assert!(!series.is_empty());
    for s in &series {
        assert!(s.labels.windows(2).all(|w| w[0].name < w[1].name));
        assert!(s
            .labels
            .iter()
            .any(|l| l.name == "job" && l.value == "self"));
        assert_eq!(s.samples[0].timestamp, 5_000);
    }
}

#[test]
fn rendered_values_read_back() {
    let mut metrics = Metrics::new();
    metrics.scrapes_total.add(7);
    metrics.remote_write_sent_bytes_total.add(1 << 40);
    let process = Some(ProcessStats {
        cpu_seconds: 1.5f64.to_bits(),
        resident_bytes: 4096.0f64.to_bits(),
    });
    let body = metrics.render(process, "v", print);
    let series = parser::parse(&body, 0, true, read_float).expect("must parse");
    let value = |name: &str| {
        let found = series
            .iter()
            .find(|s| s.labels[0].value == name)
            .expect("metric");
        f64::from_bits(found.samples[0].value_bits)
    };
    assert_eq!(value("prometheus_scrape_rs_scrapes_total"), 7.0);
    assert_eq!(
        value("prometheus_scrape_rs_remote_write_sent_bytes_total"),
        1_099_511_627_776.0
    );
    assert_eq!(value("process_cpu_seconds_total"), 1.5);
    assert_eq!(value("process_resident_memory_bytes"), 4096.0);
    let info = series
        .iter()
        .find(|s| s.labels[0].value == "prometheus_scrape_rs_build_info")
        .unwrap();
    assert_eq!(info.labels[1].name, "version");
    assert_eq!(info.labels[1].value, "v");
}

#[test]
fn each_metric_has_its_comments() {
    let body = Metrics::new().render(None, "v", print);
    assert!(body.starts_with(
        "# HELP prometheus_scrape_rs_scrapes_total Scrapes attempted, including failures.\n\
         # TYPE prometheus_scrape_rs_scrapes_total counter\n\
         prometheus_scrape_rs_scrapes_total 0\n"
    ));
}

#[test]
fn snapshots_carry_kinds_and_values() {
    let mut metrics = Metrics::new();
    metrics.mark_started(1_700_000_000);
    let entries = metrics.snapshot(None);
    let start = entries
        .iter()
        .find(|e| e.name.ends_with("start_time_seconds"))
        .expect("start time");
    assert_eq!(start.kind, Kind::Gauge);
    assert_eq!(f64::from_bits(start.value), 1_700_000_000.0);
    let with_process = metrics.snapshot(Some(ProcessStats {
        cpu_seconds: 0,
        resident_bytes: 0,
    }));
    assert_eq!(with_process.len(), entries.len() + 2);
}

#[test]
fn values_wrap_around() {
    let mut value = Value::new();
    value.sub(1);
    assert_eq!(value.get(), u64::MAX);
    value.add(2);
    assert_eq!(value.get(), 1);
    value.inc();
    assert_eq!(value.get(), 2);
    value.set(9);
    assert_eq!(value.get(), 9);
}

#[test]
fn process_fields_are_picked() {
    // The command may hold spaces and brackets; the last bracket counts.
    let stat = "42 (a (b) c) S 1 2 3 4 5 6 7 8 9 10 250 50 0 0 20";
    assert_eq!(
        ProcessStats::cpu_fields(stat),
        Some(("250".to_owned(), "50".to_owned()))
    );
    assert_eq!(ProcessStats::cpu_fields("42 (a) S 1"), None);
    assert_eq!(ProcessStats::cpu_fields("no bracket"), None);
    assert_eq!(
        ProcessStats::resident_field("1000 123 5 1 0 1 0\n"),
        Some("123".to_owned())
    );
    assert_eq!(ProcessStats::resident_field("1000"), None);
}

#[test]
fn what_is_served_is_what_is_pushed() {
    let mut metrics = Metrics::new();
    metrics.scrapes_total.add(3);
    metrics.tracked_series.set(12);
    metrics.mark_started(1_700_000_000);
    let process = Some(ProcessStats {
        cpu_seconds: 0.25f64.to_bits(),
        resident_bytes: 8192.0f64.to_bits(),
    });
    let body = metrics.render(process, "1.2.3", print);
    let mut served = parser::parse(&body, 5_000, true, read_float).expect("must parse");
    let pushed = metrics.series(process, "1.2.3", &Vec::new(), 5_000);
    served.sort_by(|a, b| a.labels[0].value.cmp(&b.labels[0].value));
    assert_eq!(served.len(), 14);
    assert_eq!(served.len(), pushed.len());
    for (one, other) in served.iter().zip(&pushed) {
        let pairs = |series: &prometheus_scrape_rs::model::TimeSeries| -> Vec<(String, String)> {
            series
                .labels
                .iter()
                .map(|l| (l.name.clone(), l.value.clone()))
                .collect()
        };
        assert_eq!(pairs(one), pairs(other));
        assert_eq!(one.samples[0].value_bits, other.samples[0].value_bits);
        assert_eq!(one.samples[0].timestamp, other.samples[0].timestamp);
    }
}

#[test]
fn lowering_undoes_raising() {
    let mut value = Value::new();
    value.set(u64::MAX);
    value.add(5);
    assert_eq!(value.get(), 4);
    value.sub(5);
    assert_eq!(value.get(), u64::MAX);
}

#[test]
fn no_two_rendered_metrics_share_a_name() {
    let mut metrics = Metrics::new();
    metrics.tracked_series.set(42);
    let body = metrics.render(None, "1.2.3", print);
    let series = parser::parse(&body, 1_000, true, read_float).expect("must parse");
    let mut names: Vec<&str> = series.iter().map(|s| s.labels[0].value.as_str()).collect();
    names.sort_unstable();
    names.dedup();
    assert_eq!(names.len(), series.len());
    for one in &series {
        let value = f64::from_bits(one.samples[0].value_bits);
        match one.labels[0].value.as_str() {
            "prometheus_scrape_rs_build_info" => {
                assert_eq!(one.labels.len(), 2);
                assert_eq!(value, 1.0);
            }
            "prometheus_scrape_rs_tracked_series" => {
                assert_eq!(one.labels.len(), 1);
                assert_eq!(value, 42.0);
            }
            _ => assert_eq!(one.labels.len(), 1),
        }
    }
}
