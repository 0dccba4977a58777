//! Targets, scrapes and staleness.

use prometheus_scrape_rs::config::{GlobalConfig, PromSize, ScrapeConfig};
use prometheus_scrape_rs::label_map::LabelMap;
use prometheus_scrape_rs::model::{is_stale_nan, Label, Sample, TimeSeries, METRIC_NAME_LABEL};
use prometheus_scrape_rs::relabel::{Action, AnchoredRegex, RelabelConfig};
use prometheus_scrape_rs::scrape::{
    build_targets, check_body_size, external_label_list, fnv1a, get_label, hash_labels,
    merge_target_labels, pack_labels, plan_targets, process_scrape, scrape_offset_nanos, to_f64,
    try_build_targets, try_process_scrape, unpack_labels, FailureEvent, FailureLog, ScrapeState, SeriesTracker, Target,
};
use prometheus_scrape_rs::sd::TargetGroup;
use prometheus_scrape_rs::telemetry::{Metrics, Value};
use prometheus_scrape_rs::time::Duration;
use std::sync::Arc;

fn label_vec(pairs: &[(&str, &str)]) -> Vec<Label> {
    pairs
        .iter()
        .map(|(name, value)| Label::new(name, value))
        .collect()
}

fn read_float(text: &str) -> Option<u64> {
    text.parse::<f64>().ok().map(f64::to_bits)
}

#[test]
fn merge_honor_labels_keeps_scraped_value() {
    let scraped = label_vec(&[(METRIC_NAME_LABEL, "m"), ("job", "custom")]);
    let target = label_vec(&[("job", "node"), ("instance", "a:9100")]);
    let merged = merge_target_labels(scraped, &target, true);
    assert_eq!(get_label(&merged, "job"), "custom");
    assert_eq!(get_label(&merged, "instance"), "a:9100");
}

#[test]
fn merge_without_honor_labels_exports_conflicts() {
    let scraped = label_vec(&[(METRIC_NAME_LABEL, "m"), ("job", "custom")]);
    let target = label_vec(&[("job", "node"), ("instance", "a:9100")]);
    let merged = merge_target_labels(scraped, &target, false);
    assert_eq!(get_label(&merged, "job"), "node");
    assert_eq!(get_label(&merged, "exported_job"), "custom");
    assert_eq!(get_label(&merged, "instance"), "a:9100");
}

#[test]
fn fnv1a_matches_reference_vector() {
    // FNV-1a 64-bit of "a" is 0xaf63dc4c8601ec8c.
    assert_eq!(fnv1a(b"a"), 0xaf63_dc4c_8601_ec8c);
}

fn one_sample_series(pairs: &[(&str, &str)], timestamp: i64) -> TimeSeries {
    TimeSeries {
        labels: label_vec(pairs),
        samples: vec![Sample {
            value_bits: 1.0f64.to_bits(),
            timestamp,
        }],
    }
}

#[test]
fn staleness_markers_for_vanished_series() {
    let mut gauge = Value::new();
    let mut metrics = Metrics::new();
    let mut tracker = SeriesTracker::default();
    let ts1 = 1_000;
    let scrape1 = vec![
        one_sample_series(&[(METRIC_NAME_LABEL, "a"), ("case", "x")], ts1),
        one_sample_series(&[(METRIC_NAME_LABEL, "b")], ts1),
        // explicit exposition timestamp: exempt from staleness tracking
        one_sample_series(&[(METRIC_NAME_LABEL, "explicit")], 500),
    ];
    assert!(tracker.advance(&scrape1, ts1, &mut gauge).is_empty());
    assert_eq!(tracker.len(), 2);
    assert_eq!(gauge.get(), 2);

    // "b" vanishes in the next scrape.
    let ts2 = 2_000;
    let scrape2 = vec![one_sample_series(
        &[(METRIC_NAME_LABEL, "a"), ("case", "x")],
        ts2,
    )];
    let markers = tracker.advance(&scrape2, ts2, &mut gauge);
    assert_eq!(markers.len(), 1);
    assert_eq!(markers[0].labels, label_vec(&[(METRIC_NAME_LABEL, "b")]));
    assert!(is_stale_nan(markers[0].samples[0].value_bits));
    assert_eq!(markers[0].samples[0].timestamp, ts2);

    // Failed scrape (empty batch): everything left goes stale, label
    // order intact after the pack/unpack roundtrip.
    let ts3 = 3_000;
    let markers = tracker.advance(&Vec::new(), ts3, &mut gauge);
    assert_eq!(markers.len(), 1);
    assert_eq!(
        markers[0].labels,
        label_vec(&[(METRIC_NAME_LABEL, "a"), ("case", "x")])
    );
    assert!(tracker.is_empty());
    assert_eq!(gauge.get(), 0);

    // Recovery: series returns, no markers.
    let ts4 = 4_000;
    let scrape4 = vec![one_sample_series(&[(METRIC_NAME_LABEL, "a")], ts4)];
    assert!(tracker.advance(&scrape4, ts4, &mut gauge).is_empty());

    // Target removal drains everything.
    metrics.tracked_series = gauge;
    let markers = tracker.drain_all(5_000, &mut metrics);
    assert_eq!(markers.len(), 1);
    assert!(tracker.is_empty());
    assert_eq!(metrics.tracked_series.get(), 0);
    assert_eq!(metrics.staleness_markers_total.get(), 1);
}

#[test]
fn labels_roundtrip_through_packing() {
    let labels = label_vec(&[
        (METRIC_NAME_LABEL, "metric"),
        ("empty", ""),
        ("unicode", "wert-äöü"),
    ]);
    assert_eq!(unpack_labels(&pack_labels(&labels)), labels);
    assert!(unpack_labels("").is_empty());
}

#[test]
fn hash_labels_separates_field_boundaries() {
    assert_ne!(
        hash_labels(&label_vec(&[("ab", "c")])),
        hash_labels(&label_vec(&[("a", "bc")]))
    );
    assert_eq!(
        hash_labels(&label_vec(&[("a", "b")])),
        hash_labels(&label_vec(&[("a", "b")]))
    );
}

fn group(targets: &[&str], labels: &[(&str, &str)]) -> TargetGroup {
    let mut map = LabelMap::new();
    for (name, value) in labels {
        map.insert((*name).to_owned(), (*value).to_owned());
    }
    TargetGroup {
        targets: targets.iter().map(|t| (*t).to_owned()).collect(),
        labels: map,
    }
}

fn sample_job() -> ScrapeConfig {
    ScrapeConfig {
        job_name: "test".to_owned(),
        metrics_path: "/custom".to_owned(),
        params: vec![("module".to_owned(), vec!["http_2xx".to_owned()])],
        relabel_configs: vec![
            RelabelConfig {
                source_labels: vec!["__address__".to_owned()],
                regex: AnchoredRegex::new("drop-me.*").unwrap(),
                action: Action::Drop,
                ..RelabelConfig::default()
            },
            RelabelConfig {
                source_labels: vec!["env".to_owned()],
                target_label: "environment".to_owned(),
                ..RelabelConfig::default()
            },
        ],
        ..ScrapeConfig::default()
    }
}

#[test]
fn build_targets_applies_relabeling() {
    let job = sample_job();
    let global = GlobalConfig::default();
    let external = Arc::new(Vec::new());
    let groups = vec![group(&["a:8080", "drop-me:8080"], &[("env", "prod")])];
    let targets = build_targets(&job, &global, &groups, &external);
    assert_eq!(targets.len(), 1);
    let target = &targets[0];
    assert_eq!(target.url, "http://a:8080/custom");
    assert_eq!(
        target.params,
        vec![("module".to_owned(), "http_2xx".to_owned())]
    );
    assert_eq!(get_label(&target.labels, "job"), "test");
    assert_eq!(get_label(&target.labels, "instance"), "a:8080");
    assert_eq!(get_label(&target.labels, "environment"), "prod");
    assert!(!target.labels.iter().any(|l| l.name.starts_with("__")));
}

#[test]
fn discovery_labels_come_before_defaults() {
    let job = ScrapeConfig {
        job_name: "test".to_owned(),
        ..ScrapeConfig::default()
    };
    let groups = vec![group(
        &["a:1"],
        &[
            ("__scheme__", "https"),
            ("__metrics_path__", "probe"),
            ("job", "other"),
            ("__address__", "ignored"),
            ("instance", "named"),
        ],
    )];
    let external = Arc::new(label_vec(&[("region", "eu")]));
    let targets = build_targets(&job, &GlobalConfig::default(), &groups, &external);
    assert_eq!(targets[0].url, "https://a:1/probe");
    assert_eq!(
        targets[0].labels,
        label_vec(&[("instance", "named"), ("job", "other")])
    );
    assert_eq!(*targets[0].external_labels, label_vec(&[("region", "eu")]));
    assert_eq!(targets[0].interval, Duration::from_secs(60));
}

#[test]
fn a_target_without_an_address_is_skipped() {
    let job = ScrapeConfig {
        job_name: "test".to_owned(),
        relabel_configs: vec![RelabelConfig {
            regex: AnchoredRegex::new("__address__").unwrap(),
            action: Action::LabelDrop,
            ..RelabelConfig::default()
        }],
        ..ScrapeConfig::default()
    };
    let groups = vec![group(&["a:1"], &[])];
    let targets = build_targets(&job, &GlobalConfig::default(), &groups, &Arc::new(Vec::new()));
    assert!(targets.is_empty());
}

fn target() -> Target {
    let job = ScrapeConfig {
        job_name: "test".to_owned(),
        ..ScrapeConfig::default()
    };
    let external = Arc::new(label_vec(&[("region", "eu")]));
    let groups = vec![group(&["a:1"], &[])];
    build_targets(&job, &GlobalConfig::default(), &groups, &external).remove(0)
}

fn report_value(report: &[TimeSeries], name: &str) -> f64 {
    let series = report
        .iter()
        .find(|s| s.labels.iter().any(|l| l.name == METRIC_NAME_LABEL && l.value == name))
        .expect("report series");
    f64::from_bits(series.samples[0].value_bits)
}

#[test]
fn a_scrape_attaches_labels_and_reports() {
    let body = "m{job=\"own\"} 1\nn 2\n".to_owned();
    let outcome = process_scrape(&target(), Ok(body), 77, 0.25f64.to_bits(), read_float);
    assert!(outcome.error.is_none());
    assert_eq!(outcome.scraped, 2);
    assert_eq!(
        outcome.series[0].labels,
        label_vec(&[
            (METRIC_NAME_LABEL, "m"),
            ("exported_job", "own"),
            ("instance", "a:1"),
            ("job", "test"),
            ("region", "eu"),
        ])
    );
    assert_eq!(outcome.series[0].samples[0].timestamp, 77);
    assert_eq!(outcome.report.len(), 5);
    assert_eq!(report_value(&outcome.report, "up"), 1.0);
    assert_eq!(report_value(&outcome.report, "scrape_duration_seconds"), 0.25);
    assert_eq!(report_value(&outcome.report, "scrape_samples_scraped"), 2.0);
    assert_eq!(
        report_value(&outcome.report, "scrape_samples_post_metric_relabeling"),
        2.0
    );
    assert_eq!(report_value(&outcome.report, "scrape_series_added"), 2.0);
    assert_eq!(
        outcome.report[0].labels,
        label_vec(&[
            (METRIC_NAME_LABEL, "up"),
            ("instance", "a:1"),
            ("job", "test"),
            ("region", "eu"),
        ])
    );
}

#[test]
fn failed_scrapes_report_down_with_their_error() {
    let outcome = process_scrape(
        &target(),
        Err("server returned HTTP 500".to_owned()),
        1,
        0,
        read_float,
    );
    assert_eq!(outcome.error.as_deref(), Some("server returned HTTP 500"));
    assert!(outcome.series.is_empty());
    assert_eq!(report_value(&outcome.report, "up"), 0.0);

    let outcome = process_scrape(&target(), Ok("@bad".to_owned()), 1, 0, read_float);
    assert_eq!(
        outcome.error.as_deref(),
        Some("scrape body failed to parse: line 1: invalid start of metric name: '@'")
    );

    let mut limited = target();
    limited.sample_limit = 1;
    let outcome = process_scrape(&limited, Ok("a 1\nb 2\n".to_owned()), 1, 0, read_float);
    assert_eq!(
        outcome.error.as_deref(),
        Some("sample_limit exceeded (2 > 1); scrape discarded")
    );
    assert!(outcome.series.is_empty());
    assert_eq!(report_value(&outcome.report, "up"), 0.0);
    assert_eq!(report_value(&outcome.report, "scrape_samples_scraped"), 2.0);
}

#[test]
fn bodies_are_limited() {
    assert!(check_body_size(10, &PromSize::from_bytes(10)).is_ok());
    assert!(check_body_size(u64::MAX, &PromSize::from_bytes(0)).is_ok());
    assert_eq!(
        check_body_size(11, &PromSize::from_bytes(10)).unwrap_err(),
        "body_size_limit exceeded (11 > 10); scrape discarded"
    );
}

#[test]
fn counts_become_doubles() {
    for count in [0usize, 1, 5, 144_320, (1 << 53) - 1, 1 << 53, (1 << 53) + 1, usize::MAX] {
        assert_eq!(f64::from_bits(to_f64(count)), count as f64, "count {count}");
    }
}

#[test]
fn offsets_lie_within_the_interval() {
    let interval = Duration::from_secs(15);
    let offset = scrape_offset_nanos("http://a:1/metrics", &interval);
    assert_eq!(offset, fnv1a(b"http://a:1/metrics") % 15_000_000_000);
}

#[test]
fn external_labels_keep_their_order() {
    let mut external_labels = LabelMap::new();
    external_labels.insert("b".to_owned(), "2".to_owned());
    external_labels.insert("a".to_owned(), "1".to_owned());
    let global = GlobalConfig {
        external_labels,
        ..GlobalConfig::default()
    };
    assert_eq!(
        external_label_list(&global),
        label_vec(&[("a", "1"), ("b", "2")])
    );
}

#[test]
fn failures_are_logged_on_transitions() {
    let mut log = FailureLog::new();
    let error = |text: &str| Some(text.to_owned());
    assert_eq!(log.observe(None), FailureEvent::Healthy);
    assert_eq!(log.observe(error("a")), FailureEvent::Failing);
    assert_eq!(
        log.observe(error("a")),
        FailureEvent::StillFailing { failures: 2 }
    );
    assert_eq!(
        log.observe(error("b")),
        FailureEvent::ErrorChanged { failures: 3 }
    );
    assert_eq!(log.observe(None), FailureEvent::Recovered { failures: 3 });
    assert_eq!(log.observe(None), FailureEvent::Healthy);
}

fn scrape(body: &str, start_ms: i64) -> prometheus_scrape_rs::scrape::ScrapeOutcome {
    process_scrape(&target(), Ok(body.to_owned()), start_ms, 0, read_float)
}

#[test]
fn tracking_sends_markers_and_ends_with_the_target() {
    let mut metrics = Metrics::new();
    let mut state = ScrapeState::new(true);
    let (sent, event) = state.record(scrape("a 1\nb 2\n", 1), &mut metrics);
    assert_eq!(event, FailureEvent::Healthy);
    assert_eq!(sent.len(), 2 + 5);
    assert_eq!(metrics.tracked_series.get(), 2);
    let (sent, _) = state.record(scrape("a 1\n", 2), &mut metrics);
    assert_eq!(sent.len(), 1 + 1 + 5);
    assert!(is_stale_nan(sent[1].samples[0].value_bits));
    assert_eq!(metrics.staleness_markers_total.get(), 1);
    let markers = state.removed(3, &mut metrics);
    // One for the series that is left, one for each report series.
    assert_eq!(markers.len(), 1 + 5);
    assert!(markers
        .iter()
        .all(|m| is_stale_nan(m.samples[0].value_bits) && m.samples[0].timestamp == 3));
    assert_eq!(metrics.tracked_series.get(), 0);
    assert_eq!(metrics.scrapes_total.get(), 2);
}

#[test]
fn without_tracking_nothing_is_kept() {
    let mut metrics = Metrics::new();
    let mut state = ScrapeState::new(false);
    state.record(scrape("a 1\nb 2\n", 1), &mut metrics);
    let (sent, _) = state.record(scrape("a 1\n", 2), &mut metrics);
    assert_eq!(sent.len(), 1 + 5);
    assert!(state.tracker.is_empty());
    assert!(state.removed(3, &mut metrics).is_empty());
    assert_eq!(metrics.tracked_series.get(), 0);
    assert_eq!(metrics.staleness_markers_total.get(), 0);
}

#[test]
fn failed_scrapes_count_as_failures() {
    let mut metrics = Metrics::new();
    let mut state = ScrapeState::new(true);
    let (_, event) = state.record(scrape("@", 1), &mut metrics);
    assert_eq!(event, FailureEvent::Failing);
    assert_eq!(metrics.scrape_failures_total.get(), 1);
    assert_eq!(metrics.samples_scraped_total.get(), 0);
}

#[test]
fn plans_start_new_targets_and_stop_gone_ones() {
    let job = sample_job();
    let build = |addresses: &[&str]| {
        build_targets(
            &job,
            &GlobalConfig::default(),
            &vec![group(addresses, &[])],
            &Arc::new(Vec::new()),
        )
    };
    let first = build(&["a:1", "b:1"]);
    let plan = plan_targets(&Vec::new(), &first);
    assert_eq!(plan.started, [0, 1]);
    assert!(plan.removed.is_empty());
    let running: Vec<u64> = first.iter().map(|t| t.identity()).collect();
    let second = build(&["b:1", "c:1", "c:1"]);
    let plan = plan_targets(&running, &second);
    assert_eq!(plan.removed, [first[0].identity()]);
    // Of two targets with one identity the last is started.
    assert_eq!(plan.started, [2]);
}

#[test]
fn a_target_named_like_an_exported_label_loses_to_the_scraped_value() {
    let merged = merge_target_labels(
        label_vec(&[("x", "scraped")]),
        &label_vec(&[("exported_x", "target"), ("x", "wins")]),
        false,
    );
    assert_eq!(get_label(&merged, "x"), "wins");
    assert_eq!(get_label(&merged, "exported_x"), "scraped");
}

#[test]
fn every_sent_series_is_ordered_and_carries_the_external_labels() {
    let mut external = LabelMap::new();
    external.insert("origin".to_owned(), "e2e-test".to_owned());
    external.insert("case".to_owned(), "fallback".to_owned());
    let global = GlobalConfig {
        external_labels: external,
        ..GlobalConfig::default()
    };
    let job = ScrapeConfig {
        job_name: "e2e".to_owned(),
        ..ScrapeConfig::default()
    };
    let groups = vec![TargetGroup {
        targets: vec!["127.0.0.1:9100".to_owned()],
        labels: LabelMap::new(),
    }];
    let labels = Arc::new(external_label_list(&global));
    let targets = build_targets(&job, &global, &groups, &labels);
    assert_eq!(targets.len(), 1);

    let body = "test_metric{zone=\"z\",case=\"e2e\",a=\"1\"} 42\nother 1\n";
    for fetched in [
        Ok(body.to_owned()),
        Ok("broken{".to_owned()),
        Err("connection refused".to_owned()),
    ] {
        let worked = fetched.as_ref().is_ok_and(|text: &String| text == body);
        let outcome = process_scrape(&targets[0], fetched, 1_000, 0, read_float);
        let mut metrics = Metrics::new();
        let (sent, _) = ScrapeState::new(false).record(outcome, &mut metrics);
        assert_eq!(sent.len(), if worked { 7 } else { 5 });
        for series in &sent {
            assert!(series.labels.windows(2).all(|w| w[0].name < w[1].name));
            assert_eq!(get_label(&series.labels, "origin"), "e2e-test");
            assert_eq!(get_label(&series.labels, "job"), "e2e");
            assert_eq!(get_label(&series.labels, "instance"), "127.0.0.1:9100");
        }
        let named = |name: &str| {
            sent.iter()
                .find(|s| get_label(&s.labels, METRIC_NAME_LABEL) == name)
                .map(|s| f64::from_bits(s.samples[0].value_bits))
        };
        assert_eq!(named("up"), Some(if worked { 1.0 } else { 0.0 }));
        assert_eq!(named("test_metric"), if worked { Some(42.0) } else { None });
        if worked {
            assert_eq!(get_label(&sent[0].labels, "case"), "e2e");
            assert_eq!(get_label(&sent[1].labels, "case"), "fallback");
        }
    }
}

#[test]
fn separators_in_values_survive_packing() {
    let labels = label_vec(&[
        (METRIC_NAME_LABEL, "m"),
        ("a", "x\u{1e}y"),
        ("b", "\u{1f}\u{1e}\u{1f}"),
        ("c", "\u{1b}r\u{1b}\u{1b}\u{1e}"),
        ("d", ""),
        ("e", "\u{1b}"),
    ]);
    let packed = pack_labels(&labels);
    assert_eq!(unpack_labels(&packed), labels);
    let plain = label_vec(&[("a", "x"), ("b", "y")]);
    assert_eq!(pack_labels(&plain), "a\u{1f}x\u{1e}b\u{1f}y\u{1e}");
    // An escape that stands for nothing stays.
    assert_eq!(
        unpack_labels("a\u{1f}\u{1b}z\u{1b}\u{1e}"),
        label_vec(&[("a", "\u{1b}z\u{1b}")])
    );
}

#[test]
fn a_marker_ends_the_series_whose_values_hold_separators() {
    let mut gauge = Value::new();
    let mut tracker = SeriesTracker::default();
    let pairs = [(METRIC_NAME_LABEL, "m"), ("a", "x\u{1e}y"), ("b", "p\u{1f}q")];
    let batch = vec![one_sample_series(&pairs, 1_000)];
    assert!(tracker.advance(&batch, 1_000, &mut gauge).is_empty());
    let markers = tracker.advance(&Vec::new(), 2_000, &mut gauge);
    assert_eq!(markers.len(), 1);
    assert_eq!(markers[0].labels, label_vec(&pairs));
    assert!(is_stale_nan(markers[0].samples[0].value_bits));
}

/// A rule that drops everything, then one that divides by zero.
fn dividing_rules(dropped: &str) -> Vec<RelabelConfig> {
    vec![
        RelabelConfig {
            source_labels: vec![METRIC_NAME_LABEL.to_owned()],
            regex: AnchoredRegex::new(dropped).expect("valid"),
            action: Action::Drop,
            ..RelabelConfig::default()
        },
        RelabelConfig {
            source_labels: vec!["job".to_owned()],
            target_label: "shard".to_owned(),
            action: Action::HashMod,
            ..RelabelConfig::default()
        },
    ]
}

#[test]
fn a_missing_modulus_counts_only_where_its_rule_is_reached() {
    let global = GlobalConfig::default();
    let groups = vec![TargetGroup {
        targets: vec!["a:1".to_owned()],
        labels: LabelMap::new(),
    }];
    let none = Arc::new(Vec::new());
    let job = ScrapeConfig {
        job_name: "j".to_owned(),
        metric_relabel_configs: dividing_rules("gone"),
        ..ScrapeConfig::default()
    };
    let targets = try_build_targets(&job, &global, &groups, &none).expect("no target rules");
    let scrape = |fetched: Result<String, String>| {
        try_process_scrape(&targets[0], fetched, 1_000, 0, read_float)
    };
    assert!(scrape(Err("refused".to_owned())).is_some());
    assert!(scrape(Ok("broken{".to_owned())).is_some());
    assert!(scrape(Ok("gone 1\n".to_owned())).is_some());
    assert!(scrape(Ok("gone 1\nkept 2\n".to_owned())).is_none());

    let mut dividing = ScrapeConfig {
        job_name: "j".to_owned(),
        relabel_configs: dividing_rules("unused"),
        ..ScrapeConfig::default()
    };
    assert!(try_build_targets(&dividing, &global, &groups, &none).is_none());
    assert_eq!(
        try_build_targets(&dividing, &global, &Vec::new(), &none).map(|t| t.len()),
        Some(0)
    );
    dividing.relabel_configs[0].source_labels = vec!["job".to_owned()];
    dividing.relabel_configs[0].regex = AnchoredRegex::new("j").expect("valid");
    assert_eq!(
        try_build_targets(&dividing, &global, &groups, &none).map(|t| t.len()),
        Some(0)
    );
}

#[test]
fn without_tracking_the_staleness_metrics_stay_at_zero() {
    let job = ScrapeConfig {
        job_name: "j".to_owned(),
        ..ScrapeConfig::default()
    };
    let groups = vec![TargetGroup {
        targets: vec!["a:1".to_owned()],
        labels: LabelMap::new(),
    }];
    let targets = build_targets(&job, &GlobalConfig::default(), &groups, &Arc::new(Vec::new()));
    let mut metrics = Metrics::new();
    let mut state = ScrapeState::new(false);
    for fetched in [Ok("m 1\n".to_owned()), Ok(String::new()), Err("x".to_owned())] {
        let outcome = process_scrape(&targets[0], fetched, 1_000, 0, read_float);
        let (sent, _) = state.record(outcome, &mut metrics);
        assert!(sent.iter().all(|s| !is_stale_nan(s.samples[0].value_bits)));
    }
    assert!(state.removed(2_000, &mut metrics).is_empty());
    assert_eq!(metrics.tracked_series.get(), 0);
    assert_eq!(metrics.staleness_markers_total.get(), 0);
    assert_eq!(metrics.scrapes_total.get(), 3);
}
