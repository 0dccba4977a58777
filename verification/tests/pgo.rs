//! The training workload.

use prometheus_scrape_rs::parser;
use prometheus_scrape_rs::pgo::{
    judge_body, run_training_workload, train_body, training_batch, training_rounds,
    training_rules, training_scrape_body, CorpusBody, TrainingError,
};
use prometheus_scrape_rs::scrape::{fnv1a, get_label};

fn read_float(text: &str) -> Option<u64> {
    text.parse::<f64>().ok().map(f64::to_bits)
}

#[test]
fn rounds_are_clamped() {
    assert_eq!(training_rounds(0), 100_000);
    assert_eq!(training_rounds(1), 100_000);
    assert_eq!(training_rounds(75_000), 10_000);
    assert_eq!(training_rounds(750_000_000), 3);
    assert_eq!(training_rounds(usize::MAX), 3);
}

#[test]
fn the_synthetic_body_parses() {
    let body = training_scrape_body(100);
    let series = parser::parse(&body, 0, true, read_float).expect("must parse");
    // 50 counters, and the buckets of seven handlers.
    assert_eq!(series.len(), 50 + 49);
    assert!(body.starts_with(
        "# HELP http_requests_total Total HTTP requests.\n\
         # TYPE http_requests_total counter\n\
         http_requests_total{method=\"GET\",code=\"200\",path=\"/api/v1/resource/0\",\
         handler=\"h0\"} 1\n"
    ));
    assert!(body.contains(
        "# TYPE request_duration_seconds histogram\n\
         request_duration_seconds_bucket{handler=\"h0\",le=\"0.005\"} 53.5\n"
    ));
    assert!(body.ends_with(
        "request_duration_seconds_bucket{handler=\"h6\",le=\"+Inf\"} 101.5\n"
    ));
    assert_eq!(
        training_scrape_body(0),
        "# HELP http_requests_total Total HTTP requests.\n\
         # TYPE http_requests_total counter\n\
         # TYPE request_duration_seconds histogram\n"
    );
}

#[test]
fn the_rules_keep_the_bulk_of_the_series() {
    let rules = training_rules().expect("rules compile");
    let series = parser::parse("a{le=\"1\"} 1\ngo_gc_duration_seconds 2\n", 5, true, read_float)
        .expect("must parse");
    let batch = training_batch(series, &rules);
    assert_eq!(batch.len(), 1);
    assert_eq!(get_label(&batch[0].labels, "host"), "node-1.example.com");
    assert_eq!(get_label(&batch[0].labels, "job"), "training");
    assert_eq!(get_label(&batch[0].labels, "__tmp_bucket"), "");
    let names: Vec<&str> = batch[0].labels.iter().map(|l| l.name.as_str()).collect();
    assert_eq!(names, ["__name__", "cluster", "host", "instance", "job", "le"]);
}

#[test]
fn the_checksum_covers_every_round() {
    let rules = training_rules().expect("rules compile");
    let body = training_scrape_body(100);
    // Three rounds of a body that is large enough on its own would take long;
    // one round is compared with the block it compresses to.
    let block = train_body(&body, 1_700_000_000_000, &rules, read_float).expect("must train");
    assert_ne!(fnv1a(&block), fnv1a(b""));
    let plain = snap::raw::Decoder::new()
        .decompress_vec(&block)
        .expect("must decompress");
    assert!(plain.len() > block.len());
    // No bodies: nothing is mixed in.
    let nothing = run_training_workload(&Vec::new(), &rules, read_float).expect("must train");
    assert_eq!(nothing, fnv1a(b""));
}

#[test]
fn a_malformed_body_stops_the_workload() {
    let rules = training_rules().expect("rules compile");
    let bodies = vec!["m 1\n@bad\n".to_owned()];
    match run_training_workload(&bodies, &rules, read_float) {
        Err(TrainingError::Parse(e)) => assert_eq!(e.line(), 2),
        other => panic!("unexpected {other:?}"),
    }
}

#[test]
fn corpus_bodies_are_judged() {
    assert_eq!(judge_body("m 1\n", read_float), CorpusBody::Usable);
    assert_eq!(judge_body("@\n", read_float), CorpusBody::Malformed);
    assert_eq!(judge_body(" \n\t", read_float), CorpusBody::Blank);
}
