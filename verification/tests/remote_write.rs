//! Batching, encoding and retrying.

use prometheus_scrape_rs::config::{ProtobufMessage, QueueConfig, RemoteWriteConfig};
use prometheus_scrape_rs::model::{Label, Sample, TimeSeries};
use prometheus_scrape_rs::relabel::{Action, AnchoredRegex, RelabelConfig};
use prometheus_scrape_rs::remote_write::{
    classify_response, encode_request, encode_v2, endpoint_name, extra_headers, fan_out,
    is_reserved_header, next_backoff, partial_write, prepare, protocol_headers, queue_slots,
    split_batch, try_prepare, DropCounter, Pending, Prepared, SendError, SendState, SendStep,
};
use prometheus_scrape_rs::telemetry::Metrics;
use prometheus_scrape_rs::time::Duration;

fn series(name: &str, samples: usize) -> TimeSeries {
    TimeSeries {
        labels: vec![Label::new("__name__", name)],
        samples: (0..samples)
            .map(|i| Sample {
                value_bits: 1.0f64.to_bits(),
                timestamp: i64::try_from(i).unwrap_or(i64::MAX),
            })
            .collect(),
    }
}

#[test]
fn split_batch_respects_sample_budget() {
    let mut pending = vec![series("a", 3), series("b", 3), series("c", 3)];
    let (chunk, samples) = split_batch(&mut pending, 5);
    assert_eq!(chunk.len(), 2);
    assert_eq!(samples, 6);
    assert_eq!(pending.len(), 1);
    assert_eq!(pending[0].labels[0].value, "c");
}

#[test]
fn split_batch_takes_all_when_under_budget() {
    let mut pending = vec![series("a", 1), series("b", 1)];
    let (chunk, samples) = split_batch(&mut pending, 100);
    assert_eq!(chunk.len(), 2);
    assert_eq!(samples, 2);
    assert!(pending.is_empty());
}

#[test]
fn v2_encoding_interns_symbols() {
    let batch = vec![
        TimeSeries {
            labels: vec![Label::new("__name__", "up"), Label::new("job", "node")],
            samples: vec![Sample {
                value_bits: 1.0f64.to_bits(),
                timestamp: 10,
            }],
        },
        TimeSeries {
            labels: vec![Label::new("__name__", "up"), Label::new("job", "other")],
            samples: vec![Sample {
                value_bits: 0.0f64.to_bits(),
                timestamp: 10,
            }],
        },
    ];
    let request = encode_v2(&batch);
    // symbols[0] is the empty string
    assert_eq!(request.symbols[0], "");
    // shared strings appear exactly once
    assert_eq!(
        request.symbols.iter().filter(|s| *s == "__name__").count(),
        1
    );
    assert_eq!(request.symbols.iter().filter(|s| *s == "up").count(), 1);
    assert_eq!(request.symbols.iter().filter(|s| *s == "job").count(), 1);
    // refs resolve back to the original label pairs
    let resolve = |refs: &[u32]| -> Vec<(String, String)> {
        refs.chunks(2)
            .map(|pair| {
                (
                    request.symbols[pair[0] as usize].clone(),
                    request.symbols[pair[1] as usize].clone(),
                )
            })
            .collect()
    };
    assert_eq!(
        resolve(&request.timeseries[0].labels_refs),
        vec![
            ("__name__".to_owned(), "up".to_owned()),
            ("job".to_owned(), "node".to_owned())
        ]
    );
    assert_eq!(resolve(&request.timeseries[1].labels_refs)[1].1, "other");
    // samples move through untouched
    let value = f64::from_bits(request.timeseries[1].samples[0].value_bits);
    assert!((value - 0.0).abs() < f64::EPSILON);
}

#[test]
fn v2_empty_label_value_uses_reserved_zero_ref() {
    let batch = vec![TimeSeries {
        labels: vec![Label::new("empty", "")],
        samples: vec![],
    }];
    let request = encode_v2(&batch);
    assert_eq!(request.timeseries[0].labels_refs[1], 0);
}

#[test]
fn pending_gives_up_full_chunks_and_loses_nothing() {
    let mut pending = Pending::new();
    assert!(pending.take().is_none());
    let chunks = pending.receive(vec![series("a", 2)], 5);
    assert!(chunks.is_empty());
    let chunks = pending.receive(
        vec![series("b", 2), series("c", 2), series("d", 5), series("e", 1)],
        5,
    );
    let names: Vec<Vec<&str>> = chunks
        .iter()
        .map(|chunk| chunk.iter().map(|s| s.labels[0].value.as_str()).collect())
        .collect();
    assert_eq!(names, vec![vec!["a", "b", "c"], vec!["d"]]);
    let rest = pending.take().expect("something is left");
    assert_eq!(rest.len(), 1);
    assert_eq!(rest[0].labels[0].value, "e");
    assert!(pending.take().is_none());
}

#[test]
fn queue_slots_follow_the_capacity() {
    let slots = |capacity: usize| {
        queue_slots(&RemoteWriteConfig {
            queue_config: QueueConfig {
                capacity,
                ..QueueConfig::default()
            },
            ..RemoteWriteConfig::default()
        })
    };
    assert_eq!(slots(10_000), 100);
    assert_eq!(slots(1_700), 17);
    assert_eq!(slots(100), 16);
}

#[test]
fn every_endpoint_gets_the_batch() {
    let copies = fan_out(vec![series("a", 1), series("b", 2)], 3);
    assert_eq!(copies.len(), 3);
    for copy in &copies {
        assert_eq!(*copy, vec![series("a", 1), series("b", 2)]);
    }
    assert!(fan_out(Vec::new(), 3).is_empty());
    assert!(fan_out(vec![series("a", 1)], 0).is_empty());
}

#[test]
fn dropped_series_are_counted() {
    let mut metrics = Metrics::new();
    let mut dropped = DropCounter::new();
    assert_eq!(dropped.note(3, &mut metrics), 3);
    assert_eq!(dropped.note(4, &mut metrics), 7);
    assert_eq!(dropped.total_dropped(), 7);
    assert_eq!(metrics.remote_write_dropped_series_total.get(), 7);
}

#[test]
fn a_prepared_request_decompresses_to_its_encoding() {
    for protocol in [
        ProtobufMessage::WriteRequestV1,
        ProtobufMessage::WriteRequestV2,
    ] {
        let batch = vec![series("up", 2), series("down", 1)];
        let encoded = encode_request(vec![series("up", 2), series("down", 1)], protocol);
        match prepare(batch, &Vec::new(), protocol) {
            Prepared::Ready(request) => {
                let plain = snap::raw::Decoder::new()
                    .decompress_vec(&request.body)
                    .expect("must decompress");
                assert_eq!(plain, encoded);
                assert_eq!(request.series, 2);
                assert_eq!(request.samples, 3);
            }
            other => panic!("unexpected {other:?}"),
        }
    }
}

#[test]
fn write_relabeling_drops_and_sorts() {
    let rules = vec![
        RelabelConfig {
            source_labels: vec!["__name__".to_owned()],
            regex: AnchoredRegex::new("expensive_.*").unwrap(),
            action: Action::Drop,
            ..RelabelConfig::default()
        },
        RelabelConfig {
            target_label: "Cluster".to_owned(),
            replacement: "c".to_owned(),
            ..RelabelConfig::default()
        },
    ];
    let batch = vec![series("expensive_a", 1), series("b", 1)];
    match prepare(batch, &rules, ProtobufMessage::WriteRequestV1) {
        Prepared::Ready(request) => {
            assert_eq!(request.series, 1);
            let expected = encode_request(
                vec![TimeSeries {
                    labels: vec![Label::new("Cluster", "c"), Label::new("__name__", "b")],
                    samples: series("b", 1).samples,
                }],
                ProtobufMessage::WriteRequestV1,
            );
            let plain = snap::raw::Decoder::new()
                .decompress_vec(&request.body)
                .unwrap();
            assert_eq!(plain, expected);
        }
        other => panic!("unexpected {other:?}"),
    }
    assert!(matches!(
        prepare(
            vec![series("expensive_a", 1)],
            &rules,
            ProtobufMessage::WriteRequestV1
        ),
        Prepared::Nothing
    ));
}

#[test]
fn reserved_headers_are_left_out() {
    assert!(is_reserved_header("Content-Encoding"));
    assert!(is_reserved_header("X-Prometheus-Remote-Write-Version"));
    assert!(!is_reserved_header("X-Scope-OrgID"));
    let headers = vec![
        ("X-Scope-OrgID".to_owned(), "a".to_owned()),
        ("CONTENT-TYPE".to_owned(), "b".to_owned()),
        ("X-Other".to_owned(), "c".to_owned()),
    ];
    assert_eq!(
        extra_headers(&headers),
        vec![
            ("X-Scope-OrgID".to_owned(), "a".to_owned()),
            ("X-Other".to_owned(), "c".to_owned()),
        ]
    );
}

#[test]
fn protocols_have_their_headers() {
    assert_eq!(
        protocol_headers(ProtobufMessage::WriteRequestV1),
        ("application/x-protobuf", "0.1.0")
    );
    assert_eq!(
        protocol_headers(ProtobufMessage::WriteRequestV2),
        (
            "application/x-protobuf;proto=io.prometheus.write.v2.Request",
            "2.0.0"
        )
    );
}

#[test]
fn endpoints_are_named_by_url_where_they_have_no_name() {
    let mut config = RemoteWriteConfig {
        url: "http://r/write".to_owned(),
        ..RemoteWriteConfig::default()
    };
    assert_eq!(endpoint_name(&config), "http://r/write");
    config.name = Some("primary".to_owned());
    assert_eq!(endpoint_name(&config), "primary");
}

#[test]
fn responses_are_classified() {
    assert!(classify_response(200, "200 OK", "").is_ok());
    assert!(classify_response(204, "204 No Content", "").is_ok());
    for status in [429, 500, 503, 599] {
        match classify_response(status, "S", " detail\n") {
            Err(SendError::Recoverable(message)) => assert_eq!(message, "HTTP S: detail"),
            other => panic!("unexpected {other:?}"),
        }
    }
    for status in [301, 400, 404, 428] {
        match classify_response(status, "S", "") {
            Err(SendError::Unrecoverable(message)) => assert_eq!(message, "HTTP S: "),
            other => panic!("unexpected {other:?}"),
        }
    }
}

#[test]
fn partial_writes_are_noticed_in_v2_only() {
    let v2 = ProtobufMessage::WriteRequestV2;
    assert_eq!(partial_write(v2, Some("3"), 5), Some(3));
    assert_eq!(partial_write(v2, Some("+3"), 5), Some(3));
    assert_eq!(partial_write(v2, Some("5"), 5), None);
    assert_eq!(partial_write(v2, Some("x"), 5), None);
    assert_eq!(partial_write(v2, None, 5), None);
    assert_eq!(
        partial_write(ProtobufMessage::WriteRequestV1, Some("3"), 5),
        None
    );
}

#[test]
fn backoff_doubles_up_to_its_bound() {
    let max = Duration::from_secs(5);
    let mut backoff = Duration::from_millis(30);
    let mut seen = Vec::new();
    for _ in 0..10 {
        seen.push(backoff.as_millis());
        backoff = next_backoff(&backoff, &max);
    }
    assert_eq!(
        seen,
        [30, 60, 120, 240, 480, 960, 1920, 3840, 5000, 5000]
    );
}

#[test]
fn a_send_retries_until_it_is_settled() {
    let mut metrics = Metrics::new();
    let max = Duration::from_millis(50);
    let mut state = SendState::new(Duration::from_millis(30));
    let retry = |message: &str| Err(SendError::Recoverable(message.to_owned()));
    match state.after(retry("a"), &max, 10, &mut metrics) {
        SendStep::Retry { wait, message } => {
            assert_eq!(wait, Duration::from_millis(30));
            assert_eq!(message, "a");
        }
        other => panic!("unexpected {other:?}"),
    }
    match state.after(retry("b"), &max, 10, &mut metrics) {
        SendStep::Retry { wait, .. } => assert_eq!(wait, Duration::from_millis(50)),
        other => panic!("unexpected {other:?}"),
    }
    assert!(matches!(
        state.after(Ok(()), &max, 10, &mut metrics),
        SendStep::Sent
    ));
    assert_eq!(state.attempt, 3);
    assert_eq!(metrics.remote_write_retries_total.get(), 2);
    assert_eq!(metrics.remote_write_batches_total.get(), 1);
    assert_eq!(metrics.remote_write_sent_bytes_total.get(), 10);
    assert_eq!(metrics.remote_write_failed_batches_total.get(), 0);

    let mut state = SendState::new(Duration::from_millis(30));
    let step = state.after(
        Err(SendError::Unrecoverable("bad".to_owned())),
        &max,
        10,
        &mut metrics,
    );
    assert!(matches!(step, SendStep::Dropped(message) if message == "bad"));
    assert_eq!(metrics.remote_write_failed_batches_total.get(), 1);
}

#[test]
fn refusals_add_the_batch_to_the_total_each() {
    let mut dropped = DropCounter::new();
    let mut metrics = Metrics::new();
    dropped.note(u64::MAX, &mut metrics);
    let payloads = fan_out(vec![series("a", 1), series("b", 2)], 4);
    assert_eq!(payloads.len(), 4);
    for (payload, refused) in payloads.iter().zip([true, false, true, true]) {
        assert_eq!(payload.len(), 2);
        if refused {
            dropped.note(payload.len() as u64, &mut metrics);
        }
    }
    assert_eq!(dropped.total_dropped(), u64::MAX.wrapping_add(3 * 2));
    assert!(fan_out(Vec::new(), 4).is_empty());
}

#[test]
fn a_batch_that_reaches_a_rule_without_modulus_is_not_prepared() {
    let rules = vec![RelabelConfig {
        source_labels: vec!["__name__".to_owned()],
        target_label: "shard".to_owned(),
        action: Action::HashMod,
        ..RelabelConfig::default()
    }];
    let protocol = ProtobufMessage::WriteRequestV1;
    assert!(try_prepare(vec![series("a", 1)], &rules, protocol).is_none());
    assert!(matches!(
        try_prepare(Vec::new(), &rules, protocol),
        Some(Prepared::Nothing)
    ));
    assert!(matches!(
        try_prepare(vec![series("a", 1)], &Vec::new(), protocol),
        Some(Prepared::Ready(_))
    ));
}
