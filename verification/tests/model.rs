//! The wire encoding, held against prost.

use prometheus_scrape_rs::model::{
    is_stale_nan, put_varint, sort_labels, stale_nan, varint_len, Label, Sample, TimeSeries,
    TimeSeriesV2, WriteRequest, WriteRequestV2, METRIC_NAME_LABEL,
};
use prometheus_scrape_rs::remote_write::encode_v2;
use prometheus_scrape_rs::scrape::stale_series;
use prost::bytes::{Buf, BufMut};
use prost::encoding::{
    double, int64, message, skip_field, string, uint32, DecodeContext, WireType,
};
use prost::{DecodeError, Message};

#[derive(Clone, Debug, Default, PartialEq)]
struct WireLabel {
    name: String,
    value: String,
}

impl Message for WireLabel {
    fn encode_raw(&self, buf: &mut impl BufMut) {
        if !self.name.is_empty() {
            string::encode(1, &self.name, buf);
        }
        if !self.value.is_empty() {
            string::encode(2, &self.value, buf);
        }
    }

    fn merge_field(
        &mut self,
        tag: u32,
        wire_type: WireType,
        buf: &mut impl Buf,
        ctx: DecodeContext,
    ) -> Result<(), DecodeError> {
        match tag {
            1 => string::merge(wire_type, &mut self.name, buf, ctx),
            2 => string::merge(wire_type, &mut self.value, buf, ctx),
            _ => skip_field(wire_type, tag, buf, ctx),
        }
    }

    fn encoded_len(&self) -> usize {
        let mut len = 0;
        if !self.name.is_empty() {
            len += string::encoded_len(1, &self.name);
        }
        if !self.value.is_empty() {
            len += string::encoded_len(2, &self.value);
        }
        len
    }

    fn clear(&mut self) {
        *self = Self::default();
    }
}

#[derive(Clone, Debug, Default, PartialEq)]
struct WireSample {
    value: f64,
    timestamp: i64,
}

impl Message for WireSample {
    fn encode_raw(&self, buf: &mut impl BufMut) {
        if self.value != 0.0 {
            double::encode(1, &self.value, buf);
        }
        if self.timestamp != 0 {
            int64::encode(2, &self.timestamp, buf);
        }
    }

    fn merge_field(
        &mut self,
        tag: u32,
        wire_type: WireType,
        buf: &mut impl Buf,
        ctx: DecodeContext,
    ) -> Result<(), DecodeError> {
        match tag {
            1 => double::merge(wire_type, &mut self.value, buf, ctx),
            2 => int64::merge(wire_type, &mut self.timestamp, buf, ctx),
            _ => skip_field(wire_type, tag, buf, ctx),
        }
    }

    fn encoded_len(&self) -> usize {
        let mut len = 0;
        if self.value != 0.0 {
            len += double::encoded_len(1, &self.value);
        }
        if self.timestamp != 0 {
            len += int64::encoded_len(2, &self.timestamp);
        }
        len
    }

    fn clear(&mut self) {
        *self = Self::default();
    }
}

#[derive(Clone, Debug, Default, PartialEq)]
struct WireSeries {
    labels: Vec<WireLabel>,
    samples: Vec<WireSample>,
}

impl Message for WireSeries {
    fn encode_raw(&self, buf: &mut impl BufMut) {
        for label in &self.labels {
            message::encode(1, label, buf);
        }
        for sample in &self.samples {
            message::encode(2, sample, buf);
        }
    }

    fn merge_field(
        &mut self,
        tag: u32,
        wire_type: WireType,
        buf: &mut impl Buf,
        ctx: DecodeContext,
    ) -> Result<(), DecodeError> {
        match tag {
            1 => message::merge_repeated(wire_type, &mut self.labels, buf, ctx),
            2 => message::merge_repeated(wire_type, &mut self.samples, buf, ctx),
            _ => skip_field(wire_type, tag, buf, ctx),
        }
    }

    fn encoded_len(&self) -> usize {
        message::encoded_len_repeated(1, &self.labels)
            + message::encoded_len_repeated(2, &self.samples)
    }

    fn clear(&mut self) {
        *self = Self::default();
    }
}

#[derive(Clone, Debug, Default, PartialEq)]
struct WireRequest {
    timeseries: Vec<WireSeries>,
}

impl Message for WireRequest {
    fn encode_raw(&self, buf: &mut impl BufMut) {
        for series in &self.timeseries {
            message::encode(1, series, buf);
        }
    }

    fn merge_field(
        &mut self,
        tag: u32,
        wire_type: WireType,
        buf: &mut impl Buf,
        ctx: DecodeContext,
    ) -> Result<(), DecodeError> {
        match tag {
            1 => message::merge_repeated(wire_type, &mut self.timeseries, buf, ctx),
            _ => skip_field(wire_type, tag, buf, ctx),
        }
    }

    fn encoded_len(&self) -> usize {
        message::encoded_len_repeated(1, &self.timeseries)
    }

    fn clear(&mut self) {
        *self = Self::default();
    }
}

#[derive(Clone, Debug, Default, PartialEq)]
struct WireSeriesV2 {
    labels_refs: Vec<u32>,
    samples: Vec<WireSample>,
}

impl Message for WireSeriesV2 {
    fn encode_raw(&self, buf: &mut impl BufMut) {
        uint32::encode_packed(1, &self.labels_refs, buf);
        for sample in &self.samples {
            message::encode(2, sample, buf);
        }
    }

    fn merge_field(
        &mut self,
        tag: u32,
        wire_type: WireType,
        buf: &mut impl Buf,
        ctx: DecodeContext,
    ) -> Result<(), DecodeError> {
        match tag {
            1 => uint32::merge_repeated(wire_type, &mut self.labels_refs, buf, ctx),
            2 => message::merge_repeated(wire_type, &mut self.samples, buf, ctx),
            _ => skip_field(wire_type, tag, buf, ctx),
        }
    }

    fn encoded_len(&self) -> usize {
        uint32::encoded_len_packed(1, &self.labels_refs)
            + message::encoded_len_repeated(2, &self.samples)
    }

    fn clear(&mut self) {
        *self = Self::default();
    }
}

#[derive(Clone, Debug, Default, PartialEq)]
struct WireRequestV2 {
    symbols: Vec<String>,
    timeseries: Vec<WireSeriesV2>,
}

impl Message for WireRequestV2 {
    fn encode_raw(&self, buf: &mut impl BufMut) {
        string::encode_repeated(4, &self.symbols, buf);
        for series in &self.timeseries {
            message::encode(5, series, buf);
        }
    }

    fn merge_field(
        &mut self,
        tag: u32,
        wire_type: WireType,
        buf: &mut impl Buf,
        ctx: DecodeContext,
    ) -> Result<(), DecodeError> {
        match tag {
            4 => string::merge_repeated(wire_type, &mut self.symbols, buf, ctx),
            5 => message::merge_repeated(wire_type, &mut self.timeseries, buf, ctx),
            _ => skip_field(wire_type, tag, buf, ctx),
        }
    }

    fn encoded_len(&self) -> usize {
        string::encoded_len_repeated(4, &self.symbols)
            + message::encoded_len_repeated(5, &self.timeseries)
    }

    fn clear(&mut self) {
        *self = Self::default();
    }
}

fn wire_sample(sample: &Sample) -> WireSample {
    WireSample {
        value: f64::from_bits(sample.value_bits),
        timestamp: sample.timestamp,
    }
}

fn wire_series(series: &TimeSeries) -> WireSeries {
    WireSeries {
        labels: series
            .labels
            .iter()
            .map(|l| WireLabel {
                name: l.name.clone(),
                value: l.value.clone(),
            })
            .collect(),
        samples: series.samples.iter().map(wire_sample).collect(),
    }
}

fn wire_request(request: &WriteRequest) -> WireRequest {
    WireRequest {
        timeseries: request.timeseries.iter().map(wire_series).collect(),
    }
}

fn wire_request_v2(request: &WriteRequestV2) -> WireRequestV2 {
    WireRequestV2 {
        symbols: request.symbols.clone(),
        timeseries: request
            .timeseries
            .iter()
            .map(|series: &TimeSeriesV2| WireSeriesV2 {
                labels_refs: series.labels_refs.clone(),
                samples: series.samples.iter().map(wire_sample).collect(),
            })
            .collect(),
    }
}

fn sample(value: f64, timestamp: i64) -> Sample {
    Sample {
        value_bits: value.to_bits(),
        timestamp,
    }
}

fn series(name: &str, samples: usize) -> TimeSeries {
    TimeSeries {
        labels: vec![Label::new("__name__", name)],
        samples: (0..samples)
            .map(|i| sample(1.0, i64::try_from(i).unwrap_or(i64::MAX)))
            .collect(),
    }
}

/// The hand-rolled encoder must be byte-identical to prost's across the edge
/// cases prost handles specially: default (skipped) fields, -0.0, negative
/// and huge varints, empty messages, multi-byte length delimiters and
/// non-ASCII strings.
#[test]
fn encode_into_matches_prost_derive() {
    let request = WriteRequest {
        timeseries: vec![
            TimeSeries {
                labels: vec![
                    Label::new(METRIC_NAME_LABEL, "http_requests_total"),
                    Label::new("code", "200"),
                    Label::new("empty_value", ""),
                    Label::new("", "empty_name"),
                    Label::new("unicode", "héllo→世界"),
                    Label::new("long", &"x".repeat(300)),
                ],
                samples: vec![
                    sample(1027.0, 1_395_066_363_000),
                    sample(0.0, 0),
                    sample(-0.0, -1),
                    Sample {
                        value_bits: stale_nan(),
                        timestamp: i64::MAX,
                    },
                    sample(f64::MIN_POSITIVE, i64::MIN),
                ],
            },
            TimeSeries {
                labels: Vec::new(),
                samples: Vec::new(),
            },
        ],
    };
    let mut buf = Vec::new();
    request.encode_into(&mut buf);
    assert_eq!(buf, wire_request(&request).encode_to_vec());
}

#[test]
fn varint_len_matches_encoding() {
    for value in [
        0u64,
        1,
        0x7f,
        0x80,
        0x3fff,
        0x4000,
        u64::from(u32::MAX),
        u64::MAX,
    ] {
        let mut buf = Vec::new();
        put_varint(value, &mut buf);
        assert_eq!(varint_len(value), buf.len(), "value {value:#x}");
    }
}

#[test]
fn v2_roundtrips_protobuf() {
    let request = encode_v2(&vec![series("metric_a", 2), series("metric_b", 1)]);
    let mut buf = Vec::new();
    request.encode_into(&mut buf);
    let wire = wire_request_v2(&request);
    assert_eq!(buf, wire.encode_to_vec());
    let decoded = WireRequestV2::decode(buf.as_slice()).expect("must decode");
    assert_eq!(decoded, wire);
}

#[test]
fn write_request_roundtrips_protobuf_snappy() {
    let request = WriteRequest {
        timeseries: vec![series("up", 1)],
    };
    let mut encoded = Vec::new();
    request.encode_into(&mut encoded);
    let compressed = snap::raw::Encoder::new()
        .compress_vec(&encoded)
        .expect("must compress");
    let decompressed = snap::raw::Decoder::new()
        .decompress_vec(&compressed)
        .expect("must decompress");
    let decoded = WireRequest::decode(decompressed.as_slice()).expect("must decode");
    assert_eq!(decoded, wire_request(&request));
}

#[test]
fn stale_nan_survives_protobuf_roundtrip() {
    let series = stale_series(vec![Label::new(METRIC_NAME_LABEL, "x")], 1);
    let request = WriteRequest {
        timeseries: vec![series],
    };
    let mut encoded = Vec::new();
    request.encode_into(&mut encoded);
    let decoded = WireRequest::decode(encoded.as_slice()).expect("decode");
    assert!(is_stale_nan(
        decoded.timeseries[0].samples[0].value.to_bits()
    ));
}

#[test]
fn a_negative_zero_reads_back_as_the_positive_one() {
    let request = WriteRequest {
        timeseries: vec![TimeSeries {
            labels: Vec::new(),
            samples: vec![sample(-0.0, 7)],
        }],
    };
    let mut encoded = Vec::new();
    request.encode_into(&mut encoded);
    let decoded = WireRequest::decode(encoded.as_slice()).expect("decode");
    assert_eq!(decoded.timeseries[0].samples[0].value.to_bits(), 0);
    assert_eq!(decoded.timeseries[0].samples[0].timestamp, 7);
}

#[test]
fn exact_bytes_of_a_small_request() {
    let request = WriteRequest {
        timeseries: vec![TimeSeries {
            labels: vec![Label::new("a", "b")],
            samples: vec![sample(1.0, 300)],
        }],
    };
    let mut encoded = Vec::new();
    request.encode_into(&mut encoded);
    assert_eq!(
        encoded,
        [
            0x0a, 0x16, // timeseries
            0x0a, 0x06, 0x0a, 0x01, b'a', 0x12, 0x01, b'b', // label
            0x12, 0x0c, 0x09, 0, 0, 0, 0, 0, 0, 0xf0, 0x3f, 0x10, 0xac, 0x02, // sample
        ]
    );
}

#[test]
fn encoding_appends() {
    let request = WriteRequest {
        timeseries: vec![series("up", 1)],
    };
    let mut once = Vec::new();
    request.encode_into(&mut once);
    let mut twice = vec![1, 2, 3];
    request.encode_into(&mut twice);
    assert_eq!(twice[..3], [1, 2, 3]);
    assert_eq!(twice[3..], once[..]);
}

#[test]
fn lengths_match_encodings() {
    let one = series("some_metric", 3);
    let mut encoded = Vec::new();
    one.put_wire(&mut encoded);
    assert_eq!(one.wire_len(), encoded.len());
    assert_eq!(one.wire_len(), wire_series(&one).encoded_len());
}

#[test]
fn labels_sort_by_name() {
    let mut labels = vec![
        Label::new("b", "1"),
        Label::new("__name__", "m"),
        Label::new("a", "2"),
        Label::new("B", "3"),
    ];
    sort_labels(&mut labels);
    let names: Vec<&str> = labels.iter().map(|l| l.name.as_str()).collect();
    assert_eq!(names, ["B", "__name__", "a", "b"]);
}

#[test]
fn only_the_staleness_bits_are_stale() {
    assert_eq!(stale_nan(), 0x7ff0_0000_0000_0002);
    assert!(is_stale_nan(stale_nan()));
    assert!(!is_stale_nan(f64::NAN.to_bits()));
    assert!(f64::from_bits(stale_nan()).is_nan());
}
