//! Remote-write wire types and their protobuf encoding.
//!
//! The messages match `prompb/remote.proto` and `prompb/types.proto` of
//! Prometheus (remote-write 1.0) and `io.prometheus.write.v2.Request`
//! (remote-write 2.0). Only the fields required for writing samples exist;
//! metadata and exemplars are omitted to keep payloads small.
//!
//! Sample values are carried as the bits of an IEEE 754 double.

use crate::text;
use crate::text::{is_text_before, text_eq};
use vstd::bytes::*;
use vstd::prelude::*;
use vstd::std_specs::bits::*;
use vstd::string::*;
use vstd::utf8::*;

verus! {

/// Reserved label name carrying the metric name.
pub const METRIC_NAME_LABEL: &'static str = "__name__";

/// Prometheus staleness marker: a NaN with this exact bit pattern tells the
/// receiver "this series ended here" instead of applying query lookback.
pub const STALE_NAN_BITS: u64 = 0x7ff0_0000_0000_0002;

/// The bits of the staleness marker.
#[must_use]
pub fn stale_nan() -> (bits: u64)
    ensures
        bits == STALE_NAN_BITS,
{
    STALE_NAN_BITS
}

/// Whether `bits` are those of the staleness marker.
#[must_use]
pub fn is_stale_nan(bits: u64) -> (r: bool)
    ensures
        r == (bits == STALE_NAN_BITS),
{
    bits == STALE_NAN_BITS
}

/// One label of a series.
#[derive(Debug, PartialEq, Eq, PartialOrd, Ord)]
pub struct Label {
    pub name: String,
    pub value: String,
}

/// What a label holds.
#[verifier::ext_equal]
pub struct LabelView {
    pub name: Seq<char>,
    pub value: Seq<char>,
}

impl DeepView for Label {
    type V = LabelView;

    open spec fn deep_view(&self) -> LabelView {
        LabelView { name: self.name@, value: self.value@ }
    }
}

impl Clone for Label {
    fn clone(&self) -> (r: Self)
        ensures
            r.deep_view() == self.deep_view(),
    {
        Label { name: self.name.clone(), value: self.value.clone() }
    }
}

/// One sample of a series.
#[derive(Debug, Clone, Copy, PartialEq, Eq, Structural)]
pub struct Sample {
    /// The bits of the sample's double.
    pub value_bits: u64,
    /// Milliseconds since Unix epoch.
    pub timestamp: i64,
}

impl DeepView for Sample {
    type V = Sample;

    open spec fn deep_view(&self) -> Sample {
        *self
    }
}

/// A labelled series with its samples.
#[derive(Debug, PartialEq, Eq)]
pub struct TimeSeries {
    /// Must be sorted by label name and contain no duplicates when sent.
    pub labels: Vec<Label>,
    pub samples: Vec<Sample>,
}

/// What a series holds.
#[verifier::ext_equal]
pub struct TimeSeriesView {
    pub labels: Seq<LabelView>,
    pub samples: Seq<Sample>,
}

impl DeepView for TimeSeries {
    type V = TimeSeriesView;

    open spec fn deep_view(&self) -> TimeSeriesView {
        TimeSeriesView { labels: self.labels.deep_view(), samples: self.samples@ }
    }
}

impl Clone for TimeSeries {
    fn clone(&self) -> (r: Self)
        ensures
            r.deep_view() == self.deep_view(),
    {
        let labels = self.labels.clone();
        let samples = self.samples.clone();
        assert(labels.deep_view() =~= self.labels.deep_view());
        assert(samples@ =~= self.samples@);
        TimeSeries { labels, samples }
    }
}

/// A remote-write 1.0 request.
#[derive(Debug, PartialEq, Eq)]
pub struct WriteRequest {
    pub timeseries: Vec<TimeSeries>,
}

/// A remote-write 2.0 request (`io.prometheus.write.v2.Request`).
///
/// Every label name and value is written once into `symbols`; series
/// reference them by index. `symbols[0]` must be the empty string.
#[derive(Debug, PartialEq, Eq)]
pub struct WriteRequestV2 {
    pub symbols: Vec<String>,
    pub timeseries: Vec<TimeSeriesV2>,
}

/// A series of a remote-write 2.0 request.
#[derive(Debug, PartialEq, Eq)]
pub struct TimeSeriesV2 {
    /// Pairs of symbol indices: even positions are label names, odd
    /// positions the corresponding values.
    pub labels_refs: Vec<u32>,
    pub samples: Vec<Sample>,
}

/// What a series of a remote-write 2.0 request holds.
#[verifier::ext_equal]
pub struct TimeSeriesV2View {
    pub labels_refs: Seq<u32>,
    pub samples: Seq<Sample>,
}

impl DeepView for TimeSeriesV2 {
    type V = TimeSeriesV2View;

    open spec fn deep_view(&self) -> TimeSeriesV2View {
        TimeSeriesV2View { labels_refs: self.labels_refs@, samples: self.samples@ }
    }
}

impl Label {
    /// A label with the given name and value.
    pub fn new(name: &str, value: &str) -> (r: Self)
        ensures
            r.deep_view() == (LabelView { name: name@, value: value@ }),
    {
        Label { name: name.to_owned(), value: value.to_owned() }
    }
}

// --- lookup by name ---
/// The first position from `i` on at which `labels` holds the name `name`, or
/// the number of labels where there is none.
pub open spec fn first_named(labels: Seq<LabelView>, name: Seq<char>, i: int) -> int
    decreases labels.len() - i,
{
    if i >= labels.len() {
        labels.len() as int
    } else if labels[i].name == name {
        i
    } else {
        first_named(labels, name, i + 1)
    }
}

/// Whether some label has the name `name`.
pub open spec fn has_label(labels: Seq<LabelView>, name: Seq<char>) -> bool {
    first_named(labels, name, 0) < labels.len()
}

/// The value of the first label named `name`, empty where there is none.
pub open spec fn label_value(labels: Seq<LabelView>, name: Seq<char>) -> Seq<char> {
    if has_label(labels, name) {
        labels[first_named(labels, name, 0)].value
    } else {
        Seq::empty()
    }
}

/// `labels` with the first label named `name` set to `value`, added at the
/// end where there is none.
pub open spec fn with_label(
    labels: Seq<LabelView>,
    name: Seq<char>,
    value: Seq<char>,
) -> Seq<LabelView> {
    if has_label(labels, name) {
        labels.update(first_named(labels, name, 0), LabelView { name, value })
    } else {
        labels.push(LabelView { name, value })
    }
}

/// `labels` with a label named `name` added at the end unless one is there.
pub open spec fn with_default(
    labels: Seq<LabelView>,
    name: Seq<char>,
    value: Seq<char>,
) -> Seq<LabelView> {
    if has_label(labels, name) {
        labels
    } else {
        labels.push(LabelView { name, value })
    }
}

/// What `first_named` finds: the position lies in range, holds the name where
/// it is below the length, and none before it does.
pub proof fn lemma_first_named(labels: Seq<LabelView>, name: Seq<char>, i: int)
    requires
        0 <= i <= labels.len(),
    ensures
        i <= first_named(labels, name, i) <= labels.len(),
        first_named(labels, name, i) < labels.len() ==> labels[first_named(
            labels,
            name,
            i,
        )].name == name,
        forall|j: int| i <= j < first_named(labels, name, i) ==> labels[j].name != name,
    decreases labels.len() - i,
{
    if i < labels.len() && labels[i].name != name {
        lemma_first_named(labels, name, i + 1);
    }
}

/// The position of the first label named `name`, or the number of labels.
pub fn position_of(labels: &Vec<Label>, name: &str) -> (r: usize)
    ensures
        r == first_named(labels.deep_view(), name@, 0),
        r <= labels@.len(),
{
    let mut i: usize = 0;
    while i < labels.len()
        invariant
            i <= labels@.len(),
            first_named(labels.deep_view(), name@, 0) == first_named(
                labels.deep_view(),
                name@,
                i as int,
            ),
        decreases labels@.len() - i,
    {
        if text_eq(labels[i].name.as_str(), name) {
            return i;
        }
        i += 1;
    }
    i
}

// --- sorting ---
/// The first position from `i` on whose label comes after `name`, or the
/// number of labels.
pub open spec fn first_after(labels: Seq<LabelView>, name: Seq<char>, i: int) -> int
    decreases labels.len() - i,
{
    if i >= labels.len() {
        labels.len() as int
    } else if text::text_before(name, labels[i].name) {
        i
    } else {
        first_after(labels, name, i + 1)
    }
}

/// `labels` with `label` put before the first one whose name comes after its
/// own.
pub open spec fn insert_by_name(labels: Seq<LabelView>, label: LabelView) -> Seq<LabelView> {
    labels.insert(first_after(labels, label.name, 0), label)
}

/// The labels in the order of their names; labels of one name keep their order.
pub open spec fn sorted_labels(labels: Seq<LabelView>) -> Seq<LabelView>
    decreases labels.len(),
{
    if labels.len() == 0 {
        labels
    } else {
        insert_by_name(sorted_labels(labels.drop_last()), labels.last())
    }
}

/// Whether no name comes before an earlier one.
pub open spec fn in_name_order(labels: Seq<LabelView>) -> bool {
    forall|i: int, j: int|
        #![trigger labels[i], labels[j]]
        0 <= i < j < labels.len() ==> !text::text_before(labels[j].name, labels[i].name)
}

/// Where `first_after` stops: what lies before does not come after `name`.
pub proof fn lemma_first_after(labels: Seq<LabelView>, name: Seq<char>, i: int)
    requires
        0 <= i <= labels.len(),
    ensures
        i <= first_after(labels, name, i) <= labels.len(),
        first_after(labels, name, i) < labels.len() ==> text::text_before(
            name,
            labels[first_after(labels, name, i)].name,
        ),
        forall|j: int|
            i <= j < first_after(labels, name, i) ==> !text::text_before(name, labels[j].name),
    decreases labels.len() - i,
{
    if i < labels.len() && !text::text_before(name, labels[i].name) {
        lemma_first_after(labels, name, i + 1);
    }
}

/// Sorting keeps exactly the given labels and leaves them in the order of
/// their names.
pub proof fn lemma_sorted_labels(labels: Seq<LabelView>)
    ensures
        in_name_order(sorted_labels(labels)),
        sorted_labels(labels).to_multiset() == labels.to_multiset(),
        sorted_labels(labels).len() == labels.len(),
    decreases labels.len(),
{
    if labels.len() > 0 {
        let rest = sorted_labels(labels.drop_last());
        let x = labels.last();
        let p = first_after(rest, x.name, 0);
        let r = rest.insert(p, x);
        lemma_sorted_labels(labels.drop_last());
        lemma_first_after(rest, x.name, 0);
        assert forall|i: int, j: int|
            #![trigger r[i], r[j]]
            0 <= i < j < r.len() implies !text::text_before(r[j].name, r[i].name) by {
            let a = if i < p { i } else { i - 1 };
            let b = if j < p { j } else { j - 1 };
            if i != p && j != p {
                assert(r[i] == rest[a] && r[j] == rest[b]);
            } else if i == p {
                // what follows the new label comes after it, or after one that does
                assert(r[j] == rest[b]);
                text::lemma_text_before_total(x.name, rest[b].name);
                if text::text_before(rest[b].name, x.name) {
                    text::lemma_text_before_transitive(rest[b].name, x.name, rest[p].name);
                }
            } else {
                assert(r[i] == rest[a]);
            }
        }
        broadcast use vstd::seq_lib::group_to_multiset_ensures;

        assert(r.remove(p) =~= rest);
        assert(r.to_multiset().remove(x) == rest.to_multiset());
        assert(r[p] == x);
        assert(r.contains(x));
        assert(r.to_multiset() =~= rest.to_multiset().insert(x));
        assert(labels =~= labels.drop_last().push(x));
    }
}

/// Two sorted arrangements of the same labels, no two of one name, are equal:
/// for distinct names the order by name leaves no choice.
pub proof fn lemma_sorted_unique(a: Seq<LabelView>, b: Seq<LabelView>)
    requires
        a.to_multiset() == b.to_multiset(),
        in_name_order(a),
        in_name_order(b),
        distinct_names(a),
    ensures
        a == b,
    decreases a.len(),
{
    broadcast use vstd::seq_lib::group_to_multiset_ensures;

    assert(a.to_multiset().len() == a.len());
    assert(b.to_multiset().len() == b.len());
    if a.len() > 0 {
        let x = a.last();
        assert(a.to_multiset().count(x) > 0) by {
            assert(a.contains(x));
        }
        assert(b.contains(x));
        let k = choose|k: int| 0 <= k < b.len() && b[k] == x;
        let y = b.last();
        assert(b.contains(y));
        assert(a.to_multiset().count(y) > 0);
        assert(a.contains(y));
        let m = choose|m: int| 0 <= m < a.len() && a[m] == y;
        // y is not before x in b's order, and not after it in a's
        text::lemma_text_before_total(x.name, y.name);
        if k < b.len() - 1 && m < a.len() - 1 {
            assert(!text::text_before(b[b.len() - 1].name, b[k].name));
            assert(!text::text_before(a[a.len() - 1].name, a[m].name));
            assert(a[m].name == a[a.len() - 1].name);
            assert(false);
        }
        assert(x == y);
        assert(a.remove(a.len() - 1) =~= a.drop_last());
        assert(b.remove(b.len() - 1) =~= b.drop_last());
        assert(a.drop_last().to_multiset() == b.drop_last().to_multiset());
        lemma_sorted_unique(a.drop_last(), b.drop_last());
        assert(a =~= a.drop_last().push(x));
        assert(b =~= b.drop_last().push(y));
    } else {
        assert(a =~= b);
    }
}

/// Whether no two labels have the same name.
pub open spec fn distinct_names(labels: Seq<LabelView>) -> bool {
    forall|i: int, j: int|
        #![trigger labels[i], labels[j]]
        0 <= i < j < labels.len() ==> labels[i].name != labels[j].name
}

/// Sorting gives no two labels one name.
pub proof fn lemma_sorted_distinct(labels: Seq<LabelView>)
    requires
        distinct_names(labels),
    ensures
        distinct_names(sorted_labels(labels)),
        forall|l: LabelView| #[trigger]
            sorted_labels(labels).contains(l) <==> labels.contains(l),
    decreases labels.len(),
{
    broadcast use vstd::seq_lib::group_to_multiset_ensures;

    lemma_sorted_labels(labels);
    let out = sorted_labels(labels);
    assert forall|l: LabelView| #[trigger] out.contains(l) <==> labels.contains(l) by {
        assert(out.to_multiset().count(l) == labels.to_multiset().count(l));
    }
    if labels.len() > 0 {
        let before = labels.drop_last();
        let x = labels.last();
        assert forall|i: int, j: int|
            #![trigger before[i], before[j]]
            0 <= i < j < before.len() implies before[i].name != before[j].name by {
            assert(before[i] == labels[i] && before[j] == labels[j]);
        }
        lemma_sorted_distinct(before);
        let rest = sorted_labels(before);
        let p = first_after(rest, x.name, 0);
        lemma_first_after(rest, x.name, 0);
        assert forall|k: int| 0 <= k < rest.len() implies (#[trigger] rest[k]).name != x.name by {
            assert(rest.contains(rest[k]));
            let m = choose|m: int| 0 <= m < before.len() && before[m] == rest[k];
            assert(labels[m] == rest[k]);
            assert(labels[labels.len() - 1] == x);
        }
        assert forall|i: int, j: int| #![trigger out[i], out[j]] 0 <= i < j < out.len() implies out[
        i].name != out[j].name by {
            let a = if i < p { i } else { i - 1 };
            let b = if j < p { j } else { j - 1 };
            if i != p {
                assert(out[i] == rest[a]);
            }
            if j != p {
                assert(out[j] == rest[b]);
            }
        }
    }
}

/// Sort labels by name as required by the remote-write protocol.
pub fn sort_labels(labels: &mut Vec<Label>)
    ensures
        final(labels).deep_view() == sorted_labels(old(labels).deep_view()),
{
    let ghost orig = labels.deep_view();
    let mut i: usize = 0;
    assert(orig.take(0) =~= Seq::<LabelView>::empty());
    assert(labels.deep_view() =~= sorted_labels(orig.take(0)) + orig.skip(0));
    while i < labels.len()
        invariant
            i <= labels@.len(),
            orig.len() == labels@.len(),
            sorted_labels(orig.take(i as int)).len() == i,
            labels.deep_view() == sorted_labels(orig.take(i as int)) + orig.skip(i as int),
        decreases labels@.len() - i,
    {
        let ghost before = labels.deep_view();
        let ghost done = sorted_labels(orig.take(i as int));
        let label = labels.remove(i);
        let ghost x = label.deep_view();
        assert(x == before[i as int]);
        assert(x == orig[i as int]);
        let ghost rest = labels.deep_view();
        assert(rest =~= before.remove(i as int));
        assert(rest =~= done + orig.skip(i + 1));
        let mut p: usize = 0;
        while p < i && !is_text_before(label.name.as_str(), labels[p].name.as_str())
            invariant
                p <= i <= labels@.len(),
                done.len() == i,
                labels.deep_view() == rest,
                rest == done + orig.skip(i + 1),
                x == label.deep_view(),
                first_after(done, x.name, 0) == first_after(done, x.name, p as int),
            decreases i - p,
        {
            assert(labels.deep_view()[p as int] == done[p as int]);
            p += 1;
        }
        assert(p < i ==> labels.deep_view()[p as int] == done[p as int]);
        assert(p == first_after(done, x.name, 0));
        labels.insert(p, label);
        proof {
            assert(orig.take(i + 1).drop_last() =~= orig.take(i as int));
            assert(labels.deep_view() =~= rest.insert(p as int, x));
            assert(labels.deep_view() =~= insert_by_name(done, x) + orig.skip(i + 1));
        }
        i += 1;
    }
    assert(orig.take(i as int) =~= orig);
    assert(labels.deep_view() =~= sorted_labels(orig));
}

// --- protobuf encoding ---
/// Wire tag for a length-delimited field 1 (`labels`, `name`, `timeseries`).
pub const TAG1_LEN: u8 = 0x0a;

/// Wire tag for a length-delimited field 2 (`samples`, `value`).
pub const TAG2_LEN: u8 = 0x12;

/// Wire tag for the `double` field 1 of `Sample`.
pub const TAG1_DOUBLE: u8 = 0x09;

/// Wire tag for the `int64` field 2 of `Sample`.
pub const TAG2_VARINT: u8 = 0x10;

/// Wire tag for a length-delimited field 4 (`symbols`).
pub const TAG4_LEN: u8 = 0x22;

/// Wire tag for a length-delimited field 5 (`timeseries` of a 2.0 request).
pub const TAG5_LEN: u8 = 0x2a;

/// The base-128 varint of a number: seven bits per byte, least significant
/// first, the top bit set on every byte but the last.
pub open spec fn varint(value: u64) -> Seq<u8>
    decreases value,
{
    if value < 0x80 {
        seq![value as u8]
    } else {
        seq![(value % 0x80 + 0x80) as u8] + varint(value / 0x80)
    }
}

/// A length-delimited field holding `body`.
pub open spec fn length_delimited(tag: u8, body: Seq<u8>) -> Seq<u8> {
    seq![tag] + varint(body.len() as u64) + body
}

/// A string field, left out where it holds the default value.
pub open spec fn string_field(tag: u8, value: Seq<char>) -> Seq<u8> {
    if value.len() == 0 {
        Seq::empty()
    } else {
        length_delimited(tag, encode_utf8(value))
    }
}

/// The two's complement of an `int64`, the number its varint is built from.
pub open spec fn twos_complement(value: i64) -> u64 {
    if value < 0 {
        (value + 0x1_0000_0000_0000_0000) as u64
    } else {
        value as u64
    }
}

/// Whether `bits` are those of a positive or negative zero.
pub open spec fn is_zero_bits(bits: u64) -> bool {
    bits == 0 || bits == 0x8000_0000_0000_0000
}

/// The encoding of a label.
pub open spec fn label_wire(label: LabelView) -> Seq<u8> {
    string_field(TAG1_LEN, label.name) + string_field(TAG2_LEN, label.value)
}

/// The encoding of a sample: its double, little endian, and its timestamp,
/// each left out where it is zero.
pub open spec fn sample_wire(sample: Sample) -> Seq<u8> {
    (if is_zero_bits(sample.value_bits) {
        Seq::empty()
    } else {
        seq![TAG1_DOUBLE] + spec_u64_to_le_bytes_open(sample.value_bits)
    }) + (if sample.timestamp == 0 {
        Seq::empty()
    } else {
        seq![TAG2_VARINT] + varint(twos_complement(sample.timestamp))
    })
}

/// The `labels` fields of a series, one after the other.
pub open spec fn labels_wire(labels: Seq<LabelView>) -> Seq<u8>
    decreases labels.len(),
{
    if labels.len() == 0 {
        Seq::empty()
    } else {
        labels_wire(labels.drop_last()) + length_delimited(TAG1_LEN, label_wire(labels.last()))
    }
}

/// The `samples` fields of a series, one after the other.
pub open spec fn samples_wire(samples: Seq<Sample>) -> Seq<u8>
    decreases samples.len(),
{
    if samples.len() == 0 {
        Seq::empty()
    } else {
        samples_wire(samples.drop_last()) + length_delimited(
            TAG2_LEN,
            sample_wire(samples.last()),
        )
    }
}

/// The encoding of a series.
pub open spec fn series_wire(series: TimeSeriesView) -> Seq<u8> {
    labels_wire(series.labels) + samples_wire(series.samples)
}

/// The encoding of a remote-write 1.0 request.
pub open spec fn request_wire(timeseries: Seq<TimeSeriesView>) -> Seq<u8>
    decreases timeseries.len(),
{
    if timeseries.len() == 0 {
        Seq::empty()
    } else {
        request_wire(timeseries.drop_last()) + length_delimited(
            TAG1_LEN,
            series_wire(timeseries.last()),
        )
    }
}

/// The varints of a packed list, one after the other.
pub open spec fn refs_wire(refs: Seq<u32>) -> Seq<u8>
    decreases refs.len(),
{
    if refs.len() == 0 {
        Seq::empty()
    } else {
        refs_wire(refs.drop_last()) + varint(refs.last() as u64)
    }
}

/// The encoding of a 2.0 series: its packed label references, left out where
/// there are none, and its samples.
pub open spec fn series_v2_wire(series: TimeSeriesV2View) -> Seq<u8> {
    (if series.labels_refs.len() == 0 {
        Seq::empty()
    } else {
        length_delimited(TAG1_LEN, refs_wire(series.labels_refs))
    }) + samples_wire(series.samples)
}

/// The `symbols` fields of a 2.0 request, one after the other.
pub open spec fn symbols_wire(symbols: Seq<Seq<char>>) -> Seq<u8>
    decreases symbols.len(),
{
    if symbols.len() == 0 {
        Seq::empty()
    } else {
        symbols_wire(symbols.drop_last()) + length_delimited(
            TAG4_LEN,
            encode_utf8(symbols.last()),
        )
    }
}

/// The `timeseries` fields of a 2.0 request, one after the other.
pub open spec fn all_series_v2_wire(timeseries: Seq<TimeSeriesV2View>) -> Seq<u8>
    decreases timeseries.len(),
{
    if timeseries.len() == 0 {
        Seq::empty()
    } else {
        all_series_v2_wire(timeseries.drop_last()) + length_delimited(
            TAG5_LEN,
            series_v2_wire(timeseries.last()),
        )
    }
}

/// The encoding of a remote-write 2.0 request.
pub open spec fn request_v2_wire(
    symbols: Seq<Seq<char>>,
    timeseries: Seq<TimeSeriesV2View>,
) -> Seq<u8> {
    symbols_wire(symbols) + all_series_v2_wire(timeseries)
}

/// A varint holds one byte per started group of seven bits.
proof fn lemma_varint_len(value: u64, top: u64)
    requires
        top < 64,
        (value | 1) >> top & 1 != 0,
        top == 63 || (value | 1) >> ((top + 1) as u64) == 0,
    ensures
        varint(value).len() == top / 7 + 1,
{
    reveal_with_fuel(varint, 11);
    let t1: u64 = if top == 63 { 63 } else { (top + 1) as u64 };
    assert(value < 0x80 <==> top < 7) by (bit_vector)
        requires
            top < 64,
            (value | 1) >> top & 1 != 0,
            top == 63 || (value | 1) >> t1 == 0,
            t1 == (if top == 63 { 63 } else { top + 1 }),
    ;
    assert(value < 0x4000 <==> top < 14) by (bit_vector)
        requires
            top < 64,
            (value | 1) >> top & 1 != 0,
            top == 63 || (value | 1) >> t1 == 0,
            t1 == (if top == 63 { 63 } else { top + 1 }),
    ;
    assert(value < 0x20_0000 <==> top < 21) by (bit_vector)
        requires
            top < 64,
            (value | 1) >> top & 1 != 0,
            top == 63 || (value | 1) >> t1 == 0,
            t1 == (if top == 63 { 63 } else { top + 1 }),
    ;
    assert(value < 0x1000_0000 <==> top < 28) by (bit_vector)
        requires
            top < 64,
            (value | 1) >> top & 1 != 0,
            top == 63 || (value | 1) >> t1 == 0,
            t1 == (if top == 63 { 63 } else { top + 1 }),
    ;
    assert(value < 0x8_0000_0000 <==> top < 35) by (bit_vector)
        requires
            top < 64,
            (value | 1) >> top & 1 != 0,
            top == 63 || (value | 1) >> t1 == 0,
            t1 == (if top == 63 { 63 } else { top + 1 }),
    ;
    assert(value < 0x400_0000_0000 <==> top < 42) by (bit_vector)
        requires
            top < 64,
            (value | 1) >> top & 1 != 0,
            top == 63 || (value | 1) >> t1 == 0,
            t1 == (if top == 63 { 63 } else { top + 1 }),
    ;
    assert(value < 0x2_0000_0000_0000 <==> top < 49) by (bit_vector)
        requires
            top < 64,
            (value | 1) >> top & 1 != 0,
            top == 63 || (value | 1) >> t1 == 0,
            t1 == (if top == 63 { 63 } else { top + 1 }),
    ;
    assert(value < 0x100_0000_0000_0000 <==> top < 56) by (bit_vector)
        requires
            top < 64,
            (value | 1) >> top & 1 != 0,
            top == 63 || (value | 1) >> t1 == 0,
            t1 == (if top == 63 { 63 } else { top + 1 }),
    ;
    assert(value < 0x8000_0000_0000_0000 <==> top < 63) by (bit_vector)
        requires
            top < 64,
            (value | 1) >> top & 1 != 0,
            top == 63 || (value | 1) >> t1 == 0,
            t1 == (if top == 63 { 63 } else { top + 1 }),
    ;
}

/// Encoded size of `value` as a protobuf varint, computed without branches.
pub fn varint_len(value: u64) -> (r: usize)
    ensures
        r == varint(value).len(),
        1 <= r <= 10,
{
    let zeros: u32 = (value | 1).leading_zeros();
    proof {
        axiom_u64_leading_zeros(value | 1);
        assert(value | 1 != 0) by (bit_vector);
        let z = zeros as u64;
        let top = (63 - z) as u64;
        assert(z > 0 ==> 64 - z == top + 1);
        lemma_varint_len(value, top);
        assert(zeros <= 63 ==> zeros ^ 63 == 63 - zeros) by (bit_vector);
    }
    let top: u32 = zeros ^ 63;
    ((top * 9 + 73) / 64) as usize
}

/// Appends the varint of `value`.
pub fn put_varint(value: u64, buf: &mut Vec<u8>)
    ensures
        final(buf)@ == old(buf)@ + varint(value),
{
    let mut value = value;
    let ghost all = buf@ + varint(value);
    while value >= 0x80
        invariant
            buf@ + varint(value) == all,
        decreases value,
    {
        let low: u8 = (value & 0x7f) as u8 | 0x80;
        assert(low == value % 0x80 + 0x80) by {
            assert(((value & 0x7f) as u8 | 0x80) == value % 0x80 + 0x80) by (bit_vector);
        }
        assert(value >> 7 == value / 0x80) by (bit_vector);
        let ghost b0 = buf@;
        buf.push(low);
        assert(b0 + varint(value) =~= buf@ + varint(value / 0x80));
        value = value >> 7;
    }
    buf.push(value as u8);
    assert(buf@ =~= all);
}

/// Appends `bytes`.
pub fn put_bytes(bytes: &[u8], buf: &mut Vec<u8>)
    ensures
        final(buf)@ == old(buf)@ + bytes@,
{
    buf.extend_from_slice(bytes);
    assert(buf@ =~= old(buf)@ + bytes@);
}

/// Appends a length-delimited field holding `body`.
pub fn put_length_delimited(tag: u8, body: &[u8], buf: &mut Vec<u8>)
    ensures
        final(buf)@ == old(buf)@ + length_delimited(tag, body@),
{
    buf.push(tag);
    put_varint(body.len() as u64, buf);
    put_bytes(body, buf);
    assert(buf@ =~= old(buf)@ + length_delimited(tag, body@));
}

/// Encoded size of a string field, 0 when empty: fields holding their default
/// value are skipped.
pub fn string_field_len(value: &str) -> (r: usize)
    requires
        string_field(0, value@).len() <= usize::MAX,
    ensures
        r == string_field(0, value@).len(),
{
    if value.is_empty() {
        0
    } else {
        let bytes = value.as_bytes();
        1 + varint_len(bytes.len() as u64) + bytes.len()
    }
}

/// Appends a string field, nothing where the value is empty.
pub fn put_string_field(tag: u8, value: &str, buf: &mut Vec<u8>)
    ensures
        final(buf)@ == old(buf)@ + string_field(tag, value@),
{
    if value.is_empty() {
        assert(buf@ =~= old(buf)@ + string_field(tag, value@));
        return;
    }
    put_length_delimited(tag, value.as_bytes(), buf);
}

/// Reinterpret an `int64` as the `u64` protobuf varints are built from
/// (two's complement; negative values encode as 10 bytes).
pub fn int64_bits(value: i64) -> (r: u64)
    ensures
        r == twos_complement(value),
{
    if value < 0 {
        (value - i64::MIN) as u64 + 0x8000_0000_0000_0000
    } else {
        value as u64
    }
}

impl Label {
    /// Encoded size of the label.
    pub fn wire_len(&self) -> (r: usize)
        requires
            label_wire(self.deep_view()).len() <= usize::MAX,
        ensures
            r == label_wire(self.deep_view()).len(),
    {
        string_field_len(self.name.as_str()) + string_field_len(self.value.as_str())
    }

    /// Appends the label's encoding.
    pub fn put_wire(&self, buf: &mut Vec<u8>)
        ensures
            final(buf)@ == old(buf)@ + label_wire(self.deep_view()),
    {
        put_string_field(TAG1_LEN, self.name.as_str(), buf);
        put_string_field(TAG2_LEN, self.value.as_str(), buf);
        assert(buf@ =~= old(buf)@ + label_wire(self.deep_view()));
    }
}

impl Sample {
    /// Encoded size of the sample.
    pub fn wire_len(&self) -> (r: usize)
        ensures
            r == sample_wire(*self).len(),
            r <= 20,
    {
        let mut len: usize = 0;
        if self.value_bits != 0 && self.value_bits != 0x8000_0000_0000_0000 {
            len += 9;
        }
        if self.timestamp != 0 {
            len += 1 + varint_len(int64_bits(self.timestamp));
        }
        len
    }

    /// Appends the sample's encoding.
    pub fn put_wire(&self, buf: &mut Vec<u8>)
        ensures
            final(buf)@ == old(buf)@ + sample_wire(*self),
    {
        let ghost start = buf@;
        if self.value_bits != 0 && self.value_bits != 0x8000_0000_0000_0000 {
            buf.push(TAG1_DOUBLE);
            let bytes = u64_to_le_bytes(self.value_bits);
            proof {
                spec_u64_to_le_bytes_to_open(self.value_bits);
            }
            put_bytes(bytes.as_slice(), buf);
            assert(buf@ =~= start + (seq![TAG1_DOUBLE] + spec_u64_to_le_bytes_open(
                self.value_bits,
            )));
        }
        if self.timestamp != 0 {
            buf.push(TAG2_VARINT);
            put_varint(int64_bits(self.timestamp), buf);
        }
        assert(buf@ =~= start + sample_wire(*self));
    }
}

impl TimeSeries {
    /// Encoded size of the series.
    pub fn wire_len(&self) -> (r: usize)
        requires
            series_wire(self.deep_view()).len() <= usize::MAX,
        ensures
            r == series_wire(self.deep_view()).len(),
    {
        let ghost labels = self.labels.deep_view();
        let ghost samples = self.samples@;
        let mut total: usize = 0;
        let mut i: usize = 0;
        assert(labels.take(0) =~= Seq::<LabelView>::empty());
        while i < self.labels.len()
            invariant
                i <= self.labels@.len(),
                labels == self.labels.deep_view(),
                samples == self.samples@,
                labels_wire(labels).len() + samples_wire(samples).len() <= usize::MAX,
                total == labels_wire(labels.take(i as int)).len(),
            decreases self.labels@.len() - i,
        {
            proof {
                assert(labels.take(i + 1).drop_last() =~= labels.take(i as int));
                lemma_labels_wire_grows(labels, i + 1);
            }
            let len = self.labels[i].wire_len();
            total += 1 + varint_len(len as u64) + len;
            i += 1;
        }
        assert(labels.take(i as int) =~= labels);
        assert(samples.take(0) =~= Seq::<Sample>::empty());
        i = 0;
        while i < self.samples.len()
            invariant
                i <= self.samples@.len(),
                samples == self.samples@,
                labels_wire(labels).len() + samples_wire(samples).len() <= usize::MAX,
                total == labels_wire(labels).len() + samples_wire(samples.take(i as int)).len(),
            decreases self.samples@.len() - i,
        {
            proof {
                assert(samples.take(i + 1).drop_last() =~= samples.take(i as int));
                lemma_samples_wire_grows(samples, i + 1);
            }
            let len = self.samples[i].wire_len();
            total += 1 + varint_len(len as u64) + len;
            i += 1;
        }
        assert(samples.take(i as int) =~= samples);
        total
    }

    /// Appends the encoding of the series.
    pub fn put_wire(&self, buf: &mut Vec<u8>)
        ensures
            final(buf)@ == old(buf)@ + series_wire(self.deep_view()),
    {
        let ghost start = buf@;
        let ghost labels = self.labels.deep_view();
        let mut i: usize = 0;
        assert(labels.take(0) =~= Seq::<LabelView>::empty());
        assert(buf@ =~= start + labels_wire(labels.take(0)));
        while i < self.labels.len()
            invariant
                i <= self.labels@.len(),
                labels == self.labels.deep_view(),
                buf@ == start + labels_wire(labels.take(i as int)),
            decreases self.labels@.len() - i,
        {
            let ghost b0 = buf@;
            let mut body: Vec<u8> = Vec::new();
            self.labels[i].put_wire(&mut body);
            assert(body@ =~= label_wire(labels[i as int]));
            put_length_delimited(TAG1_LEN, body.as_slice(), buf);
            proof {
                assert(labels.take(i + 1).drop_last() =~= labels.take(i as int));
                assert(buf@ =~= start + labels_wire(labels.take(i + 1)));
            }
            i += 1;
        }
        assert(labels.take(i as int) =~= labels);
        put_samples(&self.samples, buf);
        assert(buf@ =~= start + series_wire(self.deep_view()));
    }
}

/// Appends the `samples` fields of a series.
pub fn put_samples(samples: &Vec<Sample>, buf: &mut Vec<u8>)
    ensures
        final(buf)@ == old(buf)@ + samples_wire(samples@),
{
    let ghost start = buf@;
    let mut i: usize = 0;
    assert(samples@.take(0) =~= Seq::<Sample>::empty());
    assert(buf@ =~= start + samples_wire(samples@.take(0)));
    while i < samples.len()
        invariant
            i <= samples@.len(),
            buf@ == start + samples_wire(samples@.take(i as int)),
        decreases samples@.len() - i,
    {
        let mut body: Vec<u8> = Vec::new();
        samples[i].put_wire(&mut body);
        assert(body@ =~= sample_wire(samples@[i as int]));
        put_length_delimited(TAG2_LEN, body.as_slice(), buf);
        proof {
            assert(samples@.take(i + 1).drop_last() =~= samples@.take(i as int));
            assert(buf@ =~= start + samples_wire(samples@.take(i + 1)));
        }
        i += 1;
    }
    assert(samples@.take(i as int) =~= samples@);
}

proof fn lemma_labels_wire_grows(labels: Seq<LabelView>, i: int)
    requires
        0 <= i <= labels.len(),
    ensures
        labels_wire(labels.take(i)).len() <= labels_wire(labels).len(),
    decreases labels.len(),
{
    if i < labels.len() {
        assert(labels.drop_last().take(i) =~= labels.take(i));
        lemma_labels_wire_grows(labels.drop_last(), i);
    } else {
        assert(labels.take(i) =~= labels);
    }
}

proof fn lemma_samples_wire_grows(samples: Seq<Sample>, i: int)
    requires
        0 <= i <= samples.len(),
    ensures
        samples_wire(samples.take(i)).len() <= samples_wire(samples).len(),
    decreases samples.len(),
{
    if i < samples.len() {
        assert(samples.drop_last().take(i) =~= samples.take(i));
        lemma_samples_wire_grows(samples.drop_last(), i);
    } else {
        assert(samples.take(i) =~= samples);
    }
}

impl WriteRequest {
    /// Encode into `buf` (appending), each nested message once, innermost
    /// first.
    pub fn encode_into(&self, buf: &mut Vec<u8>)
        ensures
            final(buf)@ == old(buf)@ + request_wire(self.timeseries.deep_view()),
    {
        let ghost start = buf@;
        let ghost all = self.timeseries.deep_view();
        let mut i: usize = 0;
        assert(all.take(0) =~= Seq::<TimeSeriesView>::empty());
        assert(buf@ =~= start + request_wire(all.take(0)));
        while i < self.timeseries.len()
            invariant
                i <= self.timeseries@.len(),
                all == self.timeseries.deep_view(),
                buf@ == start + request_wire(all.take(i as int)),
            decreases self.timeseries@.len() - i,
        {
            let mut body: Vec<u8> = Vec::new();
            self.timeseries[i].put_wire(&mut body);
            assert(body@ =~= series_wire(all[i as int]));
            put_length_delimited(TAG1_LEN, body.as_slice(), buf);
            proof {
                assert(all.take(i + 1).drop_last() =~= all.take(i as int));
                assert(buf@ =~= start + request_wire(all.take(i + 1)));
            }
            i += 1;
        }
        assert(all.take(i as int) =~= all);
    }
}

impl TimeSeriesV2 {
    /// Appends the encoding of the series.
    pub fn put_wire(&self, buf: &mut Vec<u8>)
        ensures
            final(buf)@ == old(buf)@ + series_v2_wire(self.deep_view()),
    {
        let ghost start = buf@;
        if self.labels_refs.len() > 0 {
            let mut body: Vec<u8> = Vec::new();
            let mut i: usize = 0;
            let ghost refs = self.labels_refs@;
            assert(refs.take(0) =~= Seq::<u32>::empty());
            assert(body@ =~= refs_wire(refs.take(0)));
            while i < self.labels_refs.len()
                invariant
                    i <= self.labels_refs@.len(),
                    refs == self.labels_refs@,
                    body@ == refs_wire(refs.take(i as int)),
                decreases self.labels_refs@.len() - i,
            {
                put_varint(self.labels_refs[i] as u64, &mut body);
                assert(refs.take(i + 1).drop_last() =~= refs.take(i as int));
                i += 1;
            }
            assert(refs.take(i as int) =~= refs);
            put_length_delimited(TAG1_LEN, body.as_slice(), buf);
        } else {
            assert(buf@ =~= start + Seq::<u8>::empty());
        }
        put_samples(&self.samples, buf);
        assert(buf@ =~= start + series_v2_wire(self.deep_view()));
    }
}

impl WriteRequestV2 {
    /// Encode into `buf` (appending), each nested message once, innermost
    /// first.
    pub fn encode_into(&self, buf: &mut Vec<u8>)
        ensures
            final(buf)@ == old(buf)@ + request_v2_wire(
                self.symbols.deep_view(),
                self.timeseries.deep_view(),
            ),
    {
        let ghost start = buf@;
        let ghost symbols = self.symbols.deep_view();
        let ghost all = self.timeseries.deep_view();
        let mut i: usize = 0;
        assert(symbols.take(0) =~= Seq::<Seq<char>>::empty());
        assert(buf@ =~= start + symbols_wire(symbols.take(0)));
        while i < self.symbols.len()
            invariant
                i <= self.symbols@.len(),
                symbols == self.symbols.deep_view(),
                buf@ == start + symbols_wire(symbols.take(i as int)),
            decreases self.symbols@.len() - i,
        {
            put_length_delimited(TAG4_LEN, self.symbols[i].as_str().as_bytes(), buf);
            proof {
                assert(symbols.take(i + 1).drop_last() =~= symbols.take(i as int));
                assert(buf@ =~= start + symbols_wire(symbols.take(i + 1)));
            }
            i += 1;
        }
        assert(symbols.take(i as int) =~= symbols);
        i = 0;
        assert(all.take(0) =~= Seq::<TimeSeriesV2View>::empty());
        assert(buf@ =~= start + symbols_wire(symbols) + all_series_v2_wire(all.take(0)));
        while i < self.timeseries.len()
            invariant
                i <= self.timeseries@.len(),
                all == self.timeseries.deep_view(),
                buf@ == start + symbols_wire(symbols) + all_series_v2_wire(all.take(i as int)),
            decreases self.timeseries@.len() - i,
        {
            let mut body: Vec<u8> = Vec::new();
            self.timeseries[i].put_wire(&mut body);
            assert(body@ =~= series_v2_wire(all[i as int]));
            put_length_delimited(TAG5_LEN, body.as_slice(), buf);
            proof {
                assert(all.take(i + 1).drop_last() =~= all.take(i as int));
                assert(buf@ =~= start + symbols_wire(symbols) + all_series_v2_wire(
                    all.take(i + 1),
                ));
            }
            i += 1;
        }
        assert(all.take(i as int) =~= all);
        assert(buf@ =~= start + request_v2_wire(symbols, all));
    }
}

} // verus!
