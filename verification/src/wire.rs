//! Reading the protobuf encoding back.
//!
//! A mathematical reader of the messages that [`crate::model`] encodes, and
//! the proof that it gives back what was written. It reads as any protobuf
//! reader does: a field that is left out has its default value, of a field
//! that occurs twice the last one counts, repeated fields keep their order,
//! and fields that a message does not have are passed over.

use crate::model;
use crate::model::{
    LabelView, Sample, TimeSeriesV2View, TimeSeriesView, TAG1_DOUBLE, TAG1_LEN, TAG2_LEN,
    TAG2_VARINT, TAG4_LEN, TAG5_LEN,
};
use vstd::bytes::*;
use vstd::prelude::*;
use vstd::utf8::*;

verus! {

// --- fields ---
/// One field of a message, by its tag.
#[verifier::ext_equal]
pub enum Field {
    /// A length-delimited field.
    Bytes(u8, Seq<u8>),
    /// A field of eight bytes.
    Fixed(u8, u64),
    /// A varint field.
    Number(u8, u64),
}

/// The number that a varint at the start of the bytes stands for, and the
/// number of bytes that it takes.
pub open spec fn varint_prefix(b: Seq<u8>) -> Option<(nat, nat)>
    decreases b.len(),
{
    if b.len() == 0 {
        None
    } else if b[0] < 0x80 {
        Some((b[0] as nat, 1))
    } else {
        match varint_prefix(b.skip(1)) {
            Some((value, n)) => Some(((b[0] - 0x80) as nat + 0x80 * value, n + 1)),
            None => None,
        }
    }
}

/// A varint reads back.
pub proof fn lemma_varint_reads_back(value: u64, rest: Seq<u8>)
    ensures
        varint_prefix(model::varint(value) + rest) == Some(
            (value as nat, model::varint(value).len()),
        ),
    decreases value,
{
    let b = model::varint(value) + rest;
    if value < 0x80 {
        assert(b[0] == value as u8);
    } else {
        lemma_varint_reads_back(value / 0x80, rest);
        assert(b[0] == (value % 0x80 + 0x80) as u8);
        assert(b.skip(1) =~= model::varint(value / 0x80) + rest);
    }
}

/// The field at the start of the bytes, and the number of bytes that it
/// takes. All tags of the messages here take one byte.
pub open spec fn field_prefix(b: Seq<u8>) -> Option<(Field, nat)> {
    if b.len() == 0 || b[0] >= 0x80 {
        None
    } else {
        let tag = b[0];
        let tail = b.skip(1);
        if tag % 8 == 2 {
            match varint_prefix(tail) {
                Some((len, n)) => if n + len <= tail.len() {
                    Some((Field::Bytes(tag, tail.subrange(n as int, (n + len) as int)), 1 + n + len))
                } else {
                    None
                },
                None => None,
            }
        } else if tag % 8 == 1 {
            if tail.len() >= 8 {
                Some((Field::Fixed(tag, spec_u64_from_le_bytes(tail.take(8))), 9))
            } else {
                None
            }
        } else if tag % 8 == 0 {
            match varint_prefix(tail) {
                Some((value, n)) => if value <= u64::MAX {
                    Some((Field::Number(tag, value as u64), 1 + n))
                } else {
                    None
                },
                None => None,
            }
        } else {
            None
        }
    }
}

/// The fields of a message, in order; none where the bytes are no message.
pub open spec fn fields(b: Seq<u8>) -> Option<Seq<Field>>
    decreases b.len(),
{
    if b.len() == 0 {
        Some(Seq::empty())
    } else {
        match field_prefix(b) {
            Some((field, n)) => if 0 < n <= b.len() {
                match fields(b.skip(n as int)) {
                    Some(more) => Some(seq![field] + more),
                    None => None,
                }
            } else {
                None
            },
            None => None,
        }
    }
}

/// The encoding of a field.
pub open spec fn field_wire(field: Field) -> Seq<u8> {
    match field {
        Field::Bytes(tag, body) => model::length_delimited(tag, body),
        Field::Fixed(tag, bits) => seq![tag] + spec_u64_to_le_bytes_open(bits),
        Field::Number(tag, value) => seq![tag] + model::varint(value),
    }
}

/// Whether a field's tag is one that a reader tells its kind by, and its
/// length one that a varint holds.
pub open spec fn well_tagged(field: Field) -> bool {
    match field {
        Field::Bytes(tag, body) => tag < 0x80 && tag % 8 == 2 && body.len() <= u64::MAX,
        Field::Fixed(tag, _) => tag < 0x80 && tag % 8 == 1,
        Field::Number(tag, _) => tag < 0x80 && tag % 8 == 0,
    }
}

/// A field reads back.
proof fn lemma_field_reads_back(field: Field, rest: Seq<u8>)
    requires
        well_tagged(field),
    ensures
        field_prefix(field_wire(field) + rest) == Some((field, field_wire(field).len())),
        field_wire(field).len() > 0,
{
    let b = field_wire(field) + rest;
    match field {
        Field::Bytes(tag, body) => {
            let len = model::varint(body.len() as u64);
            assert(b.skip(1) =~= len + (body + rest));
            lemma_varint_reads_back(body.len() as u64, body + rest);
            assert(b.skip(1).subrange(len.len() as int, (len.len() + body.len()) as int) =~= body);
        },
        Field::Fixed(tag, bits) => {
            spec_u64_to_le_bytes_to_open(bits);
            lemma_auto_spec_u64_to_from_le_bytes();
            assert(spec_u64_to_le_bytes(bits).len() == 8);
            assert(b.skip(1).take(8) =~= spec_u64_to_le_bytes(bits));
        },
        Field::Number(tag, value) => {
            assert(b.skip(1) =~= model::varint(value) + rest);
            lemma_varint_reads_back(value, rest);
        },
    }
}

/// The encoding of a list of fields, one after the other.
pub open spec fn fields_wire(list: Seq<Field>) -> Seq<u8>
    decreases list.len(),
{
    if list.len() == 0 {
        Seq::empty()
    } else {
        fields_wire(list.drop_last()) + field_wire(list.last())
    }
}

/// The encoding of a single field.
proof fn lemma_single_field(field: Field)
    ensures
        fields_wire(seq![field]) == field_wire(field),
{
    assert(seq![field].drop_last() =~= Seq::<Field>::empty());
    assert(fields_wire(Seq::<Field>::empty()) =~= Seq::<u8>::empty());
    assert(fields_wire(seq![field]) =~= field_wire(field));
}

/// Whether all fields of a list are well tagged.
pub open spec fn all_well_tagged(list: Seq<Field>) -> bool {
    forall|i: int| 0 <= i < list.len() ==> well_tagged(#[trigger] list[i])
}

/// A list of fields reads back, before whatever follows.
proof fn lemma_fields_read_back(list: Seq<Field>, rest: Seq<u8>, more: Seq<Field>)
    requires
        all_well_tagged(list),
        fields(rest) == Some(more),
    ensures
        fields(fields_wire(list) + rest) == Some(list + more),
    decreases list.len(),
{
    if list.len() == 0 {
        assert(fields_wire(list) + rest =~= rest);
        assert(list + more =~= more);
    } else {
        let last = list.last();
        let b = field_wire(last) + rest;
        lemma_field_reads_back(last, rest);
        assert(b.skip(field_wire(last).len() as int) =~= rest);
        assert(fields(b) == Some(seq![last] + more));
        lemma_fields_read_back(list.drop_last(), b, seq![last] + more);
        assert(fields_wire(list) + rest =~= fields_wire(list.drop_last()) + b);
        assert(list + more =~= list.drop_last() + (seq![last] + more));
    }
}

/// A message reads back as its fields.
proof fn lemma_message_reads_back(list: Seq<Field>)
    requires
        all_well_tagged(list),
    ensures
        fields(fields_wire(list)) == Some(list),
{
    lemma_fields_read_back(list, Seq::empty(), Seq::empty());
    assert(fields_wire(list) + Seq::<u8>::empty() =~= fields_wire(list));
    assert(list + Seq::<Field>::empty() =~= list);
}

/// The encoding of two lists of fields is that of one after the other.
proof fn lemma_fields_wire_add(a: Seq<Field>, b: Seq<Field>)
    ensures
        fields_wire(a + b) == fields_wire(a) + fields_wire(b),
    decreases b.len(),
{
    if b.len() == 0 {
        assert(a + b =~= a);
        assert(fields_wire(a) + fields_wire(b) =~= fields_wire(a));
    } else {
        assert((a + b).drop_last() =~= a + b.drop_last());
        lemma_fields_wire_add(a, b.drop_last());
        assert(fields_wire(a + b) =~= fields_wire(a) + fields_wire(b));
    }
}

/// The fields of a list of messages under one tag.
pub open spec fn message_fields(tag: u8, bodies: Seq<Seq<u8>>) -> Seq<Field> {
    Seq::new(bodies.len(), |i: int| Field::Bytes(tag, bodies[i]))
}

/// A field's encoding is no longer than that of the list it is in.
proof fn lemma_field_fits(list: Seq<Field>, i: int)
    requires
        0 <= i < list.len(),
    ensures
        field_wire(list[i]).len() <= fields_wire(list).len(),
    decreases list.len(),
{
    if i < list.len() - 1 {
        lemma_field_fits(list.drop_last(), i);
        assert(list.drop_last()[i] == list[i]);
    }
}

/// In a list whose encoding has a length of 64 bits, so has every field.
proof fn lemma_messages_tagged(tag: u8, bodies: Seq<Seq<u8>>)
    requires
        tag < 0x80,
        tag % 8 == 2,
        fields_wire(message_fields(tag, bodies)).len() <= u64::MAX,
    ensures
        all_well_tagged(message_fields(tag, bodies)),
        forall|i: int| 0 <= i < bodies.len() ==> (#[trigger] bodies[i]).len() <= u64::MAX,
{
    let list = message_fields(tag, bodies);
    assert forall|i: int| 0 <= i < bodies.len() implies (#[trigger] bodies[i]).len()
        <= u64::MAX by {
        lemma_field_fits(list, i);
        assert(list[i] == Field::Bytes(tag, bodies[i]));
    }
    assert forall|i: int| 0 <= i < list.len() implies well_tagged(#[trigger] list[i]) by {
        assert(bodies[i].len() <= u64::MAX);
    }
}

// --- labels ---
/// The label that the first `n` fields give.
pub open spec fn label_after(list: Seq<Field>, n: int) -> LabelView
    decreases n,
{
    if n <= 0 {
        LabelView { name: Seq::empty(), value: Seq::empty() }
    } else {
        let before = label_after(list, n - 1);
        match list[n - 1] {
            Field::Bytes(tag, body) => if tag == TAG1_LEN {
                LabelView { name: decode_utf8(body), value: before.value }
            } else if tag == TAG2_LEN {
                LabelView { name: before.name, value: decode_utf8(body) }
            } else {
                before
            },
            _ => before,
        }
    }
}

/// The label that a message gives.
pub open spec fn read_label(b: Seq<u8>) -> Option<LabelView> {
    match fields(b) {
        Some(list) => Some(label_after(list, list.len() as int)),
        None => None,
    }
}

/// The field of a text, none where it is empty.
spec fn text_fields(tag: u8, text: Seq<char>) -> Seq<Field> {
    if text.len() == 0 {
        Seq::empty()
    } else {
        seq![Field::Bytes(tag, encode_utf8(text))]
    }
}

proof fn lemma_text_fields(tag: u8, text: Seq<char>)
    ensures
        fields_wire(text_fields(tag, text)) == model::string_field(tag, text),
{
    if text.len() > 0 {
        lemma_single_field(Field::Bytes(tag, encode_utf8(text)));
    }
}

/// A label reads back.
proof fn lemma_label_reads_back(label: LabelView)
    requires
        model::label_wire(label).len() <= u64::MAX,
    ensures
        read_label(model::label_wire(label)) == Some(label),
{
    let name = text_fields(TAG1_LEN, label.name);
    let value = text_fields(TAG2_LEN, label.value);
    let list = name + value;
    lemma_text_fields(TAG1_LEN, label.name);
    lemma_text_fields(TAG2_LEN, label.value);
    lemma_fields_wire_add(name, value);
    encode_utf8_decode_utf8(label.name);
    encode_utf8_decode_utf8(label.value);
    lemma_message_reads_back(list);
    reveal_with_fuel(label_after, 3);
    assert(label_after(list, list.len() as int) =~= label);
}

// --- samples ---
/// The signed number that an `int64` varint stands for.
pub open spec fn signed(value: u64) -> i64 {
    if value >= 0x8000_0000_0000_0000 {
        (value - 0x1_0000_0000_0000_0000) as i64
    } else {
        value as i64
    }
}

/// The sample that the first `n` fields give.
pub open spec fn sample_after(list: Seq<Field>, n: int) -> Sample
    decreases n,
{
    if n <= 0 {
        Sample { value_bits: 0, timestamp: 0 }
    } else {
        let before = sample_after(list, n - 1);
        match list[n - 1] {
            Field::Fixed(tag, bits) => if tag == TAG1_DOUBLE {
                Sample { value_bits: bits, timestamp: before.timestamp }
            } else {
                before
            },
            Field::Number(tag, value) => if tag == TAG2_VARINT {
                Sample { value_bits: before.value_bits, timestamp: signed(value) }
            } else {
                before
            },
            _ => before,
        }
    }
}

/// The sample that a message gives.
pub open spec fn read_sample(b: Seq<u8>) -> Option<Sample> {
    match fields(b) {
        Some(list) => Some(sample_after(list, list.len() as int)),
        None => None,
    }
}

/// A sample as a reader sees it: a negative zero is written as the default
/// value, which is the positive one.
pub open spec fn plain_sample(sample: Sample) -> Sample {
    Sample {
        value_bits: if model::is_zero_bits(sample.value_bits) {
            0
        } else {
            sample.value_bits
        },
        timestamp: sample.timestamp,
    }
}

/// A sample reads back.
proof fn lemma_sample_reads_back(sample: Sample)
    ensures
        read_sample(model::sample_wire(sample)) == Some(plain_sample(sample)),
        model::sample_wire(sample).len() <= u64::MAX,
{
    let bits = sample.value_bits;
    let double = if model::is_zero_bits(bits) {
        Seq::<Field>::empty()
    } else {
        seq![Field::Fixed(TAG1_DOUBLE, bits)]
    };
    let time = if sample.timestamp == 0 {
        Seq::<Field>::empty()
    } else {
        seq![Field::Number(TAG2_VARINT, model::twos_complement(sample.timestamp))]
    };
    let list = double + time;
    lemma_single_field(Field::Fixed(TAG1_DOUBLE, bits));
    lemma_single_field(Field::Number(TAG2_VARINT, model::twos_complement(sample.timestamp)));
    lemma_fields_wire_add(double, time);
    assert(model::sample_wire(sample) =~= fields_wire(list));
    lemma_message_reads_back(list);
    reveal_with_fuel(sample_after, 3);
    assert(sample_after(list, list.len() as int) == plain_sample(sample));
    lemma_varint_short(model::twos_complement(sample.timestamp));
}

/// A varint takes at most ten bytes.
proof fn lemma_varint_short(value: u64)
    ensures
        model::varint(value).len() <= 10,
{
    reveal_with_fuel(model::varint, 11);
}

// --- series ---
/// The series that the first `n` fields give.
pub open spec fn series_after(list: Seq<Field>, n: int) -> Option<TimeSeriesView>
    decreases n,
{
    if n <= 0 {
        Some(TimeSeriesView { labels: Seq::empty(), samples: Seq::empty() })
    } else {
        match series_after(list, n - 1) {
            None => None,
            Some(before) => match list[n - 1] {
                Field::Bytes(tag, body) => if tag == TAG1_LEN {
                    match read_label(body) {
                        Some(label) => Some(
                            TimeSeriesView {
                                labels: before.labels.push(label),
                                samples: before.samples,
                            },
                        ),
                        None => None,
                    }
                } else if tag == TAG2_LEN {
                    match read_sample(body) {
                        Some(sample) => Some(
                            TimeSeriesView {
                                labels: before.labels,
                                samples: before.samples.push(sample),
                            },
                        ),
                        None => None,
                    }
                } else {
                    Some(before)
                },
                _ => Some(before),
            },
        }
    }
}

/// The series that a message gives.
pub open spec fn read_series(b: Seq<u8>) -> Option<TimeSeriesView> {
    match fields(b) {
        Some(list) => series_after(list, list.len() as int),
        None => None,
    }
}

/// Samples as a reader sees them.
pub open spec fn plain_samples(samples: Seq<Sample>) -> Seq<Sample> {
    Seq::new(samples.len(), |i: int| plain_sample(samples[i]))
}

/// A series as a reader sees it.
pub open spec fn plain_series(series: TimeSeriesView) -> TimeSeriesView {
    TimeSeriesView { labels: series.labels, samples: plain_samples(series.samples) }
}

spec fn label_bodies(labels: Seq<LabelView>) -> Seq<Seq<u8>> {
    Seq::new(labels.len(), |i: int| model::label_wire(labels[i]))
}

spec fn sample_bodies(samples: Seq<Sample>) -> Seq<Seq<u8>> {
    Seq::new(samples.len(), |i: int| model::sample_wire(samples[i]))
}

proof fn lemma_label_fields(labels: Seq<LabelView>)
    ensures
        fields_wire(message_fields(TAG1_LEN, label_bodies(labels))) == model::labels_wire(labels),
    decreases labels.len(),
{
    if labels.len() > 0 {
        lemma_label_fields(labels.drop_last());
        let list = message_fields(TAG1_LEN, label_bodies(labels));
        assert(list.drop_last() =~= message_fields(TAG1_LEN, label_bodies(labels.drop_last())));
        assert(list.last() == Field::Bytes(TAG1_LEN, model::label_wire(labels.last())));
    }
}

proof fn lemma_sample_fields(samples: Seq<Sample>)
    ensures
        fields_wire(message_fields(TAG2_LEN, sample_bodies(samples))) == model::samples_wire(
            samples,
        ),
    decreases samples.len(),
{
    if samples.len() > 0 {
        lemma_sample_fields(samples.drop_last());
        let list = message_fields(TAG2_LEN, sample_bodies(samples));
        assert(list.drop_last() =~= message_fields(TAG2_LEN, sample_bodies(samples.drop_last())));
        assert(list.last() == Field::Bytes(TAG2_LEN, model::sample_wire(samples.last())));
    }
}

/// The fields of a series give its labels and then its samples.
proof fn lemma_series_after(
    labels: Seq<LabelView>,
    samples: Seq<Sample>,
    list: Seq<Field>,
    n: int,
)
    requires
        list == message_fields(TAG1_LEN, label_bodies(labels)) + message_fields(
            TAG2_LEN,
            sample_bodies(samples),
        ),
        forall|i: int|
            0 <= i < labels.len() ==> read_label(#[trigger] model::label_wire(labels[i])) == Some(
                labels[i],
            ),
        0 <= n <= list.len(),
    ensures
        n <= labels.len() ==> series_after(list, n) == Some(
            TimeSeriesView { labels: labels.take(n), samples: Seq::empty() },
        ),
        n >= labels.len() ==> series_after(list, n) == Some(
            TimeSeriesView { labels, samples: plain_samples(samples.take(n - labels.len())) },
        ),
    decreases n,
{
    let l = labels.len() as int;
    if n == 0 {
        assert(labels.take(0) =~= Seq::<LabelView>::empty());
        if l == 0 {
            assert(labels =~= Seq::<LabelView>::empty());
            assert(plain_samples(samples.take(0)) =~= Seq::<Sample>::empty());
        }
    } else {
        lemma_series_after(labels, samples, list, n - 1);
        if n <= l {
            assert(list[n - 1] == Field::Bytes(TAG1_LEN, model::label_wire(labels[n - 1])));
            assert(read_label(model::label_wire(labels[n - 1])) == Some(labels[n - 1]));
            assert(labels.take(n - 1).push(labels[n - 1]) =~= labels.take(n));
            if n == l {
                assert(labels.take(n) =~= labels);
                assert(plain_samples(samples.take(0)) =~= Seq::<Sample>::empty());
            }
        } else {
            let k = n - 1 - l;
            assert(list[n - 1] == Field::Bytes(TAG2_LEN, model::sample_wire(samples[k])));
            lemma_sample_reads_back(samples[k]);
            assert(plain_samples(samples.take(k)).push(plain_sample(samples[k]))
                =~= plain_samples(samples.take(k + 1)));
        }
    }
}

/// A series reads back.
proof fn lemma_series_reads_back(series: TimeSeriesView)
    requires
        model::series_wire(series).len() <= u64::MAX,
    ensures
        read_series(model::series_wire(series)) == Some(plain_series(series)),
{
    let labels = series.labels;
    let samples = series.samples;
    let a = message_fields(TAG1_LEN, label_bodies(labels));
    let b = message_fields(TAG2_LEN, sample_bodies(samples));
    lemma_label_fields(labels);
    lemma_sample_fields(samples);
    lemma_fields_wire_add(a, b);
    lemma_messages_tagged(TAG1_LEN, label_bodies(labels));
    lemma_messages_tagged(TAG2_LEN, sample_bodies(samples));
    assert(all_well_tagged(a + b));
    lemma_message_reads_back(a + b);
    assert forall|i: int| 0 <= i < labels.len() implies read_label(
        #[trigger] model::label_wire(labels[i]),
    ) == Some(labels[i]) by {
        assert(label_bodies(labels)[i].len() <= u64::MAX);
        lemma_label_reads_back(labels[i]);
    }
    lemma_series_after(labels, samples, a + b, (a + b).len() as int);
    assert(samples.take(samples.len() as int) =~= samples);
}

// --- remote-write 1.0 requests ---
/// The batch that the first `n` fields give.
pub open spec fn request_after(list: Seq<Field>, n: int) -> Option<Seq<TimeSeriesView>>
    decreases n,
{
    if n <= 0 {
        Some(Seq::empty())
    } else {
        match request_after(list, n - 1) {
            None => None,
            Some(before) => match list[n - 1] {
                Field::Bytes(tag, body) => if tag == TAG1_LEN {
                    match read_series(body) {
                        Some(series) => Some(before.push(series)),
                        None => None,
                    }
                } else {
                    Some(before)
                },
                _ => Some(before),
            },
        }
    }
}

/// The batch that a remote-write 1.0 request gives.
pub open spec fn read_request(b: Seq<u8>) -> Option<Seq<TimeSeriesView>> {
    match fields(b) {
        Some(list) => request_after(list, list.len() as int),
        None => None,
    }
}

/// A batch as a reader sees it.
pub open spec fn plain_batch(batch: Seq<TimeSeriesView>) -> Seq<TimeSeriesView> {
    Seq::new(batch.len(), |i: int| plain_series(batch[i]))
}

spec fn series_bodies(batch: Seq<TimeSeriesView>) -> Seq<Seq<u8>> {
    Seq::new(batch.len(), |i: int| model::series_wire(batch[i]))
}

proof fn lemma_request_fields(batch: Seq<TimeSeriesView>)
    ensures
        fields_wire(message_fields(TAG1_LEN, series_bodies(batch))) == model::request_wire(batch),
    decreases batch.len(),
{
    if batch.len() > 0 {
        lemma_request_fields(batch.drop_last());
        let list = message_fields(TAG1_LEN, series_bodies(batch));
        assert(list.drop_last() =~= message_fields(TAG1_LEN, series_bodies(batch.drop_last())));
        assert(list.last() == Field::Bytes(TAG1_LEN, model::series_wire(batch.last())));
    }
}

proof fn lemma_request_after(batch: Seq<TimeSeriesView>, n: int)
    requires
        0 <= n <= batch.len(),
        forall|i: int| 0 <= i < batch.len() ==> (#[trigger] series_bodies(batch)[i]).len()
            <= u64::MAX,
    ensures
        request_after(message_fields(TAG1_LEN, series_bodies(batch)), n) == Some(
            plain_batch(batch.take(n)),
        ),
    decreases n,
{
    let list = message_fields(TAG1_LEN, series_bodies(batch));
    if n == 0 {
        assert(plain_batch(batch.take(0)) =~= Seq::<TimeSeriesView>::empty());
    } else {
        lemma_request_after(batch, n - 1);
        assert(series_bodies(batch)[n - 1].len() <= u64::MAX);
        lemma_series_reads_back(batch[n - 1]);
        assert(list[n - 1] == Field::Bytes(TAG1_LEN, model::series_wire(batch[n - 1])));
        assert(plain_batch(batch.take(n - 1)).push(plain_series(batch[n - 1])) =~= plain_batch(
            batch.take(n),
        ));
    }
}

/// A remote-write 1.0 request gives back the batch that was written: every
/// series in order, with its labels and samples. Only a negative zero comes
/// back as the positive one.
pub proof fn lemma_request_reads_back(batch: Seq<TimeSeriesView>)
    requires
        model::request_wire(batch).len() <= u64::MAX,
    ensures
        read_request(model::request_wire(batch)) == Some(plain_batch(batch)),
{
    lemma_request_fields(batch);
    let list = message_fields(TAG1_LEN, series_bodies(batch));
    lemma_messages_tagged(TAG1_LEN, series_bodies(batch));
    lemma_message_reads_back(list);
    lemma_request_after(batch, batch.len() as int);
    assert(batch.take(batch.len() as int) =~= batch);
}

/// Whether no sample of a batch is a negative zero.
pub open spec fn no_negative_zero(batch: Seq<TimeSeriesView>) -> bool {
    forall|i: int, j: int|
        #![trigger batch[i].samples[j]]
        0 <= i < batch.len() && 0 <= j < batch[i].samples.len() ==> batch[i].samples[j].value_bits
            != 0x8000_0000_0000_0000
}

/// Two batches without negative zeros that are written alike are the same.
pub proof fn lemma_request_injective(a: Seq<TimeSeriesView>, b: Seq<TimeSeriesView>)
    requires
        model::request_wire(a).len() <= u64::MAX,
        model::request_wire(a) == model::request_wire(b),
        no_negative_zero(a),
        no_negative_zero(b),
    ensures
        a == b,
{
    lemma_request_reads_back(a);
    lemma_request_reads_back(b);
    lemma_plain(a);
    lemma_plain(b);
}

/// Without negative zeros a reader sees the batch as it is.
proof fn lemma_plain(batch: Seq<TimeSeriesView>)
    requires
        no_negative_zero(batch),
    ensures
        plain_batch(batch) == batch,
{
    assert forall|i: int| 0 <= i < batch.len() implies plain_batch(batch)[i] == batch[i] by {
        let samples = batch[i].samples;
        assert forall|j: int| 0 <= j < samples.len() implies plain_samples(samples)[j]
            == samples[j] by {
            assert(batch[i].samples[j].value_bits != 0x8000_0000_0000_0000);
        }
        assert(plain_samples(samples) =~= samples);
    }
    assert(plain_batch(batch) =~= batch);
}

// --- remote-write 2.0 requests ---
/// The numbers of a packed list.
pub open spec fn read_packed(b: Seq<u8>) -> Option<Seq<u32>>
    decreases b.len(),
{
    if b.len() == 0 {
        Some(Seq::empty())
    } else {
        match varint_prefix(b) {
            Some((value, n)) => if 0 < n <= b.len() && value <= u32::MAX {
                match read_packed(b.skip(n as int)) {
                    Some(more) => Some(seq![value as u32] + more),
                    None => None,
                }
            } else {
                None
            },
            None => None,
        }
    }
}

proof fn lemma_packed_reads_back(refs: Seq<u32>, rest: Seq<u8>, more: Seq<u32>)
    requires
        read_packed(rest) == Some(more),
    ensures
        read_packed(model::refs_wire(refs) + rest) == Some(refs + more),
    decreases refs.len(),
{
    if refs.len() == 0 {
        assert(model::refs_wire(refs) + rest =~= rest);
        assert(refs + more =~= more);
    } else {
        let last = refs.last();
        let number = model::varint(last as u64);
        let b = number + rest;
        lemma_varint_reads_back(last as u64, rest);
        assert(number.len() > 0);
        assert(b.skip(number.len() as int) =~= rest);
        assert(read_packed(b) == Some(seq![last] + more));
        lemma_packed_reads_back(refs.drop_last(), b, seq![last] + more);
        assert(model::refs_wire(refs) + rest =~= model::refs_wire(refs.drop_last()) + b);
        assert(refs + more =~= refs.drop_last() + (seq![last] + more));
    }
}

/// The 2.0 series that the first `n` fields give.
pub open spec fn series_v2_after(list: Seq<Field>, n: int) -> Option<TimeSeriesV2View>
    decreases n,
{
    if n <= 0 {
        Some(TimeSeriesV2View { labels_refs: Seq::empty(), samples: Seq::empty() })
    } else {
        match series_v2_after(list, n - 1) {
            None => None,
            Some(before) => match list[n - 1] {
                Field::Bytes(tag, body) => if tag == TAG1_LEN {
                    match read_packed(body) {
                        Some(refs) => Some(
                            TimeSeriesV2View {
                                labels_refs: before.labels_refs + refs,
                                samples: before.samples,
                            },
                        ),
                        None => None,
                    }
                } else if tag == TAG2_LEN {
                    match read_sample(body) {
                        Some(sample) => Some(
                            TimeSeriesV2View {
                                labels_refs: before.labels_refs,
                                samples: before.samples.push(sample),
                            },
                        ),
                        None => None,
                    }
                } else {
                    Some(before)
                },
                _ => Some(before),
            },
        }
    }
}

/// The 2.0 series that a message gives.
pub open spec fn read_series_v2(b: Seq<u8>) -> Option<TimeSeriesV2View> {
    match fields(b) {
        Some(list) => series_v2_after(list, list.len() as int),
        None => None,
    }
}

/// A 2.0 series as a reader sees it.
pub open spec fn plain_series_v2(series: TimeSeriesV2View) -> TimeSeriesV2View {
    TimeSeriesV2View {
        labels_refs: series.labels_refs,
        samples: plain_samples(series.samples),
    }
}

spec fn refs_fields(refs: Seq<u32>) -> Seq<Field> {
    if refs.len() == 0 {
        Seq::empty()
    } else {
        seq![Field::Bytes(TAG1_LEN, model::refs_wire(refs))]
    }
}

proof fn lemma_series_v2_after(series: TimeSeriesV2View, list: Seq<Field>, n: int)
    requires
        list == refs_fields(series.labels_refs) + message_fields(
            TAG2_LEN,
            sample_bodies(series.samples),
        ),
        refs_fields(series.labels_refs).len() <= n <= list.len(),
    ensures
        series_v2_after(list, n) == Some(
            TimeSeriesV2View {
                labels_refs: series.labels_refs,
                samples: plain_samples(
                    series.samples.take(n - refs_fields(series.labels_refs).len()),
                ),
            },
        ),
    decreases n,
{
    let refs = series.labels_refs;
    let head = refs_fields(refs).len() as int;
    if n == head {
        assert(plain_samples(series.samples.take(0)) =~= Seq::<Sample>::empty());
        if head == 0 {
            assert(refs =~= Seq::<u32>::empty());
        } else {
            reveal_with_fuel(series_v2_after, 2);
            lemma_packed_reads_back(refs, Seq::empty(), Seq::empty());
            assert(model::refs_wire(refs) + Seq::<u8>::empty() =~= model::refs_wire(refs));
            assert(refs + Seq::<u32>::empty() =~= refs);
            assert(Seq::<u32>::empty() + refs =~= refs);
            assert(list[0] == Field::Bytes(TAG1_LEN, model::refs_wire(refs)));
        }
    } else {
        lemma_series_v2_after(series, list, n - 1);
        let k = n - 1 - head;
        assert(list[n - 1] == Field::Bytes(TAG2_LEN, model::sample_wire(series.samples[k])));
        lemma_sample_reads_back(series.samples[k]);
        assert(plain_samples(series.samples.take(k)).push(plain_sample(series.samples[k]))
            =~= plain_samples(series.samples.take(k + 1)));
    }
}

proof fn lemma_series_v2_reads_back(series: TimeSeriesV2View)
    requires
        model::series_v2_wire(series).len() <= u64::MAX,
    ensures
        read_series_v2(model::series_v2_wire(series)) == Some(plain_series_v2(series)),
{
    let a = refs_fields(series.labels_refs);
    let b = message_fields(TAG2_LEN, sample_bodies(series.samples));
    lemma_sample_fields(series.samples);
    lemma_fields_wire_add(a, b);
    if a.len() > 0 {
        lemma_single_field(a[0]);
        assert(a =~= seq![a[0]]);
        lemma_field_fits(a, 0);
    }
    lemma_messages_tagged(TAG2_LEN, sample_bodies(series.samples));
    assert(all_well_tagged(a + b));
    lemma_message_reads_back(a + b);
    lemma_series_v2_after(series, a + b, (a + b).len() as int);
    assert(series.samples.take(series.samples.len() as int) =~= series.samples);
}

/// What a remote-write 2.0 request holds.
#[verifier::ext_equal]
pub struct RequestV2View {
    pub symbols: Seq<Seq<char>>,
    pub timeseries: Seq<TimeSeriesV2View>,
}

/// The request that the first `n` fields give.
pub open spec fn request_v2_after(list: Seq<Field>, n: int) -> Option<RequestV2View>
    decreases n,
{
    if n <= 0 {
        Some(RequestV2View { symbols: Seq::empty(), timeseries: Seq::empty() })
    } else {
        match request_v2_after(list, n - 1) {
            None => None,
            Some(before) => match list[n - 1] {
                Field::Bytes(tag, body) => if tag == TAG4_LEN {
                    Some(
                        RequestV2View {
                            symbols: before.symbols.push(decode_utf8(body)),
                            timeseries: before.timeseries,
                        },
                    )
                } else if tag == TAG5_LEN {
                    match read_series_v2(body) {
                        Some(series) => Some(
                            RequestV2View {
                                symbols: before.symbols,
                                timeseries: before.timeseries.push(series),
                            },
                        ),
                        None => None,
                    }
                } else {
                    Some(before)
                },
                _ => Some(before),
            },
        }
    }
}

/// What a remote-write 2.0 request gives.
pub open spec fn read_request_v2(b: Seq<u8>) -> Option<RequestV2View> {
    match fields(b) {
        Some(list) => request_v2_after(list, list.len() as int),
        None => None,
    }
}

/// 2.0 series as a reader sees them.
pub open spec fn plain_batch_v2(batch: Seq<TimeSeriesV2View>) -> Seq<TimeSeriesV2View> {
    Seq::new(batch.len(), |i: int| plain_series_v2(batch[i]))
}

spec fn symbol_bodies(symbols: Seq<Seq<char>>) -> Seq<Seq<u8>> {
    Seq::new(symbols.len(), |i: int| encode_utf8(symbols[i]))
}

spec fn series_v2_bodies(batch: Seq<TimeSeriesV2View>) -> Seq<Seq<u8>> {
    Seq::new(batch.len(), |i: int| model::series_v2_wire(batch[i]))
}

proof fn lemma_symbol_fields(symbols: Seq<Seq<char>>)
    ensures
        fields_wire(message_fields(TAG4_LEN, symbol_bodies(symbols))) == model::symbols_wire(
            symbols,
        ),
    decreases symbols.len(),
{
    if symbols.len() > 0 {
        lemma_symbol_fields(symbols.drop_last());
        let list = message_fields(TAG4_LEN, symbol_bodies(symbols));
        assert(list.drop_last() =~= message_fields(TAG4_LEN, symbol_bodies(symbols.drop_last())));
        assert(list.last() == Field::Bytes(TAG4_LEN, encode_utf8(symbols.last())));
    }
}

proof fn lemma_series_v2_fields(batch: Seq<TimeSeriesV2View>)
    ensures
        fields_wire(message_fields(TAG5_LEN, series_v2_bodies(batch)))
            == model::all_series_v2_wire(batch),
    decreases batch.len(),
{
    if batch.len() > 0 {
        lemma_series_v2_fields(batch.drop_last());
        let list = message_fields(TAG5_LEN, series_v2_bodies(batch));
        assert(list.drop_last() =~= message_fields(
            TAG5_LEN,
            series_v2_bodies(batch.drop_last()),
        ));
        assert(list.last() == Field::Bytes(TAG5_LEN, model::series_v2_wire(batch.last())));
    }
}

proof fn lemma_request_v2_after(
    symbols: Seq<Seq<char>>,
    batch: Seq<TimeSeriesV2View>,
    list: Seq<Field>,
    n: int,
)
    requires
        list == message_fields(TAG4_LEN, symbol_bodies(symbols)) + message_fields(
            TAG5_LEN,
            series_v2_bodies(batch),
        ),
        0 <= n <= list.len(),
        forall|i: int|
            0 <= i < batch.len() ==> (#[trigger] series_v2_bodies(batch)[i]).len() <= u64::MAX,
    ensures
        n <= symbols.len() ==> request_v2_after(list, n) == Some(
            RequestV2View { symbols: symbols.take(n), timeseries: Seq::empty() },
        ),
        n >= symbols.len() ==> request_v2_after(list, n) == Some(
            RequestV2View {
                symbols,
                timeseries: plain_batch_v2(batch.take(n - symbols.len())),
            },
        ),
    decreases n,
{
    let l = symbols.len() as int;
    if n == 0 {
        assert(symbols.take(0) =~= Seq::<Seq<char>>::empty());
        if l == 0 {
            assert(symbols =~= Seq::<Seq<char>>::empty());
            assert(plain_batch_v2(batch.take(0)) =~= Seq::<TimeSeriesV2View>::empty());
        }
    } else {
        lemma_request_v2_after(symbols, batch, list, n - 1);
        if n <= l {
            assert(list[n - 1] == Field::Bytes(TAG4_LEN, encode_utf8(symbols[n - 1])));
            encode_utf8_decode_utf8(symbols[n - 1]);
            assert(symbols.take(n - 1).push(symbols[n - 1]) =~= symbols.take(n));
            if n == l {
                assert(symbols.take(n) =~= symbols);
                assert(plain_batch_v2(batch.take(0)) =~= Seq::<TimeSeriesV2View>::empty());
            }
        } else {
            let k = n - 1 - l;
            assert(list[n - 1] == Field::Bytes(TAG5_LEN, model::series_v2_wire(batch[k])));
            assert(series_v2_bodies(batch)[k].len() <= u64::MAX);
            lemma_series_v2_reads_back(batch[k]);
            assert(plain_batch_v2(batch.take(k)).push(plain_series_v2(batch[k]))
                =~= plain_batch_v2(batch.take(k + 1)));
        }
    }
}

/// A remote-write 2.0 request gives back its symbols and its series. Only a
/// negative zero comes back as the positive one.
pub proof fn lemma_request_v2_reads_back(
    symbols: Seq<Seq<char>>,
    timeseries: Seq<TimeSeriesV2View>,
)
    requires
        model::request_v2_wire(symbols, timeseries).len() <= u64::MAX,
    ensures
        read_request_v2(model::request_v2_wire(symbols, timeseries)) == Some(
            RequestV2View { symbols, timeseries: plain_batch_v2(timeseries) },
        ),
{
    let a = message_fields(TAG4_LEN, symbol_bodies(symbols));
    let b = message_fields(TAG5_LEN, series_v2_bodies(timeseries));
    lemma_symbol_fields(symbols);
    lemma_series_v2_fields(timeseries);
    lemma_fields_wire_add(a, b);
    lemma_messages_tagged(TAG4_LEN, symbol_bodies(symbols));
    lemma_messages_tagged(TAG5_LEN, series_v2_bodies(timeseries));
    assert(all_well_tagged(a + b));
    lemma_message_reads_back(a + b);
    lemma_request_v2_after(symbols, timeseries, a + b, (a + b).len() as int);
    assert(timeseries.take(timeseries.len() as int) =~= timeseries);
}

} // verus!
