//! Laws of encodings: request messages, hashes of keys, and doubles.

use crate::float;
use crate::hash;
use crate::model;
use crate::model::{LabelView, Sample, TimeSeriesV2View, TimeSeriesView};
use crate::remote_write;
use vstd::arithmetic::power2::pow2;
use vstd::bytes::*;
use vstd::prelude::*;
use vstd::utf8::*;

verus! {

// --- messages ---
/// A varint holds seven bits in each byte, the lowest first, and marks all bytes
/// but the last.
pub proof fn lemma_varint(low: u64, high: u64)
    requires
        low < 128,
    ensures
        model::varint(low) == seq![low as u8],
        high > 0 && high * 128 + low <= u64::MAX ==> model::varint((high * 128 + low) as u64)
            == seq![(low + 128) as u8] + model::varint(high),
{
    if high > 0 && high * 128 + low <= u64::MAX {
        let value = (high * 128 + low) as u64;
        assert(value % 128 == low && value / 128 == high);
    }
}

/// A label is its name as field one and its value as field two, each left out
/// where it is empty.
pub proof fn lemma_label_message(label: LabelView)
    ensures
        ({
            let name = encode_utf8(label.name);
            let value = encode_utf8(label.value);
            let first = if label.name.len() == 0 {
                Seq::empty()
            } else {
                seq![0x0au8] + model::varint(name.len() as u64) + name
            };
            let second = if label.value.len() == 0 {
                Seq::empty()
            } else {
                seq![0x12u8] + model::varint(value.len() as u64) + value
            };
            model::label_wire(label) == first + second
        }),
{
}

/// A sample is its double as field one, eight bytes with the lowest first, and
/// its timestamp as field two, a varint in two's complement, each left out
/// where it is zero.
pub proof fn lemma_sample_message(sample: Sample)
    ensures
        ({
            let zero = sample.value_bits == 0 || sample.value_bits == 0x8000_0000_0000_0000;
            let first = if zero {
                Seq::empty()
            } else {
                seq![0x09u8] + spec_u64_to_le_bytes(sample.value_bits)
            };
            let unsigned = if sample.timestamp < 0 {
                (0x1_0000_0000_0000_0000 + sample.timestamp) as u64
            } else {
                sample.timestamp as u64
            };
            let second = if sample.timestamp == 0 {
                Seq::empty()
            } else {
                seq![0x10u8] + model::varint(unsigned)
            };
            model::sample_wire(sample) == first + second
        }),
{
    assert(spec_u64_to_le_bytes_open(sample.value_bits) =~= spec_u64_to_le_bytes(
        sample.value_bits,
    )) by {
        spec_u64_to_le_bytes_to_open(sample.value_bits);
    }
}

/// A series is its labels, each as field one, and then its samples, each as
/// field two, in order.
pub proof fn lemma_series_message(
    labels: Seq<LabelView>,
    label: LabelView,
    samples: Seq<Sample>,
    sample: Sample,
)
    ensures
        model::series_wire(TimeSeriesView { labels, samples }) == model::labels_wire(labels)
            + model::samples_wire(samples),
        model::labels_wire(Seq::empty()).len() == 0,
        model::samples_wire(Seq::empty()).len() == 0,
        model::labels_wire(labels.push(label)) == model::labels_wire(labels) + (seq![0x0au8]
            + model::varint(model::label_wire(label).len() as u64) + model::label_wire(label)),
        model::samples_wire(samples.push(sample)) == model::samples_wire(samples) + (seq![0x12u8]
            + model::varint(model::sample_wire(sample).len() as u64) + model::sample_wire(sample)),
{
    assert(labels.push(label).drop_last() =~= labels);
    assert(samples.push(sample).drop_last() =~= samples);
}

/// A request is its series, each as field one, in order.
pub proof fn lemma_request_message(batch: Seq<TimeSeriesView>, series: TimeSeriesView)
    ensures
        model::request_wire(Seq::empty()).len() == 0,
        model::request_wire(batch.push(series)) == model::request_wire(batch) + (seq![0x0au8]
            + model::varint(model::series_wire(series).len() as u64) + model::series_wire(series)),
{
    assert(batch.push(series).drop_last() =~= batch);
}

/// A request of the second protocol is its symbols, each as field four, and then
/// its series, each as field five. A series is its references, packed as field
/// one where there are any, and its samples, each as field two.
pub proof fn lemma_request_v2_message(
    symbols: Seq<Seq<char>>,
    symbol: Seq<char>,
    batch: Seq<TimeSeriesV2View>,
    series: TimeSeriesV2View,
    refs: Seq<u32>,
    reference: u32,
)
    ensures
        model::request_v2_wire(symbols, batch) == model::symbols_wire(symbols)
            + model::all_series_v2_wire(batch),
        model::symbols_wire(Seq::empty()).len() == 0,
        model::symbols_wire(symbols.push(symbol)) == model::symbols_wire(symbols) + (seq![0x22u8]
            + model::varint(encode_utf8(symbol).len() as u64) + encode_utf8(symbol)),
        model::all_series_v2_wire(Seq::empty()).len() == 0,
        model::all_series_v2_wire(batch.push(series)) == model::all_series_v2_wire(batch) + (
        seq![0x2au8] + model::varint(model::series_v2_wire(series).len() as u64)
            + model::series_v2_wire(series)),
        series.labels_refs.len() == 0 ==> model::series_v2_wire(series) == model::samples_wire(
            series.samples,
        ),
        series.labels_refs.len() > 0 ==> model::series_v2_wire(series) == seq![0x0au8]
            + model::varint(model::refs_wire(series.labels_refs).len() as u64) + model::refs_wire(
            series.labels_refs,
        ) + model::samples_wire(series.samples),
        model::refs_wire(Seq::empty()).len() == 0,
        model::refs_wire(refs.push(reference)) == model::refs_wire(refs) + model::varint(
            reference as u64,
        ),
{
    assert(symbols.push(symbol).drop_last() =~= symbols);
    assert(batch.push(series).drop_last() =~= batch);
    assert(refs.push(reference).drop_last() =~= refs);
    if series.labels_refs.len() == 0 {
        assert(model::series_v2_wire(series) =~= model::samples_wire(series.samples));
    }
}

// --- symbols ---
/// Whether a text is the name or the value of a label of the first `n` series.
pub open spec fn occurs(batch: Seq<TimeSeriesView>, n: int, t: Seq<char>) -> bool {
    exists|i: int, j: int|
        #![trigger batch[i].labels[j]]
        0 <= i < n && 0 <= j < batch[i].labels.len() && (batch[i].labels[j].name == t
            || batch[i].labels[j].value == t)
}

/// The table of symbols holds nothing but the empty text and the names and
/// values of the labels.
pub proof fn lemma_no_other_symbols(batch: Seq<TimeSeriesView>, n: int)
    requires
        0 <= n <= batch.len(),
    ensures
        forall|k: int|
            0 <= k < remote_write::batch_symbols(batch, n).len() ==> (
            #[trigger] remote_write::batch_symbols(batch, n)[k]).len() == 0 || occurs(
                batch,
                n,
                remote_write::batch_symbols(batch, n)[k],
            ),
    decreases n,
{
    if n > 0 {
        lemma_no_other_symbols(batch, n - 1);
        let before = remote_write::batch_symbols(batch, n - 1);
        let labels = batch[n - 1].labels;
        assert forall|k: int| 0 <= k < before.len() implies (#[trigger] before[k]).len() == 0
            || occurs(batch, n, before[k]) by {
            if before[k].len() > 0 {
                let (i, j) = choose|i: int, j: int|
                    #![trigger batch[i].labels[j]]
                    0 <= i < n - 1 && 0 <= j < batch[i].labels.len() && (batch[i].labels[j].name
                        == before[k] || batch[i].labels[j].value == before[k]);
                assert(batch[i].labels[j].name == before[k] || batch[i].labels[j].value
                    == before[k]);
            }
        }
        lemma_symbols_of_labels(before, batch, n, labels.len() as int);
    }
}

proof fn lemma_symbols_of_labels(
    before: Seq<Seq<char>>,
    batch: Seq<TimeSeriesView>,
    n: int,
    m: int,
)
    requires
        0 < n <= batch.len(),
        0 <= m <= batch[n - 1].labels.len(),
        forall|k: int|
            0 <= k < before.len() ==> (#[trigger] before[k]).len() == 0 || occurs(
                batch,
                n,
                before[k],
            ),
    ensures
        ({
            let out = remote_write::symbols_after(before, batch[n - 1].labels, m);
            forall|k: int|
                0 <= k < out.len() ==> (#[trigger] out[k]).len() == 0 || occurs(batch, n, out[k])
        }),
    decreases m,
{
    if m > 0 {
        lemma_symbols_of_labels(before, batch, n, m - 1);
        let own = batch[n - 1].labels[m - 1];
        let earlier = remote_write::symbols_after(before, batch[n - 1].labels, m - 1);
        let named = remote_write::with_symbol(earlier, own.name);
        let out = remote_write::symbols_after(before, batch[n - 1].labels, m);
        assert(batch[n - 1].labels[m - 1] == own);
        assert(occurs(batch, n, own.name));
        assert(occurs(batch, n, own.value));
        assert forall|k: int| 0 <= k < out.len() implies (#[trigger] out[k]).len() == 0 || occurs(
            batch,
            n,
            out[k],
        ) by {
            if k < earlier.len() {
                assert(out[k] == earlier[k]);
            } else if k < named.len() {
                assert(out[k] == named[k]);
            }
        }
    }
}

/// A symbol is referred to by its first position in the table, and by zero, which
/// stands for the empty text, where it is empty or its position does not fit.
pub proof fn lemma_symbol_referred(symbols: Seq<Seq<char>>, t: Seq<char>, at: int)
    requires
        0 <= at < symbols.len(),
        symbols[at] == t,
        forall|j: int| 0 <= j < at ==> #[trigger] symbols[j] != t,
    ensures
        t.len() == 0 || at > 0xffff_ffff ==> remote_write::symbol_reference(symbols, t) == 0,
        t.len() > 0 && at <= 0xffff_ffff ==> remote_write::symbol_reference(symbols, t) == at,
        remote_write::with_symbol(symbols, t) == symbols,
{
    lemma_symbol_at(symbols, t, 0, at);
}

proof fn lemma_symbol_at(symbols: Seq<Seq<char>>, t: Seq<char>, i: int, at: int)
    requires
        0 <= i <= at < symbols.len(),
        symbols[at] == t,
        forall|j: int| i <= j < at ==> #[trigger] symbols[j] != t,
    ensures
        remote_write::symbol_position(symbols, t, i) == at,
    decreases at - i,
{
    if i < at {
        lemma_symbol_at(symbols, t, i + 1, at);
    }
}

// --- hashes of keys ---
/// A word is folded into a key's hash by rotating the hash five bits to the
/// left, exclusive or, and multiplication modulo 2^64.
pub proof fn lemma_word_folded(h: u64, w: u64)
    ensures
        hash::fold_word(h, w) == (((((h << 5) | (h >> 59)) ^ w) as nat * 0x517c_c1b7_2722_0a95)
            % 0x1_0000_0000_0000_0000) as u64,
        hash::fold_word(0, 0) == 0,
{
    assert(((0u64 << 5) | (0u64 >> 59)) ^ 0u64 == 0u64) by (bit_vector);
}

/// Bytes are folded in as words of eight, the lowest byte first, then what is
/// left as one word, then their number.
pub proof fn lemma_bytes_folded(h: u64, word: Seq<u8>, more: Seq<u8>, rest: Seq<u8>)
    requires
        word.len() == 8,
        rest.len() < 8,
    ensures
        hash::fold_bytes(h, more) == hash::fold_word(
            hash::fold_words(h, more, 0),
            more.len() as u64,
        ),
        hash::fold_words(h, Seq::empty(), 0) == h,
        rest.len() > 0 ==> hash::fold_words(h, rest, 0) == hash::fold_word(
            h,
            hash::little_endian(rest) as u64,
        ),
        hash::fold_words(h, word + more, 0) == hash::fold_words(
            hash::fold_word(h, hash::little_endian(word) as u64),
            more,
            0,
        ),
{
    assert(rest.subrange(0, rest.len() as int) =~= rest);
    let both = word + more;
    assert(both.subrange(0, 8) =~= word);
    lemma_words_shift(
        hash::fold_word(h, hash::little_endian(word) as u64),
        word,
        more,
        0,
    );
}

proof fn lemma_words_shift(h: u64, before: Seq<u8>, bytes: Seq<u8>, i: int)
    requires
        0 <= i,
    ensures
        hash::fold_words(h, before + bytes, before.len() + i) == hash::fold_words(h, bytes, i),
    decreases bytes.len() - i,
{
    let all = before + bytes;
    let n = before.len() as int;
    if i + 8 <= bytes.len() {
        assert(all.subrange(n + i, n + i + 8) =~= bytes.subrange(i, i + 8));
        lemma_words_shift(
            hash::fold_word(h, hash::little_endian(bytes.subrange(i, i + 8)) as u64),
            before,
            bytes,
            i + 8,
        );
    } else if i < bytes.len() {
        assert(all.subrange(n + i, all.len() as int) =~= bytes.subrange(i, bytes.len() as int));
    }
}

/// The lowest byte comes first in a word, each later one counting 256 times as
/// much.
pub proof fn lemma_lowest_byte_first(byte: u8, rest: Seq<u8>)
    ensures
        hash::little_endian(Seq::empty()) == 0,
        hash::little_endian(seq![byte] + rest) == byte + 256 * hash::little_endian(rest),
{
    assert((seq![byte] + rest).skip(1) =~= rest);
}

/// A pair is hashed by its first text and then its second one.
pub proof fn lemma_pair_hashed(key: (Seq<char>, Seq<char>))
    ensures
        hash::pair_hash(key) == hash::fold_bytes(
            hash::fold_bytes(0, encode_utf8(key.0)),
            encode_utf8(key.1),
        ),
{
    reveal(hash::pair_hash);
}

// --- doubles ---
/// Rounding to a power of two goes to the nearest multiple, and to the even one
/// of two that are equally near.
pub proof fn lemma_rounds_to_nearest(n: nat, d: nat)
    ensures
        ({
            let unit = pow2(d) as int;
            let r = float::round_half_even(n, d) as int;
            &&& 2 * (n - r * unit) <= unit
            &&& 2 * (r * unit - n) <= unit
            &&& 2 * (n - r * unit) == unit || 2 * (r * unit - n) == unit ==> r % 2 == 0
        }),
{
    vstd::arithmetic::power2::lemma_pow2_pos(d);
    let unit = pow2(d) as int;
    let q = n as int / unit;
    let m = n as int % unit;
    vstd::arithmetic::div_mod::lemma_fundamental_div_mod(n as int, unit);
    assert(unit * q == q * unit) by (nonlinear_arith);
    assert((q + 1) * unit == q * unit + unit) by (nonlinear_arith);
}

/// Rounding half up goes to the nearest multiple, and up of two that are
/// equally near.
pub proof fn lemma_rounds_half_up(n: nat, d: nat)
    requires
        d > 0,
    ensures
        ({
            let unit = pow2(d) as int;
            let r = float::round_half_up(n, d) as int;
            &&& 2 * (n - r * unit) < unit
            &&& 2 * (r * unit - n) <= unit
        }),
{
    vstd::arithmetic::power2::lemma_pow2_pos(d);
    vstd::arithmetic::power2::lemma_pow2_unfold(d);
    let unit = pow2(d) as int;
    let half = unit / 2;
    let r = (n + half) / unit;
    vstd::arithmetic::div_mod::lemma_fundamental_div_mod(n + half, unit);
    assert(unit * r == r * unit) by (nonlinear_arith);
}

/// Zero is the double with no bit set, and one that with the exponent bias.
pub proof fn lemma_small_doubles()
    ensures
        float::double_of(0) == 0,
        float::double_of(1) == 0x3ff0_0000_0000_0000,
        float::double_of(2) == 0x4000_0000_0000_0000,
{
    reveal_with_fuel(float::bit_length, 4);
    vstd::arithmetic::power2::lemma2_to64();
    vstd::arithmetic::power2::lemma2_to64_rest();
    assert(float::bit_length(1) == 1);
    assert(float::bit_length(2) == 2);
}

/// The parts of a double: its sign is the highest bit, its exponent the eleven
/// bits after that, and its significand the others with a leading one, which is
/// missing only at the smallest exponent. It is finite unless all bits of the
/// exponent are set.
pub proof fn lemma_double_parts(sign: bool, exponent: nat, fraction: nat)
    requires
        exponent < 2048,
        fraction < 0x10_0000_0000_0000,
    ensures
        ({
            let bits = ((if sign {
                0x8000_0000_0000_0000nat
            } else {
                0nat
            }) + exponent * 0x10_0000_0000_0000 + fraction) as u64;
            &&& float::is_negative(bits) == sign
            &&& float::biased_exponent(bits) == exponent
            &&& float::is_finite(bits) <==> exponent < 2047
            &&& exponent > 0 ==> float::significand(bits) == 0x10_0000_0000_0000 + fraction
                && float::exponent(bits) == exponent - 1075
            &&& exponent == 0 ==> float::significand(bits) == fraction && float::exponent(bits)
                == -1074
        }),
{
    vstd::arithmetic::power2::lemma2_to64();
    vstd::arithmetic::power2::lemma2_to64_rest();
    let top: nat = if sign {
        2048
    } else {
        0
    };
    let unit: nat = 0x10_0000_0000_0000;
    let bits = (top + exponent) * unit + fraction;
    assert(bits / unit == top + exponent && bits % unit == fraction) by (nonlinear_arith)
        requires
            bits == (top + exponent) * unit + fraction,
            fraction < unit,
    ;
    assert((top + exponent) % 2048 == exponent);
}

/// A count of more than 53 bits is rounded to its 53 highest ones, to the nearest
/// and of two equally near to the even: the double stands for exactly that.
pub proof fn lemma_large_count(n: u64)
    requires
        n >= 0x20_0000_0000_0000,
    ensures
        ({
            let bits = float::double_of(n) as u64;
            let d = (float::bit_length(n as nat) - 53) as nat;
            let rounded = float::round_half_even(n as nat, d);
            &&& 0 < d <= 11
            &&& float::is_finite(bits) && !float::is_negative(bits)
            &&& rounded < 0x20_0000_0000_0000 ==> float::significand(bits) == rounded
                && float::exponent(bits) == d
            &&& rounded == 0x20_0000_0000_0000 ==> 2 * float::significand(bits) == rounded
                && float::exponent(bits) == d + 1
            &&& 0x10_0000_0000_0000 <= rounded <= 0x20_0000_0000_0000
        }),
{
    vstd::arithmetic::power2::lemma2_to64();
    vstd::arithmetic::power2::lemma2_to64_rest();
    let len = float::bit_length(n as nat);
    float::lemma_bit_length(n as nat);
    if len <= 53 {
        lemma_powers_grow(len, 53);
    }
    if len > 64 {
        lemma_powers_grow(64, (len - 1) as nat);
    }
    let d = (len - 53) as nat;
    let unit = pow2(d);
    vstd::arithmetic::power2::lemma_pow2_pos(d);
    vstd::arithmetic::power2::lemma_pow2_adds(53, d);
    vstd::arithmetic::power2::lemma_pow2_adds(52, d);
    let q = n as nat / unit;
    let hidden: nat = 0x10_0000_0000_0000;
    assert(hidden <= q < 2 * hidden) by (nonlinear_arith)
        requires
            q == n as nat / unit,
            unit > 0,
            hidden * unit <= n,
            (n as nat) < 2 * hidden * unit,
    ;
    let rounded = float::round_half_even(n as nat, d);
    assert(q <= rounded <= q + 1);
    if rounded < 2 * hidden {
        let fraction = (rounded - hidden) as nat;
        lemma_double_parts(false, 1022 + len, fraction);
        assert((1021 + len) * hidden + rounded == (1022 + len) * hidden + fraction)
            by (nonlinear_arith)
            requires
                rounded == hidden + fraction,
        ;
    } else {
        lemma_double_parts(false, 1023 + len, 0);
        assert((1021 + len) * hidden + rounded == (1023 + len) * hidden) by (nonlinear_arith)
            requires
                rounded == 2 * hidden,
        ;
    }
}

proof fn lemma_powers_grow(a: nat, b: nat)
    requires
        a <= b,
    ensures
        pow2(a) <= pow2(b),
{
    if a < b {
        vstd::arithmetic::power2::lemma_pow2_strictly_increases(a, b);
    }
}

/// A whole number of seconds is a thousand times as many milliseconds, exactly.
pub proof fn lemma_whole_seconds(n: u64)
    requires
        0 < n,
        n * 1000 < 0x20_0000_0000_0000,
    ensures
        float::millis_of_seconds(float::double_of(n) as u64) == Some(1000 * n as int),
{
    vstd::arithmetic::power2::lemma2_to64();
    vstd::arithmetic::power2::lemma2_to64_rest();
    let bits = float::double_of(n) as u64;
    float::lemma_small_count_is_exact(n);
    let k = (-float::exponent(bits)) as nat;
    let product = float::significand(bits) * 1000;
    let thousand = (n * 1000) as nat;
    assert(product == thousand * pow2(k)) by (nonlinear_arith)
        requires
            product == float::significand(bits) * 1000,
            float::significand(bits) == n * pow2(k),
            thousand == n * 1000,
    ;
    lemma_shifted_length(thousand, k);
    float::lemma_bit_length(thousand);
    let len = float::bit_length(thousand);
    if len > 53 {
        lemma_powers_grow(53, (len - 1) as nat);
    }
    let d = float::excess_bits(product);
    assert(d <= k);
    let j = (k - d) as nat;
    vstd::arithmetic::power2::lemma_pow2_adds(d, j);
    vstd::arithmetic::power2::lemma_pow2_pos(d);
    vstd::arithmetic::power2::lemma_pow2_pos(j);
    let whole = thousand * pow2(j);
    assert(product == whole * pow2(d)) by (nonlinear_arith)
        requires
            product == thousand * pow2(k),
            pow2(k) == pow2(d) * pow2(j),
            whole == thousand * pow2(j),
    ;
    lemma_exact_quotient(whole, pow2(d));
    assert(float::round_half_even(product, d) == whole);
    if j == 0 {
        assert(whole == thousand) by (nonlinear_arith)
            requires
                whole == thousand * pow2(j),
                pow2(j) == 1,
        ;
        assert(whole * pow2(0) == whole) by (nonlinear_arith)
            requires
                pow2(0) == 1,
        ;
    } else {
        lemma_half_is_less(thousand, pow2(j));
    }
}

proof fn lemma_shifted_length(a: nat, k: nat)
    requires
        a > 0,
    ensures
        float::bit_length(a * pow2(k)) == float::bit_length(a) + k,
    decreases k,
{
    vstd::arithmetic::power2::lemma2_to64();
    if k == 0 {
        assert(a * pow2(0) == a) by (nonlinear_arith)
            requires
                pow2(0) == 1,
        ;
    } else {
        let less = (k - 1) as nat;
        lemma_shifted_length(a, less);
        vstd::arithmetic::power2::lemma_pow2_unfold(k);
        vstd::arithmetic::power2::lemma_pow2_pos(less);
        assert(a * pow2(k) == 2 * (a * pow2(less))) by (nonlinear_arith)
            requires
                pow2(k) == 2 * pow2(less),
        ;
        assert(a * pow2(less) > 0) by (nonlinear_arith)
            requires
                a > 0,
                pow2(less) > 0,
        ;
        assert((2 * (a * pow2(less))) / 2 == a * pow2(less));
    }
}

proof fn lemma_exact_quotient(q: nat, unit: nat)
    requires
        unit > 0,
    ensures
        (q * unit) / unit == q,
        (q * unit) % unit == 0,
{
    vstd::arithmetic::div_mod::lemma_div_multiples_vanish(q as int, unit as int);
    vstd::arithmetic::div_mod::lemma_mod_multiples_basic(q as int, unit as int);
    assert(q * unit == unit * q) by (nonlinear_arith);
}

proof fn lemma_half_is_less(q: nat, unit: nat)
    requires
        unit > 0,
    ensures
        (q * unit + unit / 2) / unit == q,
{
    let r = unit / 2;
    vstd::arithmetic::div_mod::lemma_fundamental_div_mod_converse(
        (q * unit + r) as int,
        unit as int,
        q as int,
        r as int,
    );
}

/// The sign of a number of seconds is that of its milliseconds. What is not
/// finite, or does not fit, has none.
pub proof fn lemma_signed_seconds(bits: u64)
    requires
        bits < 0x8000_0000_0000_0000,
    ensures
        ({
            let negative = (bits + 0x8000_0000_0000_0000) as u64;
            let millis = float::millis_of_seconds(bits);
            &&& bits >= 0x7ff0_0000_0000_0000 ==> millis is None && float::millis_of_seconds(
                negative,
            ) is None
            &&& millis is None <==> float::millis_of_seconds(negative) is None
            &&& millis is Some && millis->0 < 0x7fff_ffff_ffff_ffff ==> float::millis_of_seconds(
                negative,
            ) == Some(-millis->0)
            &&& millis is Some ==> 0 <= millis->0 <= 0x7fff_ffff_ffff_ffff
        }),
{
    vstd::arithmetic::power2::lemma2_to64();
    vstd::arithmetic::power2::lemma2_to64_rest();
    let unit: nat = 0x10_0000_0000_0000;
    let exponent = bits as nat / unit;
    let fraction = bits as nat % unit;
    vstd::arithmetic::div_mod::lemma_fundamental_div_mod(bits as int, unit as int);
    assert(exponent < 2048);
    lemma_double_parts(false, exponent, fraction);
    lemma_double_parts(true, exponent, fraction);
    assert(unit * exponent == exponent * unit);
}

} // verus!
