//! Parser for the Prometheus text exposition format (version 0.0.4) with
//! pragmatic `OpenMetrics` tolerance.
//!
//! The parser is single-pass and operates directly on the input bytes. Label
//! values without backslash escapes are copied as one slice; only values
//! containing a `\` are unescaped.
//!
//! Reading a number's text as a double is left to the caller, who hands in a
//! function from text to the double's bits.
//!
//! Reference: <https://prometheus.io/docs/instrumenting/exposition_formats/>

use crate::float;
use crate::model;
use crate::model::{Label, LabelView, Sample, TimeSeries, TimeSeriesView, METRIC_NAME_LABEL};
use crate::text;
use crate::text::{
    contains_char, debug_of, debug_of_char, joined, read_i64, strip_prefix, text_eq, u64_text,
};
use vstd::prelude::*;
use vstd::slice::*;
use vstd::string::*;
use vstd::utf8::*;

verus! {

/// Trusted: `memchr::memchr` returns the index of the first byte of `haystack`
/// that equals `needle`, and `None` where no byte does.
pub assume_specification[ memchr::memchr ](needle: u8, haystack: &[u8]) -> (r: Option<usize>)
    ensures
        match r {
            Some(i) => i < haystack@.len() && haystack@[i as int] == needle && forall|j: int|
                0 <= j < i ==> haystack@[j] != needle,
            None => forall|j: int| 0 <= j < haystack@.len() ==> haystack@[j] != needle,
        },
;

/// Trusted: `memchr::memchr2` returns the index of the first byte of
/// `haystack` that equals one of the two needles, and `None` where no byte
/// does.
pub assume_specification[ memchr::memchr2 ](
    needle1: u8,
    needle2: u8,
    haystack: &[u8],
) -> (r: Option<usize>)
    ensures
        match r {
            Some(i) => i < haystack@.len() && (haystack@[i as int] == needle1
                || haystack@[i as int] == needle2) && forall|j: int|
                0 <= j < i ==> haystack@[j] != needle1 && haystack@[j] != needle2,
            None => forall|j: int|
                0 <= j < haystack@.len() ==> haystack@[j] != needle1 && haystack@[j] != needle2,
        },
;

/// What a parse error holds: the 1-based number of the offending line, and
/// the message without the line prefix.
#[verifier::ext_equal]
pub struct Failure {
    pub line: nat,
    pub message: Seq<char>,
}

/// Error produced when a scrape body cannot be parsed.
///
/// Carries the 1-based line number of the offending line and a human-readable
/// message. The whole scrape fails on any malformed line, matching Prometheus
/// behaviour.
#[derive(Debug)]
pub struct ParseError {
    line: usize,
    message: String,
}

impl View for ParseError {
    type V = Failure;

    closed spec fn view(&self) -> Failure {
        Failure { line: self.line as nat, message: self.message@ }
    }
}

impl ParseError {
    /// An error on the given line.
    pub fn new(line: usize, message: &str) -> (r: Self)
        ensures
            r@ == (Failure { line: line as nat, message: message@ }),
    {
        ParseError { line, message: message.to_owned() }
    }

    /// The 1-based line number the error occurred on.
    #[must_use]
    pub fn line(&self) -> (r: usize)
        ensures
            r == self@.line,
    {
        self.line
    }

    /// The human-readable error message (without the line prefix).
    #[must_use]
    pub fn message(&self) -> (r: &str)
        ensures
            r@ == self@.message,
    {
        self.message.as_str()
    }

    /// The whole error as one text: `line 17: something broke`.
    pub fn to_string(&self) -> (r: String)
        ensures
            r@ == "line "@ + text::decimal(self@.line) + ": "@ + self@.message,
    {
        let mut r = joined("line ", u64_text(self.line as u64).as_str());
        r.append(": ");
        r.append(self.message.as_str());
        r
    }
}

// --- what a body means ---
/// Whether `g` is the function that `f` computes: what `f` returns for a text
/// is what `g` gives for its characters.
pub open spec fn reads<F: Fn(&str) -> Option<u64>>(
    f: F,
    g: spec_fn(Seq<char>) -> Option<u64>,
) -> bool {
    forall|s: &str, r: Option<u64>| #[trigger] call_ensures(f, (s,), r) ==> r == g(s@)
}

/// The text of `b[start..end]`.
pub open spec fn slice_text(b: Seq<u8>, start: int, end: int) -> Seq<char> {
    decode_utf8(b.subrange(start, end))
}

/// Space or tab.
pub open spec fn space(c: u8) -> bool {
    c == 0x20 || c == 0x09
}

/// Byte that may begin a name: `[a-zA-Z_]`, with `colon` also `:`.
pub open spec fn name_start(c: u8, colon: bool) -> bool {
    0x61 <= c <= 0x7a || 0x41 <= c <= 0x5a || c == 0x5f || (colon && c == 0x3a)
}

/// Byte that may continue a name: what may begin one, and `[0-9]`.
pub open spec fn name_continue(c: u8, colon: bool) -> bool {
    name_start(c, colon) || 0x30 <= c <= 0x39
}

/// The first position from `i` on that holds no space, `end` where there is
/// none.
pub open spec fn skip_space(b: Seq<u8>, i: int, end: int) -> int
    decreases end - i,
{
    if i < end && space(b[i]) {
        skip_space(b, i + 1, end)
    } else {
        i
    }
}

/// The first position from `i` on that does not continue a name.
pub open spec fn skip_name(b: Seq<u8>, i: int, end: int, colon: bool) -> int
    decreases end - i,
{
    if i < end && name_continue(b[i], colon) {
        skip_name(b, i + 1, end, colon)
    } else {
        i
    }
}

/// The first position from `i` on that holds a space, `end` where there is
/// none.
pub open spec fn skip_token(b: Seq<u8>, i: int, end: int) -> int
    decreases end - i,
{
    if i < end && !space(b[i]) {
        skip_token(b, i + 1, end)
    } else {
        i
    }
}

/// The position of the quote that closes a label value whose content goes on
/// at `i`: a backslash hides the byte behind it.
pub open spec fn closing_quote(b: Seq<u8>, i: int, end: int) -> Result<int, Seq<char>>
    decreases end - i,
{
    if i >= end {
        Err("unterminated label value (missing closing '\"')"@)
    } else if b[i] == 0x22 {
        Ok(i)
    } else if b[i] == 0x5c {
        if i + 1 >= end {
            Err("unterminated label value (trailing backslash)"@)
        } else {
            closing_quote(b, i + 2, end)
        }
    } else {
        closing_quote(b, i + 1, end)
    }
}

/// The first position from `i` on that holds a backslash, `end` where there
/// is none.
pub open spec fn skip_plain(b: Seq<u8>, i: int, end: int) -> int
    decreases end - i,
{
    if i < end && b[i] != 0x5c {
        skip_plain(b, i + 1, end)
    } else {
        i
    }
}

/// What `skip_plain` stops at.
pub proof fn lemma_skip_plain(b: Seq<u8>, i: int, end: int)
    requires
        i <= end,
    ensures
        i <= skip_plain(b, i, end) <= end,
        skip_plain(b, i, end) < end ==> b[skip_plain(b, i, end)] == 0x5c,
        forall|j: int| i <= j < skip_plain(b, i, end) ==> b[j] != 0x5c,
        i < end && b[i] != 0x5c ==> skip_plain(b, i, end) > i,
    decreases end - i,
{
    if i < end && b[i] != 0x5c {
        lemma_skip_plain(b, i + 1, end);
    }
}

/// The text that the content `b[i..end]` of a label value stands for, appended
/// to `done`: `\\`, `\"` and `\n` stand for a backslash, a quote and a line
/// feed; any other escape is an error.
pub open spec fn unescaped(b: Seq<u8>, i: int, end: int, done: Seq<char>) -> Result<
    Seq<char>,
    Seq<char>,
>
    decreases end + 1 - i,
    via unescaped_decreases
{
    if i >= end {
        Ok(done)
    } else if b[i] != 0x5c {
        let stop = skip_plain(b, i, end);
        unescaped(b, stop, end, done + slice_text(b, i, stop))
    } else if b[i + 1] == 0x5c {
        unescaped(b, i + 2, end, done.push('\\'))
    } else if b[i + 1] == 0x22 {
        unescaped(b, i + 2, end, done.push('"'))
    } else if b[i + 1] == 0x6e {
        unescaped(b, i + 2, end, done.push('\n'))
    } else {
        Err("invalid escape sequence: \\"@.push(b[i + 1] as char))
    }
}

#[via_fn]
proof fn unescaped_decreases(b: Seq<u8>, i: int, end: int, done: Seq<char>) {
    if i < end {
        lemma_skip_plain(b, i, end);
    }
}

/// The label value whose opening quote stands at `open`: its text, and the
/// position behind its closing quote.
pub open spec fn label_value_at(b: Seq<u8>, open: int, end: int) -> Result<
    (Seq<char>, int),
    Seq<char>,
> {
    match closing_quote(b, open + 1, end) {
        Err(e) => Err(e),
        Ok(close) => match unescaped(b, open + 1, close, Seq::empty()) {
            Err(e) => Err(e),
            Ok(value) => Ok((value, close + 1)),
        },
    }
}

/// The label that begins at `i`, where neither a space nor a closing brace
/// stands: the label, and the position behind its value.
pub open spec fn label_at(
    b: Seq<u8>,
    i: int,
    end: int,
    labels: Seq<LabelView>,
) -> Result<(LabelView, int), Seq<char>> {
    let name_end = skip_name(b, i + 1, end, false);
    let name = slice_text(b, i, name_end);
    let equals = skip_space(b, name_end, end);
    let quote = skip_space(b, equals + 1, end);
    if !name_start(b[i], false) {
        Err("invalid start of label name: "@ + text::debug_char_text(b[i] as char))
    } else if name == METRIC_NAME_LABEL@ {
        Err("label name '__name__' is not allowed inside braces"@)
    } else if model::has_label(labels, name) {
        Err("duplicate label name: "@ + text::debug_text(name))
    } else if equals >= end || b[equals] != 0x3d {
        Err("expected '=' after label name "@ + text::debug_text(name))
    } else if quote >= end || b[quote] != 0x22 {
        Err("expected '\"' to start value of label "@ + text::debug_text(name))
    } else {
        match label_value_at(b, quote, end) {
            Err(e) => Err(e),
            Ok((value, next)) => Ok((LabelView { name, value }, next)),
        }
    }
}

/// The label set whose content goes on at `i`, appended to `labels`: all the
/// labels, and the position behind the closing brace.
pub open spec fn labels_from(
    b: Seq<u8>,
    i: int,
    end: int,
    labels: Seq<LabelView>,
) -> Result<(Seq<LabelView>, int), Seq<char>>
    decreases end - i,
    via labels_from_decreases
{
    let at = skip_space(b, i, end);
    if at >= end {
        Err("unterminated label set (expected '}')"@)
    } else if b[at] == 0x7d {
        Ok((labels, at + 1))
    } else {
        match label_at(b, at, end, labels) {
            Err(e) => Err(e),
            Ok((label, next)) => {
                let after = skip_space(b, next, end);
                if after >= end {
                    Err("unterminated label set (expected '}')"@)
                } else if b[after] == 0x2c {
                    labels_from(b, after + 1, end, labels.push(label))
                } else if b[after] == 0x7d {
                    Ok((labels.push(label), after + 1))
                } else {
                    Err(
                        "expected ',' or '}' after label value, found "@
                            + text::debug_char_text(b[after] as char),
                    )
                }
            },
        }
    }
}

#[via_fn]
proof fn labels_from_decreases(b: Seq<u8>, i: int, end: int, labels: Seq<LabelView>) {
    let at = skip_space(b, i, end);
    if at < end {
        lemma_skip_space(b, i, end);
        if let Ok((label, next)) = label_at(b, at, end, labels) {
            lemma_label_at(b, at, end, labels);
            lemma_skip_space(b, next, end);
        }
    }
}

/// The labels of `labels` and of the label set whose content goes on at `i`
/// that are complete before its end or the place where it fails.
pub open spec fn labels_read(
    b: Seq<u8>,
    i: int,
    end: int,
    labels: Seq<LabelView>,
) -> Seq<LabelView>
    decreases end - i,
    via labels_read_decreases
{
    let at = skip_space(b, i, end);
    if at >= end || b[at] == 0x7d {
        labels
    } else {
        match label_at(b, at, end, labels) {
            Err(_) => labels,
            Ok((label, next)) => {
                let after = skip_space(b, next, end);
                if after < end && b[after] == 0x2c {
                    labels_read(b, after + 1, end, labels.push(label))
                } else {
                    labels.push(label)
                }
            },
        }
    }
}

#[via_fn]
proof fn labels_read_decreases(b: Seq<u8>, i: int, end: int, labels: Seq<LabelView>) {
    let at = skip_space(b, i, end);
    if at < end {
        lemma_skip_space(b, i, end);
        if let Ok((label, next)) = label_at(b, at, end, labels) {
            lemma_label_at(b, at, end, labels);
            lemma_skip_space(b, next, end);
        }
    }
}

/// The value that a token stands for: what `g` reads of it, or else of what
/// follows a leading plus sign.
pub open spec fn value_of(token: Seq<char>, g: spec_fn(Seq<char>) -> Option<u64>) -> Option<u64> {
    if token.len() == 0 {
        None
    } else if g(token) is Some {
        g(token)
    } else if token[0] == '+' {
        g(token.skip(1))
    } else {
        None
    }
}

/// The timestamp that a token stands for: with `.`, `e` or `E` in it fractional
/// seconds, else an integer number of milliseconds.
pub open spec fn timestamp_of(
    token: Seq<char>,
    g: spec_fn(Seq<char>) -> Option<u64>,
) -> Option<int> {
    if token.contains('.') || token.contains('e') || token.contains('E') {
        match g(token) {
            Some(bits) => float::millis_of_seconds(bits),
            None => None,
        }
    } else {
        text::parsed_i64(token)
    }
}

/// The series of a line whose name and labels have been read, the value to
/// come at `i`.
pub open spec fn sample_from(
    b: Seq<u8>,
    i: int,
    end: int,
    labels: Seq<LabelView>,
    default_ts: i64,
    honor: bool,
    g: spec_fn(Seq<char>) -> Option<u64>,
) -> Result<Option<TimeSeriesView>, Seq<char>> {
    let value_end = skip_token(b, i, end);
    let token = slice_text(b, i, value_end);
    let after = skip_space(b, value_end, end);
    let ts_end = skip_token(b, after, end);
    let ts_token = slice_text(b, after, ts_end);
    let rest = skip_space(b, ts_end, end);
    if i >= end {
        Err("missing value"@)
    } else {
        match value_of(token, g) {
            None => Err("invalid value: "@ + text::debug_text(token)),
            Some(bits) => if after >= end || b[after] == 0x23 {
                Ok(Some(one_sample(labels, bits, default_ts)))
            } else {
                match timestamp_of(ts_token, g) {
                    None => Err("invalid timestamp: "@ + text::debug_text(ts_token)),
                    Some(ts) => if rest < end && b[rest] != 0x23 {
                        Err(
                            "unexpected trailing content: "@ + text::debug_text(
                                slice_text(b, rest, end),
                            ),
                        )
                    } else {
                        Ok(
                            Some(
                                one_sample(
                                    labels,
                                    bits,
                                    if honor {
                                        ts as i64
                                    } else {
                                        default_ts
                                    },
                                ),
                            ),
                        )
                    },
                }
            },
        }
    }
}

/// A series of one sample.
pub open spec fn one_sample(labels: Seq<LabelView>, value_bits: u64, timestamp: i64)
    -> TimeSeriesView {
    TimeSeriesView { labels, samples: seq![Sample { value_bits, timestamp }] }
}

/// The series that the line `b[start..end]` stands for; none for a blank line
/// and for a comment.
pub open spec fn line_series(
    b: Seq<u8>,
    start: int,
    end: int,
    default_ts: i64,
    honor: bool,
    g: spec_fn(Seq<char>) -> Option<u64>,
) -> Result<Option<TimeSeriesView>, Seq<char>> {
    let name_at = skip_space(b, start, end);
    let name_end = skip_name(b, name_at + 1, end, true);
    let name = LabelView { name: METRIC_NAME_LABEL@, value: slice_text(b, name_at, name_end) };
    let next = skip_space(b, name_end, end);
    if name_at >= end || b[name_at] == 0x23 {
        Ok(None)
    } else if !name_start(b[name_at], true) {
        Err("invalid start of metric name: "@ + text::debug_char_text(b[name_at] as char))
    } else if next < end && b[next] == 0x7b {
        match labels_from(b, next + 1, end, seq![name]) {
            Err(e) => Err(e),
            Ok((labels, after)) => sample_from(
                b,
                skip_space(b, after, end),
                end,
                labels,
                default_ts,
                honor,
                g,
            ),
        }
    } else {
        sample_from(b, next, end, seq![name], default_ts, honor, g)
    }
}

/// The position of the line feed that ends the line at `i`, the length where
/// there is none.
pub open spec fn line_feed(b: Seq<u8>, i: int) -> int
    decreases b.len() - i,
{
    if i >= b.len() {
        b.len() as int
    } else if b[i] == 0x0a {
        i
    } else {
        line_feed(b, i + 1)
    }
}

/// Where the content of the line at `start` ends that `feed` delimits: a
/// carriage return before the line feed is not part of it.
pub open spec fn content_end(b: Seq<u8>, start: int, feed: int) -> int {
    if feed > start && b[feed - 1] == 0x0d {
        feed - 1
    } else {
        feed
    }
}

/// The series of the lines from `pos` on, appended to `done`; `line` lines lie
/// before.
pub open spec fn series_from(
    b: Seq<u8>,
    pos: int,
    line: nat,
    done: Seq<TimeSeriesView>,
    default_ts: i64,
    honor: bool,
    g: spec_fn(Seq<char>) -> Option<u64>,
) -> Result<Seq<TimeSeriesView>, Failure>
    decreases b.len() + 1 - pos,
    via series_from_decreases
{
    if pos >= b.len() {
        Ok(done)
    } else {
        let feed = line_feed(b, pos);
        match line_series(b, pos, content_end(b, pos, feed), default_ts, honor, g) {
            Err(message) => Err(Failure { line: line + 1, message }),
            Ok(None) => series_from(b, feed + 1, line + 1, done, default_ts, honor, g),
            Ok(Some(series)) => series_from(
                b,
                feed + 1,
                line + 1,
                done.push(series),
                default_ts,
                honor,
                g,
            ),
        }
    }
}

#[via_fn]
proof fn series_from_decreases(
    b: Seq<u8>,
    pos: int,
    line: nat,
    done: Seq<TimeSeriesView>,
    default_ts: i64,
    honor: bool,
    g: spec_fn(Seq<char>) -> Option<u64>,
) {
    if pos < b.len() {
        lemma_line_feed(b, pos);
    }
}

/// The series of a whole scrape body.
pub open spec fn body_series(
    body: Seq<char>,
    default_ts: i64,
    honor: bool,
    g: spec_fn(Seq<char>) -> Option<u64>,
) -> Result<Seq<TimeSeriesView>, Failure> {
    series_from(encode_utf8(body), 0, 0, Seq::empty(), default_ts, honor, g)
}

// --- where the scans stop ---
/// What `skip_space` stops at.
pub proof fn lemma_skip_space(b: Seq<u8>, i: int, end: int)
    ensures
        i <= skip_space(b, i, end),
        i <= end ==> skip_space(b, i, end) <= end,
        i >= end ==> skip_space(b, i, end) == i,
        forall|j: int| i <= j < skip_space(b, i, end) ==> space(b[j]),
        skip_space(b, i, end) < end ==> !space(b[skip_space(b, i, end)]),
    decreases end - i,
{
    if i < end && space(b[i]) {
        lemma_skip_space(b, i + 1, end);
    }
}

/// What `skip_name` stops at.
pub proof fn lemma_skip_name(b: Seq<u8>, i: int, end: int, colon: bool)
    ensures
        i <= skip_name(b, i, end, colon),
        i <= end ==> skip_name(b, i, end, colon) <= end,
        forall|j: int| i <= j < skip_name(b, i, end, colon) ==> name_continue(b[j], colon),
    decreases end - i,
{
    if i < end && name_continue(b[i], colon) {
        lemma_skip_name(b, i + 1, end, colon);
    }
}

/// What `skip_token` stops at.
pub proof fn lemma_skip_token(b: Seq<u8>, i: int, end: int)
    ensures
        i <= skip_token(b, i, end),
        i <= end ==> skip_token(b, i, end) <= end,
        skip_token(b, i, end) < end ==> space(b[skip_token(b, i, end)]),
        i < end && !space(b[i]) ==> skip_token(b, i, end) > i,
    decreases end - i,
{
    if i < end && !space(b[i]) {
        lemma_skip_token(b, i + 1, end);
    }
}

/// What `closing_quote` stops at.
pub proof fn lemma_closing_quote(b: Seq<u8>, i: int, end: int)
    ensures
        match closing_quote(b, i, end) {
            Ok(close) => i <= close < end && b[close] == 0x22,
            Err(_) => true,
        },
    decreases end - i,
{
    if i < end && b[i] != 0x22 {
        if b[i] == 0x5c {
            if i + 1 < end {
                lemma_closing_quote(b, i + 2, end);
            }
        } else {
            lemma_closing_quote(b, i + 1, end);
        }
    }
}

/// A label ends behind its first byte, within the line.
pub proof fn lemma_label_at(b: Seq<u8>, i: int, end: int, labels: Seq<LabelView>)
    requires
        i < end,
    ensures
        match label_at(b, i, end, labels) {
            Ok((label, next)) => i < next <= end,
            Err(_) => true,
        },
{
    let name_end = skip_name(b, i + 1, end, false);
    lemma_skip_name(b, i + 1, end, false);
    let equals = skip_space(b, name_end, end);
    lemma_skip_space(b, name_end, end);
    let quote = skip_space(b, equals + 1, end);
    lemma_skip_space(b, equals + 1, end);
    lemma_closing_quote(b, quote + 1, end);
}

/// Labels are only added, and a label set that is read to its end gives all of
/// them and ends in a brace.
pub proof fn lemma_labels_grow(b: Seq<u8>, i: int, end: int, labels: Seq<LabelView>)
    ensures
        labels.is_prefix_of(labels_read(b, i, end, labels)),
        match labels_from(b, i, end, labels) {
            Ok((all, next)) => all == labels_read(b, i, end, labels) && i < next <= end
                && b[next - 1] == 0x7d,
            Err(_) => true,
        },
    decreases end - i,
{
    let at = skip_space(b, i, end);
    lemma_skip_space(b, i, end);
    if at < end && b[at] != 0x7d {
        if let Ok((label, next)) = label_at(b, at, end, labels) {
            lemma_label_at(b, at, end, labels);
            let after = skip_space(b, next, end);
            lemma_skip_space(b, next, end);
            if after < end && b[after] == 0x2c {
                let more = labels.push(label);
                lemma_labels_grow(b, after + 1, end, more);
                let all = labels_read(b, after + 1, end, more);
                assert(more =~= all.subrange(0, more.len() as int));
                assert(labels =~= all.subrange(0, labels.len() as int)) by {
                    assert forall|k: int| 0 <= k < labels.len() implies labels[k] == all[k] by {
                        assert(more[k] == labels[k]);
                        assert(more[k] == all.subrange(0, more.len() as int)[k]);
                    }
                }
            } else {
                assert(labels =~= labels.push(label).subrange(0, labels.len() as int));
            }
        }
    }
}

/// What `line_feed` stops at.
pub proof fn lemma_line_feed(b: Seq<u8>, i: int)
    requires
        i <= b.len(),
    ensures
        i <= line_feed(b, i) <= b.len(),
        line_feed(b, i) < b.len() ==> b[line_feed(b, i)] == 0x0a,
        forall|j: int| i <= j < line_feed(b, i) ==> b[j] != 0x0a,
    decreases b.len() - i,
{
    if i < b.len() && b[i] != 0x0a {
        lemma_line_feed(b, i + 1);
    }
}

/// The scan for a line feed ends at the first one.
pub proof fn lemma_line_feed_at(b: Seq<u8>, i: int, at: int)
    requires
        0 <= i <= at <= b.len(),
        forall|j: int| i <= j < at ==> b[j] != 0x0a,
        at < b.len() ==> b[at] == 0x0a,
    ensures
        line_feed(b, i) == at,
    decreases at - i,
{
    if i < at {
        lemma_line_feed_at(b, i + 1, at);
    }
}

/// Bytes that are neither a quote nor a backslash do not move the closing
/// quote.
pub proof fn lemma_quote_skips(b: Seq<u8>, i: int, to: int, end: int)
    requires
        i <= to <= end,
        forall|j: int| i <= j < to ==> b[j] != 0x22 && b[j] != 0x5c,
    ensures
        closing_quote(b, i, end) == closing_quote(b, to, end),
    decreases to - i,
{
    if i < to {
        lemma_quote_skips(b, i + 1, to, end);
    }
}

// --- character boundaries ---
/// An ASCII byte of a valid encoding is a whole character.
pub proof fn lemma_ascii_boundary(b: Seq<u8>, i: int)
    requires
        valid_utf8(b),
        0 <= i < b.len(),
        b[i] < 0x80,
    ensures
        is_char_boundary(b, i),
        is_char_boundary(b, i + 1),
    decreases b.len(),
{
    let n = length_of_first_scalar(b);
    if i < n {
        assert(i == 0);
        assert(n == 1);
        assert(is_char_boundary(pop_first_scalar(b), 0));
        assert(is_char_boundary(b, 1));
    } else {
        lemma_ascii_boundary(pop_first_scalar(b), i - n);
        assert(pop_first_scalar(b)[i - n] == b[i]);
    }
}

/// Whether a position is a place to cut: the start or the end of the bytes, or
/// next to an ASCII byte.
pub open spec fn cut(b: Seq<u8>, i: int) -> bool {
    ||| i == 0
    ||| i == b.len()
    ||| (0 < i <= b.len() && b[i - 1] < 0x80)
    ||| (0 <= i < b.len() && b[i] < 0x80)
}

/// A place to cut is a character boundary.
proof fn lemma_cut_is_boundary(b: Seq<u8>, i: int)
    requires
        valid_utf8(b),
        0 <= i <= b.len(),
        cut(b, i),
    ensures
        is_char_boundary(b, i),
{
    is_char_boundary_start_end_of_seq(b);
    if i != 0 && i != b.len() {
        if b[i] < 0x80 {
            lemma_ascii_boundary(b, i);
        } else {
            lemma_ascii_boundary(b, i - 1);
        }
    }
}

/// The part `start..end` of a string, both ends next to an ASCII byte or at
/// the string's own ends.
pub fn str_from(body: &str, start: usize, end: usize) -> (r: &str)
    requires
        start <= end <= body.spec_bytes().len(),
        cut(body.spec_bytes(), start as int),
        cut(body.spec_bytes(), end as int),
    ensures
        r@ == slice_text(body.spec_bytes(), start as int, end as int),
{
    let ghost b = body.spec_bytes();
    proof {
        encode_utf8_valid_utf8(body@);
        lemma_cut_is_boundary(b, start as int);
        lemma_cut_is_boundary(b, end as int);
    }
    let (head, _) = body.split_at(end);
    proof {
        let h = head.spec_bytes();
        encode_utf8_valid_utf8(head@);
        assert(h =~= b.subrange(0, end as int));
        if start == end {
            is_char_boundary_start_end_of_seq(h);
        } else if start == 0 {
            is_char_boundary_start_end_of_seq(h);
        } else if b[start as int] < 0x80 {
            lemma_ascii_boundary(h, start as int);
        } else {
            lemma_ascii_boundary(h, start - 1);
        }
    }
    let (_, tail) = head.split_at(start);
    proof {
        assert(tail.spec_bytes() =~= b.subrange(start as int, end as int));
        encode_utf8_decode_utf8(tail@);
    }
    tail
}

// --- the parser ---
/// Parse a scrape body into remote-write-ready series, one [`TimeSeries`] per
/// sample line (each holding a single sample).
///
/// `default_timestamp_ms` is the scrape start time; it is used when a line has
/// no explicit timestamp, or for every sample when `honor_timestamps` is
/// `false`. `read_float` reads the text of a double and returns its bits, or
/// `None` where the text is none.
///
/// Labels in the output are ordered with `__name__` first, then the remaining
/// labels in order of appearance. They are intentionally left unsorted; the
/// scrape pipeline sorts later, after adding job/instance labels.
pub fn parse<F: Fn(&str) -> Option<u64>>(
    body: &str,
    default_timestamp_ms: i64,
    honor_timestamps: bool,
    read_float: F,
) -> (r: Result<Vec<TimeSeries>, ParseError>)
    requires
        forall|s: &str| call_requires(read_float, (s,)),
    ensures
        forall|g: spec_fn(Seq<char>) -> Option<u64>| #[trigger]
            reads(read_float, g) ==> match r {
                Ok(series) => body_series(body@, default_timestamp_ms, honor_timestamps, g) == Ok::<
                    Seq<TimeSeriesView>,
                    Failure,
                >(series.deep_view()),
                Err(e) => body_series(body@, default_timestamp_ms, honor_timestamps, g) == Err::<
                    Seq<TimeSeriesView>,
                    Failure,
                >(e@),
            },
{
    let bytes = body.as_bytes();
    let len = bytes.len();
    let ghost b = bytes@;
    let mut out: Vec<TimeSeries> = Vec::new();
    let mut line_no: usize = 0;
    let mut pos: usize = 0;
    assert(out.deep_view() =~= Seq::<TimeSeriesView>::empty());
    while pos < len
        invariant
            b == bytes@,
            b == body.spec_bytes(),
            len == b.len(),
            line_no <= pos <= len,
            pos == 0 || pos == len || b[pos - 1] == 0x0a,
            forall|s: &str| call_requires(read_float, (s,)),
            forall|g: spec_fn(Seq<char>) -> Option<u64>| #[trigger]
                reads(read_float, g) ==> body_series(
                    body@,
                    default_timestamp_ms,
                    honor_timestamps,
                    g,
                ) == series_from(
                    b,
                    pos as int,
                    line_no as nat,
                    out.deep_view(),
                    default_timestamp_ms,
                    honor_timestamps,
                    g,
                ),
        decreases len - pos,
    {
        let line_start = pos;
        let rest = slice_subrange(bytes, pos, len);
        let line_end: usize = match memchr::memchr(0x0a, rest) {
            Some(offset) => pos + offset,
            None => len,
        };
        proof {
            assert forall|j: int| pos <= j < line_end implies b[j] != 0x0a by {
                assert(rest@[j - pos] == b[j]);
            }
            if line_end < len {
                assert(rest@[line_end - pos] == b[line_end as int]);
            }
            lemma_line_feed_at(b, pos as int, line_end as int);
        }
        line_no += 1;
        // Strip a trailing '\r'.
        let mut end = line_end;
        if end > line_start && bytes[end - 1] == 0x0d {
            end -= 1;
        }
        assert(end == content_end(b, pos as int, line_end as int));
        let ghost before = out.deep_view();
        match parse_line(
            body,
            line_start,
            end,
            line_no,
            default_timestamp_ms,
            honor_timestamps,
            &read_float,
        ) {
            Err(e) => {
                return Err(e);
            },
            Ok(Some(series)) => {
                out.push(series);
                assert(out.deep_view() =~= before.push(series.deep_view()));
            },
            Ok(None) => {},
        }
        // Next iteration starts after the '\n' (or at len if none).
        pos = if line_end < len {
            line_end + 1
        } else {
            line_end
        };
        proof {
            // past the last line any position gives the same
            assert(line_end == len ==> forall|g: spec_fn(Seq<char>) -> Option<u64>|
                series_from(
                    b,
                    len + 1,
                    line_no as nat,
                    out.deep_view(),
                    default_timestamp_ms,
                    honor_timestamps,
                    g,
                ) == #[trigger] series_from(
                    b,
                    len as int,
                    line_no as nat,
                    out.deep_view(),
                    default_timestamp_ms,
                    honor_timestamps,
                    g,
                ));
        }
    }
    Ok(out)
}

/// Whether a byte is a space or a tab.
pub fn is_space(b: u8) -> (r: bool)
    ensures
        r == space(b),
{
    b == 0x20 || b == 0x09
}

/// First byte of a metric name / label name: `[a-zA-Z_:]` (label names
/// disallow `:`, checked by the caller passing `allow_colon`).
pub fn is_name_start(b: u8, allow_colon: bool) -> (r: bool)
    ensures
        r == name_start(b, allow_colon),
{
    (b >= 0x61 && b <= 0x7a) || (b >= 0x41 && b <= 0x5a) || b == 0x5f || (allow_colon && b == 0x3a)
}

/// Continuation byte of a name: `[a-zA-Z0-9_:]` (`:` gated by `allow_colon`).
pub fn is_name_continue(b: u8, allow_colon: bool) -> (r: bool)
    ensures
        r == name_continue(b, allow_colon),
{
    is_name_start(b, allow_colon) || (b >= 0x30 && b <= 0x39)
}

/// The first position from `start` on that holds no space.
fn after_space(bytes: &[u8], start: usize, end: usize) -> (r: usize)
    requires
        start <= end <= bytes@.len(),
    ensures
        r == skip_space(bytes@, start as int, end as int),
        start <= r <= end,
{
    let mut i: usize = start;
    while i < end && is_space(bytes[i])
        invariant
            start <= i <= end <= bytes@.len(),
            skip_space(bytes@, start as int, end as int) == skip_space(
                bytes@,
                i as int,
                end as int,
            ),
        decreases end - i,
    {
        i += 1;
    }
    i
}

/// The first position from `start` on that does not continue a name.
fn after_name(bytes: &[u8], start: usize, end: usize, allow_colon: bool) -> (r: usize)
    requires
        start <= end <= bytes@.len(),
    ensures
        r == skip_name(bytes@, start as int, end as int, allow_colon),
        start <= r <= end,
{
    let mut i: usize = start;
    while i < end && is_name_continue(bytes[i], allow_colon)
        invariant
            start <= i <= end <= bytes@.len(),
            skip_name(bytes@, start as int, end as int, allow_colon) == skip_name(
                bytes@,
                i as int,
                end as int,
                allow_colon,
            ),
        decreases end - i,
    {
        i += 1;
    }
    i
}

/// The first position from `start` on that holds a space.
fn after_token(bytes: &[u8], start: usize, end: usize) -> (r: usize)
    requires
        start <= end <= bytes@.len(),
    ensures
        r == skip_token(bytes@, start as int, end as int),
        start <= r <= end,
{
    let mut i: usize = start;
    while i < end && !is_space(bytes[i])
        invariant
            start <= i <= end <= bytes@.len(),
            skip_token(bytes@, start as int, end as int) == skip_token(
                bytes@,
                i as int,
                end as int,
            ),
        decreases end - i,
    {
        i += 1;
    }
    i
}

/// Parse a single (already delimited) line.
///
/// `start..end` is the line content excluding the newline and trailing `\r`.
/// Returns `Ok(None)` for blank and comment lines.
pub fn parse_line<F: Fn(&str) -> Option<u64>>(
    body: &str,
    start: usize,
    end: usize,
    line_no: usize,
    default_timestamp_ms: i64,
    honor_timestamps: bool,
    read_float: &F,
) -> (r: Result<Option<TimeSeries>, ParseError>)
    requires
        start <= end <= body.spec_bytes().len(),
        cut(body.spec_bytes(), start as int),
        cut(body.spec_bytes(), end as int),
        forall|s: &str| call_requires(*read_float, (s,)),
    ensures
        r matches Err(e) ==> e@.line == line_no,
        forall|g: spec_fn(Seq<char>) -> Option<u64>| #[trigger]
            reads(*read_float, g) ==> line_outcome(r) == line_series(
                body.spec_bytes(),
                start as int,
                end as int,
                default_timestamp_ms,
                honor_timestamps,
                g,
            ),
{
    let bytes = body.as_bytes();
    let ghost b = bytes@;
    let name_at = after_space(bytes, start, end);
    // Blank line, or comment line (# HELP, # TYPE, # EOF, ...).
    if name_at >= end || bytes[name_at] == 0x23 {
        return Ok(None);
    }
    // --- metric name ---
    if !is_name_start(bytes[name_at], true) {
        let found = debug_of_char(bytes[name_at] as char);
        return Err(
            ParseError::new(
                line_no,
                joined("invalid start of metric name: ", found.as_str()).as_str(),
            ),
        );
    }
    let name_end = after_name(bytes, name_at + 1, end, true);
    proof {
        lemma_skip_name(b, name_at + 1, end as int, true);
        assert(b[name_end - 1] < 0x80);
    }
    let metric_name = str_from(body, name_at, name_end);
    let mut labels: Vec<Label> = Vec::new();
    labels.push(Label::new(METRIC_NAME_LABEL, metric_name));
    let ghost name = LabelView { name: METRIC_NAME_LABEL@, value: metric_name@ };
    assert(labels.deep_view() =~= seq![name]);
    // Optional whitespace between name and '{' or value. Prometheus is strict
    // here, but we are lenient.
    let mut i: usize = after_space(bytes, name_end, end);
    proof {
        lemma_skip_space(b, name_end as int, end as int);
        assert(b[i - 1] < 0x80);
    }
    // --- optional label set ---
    if i < end && bytes[i] == 0x7b {
        match parse_labels(body, i, end, line_no, &mut labels) {
            Err(e) => {
                return Err(e);
            },
            Ok(next) => {
                i = after_space(bytes, next, end);
                proof {
                    lemma_skip_space(b, next as int, end as int);
                    assert(b[i - 1] < 0x80);
                }
            },
        }
    }
    parse_sample(body, i, end, line_no, labels, default_timestamp_ms, honor_timestamps, read_float)
}

/// What the outcome of a line's parse holds.
pub open spec fn line_outcome(r: Result<Option<TimeSeries>, ParseError>) -> Result<
    Option<TimeSeriesView>,
    Seq<char>,
> {
    match r {
        Ok(Some(series)) => Ok(Some(series.deep_view())),
        Ok(None) => Ok(None),
        Err(e) => Err(e@.message),
    }
}

/// Parse value, optional timestamp and optional exemplar of a line whose name
/// and labels have been read.
fn parse_sample<F: Fn(&str) -> Option<u64>>(
    body: &str,
    start: usize,
    end: usize,
    line_no: usize,
    labels: Vec<Label>,
    default_timestamp_ms: i64,
    honor_timestamps: bool,
    read_float: &F,
) -> (r: Result<Option<TimeSeries>, ParseError>)
    requires
        0 < start <= end <= body.spec_bytes().len(),
        body.spec_bytes()[start - 1] < 0x80,
        cut(body.spec_bytes(), end as int),
        forall|s: &str| call_requires(*read_float, (s,)),
    ensures
        r matches Err(e) ==> e@.line == line_no,
        forall|g: spec_fn(Seq<char>) -> Option<u64>| #[trigger]
            reads(*read_float, g) ==> line_outcome(r) == sample_from(
                body.spec_bytes(),
                start as int,
                end as int,
                labels.deep_view(),
                default_timestamp_ms,
                honor_timestamps,
                g,
            ),
{
    let bytes = body.as_bytes();
    let ghost b = bytes@;
    let ghost held = labels.deep_view();
    if start >= end {
        return Err(ParseError::new(line_no, "missing value"));
    }
    let value_end = after_token(bytes, start, end);
    proof {
        lemma_skip_token(b, start as int, end as int);
    }
    let token = str_from(body, start, value_end);
    let bits: u64 = match parse_value(token, read_float) {
        Some(bits) => bits,
        None => {
            let found = debug_of(token);
            return Err(
                ParseError::new(line_no, joined("invalid value: ", found.as_str()).as_str()),
            );
        },
    };
    let after = after_space(bytes, value_end, end);
    proof {
        lemma_skip_space(b, value_end as int, end as int);
    }
    let mut timestamp: i64 = default_timestamp_ms;
    // --- optional timestamp / exemplar ---
    if after < end && bytes[after] != 0x23 {
        assert(after > value_end ==> b[after - 1] < 0x80);
        assert(cut(b, after as int));
        let ts_end = after_token(bytes, after, end);
        proof {
            lemma_skip_token(b, after as int, end as int);
        }
        let ts_token = str_from(body, after, ts_end);
        match parse_timestamp(ts_token, read_float) {
            Some(parsed) => {
                if honor_timestamps {
                    timestamp = parsed;
                }
            },
            None => {
                let found = debug_of(ts_token);
                return Err(
                    ParseError::new(line_no, joined("invalid timestamp: ", found.as_str()).as_str()),
                );
            },
        }
        let rest = after_space(bytes, ts_end, end);
        proof {
            lemma_skip_space(b, ts_end as int, end as int);
        }
        // After value and timestamp only an exemplar (starting with '#') is
        // allowed; anything else is garbage.
        if rest < end && bytes[rest] != 0x23 {
            assert(rest > ts_end ==> b[rest - 1] < 0x80);
            let found = debug_of(str_from(body, rest, end));
            return Err(
                ParseError::new(
                    line_no,
                    joined("unexpected trailing content: ", found.as_str()).as_str(),
                ),
            );
        }
    }
    let mut samples: Vec<Sample> = Vec::new();
    samples.push(Sample { value_bits: bits, timestamp });
    assert(samples@ =~= seq![Sample { value_bits: bits, timestamp }]);
    Ok(Some(TimeSeries { labels, samples }))
}

/// Parse the label set starting at `bytes[open]` (which must be `{`). Returns
/// the index just past the closing `}`.
pub fn parse_labels(
    body: &str,
    open: usize,
    end: usize,
    line_no: usize,
    labels: &mut Vec<Label>,
) -> (r: Result<usize, ParseError>)
    requires
        open < end <= body.spec_bytes().len(),
        body.spec_bytes()[open as int] == 0x7b,
    ensures
        match r {
            Ok(next) => labels_from(
                body.spec_bytes(),
                open + 1,
                end as int,
                old(labels).deep_view(),
            ) == Ok::<_, Seq<char>>((final(labels).deep_view(), next as int)) && open < next <= end
                && body.spec_bytes()[next - 1] == 0x7d,
            Err(e) => e@.line == line_no && labels_from(
                body.spec_bytes(),
                open + 1,
                end as int,
                old(labels).deep_view(),
            ) == Err::<(Seq<LabelView>, int), _>(e@.message),
        },
        final(labels).deep_view() == labels_read(
            body.spec_bytes(),
            open + 1,
            end as int,
            old(labels).deep_view(),
        ),
        old(labels).deep_view().is_prefix_of(final(labels).deep_view()),
{
    let bytes = body.as_bytes();
    let ghost b = bytes@;
    let ghost start = labels.deep_view();
    let ghost whole = labels_from(b, open + 1, end as int, start);
    let mut i: usize = open + 1;
    proof {
        lemma_labels_grow(b, open + 1, end as int, start);
    }
    loop
        invariant
            b == bytes@,
            b == body.spec_bytes(),
            open < i <= end <= b.len(),
            b[i - 1] < 0x80,
            whole == labels_from(b, open + 1, end as int, old(labels).deep_view()),
            whole == labels_from(b, i as int, end as int, labels.deep_view()),
            start == old(labels).deep_view(),
            labels_read(b, open + 1, end as int, start) == labels_read(
                b,
                i as int,
                end as int,
                labels.deep_view(),
            ),
            start.is_prefix_of(labels_read(b, open + 1, end as int, start)),
        decreases end - i,
    {
        let at = after_space(bytes, i, end);
        proof {
            lemma_skip_space(b, i as int, end as int);
        }
        if at >= end {
            return Err(ParseError::new(line_no, "unterminated label set (expected '}')"));
        }
        // Closing brace (possibly after a trailing comma or empty set).
        if bytes[at] == 0x7d {
            return Ok(at + 1);
        }
        assert(cut(b, at as int)) by {
            assert(at > i ==> space(b[at - 1]));
        }
        match parse_label(body, at, end, line_no, labels) {
            Err(e) => {
                return Err(e);
            },
            Ok((label, next)) => {
                proof {
                    lemma_label_at(b, at as int, end as int, labels.deep_view());
                }
                let ghost before = labels.deep_view();
                labels.push(label);
                assert(labels.deep_view() =~= before.push(label.deep_view()));
                let after = after_space(bytes, next, end);
                if after >= end {
                    return Err(ParseError::new(line_no, "unterminated label set (expected '}')"));
                }
                let c = bytes[after];
                if c == 0x7d {
                    return Ok(after + 1);
                }
                if c != 0x2c {
                    let found = debug_of_char(c as char);
                    return Err(
                        ParseError::new(
                            line_no,
                            joined(
                                "expected ',' or '}' after label value, found ",
                                found.as_str(),
                            ).as_str(),
                        ),
                    );
                }
                // Loop; a following '}' (trailing comma) is handled at the top.
                i = after + 1;
            },
        }
    }
}

/// Parse one `name="value"` pair starting at `at`. Returns the label and the
/// index just past its closing quote.
fn parse_label(
    body: &str,
    at: usize,
    end: usize,
    line_no: usize,
    labels: &Vec<Label>,
) -> (r: Result<(Label, usize), ParseError>)
    requires
        at < end <= body.spec_bytes().len(),
        cut(body.spec_bytes(), at as int),
    ensures
        match r {
            Ok((label, next)) => label_at(
                body.spec_bytes(),
                at as int,
                end as int,
                labels.deep_view(),
            ) == Ok::<_, Seq<char>>((label.deep_view(), next as int)) && at < next <= end,
            Err(e) => e@.line == line_no && label_at(
                body.spec_bytes(),
                at as int,
                end as int,
                labels.deep_view(),
            ) == Err::<(LabelView, int), _>(e@.message),
        },
{
    let bytes = body.as_bytes();
    let ghost b = bytes@;
    if !is_name_start(bytes[at], false) {
        let found = debug_of_char(bytes[at] as char);
        return Err(
            ParseError::new(
                line_no,
                joined("invalid start of label name: ", found.as_str()).as_str(),
            ),
        );
    }
    let name_end = after_name(bytes, at + 1, end, false);
    proof {
        lemma_skip_name(b, at + 1, end as int, false);
        assert(b[name_end - 1] < 0x80);
    }
    let name = str_from(body, at, name_end);
    if text_eq(name, METRIC_NAME_LABEL) {
        return Err(
            ParseError::new(line_no, "label name '__name__' is not allowed inside braces"),
        );
    }
    if model::position_of(labels, name) < labels.len() {
        let found = debug_of(name);
        return Err(
            ParseError::new(line_no, joined("duplicate label name: ", found.as_str()).as_str()),
        );
    }
    // Optional whitespace, then '='.
    let equals = after_space(bytes, name_end, end);
    if equals >= end || bytes[equals] != 0x3d {
        let found = debug_of(name);
        return Err(
            ParseError::new(
                line_no,
                joined("expected '=' after label name ", found.as_str()).as_str(),
            ),
        );
    }
    // Optional whitespace, then opening quote.
    let quote = after_space(bytes, equals + 1, end);
    if quote >= end || bytes[quote] != 0x22 {
        let found = debug_of(name);
        return Err(
            ParseError::new(
                line_no,
                joined("expected '\"' to start value of label ", found.as_str()).as_str(),
            ),
        );
    }
    match parse_label_value(body, quote, end, line_no) {
        Ok((value, next)) => Ok((Label { name: name.to_owned(), value }, next)),
        Err(e) => Err(e),
    }
}

/// Parse a double-quoted label value starting at `bytes[open]` (the opening
/// `"`). Returns the decoded value and the index just past the closing quote.
///
/// Fast path: when the value contains no backslash, the raw slice is copied
/// once. Slow path (backslash present) decodes escapes.
pub fn parse_label_value(
    body: &str,
    open: usize,
    end: usize,
    line_no: usize,
) -> (r: Result<(String, usize), ParseError>)
    requires
        open < end <= body.spec_bytes().len(),
        body.spec_bytes()[open as int] == 0x22,
    ensures
        match r {
            Ok((value, next)) => label_value_at(body.spec_bytes(), open as int, end as int) == Ok::<
                _,
                Seq<char>,
            >((value@, next as int)) && open + 1 < next <= end,
            Err(e) => e@.line == line_no && label_value_at(
                body.spec_bytes(),
                open as int,
                end as int,
            ) == Err::<(Seq<char>, int), _>(e@.message),
        },
{
    let bytes = body.as_bytes();
    let ghost b = bytes@;
    let content_start = open + 1;
    let mut i: usize = content_start;
    let mut has_escape = false;
    // Scan for the closing quote, noting whether any escape is present.
    loop
        invariant
            b == bytes@,
            b == body.spec_bytes(),
            open < content_start == open + 1 <= i <= end <= b.len(),
            closing_quote(b, content_start as int, end as int) == closing_quote(
                b,
                i as int,
                end as int,
            ),
            !has_escape ==> forall|j: int| content_start <= j < i ==> b[j] != 0x5c,
        ensures
            i < end,
            b[i as int] == 0x22,
            closing_quote(b, content_start as int, end as int) == Ok::<int, Seq<char>>(i as int),
        decreases end - i,
    {
        let rest = slice_subrange(bytes, i, end);
        match memchr::memchr2(0x22, 0x5c, rest) {
            None => {
                proof {
                    assert forall|j: int| i <= j < end implies b[j] != 0x22 && b[j] != 0x5c by {
                        assert(rest@[j - i] == b[j]);
                    }
                    lemma_quote_skips(b, i as int, end as int, end as int);
                }
                return Err(
                    ParseError::new(line_no, "unterminated label value (missing closing '\"')"),
                );
            },
            Some(offset) => {
                proof {
                    assert forall|j: int| i <= j < i + offset implies b[j] != 0x22 && b[j]
                        != 0x5c by {
                        assert(rest@[j - i] == b[j]);
                    }
                    assert(rest@[offset as int] == b[i + offset]);
                    lemma_quote_skips(b, i as int, i + offset, end as int);
                }
                i = i + offset;
            },
        }
        if bytes[i] == 0x22 {
            break;
        }
        has_escape = true;
        // Skip the backslash and the escaped byte so an escaped
        // quote/backslash does not terminate the scan. Validation happens in
        // the slow path.
        if i + 1 >= end {
            return Err(ParseError::new(line_no, "unterminated label value (trailing backslash)"));
        }
        i = i + 2;
    }
    let close = i;
    if !has_escape {
        let value = str_from(body, content_start, close).to_owned();
        proof {
            lemma_plain_value(b, content_start as int, close as int);
        }
        return Ok((value, close + 1));
    }
    // Slow path: decode escapes.
    let mut decoded = String::new();
    let mut j: usize = content_start;
    while j < close
        invariant
            b == bytes@,
            b == body.spec_bytes(),
            open < content_start <= j <= close < end <= b.len(),
            b[close as int] == 0x22,
            cut(b, j as int),
            closing_quote(b, open + 1, end as int) == Ok::<int, Seq<char>>(close as int),
            closing_quote(b, j as int, end as int) == Ok::<int, Seq<char>>(close as int),
            unescaped(b, open + 1, close as int, Seq::empty()) == unescaped(
                b,
                j as int,
                close as int,
                decoded@,
            ),
        decreases close - j,
    {
        if bytes[j] == 0x5c {
            proof {
                lemma_closing_quote(b, j + 2, end as int);
            }
            let c = bytes[j + 1];
            if c == 0x5c {
                decoded.push('\\');
            } else if c == 0x22 {
                decoded.push('"');
            } else if c == 0x6e {
                decoded.push('\n');
            } else {
                let mut message = "invalid escape sequence: \\".to_owned();
                message.push(c as char);
                return Err(ParseError::new(line_no, message.as_str()));
            }
            j = j + 2;
        } else {
            // Copy a maximal run of non-backslash bytes.
            let run_start = j;
            while j < close && bytes[j] != 0x5c
                invariant
                    b == bytes@,
                    run_start <= j <= close < end <= b.len(),
                    closing_quote(b, j as int, end as int) == Ok::<int, Seq<char>>(close as int),
                    skip_plain(b, run_start as int, close as int) == skip_plain(
                        b,
                        j as int,
                        close as int,
                    ),
                decreases close - j,
            {
                j = j + 1;
            }
            proof {
                lemma_skip_plain(b, run_start as int, close as int);
            }
            decoded.append(str_from(body, run_start, j));
        }
    }
    Ok((decoded, close + 1))
}

/// A value without backslash stands for itself.
proof fn lemma_plain_value(b: Seq<u8>, start: int, close: int)
    requires
        0 <= start <= close <= b.len(),
        forall|j: int| start <= j < close ==> b[j] != 0x5c,
    ensures
        unescaped(b, start, close, Seq::empty()) == Ok::<_, Seq<char>>(
            slice_text(b, start, close),
        ),
{
    reveal_with_fuel(unescaped, 2);
    if start == close {
        assert(b.subrange(start, close) =~= Seq::<u8>::empty());
        assert(slice_text(b, start, close) =~= Seq::<char>::empty());
    } else {
        lemma_skip_plain(b, start, close);
        assert(Seq::<char>::empty() + slice_text(b, start, close) =~= slice_text(b, start, close));
    }
}

/// Parse a metric value. Handles a leading `+` (e.g. `+Inf`); otherwise defers
/// to `read_float`.
pub fn parse_value<F: Fn(&str) -> Option<u64>>(tok: &str, read_float: &F) -> (r: Option<u64>)
    requires
        forall|s: &str| call_requires(*read_float, (s,)),
    ensures
        forall|g: spec_fn(Seq<char>) -> Option<u64>| #[trigger]
            reads(*read_float, g) ==> r == value_of(tok@, g),
{
    if tok.is_empty() {
        return None;
    }
    if let Some(bits) = read_float(tok) {
        return Some(bits);
    }
    // Fallback: strip a single leading '+' and retry (covers "+Inf").
    proof {
        reveal_strlit("+");
        assert("+"@ =~= seq!['+']);
        assert(tok@.subrange(0, 1) =~= seq![tok@[0]]);
        assert(seq!['+'][0] == '+');
        assert(seq![tok@[0]][0] == tok@[0]);
    }
    match strip_prefix(tok, "+") {
        Some(rest) => read_float(rest.as_str()),
        None => None,
    }
}

/// Parse a timestamp token into milliseconds since the epoch.
///
/// Pragmatic `OpenMetrics` extension: a token containing `.`, `e`, or `E` is
/// treated as floating-point seconds and converted to milliseconds (rounded).
/// Otherwise it is parsed as an integer number of milliseconds.
pub fn parse_timestamp<F: Fn(&str) -> Option<u64>>(tok: &str, read_float: &F) -> (r: Option<i64>)
    requires
        forall|s: &str| call_requires(*read_float, (s,)),
    ensures
        forall|g: spec_fn(Seq<char>) -> Option<u64>| #[trigger]
            reads(*read_float, g) ==> match r {
                Some(ts) => timestamp_of(tok@, g) == Some(ts as int),
                None => timestamp_of(tok@, g) is None,
            },
{
    if contains_char(tok, '.') || contains_char(tok, 'e') || contains_char(tok, 'E') {
        match read_float(tok) {
            Some(bits) => float::seconds_to_millis(bits),
            None => None,
        }
    } else {
        read_i64(tok)
    }
}

// --- what holds of every body ---
/// Whether a series is as the parser makes it: `__name__` comes first, no
/// label name occurs twice, and there is one sample, at `default_ts` unless
/// timestamps are honored.
pub open spec fn well_parsed(series: TimeSeriesView, default_ts: i64, honor: bool) -> bool {
    &&& series.labels.len() > 0
    &&& series.labels[0].name == METRIC_NAME_LABEL@
    &&& model::distinct_names(series.labels)
    &&& series.samples.len() == 1
    &&& !honor ==> series.samples[0].timestamp == default_ts
}

/// Every series of a body that parses is well parsed.
pub proof fn lemma_body_well_parsed(
    body: Seq<char>,
    default_ts: i64,
    honor: bool,
    g: spec_fn(Seq<char>) -> Option<u64>,
)
    ensures
        match body_series(body, default_ts, honor, g) {
            Ok(series) => forall|i: int|
                0 <= i < series.len() ==> well_parsed(#[trigger] series[i], default_ts, honor),
            Err(_) => true,
        },
{
    lemma_series_well_parsed(encode_utf8(body), 0, 0, Seq::empty(), default_ts, honor, g);
}

proof fn lemma_series_well_parsed(
    b: Seq<u8>,
    pos: int,
    line: nat,
    done: Seq<TimeSeriesView>,
    default_ts: i64,
    honor: bool,
    g: spec_fn(Seq<char>) -> Option<u64>,
)
    requires
        forall|i: int|
            0 <= i < done.len() ==> well_parsed(#[trigger] done[i], default_ts, honor),
    ensures
        match series_from(b, pos, line, done, default_ts, honor, g) {
            Ok(series) => forall|i: int|
                0 <= i < series.len() ==> well_parsed(#[trigger] series[i], default_ts, honor),
            Err(_) => true,
        },
    decreases b.len() + 1 - pos,
{
    if pos < b.len() {
        let feed = line_feed(b, pos);
        let end = content_end(b, pos, feed);
        lemma_line_feed(b, pos);
        match line_series(b, pos, end, default_ts, honor, g) {
            Ok(None) => {
                lemma_series_well_parsed(b, feed + 1, line + 1, done, default_ts, honor, g);
            },
            Ok(Some(series)) => {
                lemma_line_well_parsed(b, pos, end, default_ts, honor, g);
                lemma_series_well_parsed(
                    b,
                    feed + 1,
                    line + 1,
                    done.push(series),
                    default_ts,
                    honor,
                    g,
                );
            },
            Err(_) => {},
        }
    }
}

proof fn lemma_line_well_parsed(
    b: Seq<u8>,
    start: int,
    end: int,
    default_ts: i64,
    honor: bool,
    g: spec_fn(Seq<char>) -> Option<u64>,
)
    ensures
        match line_series(b, start, end, default_ts, honor, g) {
            Ok(Some(series)) => well_parsed(series, default_ts, honor),
            _ => true,
        },
{
    let name_at = skip_space(b, start, end);
    let name_end = skip_name(b, name_at + 1, end, true);
    let name = LabelView { name: METRIC_NAME_LABEL@, value: slice_text(b, name_at, name_end) };
    let next = skip_space(b, name_end, end);
    if next < end && b[next] == 0x7b {
        lemma_labels_distinct(b, next + 1, end, seq![name]);
    }
}

proof fn lemma_labels_distinct(b: Seq<u8>, i: int, end: int, labels: Seq<LabelView>)
    requires
        labels.len() > 0,
        labels[0].name == METRIC_NAME_LABEL@,
        model::distinct_names(labels),
    ensures
        match labels_from(b, i, end, labels) {
            Ok((all, _)) => all.len() > 0 && all[0].name == METRIC_NAME_LABEL@
                && model::distinct_names(all),
            Err(_) => true,
        },
    decreases end - i,
{
    let at = skip_space(b, i, end);
    lemma_skip_space(b, i, end);
    if at < end && b[at] != 0x7d {
        if let Ok((label, next)) = label_at(b, at, end, labels) {
            lemma_label_at(b, at, end, labels);
            let after = skip_space(b, next, end);
            lemma_skip_space(b, next, end);
            let more = labels.push(label);
            model::lemma_first_named(labels, label.name, 0);
            assert forall|k: int, m: int|
                #![trigger more[k], more[m]]
                0 <= k < m < more.len() implies more[k].name != more[m].name by {
                assert(more[k] == labels[k]);
                if m < labels.len() {
                    assert(more[m] == labels[m]);
                }
            }
            if after < end && b[after] == 0x2c {
                lemma_labels_distinct(b, after + 1, end, more);
            }
        }
    }
}

/// The number of line feeds from `i` on.
pub open spec fn feeds_from(b: Seq<u8>, i: int) -> nat
    decreases b.len() - i,
{
    if i >= b.len() {
        0
    } else if b[i] == 0x0a {
        1 + feeds_from(b, i + 1)
    } else {
        feeds_from(b, i + 1)
    }
}

/// An error names a line of the body.
pub proof fn lemma_failure_line(
    body: Seq<char>,
    default_ts: i64,
    honor: bool,
    g: spec_fn(Seq<char>) -> Option<u64>,
)
    ensures
        match body_series(body, default_ts, honor, g) {
            Ok(_) => true,
            Err(failure) => 1 <= failure.line <= feeds_from(encode_utf8(body), 0) + 1,
        },
{
    lemma_failure_line_from(encode_utf8(body), 0, 0, Seq::empty(), default_ts, honor, g);
}

proof fn lemma_failure_line_from(
    b: Seq<u8>,
    pos: int,
    line: nat,
    done: Seq<TimeSeriesView>,
    default_ts: i64,
    honor: bool,
    g: spec_fn(Seq<char>) -> Option<u64>,
)
    requires
        0 <= pos,
    ensures
        match series_from(b, pos, line, done, default_ts, honor, g) {
            Ok(_) => true,
            Err(failure) => line < failure.line <= line + feeds_from(b, pos) + 1,
        },
    decreases b.len() + 1 - pos,
{
    if pos < b.len() {
        let feed = line_feed(b, pos);
        let end = content_end(b, pos, feed);
        lemma_line_feed(b, pos);
        lemma_feeds(b, pos);
        match line_series(b, pos, end, default_ts, honor, g) {
            Ok(None) => {
                lemma_failure_line_from(b, feed + 1, line + 1, done, default_ts, honor, g);
            },
            Ok(Some(series)) => {
                lemma_failure_line_from(
                    b,
                    feed + 1,
                    line + 1,
                    done.push(series),
                    default_ts,
                    honor,
                    g,
                );
            },
            Err(_) => {},
        }
    }
}

/// The line feeds behind the next one.
pub proof fn lemma_feeds(b: Seq<u8>, i: int)
    requires
        0 <= i,
    ensures
        line_feed(b, i) < b.len() ==> feeds_from(b, i) == 1 + feeds_from(b, line_feed(b, i) + 1),
    decreases b.len() - i,
{
    if i < b.len() && b[i] != 0x0a {
        lemma_feeds(b, i + 1);
    }
}

} // verus!
