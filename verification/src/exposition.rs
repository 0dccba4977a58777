//! Laws of the text exposition format: lines are read one by one, whatever
//! stands around them, and a series that was written out is read back.

use crate::model;
use crate::model::{LabelView, Sample, TimeSeriesView, METRIC_NAME_LABEL};
use crate::parser;
use crate::parser::Failure;
use crate::text;
use vstd::prelude::*;
use vstd::utf8::*;

verus! {

// --- a part of the bytes is read as if it stood alone ---
/// Whether `b` holds at `lo + d .. hi + d` what `a` holds at `lo .. hi`.
spec fn agree(a: Seq<u8>, b: Seq<u8>, d: int, lo: int, hi: int) -> bool {
    &&& 0 <= lo <= hi <= a.len()
    &&& 0 <= lo + d
    &&& hi + d <= b.len()
    &&& forall|k: int| #![trigger a[k]] lo <= k < hi ==> a[k] == b[k + d]
}

proof fn lemma_moved_space(a: Seq<u8>, b: Seq<u8>, d: int, lo: int, hi: int, i: int)
    requires
        agree(a, b, d, lo, hi),
        lo <= i,
    ensures
        parser::skip_space(b, i + d, hi + d) == parser::skip_space(a, i, hi) + d,
        i <= hi ==> parser::skip_space(a, i, hi) <= hi,
        i <= parser::skip_space(a, i, hi),
    decreases hi - i,
{
    if i < hi && parser::space(a[i]) {
        lemma_moved_space(a, b, d, lo, hi, i + 1);
    }
}

proof fn lemma_moved_name(
    a: Seq<u8>,
    b: Seq<u8>,
    d: int,
    lo: int,
    hi: int,
    i: int,
    colon: bool,
)
    requires
        agree(a, b, d, lo, hi),
        lo <= i,
    ensures
        parser::skip_name(b, i + d, hi + d, colon) == parser::skip_name(a, i, hi, colon) + d,
        i <= hi ==> parser::skip_name(a, i, hi, colon) <= hi,
        i <= parser::skip_name(a, i, hi, colon),
    decreases hi - i,
{
    if i < hi && parser::name_continue(a[i], colon) {
        lemma_moved_name(a, b, d, lo, hi, i + 1, colon);
    }
}

proof fn lemma_moved_token(a: Seq<u8>, b: Seq<u8>, d: int, lo: int, hi: int, i: int)
    requires
        agree(a, b, d, lo, hi),
        lo <= i,
    ensures
        parser::skip_token(b, i + d, hi + d) == parser::skip_token(a, i, hi) + d,
        i <= hi ==> parser::skip_token(a, i, hi) <= hi,
        i <= parser::skip_token(a, i, hi),
    decreases hi - i,
{
    if i < hi && !parser::space(a[i]) {
        lemma_moved_token(a, b, d, lo, hi, i + 1);
    }
}

proof fn lemma_moved_plain(a: Seq<u8>, b: Seq<u8>, d: int, lo: int, hi: int, i: int, end: int)
    requires
        agree(a, b, d, lo, hi),
        lo <= i,
        end <= hi,
    ensures
        parser::skip_plain(b, i + d, end + d) == parser::skip_plain(a, i, end) + d,
    decreases end - i,
{
    if i < end && a[i] != 0x5c {
        lemma_moved_plain(a, b, d, lo, hi, i + 1, end);
    }
}

proof fn lemma_moved_quote(a: Seq<u8>, b: Seq<u8>, d: int, lo: int, hi: int, i: int)
    requires
        agree(a, b, d, lo, hi),
        lo <= i,
    ensures
        parser::closing_quote(b, i + d, hi + d) == (match parser::closing_quote(a, i, hi) {
            Ok(close) => Ok::<int, Seq<char>>(close + d),
            Err(e) => Err(e),
        }),
    decreases hi - i,
{
    if i < hi && a[i] != 0x22 {
        if a[i] == 0x5c {
            if i + 1 < hi {
                lemma_moved_quote(a, b, d, lo, hi, i + 2);
            }
        } else {
            lemma_moved_quote(a, b, d, lo, hi, i + 1);
        }
    }
}

proof fn lemma_moved_text(a: Seq<u8>, b: Seq<u8>, d: int, lo: int, hi: int, i: int, j: int)
    requires
        agree(a, b, d, lo, hi),
        lo <= i <= j <= hi,
    ensures
        parser::slice_text(b, i + d, j + d) == parser::slice_text(a, i, j),
{
    assert(b.subrange(i + d, j + d) =~= a.subrange(i, j)) by {
        assert forall|k: int| 0 <= k < j - i implies b.subrange(i + d, j + d)[k] == a.subrange(
            i,
            j,
        )[k] by {
            assert(a[i + k] == b[i + k + d]);
        }
    }
}

proof fn lemma_moved_unescaped(
    a: Seq<u8>,
    b: Seq<u8>,
    d: int,
    lo: int,
    hi: int,
    i: int,
    close: int,
    done: Seq<char>,
)
    requires
        agree(a, b, d, lo, hi),
        lo <= i,
        close < hi,
    ensures
        parser::unescaped(b, i + d, close + d, done) == parser::unescaped(a, i, close, done),
    decreases close + 1 - i,
{
    if i < close {
        assert(a[i] == b[i + d]);
        assert(a[i + 1] == b[i + 1 + d]);
        if a[i] != 0x5c {
            let stop = parser::skip_plain(a, i, close);
            parser::lemma_skip_plain(a, i, close);
            lemma_moved_plain(a, b, d, lo, hi, i, close);
            lemma_moved_text(a, b, d, lo, hi, i, stop);
            lemma_moved_unescaped(
                a,
                b,
                d,
                lo,
                hi,
                stop,
                close,
                done + parser::slice_text(a, i, stop),
            );
        } else if a[i + 1] == 0x5c {
            lemma_moved_unescaped(a, b, d, lo, hi, i + 2, close, done.push('\\'));
        } else if a[i + 1] == 0x22 {
            lemma_moved_unescaped(a, b, d, lo, hi, i + 2, close, done.push('"'));
        } else if a[i + 1] == 0x6e {
            lemma_moved_unescaped(a, b, d, lo, hi, i + 2, close, done.push('\n'));
        }
    }
}

proof fn lemma_moved_label(
    a: Seq<u8>,
    b: Seq<u8>,
    d: int,
    lo: int,
    hi: int,
    i: int,
    labels: Seq<LabelView>,
)
    requires
        agree(a, b, d, lo, hi),
        lo <= i < hi,
    ensures
        parser::label_at(b, i + d, hi + d, labels) == (match parser::label_at(a, i, hi, labels) {
            Ok((label, next)) => Ok::<(LabelView, int), Seq<char>>((label, next + d)),
            Err(e) => Err(e),
        }),
{
    lemma_moved_name(a, b, d, lo, hi, i + 1, false);
    let name_end = parser::skip_name(a, i + 1, hi, false);
    lemma_moved_text(a, b, d, lo, hi, i, name_end);
    lemma_moved_space(a, b, d, lo, hi, name_end);
    let equals = parser::skip_space(a, name_end, hi);
    lemma_moved_space(a, b, d, lo, hi, equals + 1);
    let quote = parser::skip_space(a, equals + 1, hi);
    lemma_moved_quote(a, b, d, lo, hi, quote + 1);
    assert(a[i] == b[i + d]);
    if equals < hi {
        assert(a[equals] == b[equals + d]);
    }
    if quote < hi {
        assert(a[quote] == b[quote + d]);
        parser::lemma_closing_quote(a, quote + 1, hi);
        if let Ok(close) = parser::closing_quote(a, quote + 1, hi) {
            lemma_moved_unescaped(a, b, d, lo, hi, quote + 1, close, Seq::empty());
        }
    }
}

proof fn lemma_moved_labels(
    a: Seq<u8>,
    b: Seq<u8>,
    d: int,
    lo: int,
    hi: int,
    i: int,
    labels: Seq<LabelView>,
)
    requires
        agree(a, b, d, lo, hi),
        lo <= i,
    ensures
        parser::labels_from(b, i + d, hi + d, labels) == (match parser::labels_from(
            a,
            i,
            hi,
            labels,
        ) {
            Ok((all, next)) => Ok::<(Seq<LabelView>, int), Seq<char>>((all, next + d)),
            Err(e) => Err(e),
        }),
        match parser::labels_from(a, i, hi, labels) {
            Ok((_, next)) => i < next <= hi,
            Err(_) => true,
        },
    decreases hi - i,
{
    let at = parser::skip_space(a, i, hi);
    lemma_moved_space(a, b, d, lo, hi, i);
    if at < hi {
        assert(a[at] == b[at + d]);
        if a[at] != 0x7d {
            lemma_moved_label(a, b, d, lo, hi, at, labels);
            parser::lemma_label_at(a, at, hi, labels);
            if let Ok((label, next)) = parser::label_at(a, at, hi, labels) {
                let after = parser::skip_space(a, next, hi);
                lemma_moved_space(a, b, d, lo, hi, next);
                if after < hi {
                    assert(a[after] == b[after + d]);
                    if a[after] == 0x2c {
                        lemma_moved_labels(a, b, d, lo, hi, after + 1, labels.push(label));
                    }
                }
            }
        }
    }
}

proof fn lemma_moved_sample(
    a: Seq<u8>,
    b: Seq<u8>,
    d: int,
    lo: int,
    hi: int,
    i: int,
    labels: Seq<LabelView>,
    default_ts: i64,
    honor: bool,
    g: spec_fn(Seq<char>) -> Option<u64>,
)
    requires
        agree(a, b, d, lo, hi),
        lo <= i,
    ensures
        parser::sample_from(b, i + d, hi + d, labels, default_ts, honor, g) == parser::sample_from(
            a,
            i,
            hi,
            labels,
            default_ts,
            honor,
            g,
        ),
{
    if i < hi {
        lemma_moved_token(a, b, d, lo, hi, i);
        let value_end = parser::skip_token(a, i, hi);
        lemma_moved_text(a, b, d, lo, hi, i, value_end);
        lemma_moved_space(a, b, d, lo, hi, value_end);
        let after = parser::skip_space(a, value_end, hi);
        lemma_moved_token(a, b, d, lo, hi, after);
        let ts_end = parser::skip_token(a, after, hi);
        lemma_moved_text(a, b, d, lo, hi, after, ts_end);
        lemma_moved_space(a, b, d, lo, hi, ts_end);
        let rest = parser::skip_space(a, ts_end, hi);
        lemma_moved_text(a, b, d, lo, hi, rest, hi);
        if after < hi {
            assert(a[after] == b[after + d]);
        }
        if rest < hi {
            assert(a[rest] == b[rest + d]);
        }
    }
}

/// A line means the same wherever it stands.
proof fn lemma_moved_line(
    a: Seq<u8>,
    b: Seq<u8>,
    d: int,
    lo: int,
    hi: int,
    default_ts: i64,
    honor: bool,
    g: spec_fn(Seq<char>) -> Option<u64>,
)
    requires
        agree(a, b, d, lo, hi),
    ensures
        parser::line_series(b, lo + d, hi + d, default_ts, honor, g) == parser::line_series(
            a,
            lo,
            hi,
            default_ts,
            honor,
            g,
        ),
{
    lemma_moved_space(a, b, d, lo, hi, lo);
    let name_at = parser::skip_space(a, lo, hi);
    if name_at < hi {
        assert(a[name_at] == b[name_at + d]);
        lemma_moved_name(a, b, d, lo, hi, name_at + 1, true);
        let name_end = parser::skip_name(a, name_at + 1, hi, true);
        lemma_moved_text(a, b, d, lo, hi, name_at, name_end);
        lemma_moved_space(a, b, d, lo, hi, name_end);
        let next = parser::skip_space(a, name_end, hi);
        let name = LabelView {
            name: METRIC_NAME_LABEL@,
            value: parser::slice_text(a, name_at, name_end),
        };
        if next < hi {
            assert(a[next] == b[next + d]);
        }
        if next < hi && a[next] == 0x7b {
            lemma_moved_labels(a, b, d, lo, hi, next + 1, seq![name]);
            if let Ok((labels, after)) = parser::labels_from(a, next + 1, hi, seq![name]) {
                lemma_moved_space(a, b, d, lo, hi, after);
                lemma_moved_sample(
                    a,
                    b,
                    d,
                    lo,
                    hi,
                    parser::skip_space(a, after, hi),
                    labels,
                    default_ts,
                    honor,
                    g,
                );
            }
        } else {
            lemma_moved_sample(a, b, d, lo, hi, next, seq![name], default_ts, honor, g);
        }
    }
}

// --- bodies, one after the other ---
/// What a body gives that follows `lines` lines, which gave `done`.
pub open spec fn after_lines(
    lines: nat,
    done: Seq<TimeSeriesView>,
    rest: Result<Seq<TimeSeriesView>, Failure>,
) -> Result<Seq<TimeSeriesView>, Failure> {
    match rest {
        Err(failure) => Err(Failure { line: lines + failure.line, message: failure.message }),
        Ok(series) => Ok(done + series),
    }
}

/// The end of a body is read as a body of its own.
proof fn lemma_last_lines(
    a: Seq<u8>,
    b: Seq<u8>,
    d: int,
    pos: int,
    before: nat,
    line: nat,
    done: Seq<TimeSeriesView>,
    part: Seq<TimeSeriesView>,
    default_ts: i64,
    honor: bool,
    g: spec_fn(Seq<char>) -> Option<u64>,
)
    requires
        0 <= d,
        b.len() == a.len() + d,
        agree(a, b, d, 0, a.len() as int),
        0 <= pos,
    ensures
        parser::series_from(b, pos + d, before + line, done + part, default_ts, honor, g)
            == after_lines(
            before,
            done,
            parser::series_from(a, pos, line, part, default_ts, honor, g),
        ),
    decreases a.len() + 1 - pos,
{
    if pos < a.len() {
        let feed = parser::line_feed(a, pos);
        parser::lemma_line_feed(a, pos);
        assert forall|j: int| pos + d <= j < feed + d implies b[j] != 0x0a by {
            assert(a[j - d] == b[j - d + d]);
        }
        if feed < a.len() {
            assert(a[feed] == b[feed + d]);
        }
        parser::lemma_line_feed_at(b, pos + d, feed + d);
        let end = parser::content_end(a, pos, feed);
        if feed > pos {
            assert(a[feed - 1] == b[feed - 1 + d]);
        }
        lemma_moved_line(a, b, d, pos, end, default_ts, honor, g);
        match parser::line_series(a, pos, end, default_ts, honor, g) {
            Err(_) => {},
            Ok(None) => {
                lemma_last_lines(
                    a,
                    b,
                    d,
                    feed + 1,
                    before,
                    line + 1,
                    done,
                    part,
                    default_ts,
                    honor,
                    g,
                );
            },
            Ok(Some(series)) => {
                lemma_last_lines(
                    a,
                    b,
                    d,
                    feed + 1,
                    before,
                    line + 1,
                    done,
                    part.push(series),
                    default_ts,
                    honor,
                    g,
                );
                assert(done + part.push(series) =~= (done + part).push(series));
            },
        }
    }
}

/// The lines up to a line feed are read as a body of their own.
proof fn lemma_first_lines(
    a: Seq<u8>,
    b: Seq<u8>,
    pos: int,
    line: nat,
    done: Seq<TimeSeriesView>,
    default_ts: i64,
    honor: bool,
    g: spec_fn(Seq<char>) -> Option<u64>,
)
    requires
        a.len() < b.len(),
        agree(a, b, 0, 0, a.len() as int),
        b[a.len() as int] == 0x0a,
        0 <= pos <= a.len(),
    ensures
        parser::series_from(b, pos, line, done, default_ts, honor, g) == (
        match parser::series_from(a, pos, line, done, default_ts, honor, g) {
            Err(failure) => Err(failure),
            Ok(series) => parser::series_from(
                b,
                a.len() as int + 1,
                line + parser::feeds_from(a, pos) + 1,
                series,
                default_ts,
                honor,
                g,
            ),
        }),
    decreases a.len() - pos,
{
    let feed = parser::line_feed(a, pos);
    parser::lemma_line_feed(a, pos);
    assert forall|j: int| pos <= j < feed implies b[j] != 0x0a by {
        assert(a[j] == b[j + 0]);
    }
    if feed < a.len() {
        assert(a[feed] == b[feed + 0]);
    }
    parser::lemma_line_feed_at(b, pos, feed);
    if pos == a.len() {
        assert(parser::line_series(b, pos, pos, default_ts, honor, g) == Ok::<
            Option<TimeSeriesView>,
            Seq<char>,
        >(None));
    } else {
        let end = parser::content_end(a, pos, feed);
        if feed > pos {
            assert(a[feed - 1] == b[feed - 1 + 0]);
        }
        lemma_moved_line(a, b, 0, pos, end, default_ts, honor, g);
        parser::lemma_feeds(a, pos);
        if feed < a.len() {
            match parser::line_series(a, pos, end, default_ts, honor, g) {
                Err(_) => {},
                Ok(None) => {
                    lemma_first_lines(a, b, feed + 1, line + 1, done, default_ts, honor, g);
                },
                Ok(Some(series)) => {
                    lemma_first_lines(
                        a,
                        b,
                        feed + 1,
                        line + 1,
                        done.push(series),
                        default_ts,
                        honor,
                        g,
                    );
                },
            }
        } else {
            lemma_no_feeds(a, pos);
            reveal_with_fuel(parser::series_from, 2);
        }
    }
}

proof fn lemma_no_feeds(b: Seq<u8>, i: int)
    requires
        0 <= i,
        parser::line_feed(b, i) == b.len(),
    ensures
        parser::feeds_from(b, i) == 0,
    decreases b.len() - i,
{
    if i < b.len() {
        parser::lemma_line_feed(b, i + 1);
        if b[i] != 0x0a {
            lemma_no_feeds(b, i + 1);
        }
    }
}

/// The encoding of two texts put together is their encodings put together.
pub proof fn lemma_encoding_joins(a: Seq<char>, c: Seq<char>)
    ensures
        encode_utf8(a + c) == encode_utf8(a) + encode_utf8(c),
    decreases a.len(),
{
    if a.len() == 0 {
        assert(a + c =~= c);
        assert(encode_utf8(a) + encode_utf8(c) =~= encode_utf8(c));
    } else {
        lemma_encoding_joins(a.drop_first(), c);
        assert((a + c).drop_first() =~= a.drop_first() + c);
        assert(encode_utf8(a + c) =~= encode_utf8(a) + encode_utf8(c));
    }
}

/// The number of lines of a text.
pub open spec fn line_count(body: Seq<char>) -> nat {
    parser::feeds_from(encode_utf8(body), 0) + 1
}

/// Lines are read one by one: two bodies with a line feed between them give
/// the series of the first and then those of the second. An error in the first
/// is the error of the whole; else one in the second is, with the lines of the
/// first counted.
pub proof fn lemma_bodies_join(
    first: Seq<char>,
    second: Seq<char>,
    default_ts: i64,
    honor: bool,
    g: spec_fn(Seq<char>) -> Option<u64>,
)
    ensures
        parser::body_series(first + seq!['\n'] + second, default_ts, honor, g) == (
        match parser::body_series(first, default_ts, honor, g) {
            Err(failure) => Err(failure),
            Ok(series) => after_lines(
                line_count(first),
                series,
                parser::body_series(second, default_ts, honor, g),
            ),
        }),
{
    let whole = first + seq!['\n'] + second;
    let a = encode_utf8(first);
    let c = encode_utf8(second);
    let b = encode_utf8(whole);
    lemma_encoding_joins(first + seq!['\n'], second);
    lemma_encoding_joins(first, seq!['\n']);
    is_ascii_chars_encode_utf8(seq!['\n']);
    let feed = encode_utf8(seq!['\n']);
    assert(seq!['\n'][0] as u8 == feed[0]);
    assert(b =~= a + feed + c);
    lemma_first_lines(a, b, 0, 0, Seq::empty(), default_ts, honor, g);
    if let Ok(series) = parser::series_from(a, 0, 0, Seq::empty(), default_ts, honor, g) {
        let d = a.len() + 1;
        assert(agree(c, b, d as int, 0, c.len() as int));
        lemma_last_lines(
            c,
            b,
            d as int,
            0,
            line_count(first),
            0,
            series,
            Seq::empty(),
            default_ts,
            honor,
            g,
        );
        assert(series + Seq::<TimeSeriesView>::empty() =~= series);
    }
}

// --- series, written out ---
/// Whether a text is a metric name, or without `colon` a label name.
pub open spec fn is_name(s: Seq<char>, colon: bool) -> bool {
    &&& s.len() > 0
    &&& is_ascii_chars(s)
    &&& parser::name_start(s[0] as u8, colon)
    &&& forall|i: int|
        0 <= i < s.len() ==> parser::name_continue((#[trigger] s[i]) as u8, colon)
}

/// Whether a text can stand as a number in a line: it is not empty, does not
/// begin with a brace, and no space, tab or end of line is in it.
pub open spec fn is_token(s: Seq<char>) -> bool {
    &&& s.len() > 0
    &&& s[0] != '{'
    &&& !s.contains(' ')
    &&& !s.contains('\t')
    &&& !s.contains('\n')
    &&& !s.contains('\r')
}

/// Whether a character is escaped in a label value.
pub open spec fn special(c: char) -> bool {
    c == '\\' || c == '"' || c == '\n'
}

/// A character of a label value, as it is written.
pub open spec fn escaped_char(c: char) -> Seq<char> {
    if c == '\n' {
        seq!['\\', 'n']
    } else if special(c) {
        seq!['\\', c]
    } else {
        seq![c]
    }
}

/// A label value, as it is written between the quotes.
pub open spec fn escaped(value: Seq<char>) -> Seq<char>
    decreases value.len(),
{
    if value.len() == 0 {
        Seq::empty()
    } else {
        escaped_char(value[0]) + escaped(value.skip(1))
    }
}

/// A label value, as it is written with its quotes.
pub open spec fn quoted(value: Seq<char>) -> Seq<char> {
    seq!['"'] + escaped(value) + seq!['"']
}

/// A label, as it is written.
pub open spec fn label_text(label: LabelView) -> Seq<char> {
    label.name + seq!['=', '"'] + escaped(label.value) + seq!['"']
}

/// Labels, as they are written between the braces.
pub open spec fn labels_text(labels: Seq<LabelView>) -> Seq<char>
    decreases labels.len(),
{
    if labels.len() == 0 {
        Seq::empty()
    } else if labels.len() == 1 {
        label_text(labels[0])
    } else {
        label_text(labels[0]) + seq![','] + labels_text(labels.skip(1))
    }
}

/// What a line holds: a metric's name, its labels, the text of its value and,
/// where it has one, its timestamp.
#[verifier::ext_equal]
pub struct Line {
    pub name: Seq<char>,
    pub labels: Seq<LabelView>,
    pub value: Seq<char>,
    pub timestamp: Option<i64>,
}

/// A timestamp, as it is written behind the value.
pub open spec fn timestamp_text(timestamp: Option<i64>) -> Seq<char> {
    match timestamp {
        Some(ts) => seq![' '] + text::integer_text(ts as int),
        None => Seq::empty(),
    }
}

/// A line, as it is written.
pub open spec fn line_text(line: Line) -> Seq<char> {
    line.name + (if line.labels.len() == 0 {
        Seq::empty()
    } else {
        seq!['{'] + (labels_text(line.labels) + seq!['}'])
    }) + seq![' '] + (line.value + timestamp_text(line.timestamp))
}

/// A body of lines, as it is written.
pub open spec fn body_text(lines: Seq<Line>) -> Seq<char>
    decreases lines.len(),
{
    if lines.len() == 0 {
        Seq::empty()
    } else {
        line_text(lines[0]) + seq!['\n'] + body_text(lines.skip(1))
    }
}

/// The labels of a line's series.
pub open spec fn line_labels(line: Line) -> Seq<LabelView> {
    seq![LabelView { name: METRIC_NAME_LABEL@, value: line.name }] + line.labels
}

/// Whether a line can be written: its names are names, none occurs twice, and
/// its value reads as a number.
pub open spec fn writable(line: Line, g: spec_fn(Seq<char>) -> Option<u64>) -> bool {
    &&& is_name(line.name, true)
    &&& forall|i: int|
        0 <= i < line.labels.len() ==> is_name((#[trigger] line.labels[i]).name, false)
    &&& model::distinct_names(line_labels(line))
    &&& is_token(line.value)
    &&& parser::value_of(line.value, g) is Some
}

/// The series of a line.
pub open spec fn line_meaning(
    line: Line,
    default_ts: i64,
    honor: bool,
    g: spec_fn(Seq<char>) -> Option<u64>,
) -> TimeSeriesView {
    parser::one_sample(
        line_labels(line),
        parser::value_of(line.value, g)->0,
        match line.timestamp {
            Some(ts) => if honor {
                ts
            } else {
                default_ts
            },
            None => default_ts,
        },
    )
}

// --- texts among the bytes ---
/// Whether the encoding of `t` stands at `i`.
spec fn stands(b: Seq<u8>, i: int, t: Seq<char>) -> bool {
    &&& 0 <= i
    &&& i + encode_utf8(t).len() <= b.len()
    &&& b.subrange(i, i + encode_utf8(t).len()) == encode_utf8(t)
}

proof fn lemma_stands_split(b: Seq<u8>, i: int, x: Seq<char>, y: Seq<char>)
    requires
        stands(b, i, x + y),
    ensures
        stands(b, i, x),
        stands(b, i + encode_utf8(x).len(), y),
        encode_utf8(x + y).len() == encode_utf8(x).len() + encode_utf8(y).len(),
{
    lemma_encoding_joins(x, y);
    let e = encode_utf8(x + y);
    let n = encode_utf8(x).len() as int;
    let m = encode_utf8(y).len() as int;
    assert(e.subrange(0, n) =~= encode_utf8(x));
    assert(e.subrange(n, n + m) =~= encode_utf8(y));
    assert(b.subrange(i, i + n) =~= b.subrange(i, i + n + m).subrange(0, n));
    assert(b.subrange(i + n, i + n + m) =~= b.subrange(i, i + n + m).subrange(n, n + m));
}

proof fn lemma_stands_text(b: Seq<u8>, i: int, t: Seq<char>)
    requires
        stands(b, i, t),
    ensures
        parser::slice_text(b, i, i + encode_utf8(t).len()) == t,
{
    encode_utf8_decode_utf8(t);
}

proof fn lemma_stands_ascii(b: Seq<u8>, i: int, t: Seq<char>)
    requires
        stands(b, i, t),
        is_ascii_chars(t),
    ensures
        encode_utf8(t).len() == t.len(),
        forall|k: int| #![trigger t[k]] 0 <= k < t.len() ==> b[i + k] == t[k] as u8,
{
    is_ascii_chars_encode_utf8(t);
    assert forall|k: int| #![trigger t[k]] 0 <= k < t.len() implies b[i + k] == t[k] as u8 by {
        assert(b.subrange(i, i + t.len())[k] == encode_utf8(t)[k]);
    }
}

proof fn lemma_one_character(head: char, c: char)
    requires
        c as u32 <= 0x7f,
        head != c,
    ensures
        forall|j: int|
            0 <= j < encode_utf8(seq![head]).len() ==> #[trigger] encode_utf8(seq![head])[j]
                != c as u8,
{
    let first = seq![head];
    let e = encode_utf8(first);
    encode_utf8_first_scalar(first);
    assert(first.drop_first() =~= Seq::<char>::empty());
    reveal_with_fuel(encode_utf8, 2);
    assert(e =~= encode_scalar(head as u32));
    if head as u32 <= 0x7f {
        is_ascii_chars_encode_utf8(first);
        assert(first[0] as u8 == e[0]);
    }
}

/// An ASCII character that a text lacks is not among the bytes of its
/// encoding.
proof fn lemma_encoding_lacks(t: Seq<char>, c: char)
    requires
        c as u32 <= 0x7f,
        !t.contains(c),
    ensures
        forall|j: int|
            0 <= j < encode_utf8(t).len() ==> #[trigger] encode_utf8(t)[j] != c as u8,
    decreases t.len(),
{
    if t.len() > 0 {
        let first = seq![t[0]];
        let rest = t.drop_first();
        assert(t =~= first + rest);
        lemma_encoding_joins(first, rest);
        assert forall|k: int| 0 <= k < rest.len() implies rest[k] != c by {
            assert(t.contains(t[k + 1]));
        }
        lemma_encoding_lacks(rest, c);
        assert(t.contains(t[0]));
        let e = encode_utf8(first);
        lemma_one_character(t[0], c);
        assert forall|j: int| 0 <= j < encode_utf8(t).len() implies #[trigger] encode_utf8(t)[j]
            != c as u8 by {
            if j < e.len() {
                assert(encode_utf8(t)[j] == e[j]);
            } else {
                assert(encode_utf8(t)[j] == encode_utf8(rest)[j - e.len()]);
            }
        }
    }
}

proof fn lemma_stands_lacks(b: Seq<u8>, i: int, t: Seq<char>, c: char)
    requires
        stands(b, i, t),
        c as u32 <= 0x7f,
        !t.contains(c),
    ensures
        forall|j: int| i <= j < i + encode_utf8(t).len() ==> b[j] != c as u8,
{
    lemma_encoding_lacks(t, c);
    assert forall|j: int| i <= j < i + encode_utf8(t).len() implies b[j] != c as u8 by {
        assert(b.subrange(i, i + encode_utf8(t).len())[j - i] == encode_utf8(t)[j - i]);
    }
}

// --- where the scans stop on what was written ---
proof fn lemma_name_ends(b: Seq<u8>, i: int, at: int, end: int, colon: bool)
    requires
        i <= at <= end,
        forall|j: int| i <= j < at ==> parser::name_continue(b[j], colon),
        at < end ==> !parser::name_continue(b[at], colon),
    ensures
        parser::skip_name(b, i, end, colon) == at,
    decreases at - i,
{
    if i < at {
        lemma_name_ends(b, i + 1, at, end, colon);
    }
}

proof fn lemma_token_ends(b: Seq<u8>, i: int, at: int, end: int)
    requires
        i <= at <= end,
        forall|j: int| i <= j < at ==> !parser::space(b[j]),
        at < end ==> parser::space(b[at]),
    ensures
        parser::skip_token(b, i, end) == at,
    decreases at - i,
{
    if i < at {
        lemma_token_ends(b, i + 1, at, end);
    }
}

proof fn lemma_plain_ends(b: Seq<u8>, i: int, at: int, end: int)
    requires
        i <= at <= end,
        forall|j: int| i <= j < at ==> b[j] != 0x5c,
        at < end ==> b[at] == 0x5c,
    ensures
        parser::skip_plain(b, i, end) == at,
    decreases at - i,
{
    if i < at {
        lemma_plain_ends(b, i + 1, at, end);
    }
}

// --- label values ---
proof fn lemma_escaped_joins(a: Seq<char>, c: Seq<char>)
    ensures
        escaped(a + c) == escaped(a) + escaped(c),
    decreases a.len(),
{
    if a.len() == 0 {
        assert(a + c =~= c);
        assert(escaped(a) + escaped(c) =~= escaped(c));
    } else {
        lemma_escaped_joins(a.skip(1), c);
        assert((a + c).skip(1) =~= a.skip(1) + c);
        assert(escaped(a + c) =~= escaped(a) + escaped(c));
    }
}

/// A value without a backslash, a quote or a line feed is written as it is.
pub proof fn lemma_escaped_plain(value: Seq<char>)
    requires
        forall|i: int| 0 <= i < value.len() ==> !special(#[trigger] value[i]),
    ensures
        escaped(value) == value,
    decreases value.len(),
{
    if value.len() > 0 {
        let rest = value.skip(1);
        assert forall|i: int| 0 <= i < rest.len() implies !special(#[trigger] rest[i]) by {
            assert(rest[i] == value[i + 1]);
        }
        lemma_escaped_plain(rest);
        assert(escaped(value) =~= value);
    } else {
        assert(escaped(value) =~= value);
    }
}

/// The number of characters before the first that is escaped.
spec fn plain_run(value: Seq<char>) -> nat
    decreases value.len(),
{
    if value.len() == 0 || special(value[0]) {
        0
    } else {
        1 + plain_run(value.skip(1))
    }
}

proof fn lemma_plain_run(value: Seq<char>)
    ensures
        plain_run(value) <= value.len(),
        forall|i: int| 0 <= i < plain_run(value) ==> !special(#[trigger] value[i]),
        plain_run(value) < value.len() ==> special(value[plain_run(value) as int]),
    decreases value.len(),
{
    if value.len() > 0 && !special(value[0]) {
        let rest = value.skip(1);
        lemma_plain_run(rest);
        assert forall|i: int| 0 <= i < plain_run(value) implies !special(#[trigger] value[i]) by {
            if i > 0 {
                assert(rest[i - 1] == value[i]);
            }
        }
        if plain_run(value) < value.len() {
            assert(rest[plain_run(rest) as int] == value[plain_run(value) as int]);
        }
    }
}

proof fn lemma_special_stands(b: Seq<u8>, i: int, value: Seq<char>)
    requires
        value.len() > 0,
        special(value[0]),
        stands(b, i, escaped(value)),
    ensures
        b[i] == 0x5c,
        b[i + 1] == (if value[0] == '\n' {
            0x6eu8
        } else if value[0] == '"' {
            0x22u8
        } else {
            0x5cu8
        }),
        stands(b, i + 2, escaped(value.skip(1))),
        encode_utf8(escaped(value)).len() == 2 + encode_utf8(escaped(value.skip(1))).len(),
{
    let head = escaped_char(value[0]);
    lemma_stands_split(b, i, head, escaped(value.skip(1)));
    lemma_stands_ascii(b, i, head);
    assert(b[i + 0] == head[0] as u8);
    assert(b[i + 1] == head[1] as u8);
}

proof fn lemma_quote_found(b: Seq<u8>, i: int, value: Seq<char>, end: int)
    requires
        stands(b, i, escaped(value)),
        i + encode_utf8(escaped(value)).len() < end <= b.len(),
        b[i + encode_utf8(escaped(value)).len()] == 0x22,
    ensures
        parser::closing_quote(b, i, end) == Ok::<int, Seq<char>>(
            i + encode_utf8(escaped(value)).len(),
        ),
    decreases value.len(),
{
    if value.len() == 0 {
        assert(encode_utf8(escaped(value)).len() == 0);
    } else if special(value[0]) {
        lemma_special_stands(b, i, value);
        lemma_quote_found(b, i + 2, value.skip(1), end);
    } else {
        let head = seq![value[0]];
        let n = encode_utf8(head).len() as int;
        lemma_stands_split(b, i, head, escaped(value.skip(1)));
        assert(!head.contains('"'));
        assert(!head.contains('\\'));
        lemma_stands_lacks(b, i, head, '"');
        lemma_stands_lacks(b, i, head, '\\');
        parser::lemma_quote_skips(b, i, i + n, end);
        lemma_quote_found(b, i + n, value.skip(1), end);
    }
}

proof fn lemma_value_unescaped(b: Seq<u8>, i: int, value: Seq<char>, done: Seq<char>)
    requires
        stands(b, i, escaped(value)),
    ensures
        parser::unescaped(b, i, i + encode_utf8(escaped(value)).len(), done) == Ok::<
            Seq<char>,
            Seq<char>,
        >(done + value),
    decreases value.len(),
{
    let close = i + encode_utf8(escaped(value)).len();
    let k = plain_run(value) as int;
    lemma_plain_run(value);
    if value.len() == 0 {
        assert(encode_utf8(escaped(value)).len() == 0);
        assert(done + value =~= done);
    } else if k == 0 {
        lemma_special_stands(b, i, value);
        lemma_value_unescaped(b, i + 2, value.skip(1), done.push(value[0]));
        assert(done.push(value[0]) + value.skip(1) =~= done + value);
    } else {
        let plain = value.take(k);
        let rest = value.skip(k);
        assert(value =~= plain + rest);
        lemma_escaped_joins(plain, rest);
        assert forall|j: int| 0 <= j < plain.len() implies !special(#[trigger] plain[j]) by {
            assert(plain[j] == value[j]);
        }
        lemma_escaped_plain(plain);
        lemma_stands_split(b, i, plain, escaped(rest));
        let stop = i + encode_utf8(plain).len();
        assert(!plain.contains('\\'));
        lemma_stands_lacks(b, i, plain, '\\');
        lemma_stands_text(b, i, plain);
        encode_utf8_first_scalar(plain);
        if rest.len() > 0 {
            assert(rest[0] == value[k]);
            lemma_special_stands(b, stop, rest);
        } else {
            assert(encode_utf8(escaped(rest)).len() == 0);
        }
        lemma_plain_ends(b, i, stop, close);
        lemma_value_unescaped(b, stop, rest, done + plain);
        assert(done + plain + rest =~= done + value);
    }
}

// --- labels ---
/// Nothing is named like the first of some labels whose names are distinct
/// and that stand behind others.
proof fn lemma_fresh_name(done: Seq<LabelView>, rest: Seq<LabelView>)
    requires
        model::distinct_names(done + rest),
        rest.len() > 0,
    ensures
        !model::has_label(done, rest[0].name),
{
    let all = done + rest;
    model::lemma_first_named(done, rest[0].name, 0);
    if model::has_label(done, rest[0].name) {
        let at = model::first_named(done, rest[0].name, 0);
        assert(all[at] == done[at]);
        assert(all[done.len() as int] == rest[0]);
    }
}

proof fn lemma_label_read(
    b: Seq<u8>,
    i: int,
    end: int,
    done: Seq<LabelView>,
    label: LabelView,
)
    requires
        is_name(label.name, false),
        label.name != METRIC_NAME_LABEL@,
        !model::has_label(done, label.name),
        stands(b, i, label_text(label)),
        i + encode_utf8(label_text(label)).len() <= end <= b.len(),
    ensures
        parser::label_at(b, i, end, done) == Ok::<(LabelView, int), Seq<char>>(
            (label, i + encode_utf8(label_text(label)).len()),
        ),
        !parser::space(b[i]),
        b[i] != 0x7d,
        encode_utf8(label_text(label)).len() > 0,
{
    let name = label.name;
    let value = escaped(label.value);
    let open = seq!['=', '"'];
    let quote = seq!['"'];
    lemma_stands_split(b, i, name + open + value, quote);
    lemma_stands_split(b, i, name + open, value);
    lemma_stands_split(b, i, name, open);
    lemma_stands_ascii(b, i, name);
    let n = name.len() as int;
    assert(b[i + 0] == name[0] as u8);
    assert forall|j: int| i <= j < i + n implies parser::name_continue(b[j], false) by {
        assert(b[i + (j - i)] == name[j - i] as u8);
    }
    lemma_stands_ascii(b, i + n, open);
    assert(b[i + n + 0] == open[0] as u8);
    assert(b[i + n + 1] == open[1] as u8);
    lemma_name_ends(b, i + 1, i + n, end, false);
    lemma_stands_text(b, i, name);
    let at = i + n + 2;
    let close = at + encode_utf8(value).len();
    lemma_stands_ascii(b, close, quote);
    assert(b[close + 0] == quote[0] as u8);
    lemma_quote_found(b, at, label.value, end);
    lemma_value_unescaped(b, at, label.value, Seq::empty());
    assert(Seq::<char>::empty() + label.value =~= label.value);
}

proof fn lemma_labels_read(
    b: Seq<u8>,
    i: int,
    end: int,
    done: Seq<LabelView>,
    rest: Seq<LabelView>,
)
    requires
        rest.len() > 0,
        done.len() > 0,
        done[0].name == METRIC_NAME_LABEL@,
        model::distinct_names(done + rest),
        forall|k: int| 0 <= k < rest.len() ==> is_name((#[trigger] rest[k]).name, false),
        stands(b, i, labels_text(rest) + seq!['}']),
        i + encode_utf8(labels_text(rest) + seq!['}']).len() <= end <= b.len(),
    ensures
        parser::labels_from(b, i, end, done) == Ok::<(Seq<LabelView>, int), Seq<char>>(
            (done + rest, i + encode_utf8(labels_text(rest) + seq!['}']).len()),
        ),
    decreases rest.len(),
{
    let label = rest[0];
    let own = label_text(label);
    let brace = seq!['}'];
    let comma = seq![','];
    let n = encode_utf8(own).len() as int;
    lemma_fresh_name(done, rest);
    assert((done + rest)[0] == done[0]);
    assert((done + rest)[done.len() as int] == label);
    if rest.len() == 1 {
        lemma_stands_split(b, i, own, brace);
        lemma_stands_ascii(b, i + n, brace);
        assert(b[i + n + 0] == brace[0] as u8);
        lemma_label_read(b, i, end, done, label);
        assert(done.push(label) =~= done + rest);
    } else {
        let others = rest.skip(1);
        let tail = labels_text(others) + brace;
        assert(labels_text(rest) + brace =~= own + comma + tail);
        lemma_stands_split(b, i, own + comma, tail);
        lemma_stands_split(b, i, own, comma);
        lemma_stands_ascii(b, i + n, comma);
        assert(b[i + n + 0] == comma[0] as u8);
        lemma_label_read(b, i, end, done, label);
        let more = done.push(label);
        assert(more + others =~= done + rest);
        assert forall|k: int| 0 <= k < others.len() implies is_name(
            (#[trigger] others[k]).name,
            false,
        ) by {
            assert(others[k] == rest[k + 1]);
        }
        lemma_labels_read(b, i + n + 1, end, more, others);
    }
}

// --- values and timestamps ---
/// An integer written in decimal reads back as itself, and is no fraction.
proof fn lemma_integer_reads_back(i: i64)
    ensures
        text::parsed_i64(text::integer_text(i as int)) == Some(i as int),
        is_token(text::integer_text(i as int)),
        is_ascii_chars(text::integer_text(i as int)),
        text::integer_text(i as int)[0] != '#',
        !text::integer_text(i as int).contains('.'),
        !text::integer_text(i as int).contains('e'),
        !text::integer_text(i as int).contains('E'),
{
    let s = text::integer_text(i as int);
    let digits = if i < 0 {
        text::decimal((-i) as nat)
    } else {
        text::decimal(i as nat)
    };
    text::lemma_decimal_reads_back(
        if i < 0 {
            (-i) as nat
        } else {
            i as nat
        },
    );
    assert forall|k: int| 0 <= k < s.len() implies text::is_digit(#[trigger] s[k]) || (k == 0
        && s[k] == '-') by {
        if i < 0 {
            if k > 0 {
                assert(s[k] == digits[k - 1]);
            }
        } else {
            assert(s[k] == digits[k]);
        }
    }
    if i < 0 {
        assert(s.skip(1) =~= digits);
    } else {
        assert(text::is_digit(s[0]));
    }
}

proof fn lemma_sample_read(
    b: Seq<u8>,
    i: int,
    end: int,
    labels: Seq<LabelView>,
    value: Seq<char>,
    timestamp: Option<i64>,
    default_ts: i64,
    honor: bool,
    g: spec_fn(Seq<char>) -> Option<u64>,
)
    requires
        is_token(value),
        parser::value_of(value, g) is Some,
        stands(b, i, value + timestamp_text(timestamp)),
        end == i + encode_utf8(value + timestamp_text(timestamp)).len(),
        end <= b.len(),
    ensures
        parser::sample_from(b, i, end, labels, default_ts, honor, g) == Ok::<
            Option<TimeSeriesView>,
            Seq<char>,
        >(
            Some(
                parser::one_sample(
                    labels,
                    parser::value_of(value, g)->0,
                    match timestamp {
                        Some(ts) => if honor {
                            ts
                        } else {
                            default_ts
                        },
                        None => default_ts,
                    },
                ),
            ),
        ),
        !parser::space(b[i]),
        b[i] != 0x7b,
        b[end - 1] != 0x0d,
        i < end,
        forall|j: int| i <= j < end ==> b[j] != 0x0a,
{
    let tail = timestamp_text(timestamp);
    lemma_stands_split(b, i, value, tail);
    encode_utf8_first_scalar(value);
    let n = encode_utf8(value).len() as int;
    lemma_stands_lacks(b, i, value, ' ');
    lemma_stands_lacks(b, i, value, '\t');
    lemma_stands_lacks(b, i, value, '\n');
    lemma_stands_lacks(b, i, value, '\r');
    lemma_stands_text(b, i, value);
    let first = seq![value[0]];
    assert(value =~= first + value.skip(1));
    lemma_stands_split(b, i, first, value.skip(1));
    encode_utf8_first_scalar(first);
    assert(!first.contains('{'));
    lemma_stands_lacks(b, i, first, '{');
    match timestamp {
        None => {
            assert(encode_utf8(tail).len() == 0);
            lemma_token_ends(b, i, i + n, end);
        },
        Some(ts) => {
            let blank = seq![' '];
            let digits = text::integer_text(ts as int);
            lemma_stands_split(b, i + n, blank, digits);
            lemma_stands_ascii(b, i + n, blank);
            assert(b[i + n + 0] == blank[0] as u8);
            lemma_integer_reads_back(ts);
            let at = i + n + 1;
            lemma_stands_ascii(b, at, digits);
            assert(b[at + 0] == digits[0] as u8);
            lemma_stands_lacks(b, at, digits, ' ');
            lemma_stands_lacks(b, at, digits, '\t');
            lemma_stands_lacks(b, at, digits, '\n');
            lemma_stands_lacks(b, at, digits, '\r');
            lemma_stands_text(b, at, digits);
            lemma_token_ends(b, i, i + n, end);
            lemma_token_ends(b, at, end, end);
            parser::lemma_skip_space(b, i + n, end);
        },
    }
}

// --- lines and bodies ---
proof fn lemma_name_read(b: Seq<u8>, end: int, name: Seq<char>)
    requires
        is_name(name, true),
        stands(b, 0, name),
        encode_utf8(name).len() < end <= b.len(),
        !parser::name_continue(b[encode_utf8(name).len() as int], true),
    ensures
        parser::skip_space(b, 0, end) == 0,
        parser::name_start(b[0], true),
        parser::skip_name(b, 1, end, true) == encode_utf8(name).len(),
        parser::slice_text(b, 0, encode_utf8(name).len() as int) == name,
{
    lemma_stands_ascii(b, 0, name);
    let n = name.len() as int;
    assert(b[0int + 0] == name[0] as u8);
    assert forall|j: int| 0 <= j < n implies parser::name_continue(b[j], true) by {
        assert(b[0 + j] == name[j] as u8);
    }
    lemma_stands_text(b, 0, name);
    lemma_name_ends(b, 1, n, end, true);
}

proof fn lemma_bare_line_read(
    b: Seq<u8>,
    line: Line,
    default_ts: i64,
    honor: bool,
    g: spec_fn(Seq<char>) -> Option<u64>,
)
    requires
        writable(line, g),
        line.labels.len() == 0,
        b == encode_utf8(line_text(line)),
    ensures
        parser::line_series(b, 0, b.len() as int, default_ts, honor, g) == Ok::<
            Option<TimeSeriesView>,
            Seq<char>,
        >(Some(line_meaning(line, default_ts, honor, g))),
        b.len() > 0,
        b.last() != 0x0d,
{
    let end = b.len() as int;
    let name = line.name;
    let blank = seq![' '];
    let sample = line.value + timestamp_text(line.timestamp);
    assert(b.subrange(0, end) =~= b);
    assert(line_text(line) =~= name + (blank + sample));
    lemma_stands_split(b, 0, name, blank + sample);
    let n = encode_utf8(name).len() as int;
    lemma_stands_split(b, n, blank, sample);
    lemma_stands_ascii(b, n, blank);
    assert(b[n + 0] == blank[0] as u8);
    lemma_name_read(b, end, name);
    let named = LabelView { name: METRIC_NAME_LABEL@, value: name };
    assert(line_labels(line) =~= seq![named]);
    lemma_sample_read(
        b,
        n + 1,
        end,
        seq![named],
        line.value,
        line.timestamp,
        default_ts,
        honor,
        g,
    );
    assert(parser::skip_space(b, n + 1, end) == n + 1);
    assert(parser::skip_space(b, n, end) == n + 1);
}

proof fn lemma_labelled_line_read(
    b: Seq<u8>,
    line: Line,
    default_ts: i64,
    honor: bool,
    g: spec_fn(Seq<char>) -> Option<u64>,
)
    requires
        writable(line, g),
        line.labels.len() > 0,
        b == encode_utf8(line_text(line)),
    ensures
        parser::line_series(b, 0, b.len() as int, default_ts, honor, g) == Ok::<
            Option<TimeSeriesView>,
            Seq<char>,
        >(Some(line_meaning(line, default_ts, honor, g))),
        b.len() > 0,
        b.last() != 0x0d,
{
    let end = b.len() as int;
    let name = line.name;
    let open = seq!['{'];
    let inner = labels_text(line.labels) + seq!['}'];
    let blank = seq![' '];
    let sample = line.value + timestamp_text(line.timestamp);
    assert(b.subrange(0, end) =~= b);
    assert(line_text(line) =~= name + (open + (inner + (blank + sample))));
    lemma_stands_split(b, 0, name, open + (inner + (blank + sample)));
    let n = encode_utf8(name).len() as int;
    lemma_stands_split(b, n, open, inner + (blank + sample));
    lemma_stands_ascii(b, n, open);
    assert(b[n + 0] == open[0] as u8);
    lemma_stands_split(b, n + 1, inner, blank + sample);
    let m = n + 1 + encode_utf8(inner).len();
    lemma_stands_split(b, m, blank, sample);
    lemma_stands_ascii(b, m, blank);
    assert(b[m + 0] == blank[0] as u8);
    lemma_name_read(b, end, name);
    let named = LabelView { name: METRIC_NAME_LABEL@, value: name };
    lemma_labels_read(b, n + 1, end, seq![named], line.labels);
    lemma_sample_read(
        b,
        m + 1,
        end,
        line_labels(line),
        line.value,
        line.timestamp,
        default_ts,
        honor,
        g,
    );
    assert(parser::skip_space(b, n, end) == n);
    assert(parser::skip_space(b, m + 1, end) == m + 1);
    assert(parser::skip_space(b, m, end) == m + 1);
}

/// A text without a line feed is read as one line.
proof fn lemma_one_line(
    t: Seq<char>,
    default_ts: i64,
    honor: bool,
    g: spec_fn(Seq<char>) -> Option<u64>,
)
    requires
        t.len() > 0,
        !t.contains('\n'),
        encode_utf8(t).last() != 0x0d,
    ensures
        parser::body_series(t, default_ts, honor, g) == (match parser::line_series(
            encode_utf8(t),
            0,
            encode_utf8(t).len() as int,
            default_ts,
            honor,
            g,
        ) {
            Err(message) => Err::<Seq<TimeSeriesView>, Failure>(Failure { line: 1, message }),
            Ok(None) => Ok(Seq::empty()),
            Ok(Some(series)) => Ok(seq![series]),
        }),
{
    let b = encode_utf8(t);
    encode_utf8_first_scalar(t);
    lemma_encoding_lacks(t, '\n');
    parser::lemma_line_feed_at(b, 0, b.len() as int);
    reveal_with_fuel(parser::series_from, 2);
    if let Ok(Some(series)) = parser::line_series(
        b,
        0,
        b.len() as int,
        default_ts,
        honor,
        g,
    ) {
        assert(Seq::<TimeSeriesView>::empty().push(series) =~= seq![series]);
    }
}

/// What neither of two texts holds, they do not hold together.
pub proof fn lemma_lacks_joined(a: Seq<char>, c: Seq<char>, x: char)
    requires
        !a.contains(x),
        !c.contains(x),
    ensures
        !(a + c).contains(x),
{
    if (a + c).contains(x) {
        let k = choose|k: int| 0 <= k < (a + c).len() && (a + c)[k] == x;
        if k < a.len() {
            assert(a[k] == x);
        } else {
            assert(c[k - a.len()] == x);
        }
    }
}

proof fn lemma_name_in_line(name: Seq<char>, colon: bool)
    requires
        is_name(name, colon),
    ensures
        !name.contains('\n'),
{
    if name.contains('\n') {
        let k = choose|k: int| 0 <= k < name.len() && name[k] == '\n';
        assert(parser::name_continue(name[k] as u8, colon));
    }
}

proof fn lemma_escaped_in_line(value: Seq<char>)
    ensures
        !escaped(value).contains('\n'),
    decreases value.len(),
{
    if value.len() > 0 {
        lemma_escaped_in_line(value.skip(1));
        lemma_lacks_joined(escaped_char(value[0]), escaped(value.skip(1)), '\n');
    }
}

proof fn lemma_labels_in_line(labels: Seq<LabelView>)
    requires
        forall|i: int| 0 <= i < labels.len() ==> is_name((#[trigger] labels[i]).name, false),
    ensures
        !labels_text(labels).contains('\n'),
    decreases labels.len(),
{
    if labels.len() > 0 {
        let label = labels[0];
        let open = seq!['=', '"'];
        let quote = seq!['"'];
        let comma = seq![','];
        let rest = labels.skip(1);
        lemma_name_in_line(label.name, false);
        lemma_escaped_in_line(label.value);
        lemma_lacks_joined(label.name, open, '\n');
        lemma_lacks_joined(label.name + open, escaped(label.value), '\n');
        lemma_lacks_joined(label.name + open + escaped(label.value), quote, '\n');
        assert forall|i: int| 0 <= i < rest.len() implies is_name(
            (#[trigger] rest[i]).name,
            false,
        ) by {
            assert(rest[i] == labels[i + 1]);
        }
        lemma_labels_in_line(rest);
        lemma_lacks_joined(label_text(label), comma, '\n');
        lemma_lacks_joined(label_text(label) + comma, labels_text(rest), '\n');
    }
}

/// A written line is one line.
proof fn lemma_written_in_line(line: Line, g: spec_fn(Seq<char>) -> Option<u64>)
    requires
        writable(line, g),
    ensures
        !line_text(line).contains('\n'),
        line_text(line).len() > 0,
{
    let open = seq!['{'];
    let close = seq!['}'];
    let blank = seq![' '];
    let inner = labels_text(line.labels);
    let braces = if line.labels.len() == 0 {
        Seq::empty()
    } else {
        open + (inner + close)
    };
    let stamp = timestamp_text(line.timestamp);
    if let Some(ts) = line.timestamp {
        lemma_integer_reads_back(ts);
        lemma_lacks_joined(blank, text::integer_text(ts as int), '\n');
    }
    lemma_lacks_joined(line.value, stamp, '\n');
    lemma_labels_in_line(line.labels);
    lemma_lacks_joined(inner, close, '\n');
    lemma_lacks_joined(open, inner + close, '\n');
    lemma_name_in_line(line.name, true);
    lemma_lacks_joined(line.name, braces, '\n');
    lemma_lacks_joined(line.name + braces, blank, '\n');
    lemma_lacks_joined(line.name + braces + blank, line.value + stamp, '\n');
}

/// A line that was written is read back.
pub proof fn lemma_line_reads_back(
    line: Line,
    default_ts: i64,
    honor: bool,
    g: spec_fn(Seq<char>) -> Option<u64>,
)
    requires
        writable(line, g),
    ensures
        parser::body_series(line_text(line), default_ts, honor, g) == Ok::<
            Seq<TimeSeriesView>,
            Failure,
        >(seq![line_meaning(line, default_ts, honor, g)]),
{
    let b = encode_utf8(line_text(line));
    if line.labels.len() == 0 {
        lemma_bare_line_read(b, line, default_ts, honor, g);
    } else {
        lemma_labelled_line_read(b, line, default_ts, honor, g);
    }
    lemma_written_in_line(line, g);
    lemma_one_line(line_text(line), default_ts, honor, g);
}

/// Series that were written out are read back: each with its name, its labels
/// in their order whatever characters their values hold, its value, and its
/// timestamp where timestamps are honored.
pub proof fn lemma_body_reads_back(
    lines: Seq<Line>,
    default_ts: i64,
    honor: bool,
    g: spec_fn(Seq<char>) -> Option<u64>,
)
    requires
        forall|i: int| 0 <= i < lines.len() ==> writable(#[trigger] lines[i], g),
    ensures
        parser::body_series(body_text(lines), default_ts, honor, g) == Ok::<
            Seq<TimeSeriesView>,
            Failure,
        >(Seq::new(lines.len(), |i: int| line_meaning(lines[i], default_ts, honor, g))),
    decreases lines.len(),
{
    let all = Seq::new(lines.len(), |i: int| line_meaning(lines[i], default_ts, honor, g));
    if lines.len() == 0 {
        assert(all =~= Seq::<TimeSeriesView>::empty());
        assert(encode_utf8(body_text(lines)).len() == 0);
    } else {
        let rest = lines.skip(1);
        assert forall|i: int| 0 <= i < rest.len() implies writable(#[trigger] rest[i], g) by {
            assert(rest[i] == lines[i + 1]);
        }
        lemma_body_reads_back(rest, default_ts, honor, g);
        lemma_line_reads_back(lines[0], default_ts, honor, g);
        lemma_bodies_join(line_text(lines[0]), body_text(rest), default_ts, honor, g);
        assert(seq![line_meaning(lines[0], default_ts, honor, g)] + Seq::new(
            rest.len(),
            |i: int| line_meaning(rest[i], default_ts, honor, g),
        ) =~= all);
    }
}

/// A line that begins with `#` gives no series.
pub proof fn lemma_comment_skipped(
    comment: Seq<char>,
    default_ts: i64,
    honor: bool,
    g: spec_fn(Seq<char>) -> Option<u64>,
)
    requires
        comment.len() > 0,
        comment[0] == '#',
        !comment.contains('\n'),
    ensures
        parser::body_series(comment, default_ts, honor, g) == Ok::<Seq<TimeSeriesView>, Failure>(
            Seq::empty(),
        ),
{
    let b = encode_utf8(comment);
    let first = seq!['#'];
    assert(comment =~= first + comment.skip(1));
    assert(b.subrange(0, b.len() as int) =~= b);
    lemma_stands_split(b, 0, first, comment.skip(1));
    lemma_stands_ascii(b, 0, first);
    assert(b[0int + 0] == first[0] as u8);
    lemma_encoding_lacks(comment, '\n');
    parser::lemma_line_feed_at(b, 0, b.len() as int);
    reveal_with_fuel(parser::series_from, 2);
}

/// Bodies that end in a line feed, or are empty, can be put together.
pub proof fn lemma_bodies_append(
    first: Seq<char>,
    second: Seq<char>,
    one: Seq<TimeSeriesView>,
    other: Seq<TimeSeriesView>,
    default_ts: i64,
    honor: bool,
    g: spec_fn(Seq<char>) -> Option<u64>,
)
    requires
        first.len() == 0 || first.last() == '\n',
        parser::body_series(first, default_ts, honor, g) == Ok::<Seq<TimeSeriesView>, Failure>(one),
        parser::body_series(second, default_ts, honor, g) == Ok::<Seq<TimeSeriesView>, Failure>(
            other,
        ),
    ensures
        parser::body_series(first + second, default_ts, honor, g) == Ok::<
            Seq<TimeSeriesView>,
            Failure,
        >(one + other),
{
    let empty = Seq::<char>::empty();
    assert(encode_utf8(empty).len() == 0);
    if first.len() == 0 {
        assert(first =~= empty);
        assert(first + second =~= second);
        assert(one + other =~= other);
    } else {
        let lines = first.drop_last();
        lemma_bodies_join(lines, empty, default_ts, honor, g);
        lemma_bodies_join(lines, second, default_ts, honor, g);
        assert(lines + seq!['\n'] + empty =~= first);
        assert(lines + seq!['\n'] + second =~= first + second);
        if let Ok(series) = parser::body_series(lines, default_ts, honor, g) {
            assert(series + Seq::<TimeSeriesView>::empty() =~= series);
        }
    }
}

// --- single values and label sets ---
/// A written label value is read back wherever it stands and whatever follows
/// it: the text is the value, and the index is the one behind the closing
/// quote.
pub proof fn lemma_value_reads_back(
    before: Seq<char>,
    value: Seq<char>,
    tail: Seq<char>,
    end: int,
)
    requires
        encode_utf8(before + quoted(value)).len() <= end <= encode_utf8(
            before + quoted(value) + tail,
        ).len(),
    ensures
        parser::label_value_at(
            encode_utf8(before + quoted(value) + tail),
            encode_utf8(before).len() as int,
            end,
        ) == Ok::<(Seq<char>, int), Seq<char>>(
            (value, encode_utf8(before + quoted(value)).len() as int),
        ),
{
    let b = encode_utf8(before + quoted(value) + tail);
    let quote = seq!['"'];
    let inner = escaped(value);
    let open = encode_utf8(before).len() as int;
    assert(b.subrange(0, b.len() as int) =~= b);
    lemma_stands_split(b, 0, before + quoted(value), tail);
    lemma_stands_split(b, 0, before, quoted(value));
    lemma_stands_split(b, open, quote + inner, quote);
    lemma_stands_split(b, open, quote, inner);
    lemma_stands_ascii(b, open, quote);
    let close = open + 1 + encode_utf8(inner).len();
    lemma_stands_ascii(b, close, quote);
    assert(b[close + 0] == quote[0] as u8);
    lemma_quote_found(b, open + 1, value, end);
    lemma_value_unescaped(b, open + 1, value, Seq::empty());
    assert(Seq::<char>::empty() + value =~= value);
}

/// Bytes that are all ASCII stand for the same characters.
proof fn lemma_ascii_slice(b: Seq<u8>, i: int, j: int)
    requires
        0 <= i <= j <= b.len(),
        forall|k: int| i <= k < j ==> b[k] < 0x80,
    ensures
        parser::slice_text(b, i, j).len() == j - i,
        is_ascii_chars(parser::slice_text(b, i, j)),
        forall|k: int|
            0 <= k < j - i ==> (#[trigger] parser::slice_text(b, i, j)[k]) as u8 == b[i + k],
{
    let chars = Seq::new((j - i) as nat, |k: int| b[i + k] as char);
    assert forall|k: int| 0 <= k < chars.len() implies '\0' <= #[trigger] chars[k] <= '\u{7f}'
        && chars[k] as u8 == b[i + k] by {
        lemma_byte_as_char(b[i + k]);
    }
    is_ascii_chars_encode_utf8(chars);
    assert(encode_utf8(chars) =~= b.subrange(i, j)) by {
        assert forall|k: int| 0 <= k < j - i implies encode_utf8(chars)[k] == b.subrange(i, j)[k] by {
            assert(chars[k] as u8 == encode_utf8(chars)[k]);
        }
    }
    encode_utf8_decode_utf8(chars);
}

proof fn lemma_byte_as_char(c: u8)
    requires
        c < 0x80,
    ensures
        '\0' <= c as char <= '\u{7f}',
        (c as char) as u8 == c,
{
}

proof fn lemma_label_name(b: Seq<u8>, i: int, end: int, labels: Seq<LabelView>)
    requires
        0 <= i < end <= b.len(),
    ensures
        match parser::label_at(b, i, end, labels) {
            Ok((label, _)) => is_name(label.name, false) && label.name != METRIC_NAME_LABEL@
                && !model::has_label(labels, label.name),
            Err(_) => true,
        },
{
    if let Ok((label, _)) = parser::label_at(b, i, end, labels) {
        let name_end = parser::skip_name(b, i + 1, end, false);
        parser::lemma_skip_name(b, i + 1, end, false);
        assert forall|k: int| i <= k < name_end implies parser::name_continue(b[k], false) by {}
        lemma_ascii_slice(b, i, name_end);
        let name = parser::slice_text(b, i, name_end);
        assert(name[0] as u8 == b[i + 0]);
        assert forall|k: int| 0 <= k < name.len() implies parser::name_continue(
            (#[trigger] name[k]) as u8,
            false,
        ) by {
            assert(name[k] as u8 == b[i + k]);
        }
    }
}

/// Every label that a label set adds has a label name other than that of the
/// metric's own, and no name occurs twice, whether the set is read to its end
/// or fails.
pub proof fn lemma_added_labels(b: Seq<u8>, i: int, end: int, labels: Seq<LabelView>)
    requires
        0 <= i,
        end <= b.len(),
        model::distinct_names(labels),
    ensures
        model::distinct_names(parser::labels_read(b, i, end, labels)),
        labels.is_prefix_of(parser::labels_read(b, i, end, labels)),
        forall|k: int|
            labels.len() <= k < parser::labels_read(b, i, end, labels).len() ==> is_name(
                (#[trigger] parser::labels_read(b, i, end, labels)[k]).name,
                false,
            ) && parser::labels_read(b, i, end, labels)[k].name != METRIC_NAME_LABEL@,
    decreases end - i,
{
    parser::lemma_labels_grow(b, i, end, labels);
    let at = parser::skip_space(b, i, end);
    parser::lemma_skip_space(b, i, end);
    if at < end && b[at] != 0x7d {
        lemma_label_name(b, at, end, labels);
        parser::lemma_label_at(b, at, end, labels);
        if let Ok((label, next)) = parser::label_at(b, at, end, labels) {
            let after = parser::skip_space(b, next, end);
            parser::lemma_skip_space(b, next, end);
            let more = labels.push(label);
            model::lemma_first_named(labels, label.name, 0);
            assert forall|k: int, m: int|
                #![trigger more[k], more[m]]
                0 <= k < m < more.len() implies more[k].name != more[m].name by {
                assert(more[k] == labels[k]);
                if m < labels.len() {
                    assert(more[m] == labels[m]);
                }
            }
            if after < end && b[after] == 0x2c {
                lemma_added_labels(b, after + 1, end, more);
                let all = parser::labels_read(b, after + 1, end, more);
                assert(all.subrange(0, more.len() as int)[labels.len() as int] == label);
                assert(all[labels.len() as int] == label);
            }
        }
    }
}

} // verus!
