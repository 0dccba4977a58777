//! Laws of the text format: how a body, a line, a label and a sample are read.

use crate::float;
use crate::model;
use crate::model::{LabelView, Sample, TimeSeriesView};
use crate::parser;
use crate::parser::Failure;
use crate::text;
use vstd::prelude::*;
use vstd::string::*;
use vstd::utf8::*;

verus! {

/// Whether all bytes from `i` to `j` are spaces or tabs, and the one at `j`,
/// where the line goes on, is not.
pub open spec fn blank(b: Seq<u8>, i: int, j: int, end: int) -> bool {
    &&& 0 <= i <= j <= end <= b.len()
    &&& forall|k: int| i <= k < j ==> #[trigger] b[k] == 0x20 || b[k] == 0x09
    &&& j < end ==> b[j] != 0x20 && b[j] != 0x09
}

/// Whether no byte from `i` to `j` is a space or a tab, and the one at `j`, where
/// the line goes on, is.
pub open spec fn word(b: Seq<u8>, i: int, j: int, end: int) -> bool {
    &&& 0 <= i <= j <= end <= b.len()
    &&& forall|k: int| i <= k < j ==> #[trigger] b[k] != 0x20 && b[k] != 0x09
    &&& j < end ==> b[j] == 0x20 || b[j] == 0x09
}

/// Whether a byte can stand in a name: a letter, an underscore, a digit, and in
/// the name of a metric a colon.
pub open spec fn name_byte(c: u8, colon: bool) -> bool {
    ||| 0x61 <= c <= 0x7a
    ||| 0x41 <= c <= 0x5a
    ||| c == 0x5f
    ||| 0x30 <= c <= 0x39
    ||| colon && c == 0x3a
}

/// Whether a name stands from `i` to `j`: it begins with no digit, and ends where
/// the first byte stands that cannot be part of it.
pub open spec fn name_at(b: Seq<u8>, i: int, j: int, end: int, colon: bool) -> bool {
    &&& 0 <= i < j <= end <= b.len()
    &&& !(0x30 <= b[i] <= 0x39)
    &&& forall|k: int| i <= k < j ==> #[trigger] name_byte(b[k], colon)
    &&& j < end ==> !name_byte(b[j], colon)
}

proof fn lemma_blank(b: Seq<u8>, i: int, j: int, end: int)
    requires
        blank(b, i, j, end),
    ensures
        parser::skip_space(b, i, end) == j,
    decreases j - i,
{
    if i < j {
        assert(b[i] == 0x20 || b[i] == 0x09);
        lemma_blank(b, i + 1, j, end);
    }
}

proof fn lemma_word(b: Seq<u8>, i: int, j: int, end: int)
    requires
        word(b, i, j, end),
    ensures
        parser::skip_token(b, i, end) == j,
    decreases j - i,
{
    if i < j {
        assert(b[i] != 0x20 && b[i] != 0x09);
        lemma_word(b, i + 1, j, end);
    }
}

proof fn lemma_name(b: Seq<u8>, i: int, j: int, end: int, colon: bool)
    requires
        0 <= i <= j <= end <= b.len(),
        forall|k: int| i <= k < j ==> #[trigger] name_byte(b[k], colon),
        j < end ==> !name_byte(b[j], colon),
    ensures
        parser::skip_name(b, i, end, colon) == j,
    decreases j - i,
{
    if i < j {
        assert(name_byte(b[i], colon));
        lemma_name(b, i + 1, j, end, colon);
    } else if j < end {
        assert(!name_byte(b[j], colon));
    }
}

// --- lines ---
/// A line that is blank, or whose first mark is `#`, gives no series. One whose
/// first mark cannot begin a name is refused.
pub proof fn lemma_line_start(
    b: Seq<u8>,
    start: int,
    at: int,
    end: int,
    default_ts: i64,
    honor: bool,
    g: spec_fn(Seq<char>) -> Option<u64>,
)
    requires
        blank(b, start, at, end),
    ensures
        ({
            let r = parser::line_series(b, start, end, default_ts, honor, g);
            let begins = at < end && name_byte(b[at], true) && !(0x30 <= b[at] <= 0x39);
            &&& at == end || b[at] == 0x23 ==> r == Ok::<Option<TimeSeriesView>, Seq<char>>(None)
            &&& at < end && b[at] != 0x23 && !begins ==> r == Err::<Option<TimeSeriesView>, _>(
                "invalid start of metric name: "@ + text::debug_char_text(b[at] as char),
            )
        }),
{
    lemma_blank(b, start, at, end);
}

/// A line with a name gives what follows the name: where a brace opens, labels
/// and then a sample, and otherwise a sample. The name is the first label.
pub proof fn lemma_line_named(
    b: Seq<u8>,
    start: int,
    at: int,
    name_end: int,
    next: int,
    end: int,
    default_ts: i64,
    honor: bool,
    g: spec_fn(Seq<char>) -> Option<u64>,
)
    requires
        blank(b, start, at, end),
        name_at(b, at, name_end, end, true),
        blank(b, name_end, next, end),
    ensures
        ({
            let r = parser::line_series(b, start, end, default_ts, honor, g);
            let name = LabelView {
                name: "__name__"@,
                value: decode_utf8(b.subrange(at, name_end)),
            };
            &&& !(next < end && b[next] == 0x7b) ==> r == parser::sample_from(
                b,
                next,
                end,
                seq![name],
                default_ts,
                honor,
                g,
            )
            &&& next < end && b[next] == 0x7b ==> match parser::labels_from(
                b,
                next + 1,
                end,
                seq![name],
            ) {
                Err(e) => r == Err::<Option<TimeSeriesView>, _>(e),
                Ok((all, after)) => forall|value_at: int|
                    #![trigger blank(b, after, value_at, end)]
                    blank(b, after, value_at, end) ==> r == parser::sample_from(
                        b,
                        value_at,
                        end,
                        all,
                        default_ts,
                        honor,
                        g,
                    ),
            }
        }),
{
    lemma_blank(b, start, at, end);
    lemma_blank(b, name_end, next, end);
    assert(name_byte(b[at], true));
    lemma_name(b, at + 1, name_end, end, true);
    assert forall|after: int, value_at: int|
        #![trigger blank(b, after, value_at, end)]
        blank(b, after, value_at, end) implies parser::skip_space(b, after, end) == value_at by {
        lemma_blank(b, after, value_at, end);
    }
}

/// A sample: a value, then optionally a timestamp, each up to the next blank,
/// then nothing or what begins with `#`. Without a timestamp, or where it is
/// not honored, the sample has the time of the scrape.
pub proof fn lemma_sample_forms(
    b: Seq<u8>,
    i: int,
    value_end: int,
    after: int,
    ts_end: int,
    rest: int,
    end: int,
    labels: Seq<LabelView>,
    default_ts: i64,
    honor: bool,
    g: spec_fn(Seq<char>) -> Option<u64>,
)
    requires
        word(b, i, value_end, end),
        blank(b, value_end, after, end),
        word(b, after, ts_end, end),
        blank(b, ts_end, rest, end),
    ensures
        ({
            let r = parser::sample_from(b, i, end, labels, default_ts, honor, g);
            let token = decode_utf8(b.subrange(i, value_end));
            let ts_token = decode_utf8(b.subrange(after, ts_end));
            let value = parser::value_of(token, g);
            let ts = parser::timestamp_of(ts_token, g);
            let bare = after == end || b[after] == 0x23;
            let closed = rest == end || b[rest] == 0x23;
            &&& i == end ==> r == Err::<Option<TimeSeriesView>, _>("missing value"@)
            &&& i < end && value is None ==> r == Err::<Option<TimeSeriesView>, _>(
                "invalid value: "@ + text::debug_text(token),
            )
            &&& i < end && value is Some && bare ==> r == Ok::<_, Seq<char>>(
                Some(
                    TimeSeriesView {
                        labels,
                        samples: seq![
                            Sample { value_bits: value->0, timestamp: default_ts },
                        ],
                    },
                ),
            )
            &&& i < end && value is Some && !bare && ts is None ==> r == Err::<
                Option<TimeSeriesView>,
                _,
            >("invalid timestamp: "@ + text::debug_text(ts_token))
            &&& i < end && value is Some && !bare && ts is Some && !closed ==> r == Err::<
                Option<TimeSeriesView>,
                _,
            >(
                "unexpected trailing content: "@ + text::debug_text(
                    decode_utf8(b.subrange(rest, end)),
                ),
            )
            &&& i < end && value is Some && !bare && ts is Some && closed ==> r == Ok::<
                _,
                Seq<char>,
            >(
                Some(
                    TimeSeriesView {
                        labels,
                        samples: seq![
                            Sample {
                                value_bits: value->0,
                                timestamp: if honor {
                                    ts->0 as i64
                                } else {
                                    default_ts
                                },
                            },
                        ],
                    },
                ),
            )
        }),
{
    lemma_word(b, i, value_end, end);
    lemma_blank(b, value_end, after, end);
    lemma_word(b, after, ts_end, end);
    lemma_blank(b, ts_end, rest, end);
}

/// A value is what the number parser makes of it, also with a plus sign before
/// it. Nothing at all is no value.
pub proof fn lemma_value_forms(token: Seq<char>, g: spec_fn(Seq<char>) -> Option<u64>)
    ensures
        parser::value_of(Seq::empty(), g) is None,
        token.len() > 0 && g(token) is Some ==> parser::value_of(token, g) == g(token),
        g(seq!['+'] + token) is None ==> parser::value_of(seq!['+'] + token, g) == g(token),
        token.len() > 0 && token[0] != '+' ==> parser::value_of(token, g) == g(token),
{
    assert((seq!['+'] + token).skip(1) =~= token);
}

/// A timestamp without a point or an exponent is a whole number of
/// milliseconds, and any other one a number of seconds.
pub proof fn lemma_timestamp_forms(token: Seq<char>, g: spec_fn(Seq<char>) -> Option<u64>)
    ensures
        ({
            let seconds = token.contains('.') || token.contains('e') || token.contains('E');
            &&& !seconds ==> parser::timestamp_of(token, g) == text::parsed_i64(token)
            &&& seconds && g(token) is None ==> parser::timestamp_of(token, g) is None
            &&& seconds && g(token) is Some ==> parser::timestamp_of(token, g)
                == float::millis_of_seconds(g(token)->0)
        }),
{
}

// --- labels ---
/// Where a label set stands: a closing brace ends it, also after a comma; the
/// end of the line does not. A label is followed by a comma, and then by the
/// rest, or by the closing brace.
pub proof fn lemma_label_set_forms(
    b: Seq<u8>,
    i: int,
    at: int,
    end: int,
    done: Seq<LabelView>,
)
    requires
        blank(b, i, at, end),
    ensures
        ({
            let r = parser::labels_from(b, i, end, done);
            let open = "unterminated label set (expected '}')"@;
            &&& at == end ==> r == Err::<(Seq<LabelView>, int), _>(open)
            &&& at < end && b[at] == 0x7d ==> r == Ok::<_, Seq<char>>((done, at + 1))
            &&& at < end && b[at] != 0x7d ==> match parser::label_at(b, at, end, done) {
                Err(e) => r == Err::<(Seq<LabelView>, int), _>(e),
                Ok((label, next)) => forall|after: int|
                    #![trigger blank(b, next, after, end)]
                    blank(b, next, after, end) ==> {
                        &&& after == end ==> r == Err::<(Seq<LabelView>, int), _>(open)
                        &&& after < end && b[after] == 0x2c ==> r == parser::labels_from(
                            b,
                            after + 1,
                            end,
                            done.push(label),
                        )
                        &&& after < end && b[after] == 0x7d ==> r == Ok::<_, Seq<char>>(
                            (done.push(label), after + 1),
                        )
                        &&& after < end && b[after] != 0x2c && b[after] != 0x7d ==> r == Err::<
                            (Seq<LabelView>, int),
                            _,
                        >(
                            "expected ',' or '}' after label value, found "@
                                + text::debug_char_text(b[after] as char),
                        )
                    },
            }
        }),
{
    lemma_blank(b, i, at, end);
    assert forall|next: int, after: int|
        #![trigger blank(b, next, after, end)]
        blank(b, next, after, end) implies parser::skip_space(b, next, end) == after by {
        lemma_blank(b, next, after, end);
    }
}

/// A label: a name that is not the metric's and is not there yet, an equals
/// sign and a quoted value, with blanks round the sign. Each thing that is
/// missing is told.
pub proof fn lemma_label_forms(
    b: Seq<u8>,
    i: int,
    name_end: int,
    equals: int,
    quote: int,
    end: int,
    done: Seq<LabelView>,
)
    requires
        name_at(b, i, name_end, end, false),
        blank(b, name_end, equals, end),
        equals < end ==> blank(b, equals + 1, quote, end),
    ensures
        ({
            let r = parser::label_at(b, i, end, done);
            let name = decode_utf8(b.subrange(i, name_end));
            let taken = model::has_label(done, name);
            let metric = name == "__name__"@;
            let assigned = equals < end && b[equals] == 0x3d;
            let quoted = quote < end && b[quote] == 0x22;
            &&& metric ==> r == Err::<(LabelView, int), _>(
                "label name '__name__' is not allowed inside braces"@,
            )
            &&& !metric && taken ==> r == Err::<(LabelView, int), _>(
                "duplicate label name: "@ + text::debug_text(name),
            )
            &&& !metric && !taken && !assigned ==> r == Err::<(LabelView, int), _>(
                "expected '=' after label name "@ + text::debug_text(name),
            )
            &&& !metric && !taken && assigned && !quoted ==> r == Err::<(LabelView, int), _>(
                "expected '\"' to start value of label "@ + text::debug_text(name),
            )
            &&& !metric && !taken && assigned && quoted ==> match parser::label_value_at(
                b,
                quote,
                end,
            ) {
                Err(e) => r == Err::<(LabelView, int), _>(e),
                Ok((value, next)) => r == Ok::<_, Seq<char>>((LabelView { name, value }, next)),
            }
        }),
{
    assert(name_byte(b[i], false));
    lemma_name(b, i + 1, name_end, end, false);
    lemma_blank(b, name_end, equals, end);
    if equals < end {
        lemma_blank(b, equals + 1, quote, end);
    }
}

/// What cannot begin a label's name is refused.
pub proof fn lemma_label_start(b: Seq<u8>, i: int, end: int, done: Seq<LabelView>)
    requires
        0 <= i < end <= b.len(),
        !name_byte(b[i], false) || 0x30 <= b[i] <= 0x39,
    ensures
        parser::label_at(b, i, end, done) == Err::<(LabelView, int), _>(
            "invalid start of label name: "@ + text::debug_char_text(b[i] as char),
        ),
{
}

/// A quoted value ends at the first quote that no backslash precedes, a
/// backslash taking the byte after it along.
pub proof fn lemma_quote_steps(b: Seq<u8>, i: int, end: int)
    ensures
        i >= end ==> parser::closing_quote(b, i, end) == Err::<int, _>(
            "unterminated label value (missing closing '\"')"@,
        ),
        i < end && b[i] == 0x22 ==> parser::closing_quote(b, i, end) == Ok::<_, Seq<char>>(i),
        i + 1 < end && b[i] == 0x5c ==> parser::closing_quote(b, i, end) == parser::closing_quote(
            b,
            i + 2,
            end,
        ),
        i + 1 == end && b[i] == 0x5c ==> parser::closing_quote(b, i, end) == Err::<int, _>(
            "unterminated label value (trailing backslash)"@,
        ),
        i < end && b[i] != 0x22 && b[i] != 0x5c ==> parser::closing_quote(b, i, end)
            == parser::closing_quote(b, i + 1, end),
{
}

/// In a value a backslash makes a backslash, a quote or a line feed of what
/// follows it, and nothing else may follow it.
pub proof fn lemma_escapes(b: Seq<u8>, i: int, end: int, done: Seq<char>)
    requires
        0 <= i,
        i + 1 < end,
        b[i] == 0x5c,
    ensures
        ({
            let r = parser::unescaped(b, i, end, done);
            let c = b[i + 1];
            &&& c == 0x5c ==> r == parser::unescaped(b, i + 2, end, done.push('\\'))
            &&& c == 0x22 ==> r == parser::unescaped(b, i + 2, end, done.push('"'))
            &&& c == 0x6e ==> r == parser::unescaped(b, i + 2, end, done.push('\n'))
            &&& c != 0x5c && c != 0x22 && c != 0x6e ==> r == Err::<Seq<char>, _>(
                "invalid escape sequence: \\"@.push(c as char),
            )
        }),
{
}

// --- bodies ---
/// A body is read line by line. A line ends at a line feed, with or without a
/// carriage return before it, or at the end of the body. The first line that
/// is refused is told by its number, and nothing of the body is kept.
pub proof fn lemma_lines(
    b: Seq<u8>,
    pos: int,
    feed: int,
    line: nat,
    done: Seq<TimeSeriesView>,
    default_ts: i64,
    honor: bool,
    g: spec_fn(Seq<char>) -> Option<u64>,
)
    requires
        0 <= pos < b.len(),
        pos <= feed <= b.len(),
        forall|k: int| pos <= k < feed ==> #[trigger] b[k] != 0x0a,
        feed < b.len() ==> b[feed] == 0x0a,
    ensures
        ({
            let end = if feed > pos && b[feed - 1] == 0x0d {
                feed - 1
            } else {
                feed
            };
            let r = parser::series_from(b, pos, line, done, default_ts, honor, g);
            match parser::line_series(b, pos, end, default_ts, honor, g) {
                Err(message) => r == Err::<Seq<TimeSeriesView>, _>(
                    Failure { line: line + 1, message },
                ),
                Ok(None) => r == parser::series_from(
                    b,
                    feed + 1,
                    line + 1,
                    done,
                    default_ts,
                    honor,
                    g,
                ),
                Ok(Some(series)) => r == parser::series_from(
                    b,
                    feed + 1,
                    line + 1,
                    done.push(series),
                    default_ts,
                    honor,
                    g,
                ),
            }
        }),
{
    parser::lemma_line_feed_at(b, pos, feed);
}

/// A body is counted from its first byte and its first line, and an empty one
/// gives nothing.
pub proof fn lemma_body_start(
    body: Seq<char>,
    default_ts: i64,
    honor: bool,
    g: spec_fn(Seq<char>) -> Option<u64>,
    line: nat,
    done: Seq<TimeSeriesView>,
)
    ensures
        parser::body_series(body, default_ts, honor, g) == parser::series_from(
            encode_utf8(body),
            0,
            0,
            Seq::empty(),
            default_ts,
            honor,
            g,
        ),
        parser::series_from(
            encode_utf8(body),
            encode_utf8(body).len() as int,
            line,
            done,
            default_ts,
            honor,
            g,
        ) == Ok::<_, Failure>(done),
        body.len() == 0 ==> parser::body_series(body, default_ts, honor, g) == Ok::<_, Failure>(
            Seq::<TimeSeriesView>::empty(),
        ),
{
    if body.len() == 0 {
        assert(body =~= Seq::empty());
        assert(encode_utf8(body).len() == 0);
    }
}

} // verus!
