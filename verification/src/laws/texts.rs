//! Laws of texts and numbers.

use crate::text;
use vstd::prelude::*;
use vstd::string::*;
use vstd::utf8::*;

verus! {

/// A text begins with another exactly where something follows that one to make
/// it.
pub proof fn lemma_prefix(s: Seq<char>, prefix: Seq<char>, rest: Seq<char>)
    ensures
        text::has_prefix(prefix + rest, prefix),
        text::has_prefix(s, prefix) ==> s == prefix + s.skip(prefix.len() as int),
        s.len() < prefix.len() ==> !text::has_prefix(s, prefix),
{
    assert((prefix + rest).subrange(0, prefix.len() as int) =~= prefix);
    if text::has_prefix(s, prefix) {
        assert forall|i: int| 0 <= i < prefix.len() implies s[i] == prefix[i] by {
            assert(s.subrange(0, prefix.len() as int)[i] == prefix[i]);
        }
        assert(s =~= prefix + s.skip(prefix.len() as int));
    }
}

/// Among the ASCII characters, white space is the space and the five controls
/// from the tab to the carriage return.
pub proof fn lemma_ascii_whitespace(c: char)
    requires
        c as u32 <= 0x7f,
    ensures
        text::whitespace(c) <==> c == ' ' || c == '\t' || c == '\n' || c == '\r' || c as u32
            == 0x0b || c as u32 == 0x0c,
{
}

/// Beyond ASCII, white space is the next-line control, the no-break space and
/// the spaces and separators of the general punctuation and of other scripts.
pub proof fn lemma_other_whitespace(c: char)
    requires
        c as u32 > 0x7f,
    ensures
        text::whitespace(c) <==> c == '\u{85}' || c == '\u{a0}' || c == '\u{1680}' || ('\u{2000}'
            <= c && c <= '\u{200a}') || c == '\u{2028}' || c == '\u{2029}' || c == '\u{202f}' || c
            == '\u{205f}' || c == '\u{3000}',
{
}

/// Trimming takes white space off both ends and nothing else: what is left is a
/// piece of the text, what was before and after it is white space, and it
/// neither begins nor ends with any.
pub proof fn lemma_trimmed(s: Seq<char>) -> (at: int)
    ensures
        0 <= at <= s.len(),
        at + text::trimmed(s).len() <= s.len(),
        text::trimmed(s) == s.subrange(at, at + text::trimmed(s).len()),
        forall|i: int| 0 <= i < at ==> text::whitespace(#[trigger] s[i]),
        forall|i: int|
            at + text::trimmed(s).len() <= i < s.len() ==> text::whitespace(#[trigger] s[i]),
        text::trimmed(s).len() > 0 ==> !text::whitespace(text::trimmed(s)[0])
            && !text::whitespace(text::trimmed(s).last()),
{
    let at = text::skip_white(s, 0);
    lemma_skip(s, 0);
    let rest = s.skip(at);
    lemma_trimmed_end(rest);
    let out = text::trimmed_end(rest);
    assert(out =~= s.subrange(at, at + out.len()));
    assert forall|i: int| at + out.len() <= i < s.len() implies text::whitespace(
        #[trigger] s[i],
    ) by {
        assert(rest[i - at] == s[i]);
    }
    at
}

proof fn lemma_skip(s: Seq<char>, i: int)
    requires
        0 <= i <= s.len(),
    ensures
        i <= text::skip_white(s, i) <= s.len(),
        forall|k: int| i <= k < text::skip_white(s, i) ==> text::whitespace(#[trigger] s[k]),
        text::skip_white(s, i) < s.len() ==> !text::whitespace(s[text::skip_white(s, i)]),
    decreases s.len() - i,
{
    if i < s.len() && text::whitespace(s[i]) {
        lemma_skip(s, i + 1);
    }
}

proof fn lemma_trimmed_end(s: Seq<char>)
    ensures
        text::trimmed_end(s).len() <= s.len(),
        text::trimmed_end(s) == s.take(text::trimmed_end(s).len() as int),
        forall|i: int|
            text::trimmed_end(s).len() <= i < s.len() ==> text::whitespace(#[trigger] s[i]),
        text::trimmed_end(s).len() > 0 ==> !text::whitespace(text::trimmed_end(s).last()),
    decreases s.len(),
{
    if s.len() > 0 && text::whitespace(s.last()) {
        lemma_trimmed_end(s.drop_last());
        let out = text::trimmed_end(s);
        assert(s.drop_last().take(out.len() as int) =~= s.take(out.len() as int));
        assert forall|i: int| out.len() <= i < s.len() implies text::whitespace(
            #[trigger] s[i],
        ) by {
            if i < s.len() - 1 {
                assert(s.drop_last()[i] == s[i]);
            }
        }
    } else {
        assert(s =~= s.take(s.len() as int));
    }
}

/// A number is written with the decimal digits that add up to it: one digit
/// below ten, and one more digit is ten times the number and that digit. It
/// begins with a zero only where it is zero.
pub proof fn lemma_decimal(n: nat, d: nat)
    requires
        d < 10,
    ensures
        n < 10 ==> text::decimal(n).len() == 1 && text::decimal(n)[0] as u32 == 0x30 + n,
        n > 0 ==> text::decimal(10 * n + d) == text::decimal(n) + text::decimal(d),
        n > 0 ==> text::decimal(n)[0] != '0',
    decreases n,
{
    if n > 0 {
        assert((10 * n + d) / 10 == n && (10 * n + d) % 10 == d);
        assert(text::decimal(10 * n + d) =~= text::decimal(n) + text::decimal(d));
        if n >= 10 {
            lemma_decimal(n / 10, n % 10);
            assert(10 * (n / 10) + n % 10 == n);
            assert(text::decimal(n / 10).len() > 0) by {
                text::lemma_decimal_reads_back(n / 10);
            }
        }
    }
}

/// A negative number is written with a minus sign before what is written for
/// its opposite, and flags are written `true` and `false`.
pub proof fn lemma_integer_text(i: int)
    ensures
        i >= 0 ==> text::integer_text(i) == text::decimal(i as nat),
        i < 0 ==> text::integer_text(i) == "-"@ + text::integer_text(-i),
        text::bool_text(true) == "true"@,
        text::bool_text(false) == "false"@,
{
    reveal_strlit("-");
    assert("-"@ =~= seq!['-']);
}

/// A text is read as a number exactly where it is made of digits and fits; one
/// more digit is ten times the number and that digit.
pub proof fn lemma_digits_read(s: Seq<char>, c: char)
    ensures
        text::digits_value(Seq::empty()) == Some(0nat),
        !('0' <= c <= '9') ==> text::digits_value(s.push(c)) is None,
        '0' <= c <= '9' && text::digits_value(s) is Some ==> text::digits_value(s.push(c)) == Some(
            (10 * text::digits_value(s)->0 + (c as u32 - 0x30)) as nat,
        ),
        text::digits_value(s) is None ==> text::digits_value(s.push(c)) is None,
        text::parsed_u64(s) is Some <==> s.len() > 0 && text::digits_value(s) is Some
            && text::digits_value(s)->0 <= 0xffff_ffff_ffff_ffff,
        text::parsed_u64(s) is Some ==> text::parsed_u64(s) == text::digits_value(s),
{
    assert(s.push(c).drop_last() =~= s);
}

/// A number that was written is read back, with a sign before it or without:
/// as a whole number up to its bounds, and as a natural one with a plus only.
pub proof fn lemma_numbers_read_back(n: nat)
    ensures
        n <= 0xffff_ffff_ffff_ffff ==> text::parsed_u64(text::decimal(n)) == Some(n),
        n > 0xffff_ffff_ffff_ffff ==> text::parsed_u64(text::decimal(n)) is None,
        n <= 0x7fff_ffff_ffff_ffff ==> text::parsed_i64(text::decimal(n)) == Some(n as int),
        n <= 0x7fff_ffff_ffff_ffff ==> text::parsed_i64(seq!['+'] + text::decimal(n)) == Some(
            n as int,
        ),
        n <= 0x8000_0000_0000_0000 ==> text::parsed_i64(seq!['-'] + text::decimal(n)) == Some(
            -(n as int),
        ),
        n > 0x7fff_ffff_ffff_ffff ==> text::parsed_i64(text::decimal(n)) is None,
        n > 0x8000_0000_0000_0000 ==> text::parsed_i64(seq!['-'] + text::decimal(n)) is None,
        n <= 0xffff_ffff_ffff_ffff ==> text::parsed_unsigned(text::decimal(n)) == Some(n)
            && text::parsed_unsigned(seq!['+'] + text::decimal(n)) == Some(n),
        text::parsed_unsigned(seq!['-'] + text::decimal(n)) is None,
{
    text::lemma_decimal_reads_back(n);
    let s = text::decimal(n);
    assert(text::is_digit(s[0]));
    assert((seq!['+'] + s).skip(1) =~= s);
    assert((seq!['-'] + s).skip(1) =~= s);
    let minus = seq!['-'] + s;
    if text::digits_value(minus) is Some {
        lemma_all_digits(minus);
        assert(minus[0] == '-');
        assert(text::is_digit(minus[0]));
    }
}

proof fn lemma_all_digits(s: Seq<char>)
    requires
        text::digits_value(s) is Some,
    ensures
        forall|i: int| 0 <= i < s.len() ==> text::is_digit(#[trigger] s[i]),
    decreases s.len(),
{
    if s.len() > 0 {
        lemma_all_digits(s.drop_last());
        assert forall|i: int| 0 <= i < s.len() implies text::is_digit(#[trigger] s[i]) by {
            if i < s.len() - 1 {
                assert(s.drop_last()[i] == s[i]);
            }
        }
    }
}

/// Texts are ordered by their UTF-8 bytes: one comes before another where it is
/// the beginning of it, or where at the first difference its byte is smaller.
pub proof fn lemma_byte_order(a: Seq<u8>, b: Seq<u8>, k: int)
    requires
        0 <= k <= a.len(),
        k <= b.len(),
        forall|i: int| 0 <= i < k ==> #[trigger] a[i] == b[i],
    ensures
        k < a.len() && k < b.len() && a[k] != b[k] ==> text::bytes_before(a, b) == (a[k] < b[k]),
        k == a.len() && k < b.len() ==> text::bytes_before(a, b),
        k == b.len() ==> !text::bytes_before(a, b),
    decreases k,
{
    if k > 0 {
        assert(a[0] == b[0]);
        assert forall|i: int| 0 <= i < k - 1 implies #[trigger] a.skip(1)[i] == b.skip(1)[i] by {
            assert(a[i + 1] == b[i + 1]);
        }
        lemma_byte_order(a.skip(1), b.skip(1), k - 1);
    }
}

/// The order of texts is that of their UTF-8 bytes.
pub proof fn lemma_text_order(a: Seq<char>, b: Seq<char>)
    ensures
        text::text_before(a, b) == text::bytes_before(encode_utf8(a), encode_utf8(b)),
{
}

} // verus!
