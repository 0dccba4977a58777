//! Regular expressions, as the `regex` crate matches them.
//!
//! A [`Pattern`] is a compiled expression together with the text it was
//! compiled from; only [`Pattern::compile`] makes one. What an expression
//! matches is left to the crate and named, not spelled out.

use vstd::prelude::*;
use vstd::string::*;

verus! {

/// The compiled expression of the `regex` crate.
#[verifier::external_type_specification]
#[verifier::external_body]
pub struct ExRegex(regex::Regex);

/// A compiled expression and its text.
#[derive(Debug)]
pub struct Pattern {
    text: String,
    regex: regex::Regex,
}

impl View for Pattern {
    type V = Seq<char>;

    closed spec fn view(&self) -> Seq<char> {
        self.text@
    }
}

/// Why an expression is not valid, none where it is.
pub uninterp spec fn regex_compile_error(pattern: Seq<char>) -> Option<Seq<char>>;

/// Whether an expression matches somewhere in a text.
pub uninterp spec fn regex_matches(pattern: Seq<char>, text: Seq<char>) -> bool;

/// What a template expands to with the captures of the first match of an
/// expression in a text, none where it does not match.
pub uninterp spec fn regex_expansion(
    pattern: Seq<char>,
    text: Seq<char>,
    template: Seq<char>,
) -> Option<Seq<char>>;

/// The anchored form of the default relabel expression `(.*)`.
pub const MATCH_LINE: &'static str = "^(?:(.*))$";

impl Pattern {
    /// Trusted: `regex::Regex::new` compiles an expression, or says why it is
    /// not valid. Which expressions are valid is named; that the anchored
    /// `(.*)` is one is stated.
    #[verifier::external_body]
    pub(crate) fn compile(pattern: &str) -> (r: Result<Self, String>)
        ensures
            match r {
                Ok(p) => p@ == pattern@ && regex_compile_error(pattern@) is None,
                Err(e) => regex_compile_error(pattern@) == Some(e@),
            },
            pattern@ == MATCH_LINE@ ==> r is Ok,
    {
        match regex::Regex::new(pattern) {
            Ok(regex) => Ok(Pattern { text: pattern.to_owned(), regex }),
            Err(e) => Err(e.to_string()),
        }
    }

    /// Trusted: `regex::Regex::is_match` tells whether the expression matches
    /// somewhere in the text.
    #[verifier::external_body]
    pub(crate) fn is_match(&self, text: &str) -> (r: bool)
        ensures
            r == regex_matches(self@, text@),
    {
        self.regex.is_match(text)
    }

    /// Trusted: `regex::Regex::captures` finds the first match and
    /// `regex::Captures::expand` writes a template with its captures. There is
    /// an expansion where there is a match; a template without `$` expands to
    /// itself; the anchored `(.*)` matches a text without line feed, and its
    /// first group is then the whole text.
    #[verifier::external_body]
    pub(crate) fn expand(&self, text: &str, template: &str) -> (r: Option<String>)
        ensures
            match r {
                Some(s) => regex_expansion(self@, text@, template@) == Some(s@),
                None => regex_expansion(self@, text@, template@) is None,
            },
            r is Some <==> regex_matches(self@, text@),
            r is Some && !template@.contains('$') ==> r->0@ == template@,
            self@ == MATCH_LINE@ ==> (r is Some <==> !text@.contains('\n')),
            self@ == MATCH_LINE@ && r is Some && (template@ == "$1"@ || template@ == "${1}"@)
                ==> r->0@ == text@,
    {
        self.regex.captures(text).map(|caps| {
            let mut out = String::new();
            caps.expand(template, &mut out);
            out
        })
    }
}

impl Clone for Pattern {
    /// Trusted: `regex::Regex::clone` gives the same expression.
    #[verifier::external_body]
    fn clone(&self) -> (r: Self)
        ensures
            r@ == self@,
    {
        Pattern { text: self.text.clone(), regex: self.regex.clone() }
    }
}

} // verus!
