//! Regular expressions, through the `regex` crate.
use vstd::prelude::*;

verus! {

/// Declares `regex::Regex` to the verifier.
#[verifier::external_type_specification]
#[verifier::external_body]
pub struct ExRegex(regex::Regex);

/// Whether `regex::Regex::new` accepts the pattern.
pub uninterp spec fn regex_compiles(pattern: Seq<char>) -> bool;

/// What `regex::Regex::is_match` answers for a compiled pattern and a text.
pub uninterp spec fn regex_matches(pattern: Seq<char>, text: Seq<char>) -> bool;

/// Calls `regex::Regex::new`. The contract claims only that it succeeds exactly on
/// the patterns named by `regex_compiles`, a property of the pattern text alone.
#[verifier::external_body]
fn regex_new(pattern: &str) -> (r: Option<regex::Regex>)
    ensures
        r is Some <==> regex_compiles(pattern@),
{
    regex::Regex::new(pattern).ok()
}

/// A compiled regular expression together with its source text.
pub struct TextPattern {
    source: String,
    compiled: regex::Regex,
}

impl View for TextPattern {
    type V = Seq<char>;

    closed spec fn view(&self) -> Seq<char> {
        self.source@
    }
}

/// Calls `regex::Regex::is_match` on the compiled form of `p`. The contract claims
/// that the answer is a function of the pattern's text and the haystack alone.
#[verifier::external_body]
fn regex_is_match(p: &TextPattern, text: &str) -> (b: bool)
    ensures
        b == regex_matches(p@, text@),
{
    p.compiled.is_match(text)
}

impl TextPattern {
    /// Compiles `pattern`; `None` when the regex crate rejects it.
    pub fn new(pattern: &str) -> (r: Option<TextPattern>)
        ensures
            r is Some <==> regex_compiles(pattern@),
            r matches Some(p) ==> p@ == pattern@,
    {
        match regex_new(pattern) {
            Some(compiled) => Some(TextPattern { source: String::from_str(pattern), compiled }),
            None => None,
        }
    }

    /// Whether the pattern matches somewhere in `text`.
    pub fn is_match(&self, text: &str) -> (b: bool)
        ensures
            b == regex_matches(self@, text@),
    {
        regex_is_match(self, text)
    }
}

/// Compiles `pattern` and tests `text` against it: `None` when the pattern does
/// not compile.
pub fn pattern_matches(pattern: &str, text: &str) -> (r: Option<bool>)
    ensures
        r is Some <==> regex_compiles(pattern@),
        r matches Some(b) ==> b == regex_matches(pattern@, text@),
{
    match TextPattern::new(pattern) {
        Some(p) => Some(p.is_match(text)),
        None => None,
    }
}

} // verus!
