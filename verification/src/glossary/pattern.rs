//! Regular-expression calls used by glossary cleaning and matching.

use vstd::prelude::*;

verus! {

/// Whether `regex::Regex::new` accepts the pattern.
pub uninterp spec fn regex_compiles(pattern: Seq<char>) -> bool;

/// What `Regex::is_match` of the compiled pattern reports on the haystack.
pub uninterp spec fn regex_finds(pattern: Seq<char>, haystack: Seq<char>) -> bool;

/// The pattern compiles and finds a match in the haystack.
pub open spec fn regex_hit(pattern: Seq<char>, haystack: Seq<char>) -> bool {
    regex_compiles(pattern) && regex_finds(pattern, haystack)
}

/// `regex::Regex::new(pattern)` followed by `is_match(haystack)`: `None`
/// when the pattern does not compile, else whether it matches. Both outcomes
/// are named, not spelled out (the regex language and its Unicode classes
/// take pages).
#[verifier::external_body]
pub(crate) fn regex_is_match(pattern: &str, haystack: &str) -> (r: Option<bool>)
    ensures
        match r {
            Some(b) => regex_compiles(pattern@) && b == regex_finds(pattern@, haystack@),
            None => !regex_compiles(pattern@),
        },
{
    match regex::Regex::new(pattern) {
        Ok(re) => Some(re.is_match(haystack)),
        Err(_) => None,
    }
}

/// A compiled regular expression.
#[verifier::external_type_specification]
#[verifier::external_body]
pub struct ExRegex(regex::Regex);

/// The pattern a compiled regular expression was built from.
pub uninterp spec fn regex_source(re: regex::Regex) -> Seq<char>;

/// `regex::Regex::new`: `None` exactly when the pattern does not compile,
/// else the compiled expression, built from that pattern.
#[verifier::external_body]
pub(crate) fn regex_compile(pattern: &str) -> (r: Option<regex::Regex>)
    ensures
        r is Some <==> regex_compiles(pattern@),
        r matches Some(re) ==> regex_source(re) == pattern@,
{
    regex::Regex::new(pattern).ok()
}

/// `Regex::is_match` of a compiled expression: what its pattern reports on
/// the haystack (see [`regex_finds`]).
#[verifier::external_body]
pub(crate) fn regex_matches(re: &regex::Regex, haystack: &str) -> (r: bool)
    ensures
        r == regex_finds(regex_source(*re), haystack@),
{
    re.is_match(haystack)
}

/// Characters that `regex::escape` prefixes with a backslash.
pub open spec fn regex_meta(c: char) -> bool {
    c == '\\' || c == '.' || c == '+' || c == '*' || c == '?' || c == '(' || c == ')' || c == '|'
        || c == '[' || c == ']' || c == '{' || c == '}' || c == '^' || c == '$' || c == '#'
        || c == '&' || c == '-' || c == '~'
}

/// The text with every meta character prefixed by `\`.
pub open spec fn regex_escaped(s: Seq<char>) -> Seq<char>
    decreases s.len(),
{
    if s.len() == 0 {
        s
    } else {
        regex_escaped(s.drop_last()) + if regex_meta(s.last()) {
            seq!['\\', s.last()]
        } else {
            seq![s.last()]
        }
    }
}

/// `regex::escape`: every meta character gets a backslash in front.
#[verifier::external_body]
pub(crate) fn regex_escape(s: &str) -> (r: String)
    ensures
        r@ == regex_escaped(s@),
{
    regex::escape(s)
}

} // verus!
