//! The boundary to the `regex` crate.
//!
//! Nothing in this module is proved. The crate's types are declared so that
//! their values can be passed around, what its functions return is given a
//! name, and each of the functions that the library calls has one wrapper
//! whose contract says no more than that the result is the named one.

use vstd::prelude::*;

verus! {

/// `regex::Regex`, a compiled regular expression: a value that verified code
/// carries and cannot look into.
#[verifier::external_type_specification]
#[verifier::external_body]
pub struct ExRegex(regex::Regex);

/// `regex::Error`, the refusal of a pattern: a value that verified code
/// carries and cannot look into.
#[verifier::external_type_specification]
#[verifier::external_body]
pub struct ExRegexError(regex::Error);

/// What `regex::Regex::new` returns for a pattern: the regular expression
/// that it makes of a pattern which it accepts, and else its refusal. The
/// limits within which it accepts a pattern are fixed in the `regex` crate,
/// so the result depends on the pattern alone.
pub uninterp spec fn compile_outcome(pattern: Seq<char>) -> Result<regex::Regex, regex::Error>;

/// The number of matches that `regex::Regex::find_iter` yields for an
/// expression in a text: the successive matches, none overlapping another,
/// that it finds from left to right.
pub uninterp spec fn regex_match_count(expression: regex::Regex, text: Seq<char>) -> nat;

/// Whether `regex::Regex::is_match` finds a match of an expression somewhere in
/// a text.
pub uninterp spec fn regex_matches(expression: regex::Regex, text: Seq<char>) -> bool;

/// The text that `regex::Error` shows through its `Display`.
pub uninterp spec fn regex_diagnostic(error: regex::Error) -> Seq<char>;

/// Calls `regex::Regex::new`. Trusted: the result, an expression or a refusal,
/// depends on the pattern alone and is the same at every call. Nothing is
/// claimed of which patterns are accepted.
#[verifier::external_body]
pub(crate) fn compile_regex(pattern: &str) -> (compiled: Result<regex::Regex, regex::Error>)
    ensures
        compiled == compile_outcome(pattern@),
{
    regex::Regex::new(pattern)
}

/// Calls `regex::Regex::find_iter` and counts what it yields. Trusted: the
/// count depends on the expression and the text alone.
#[verifier::external_body]
pub(crate) fn count_regex_matches(expression: &regex::Regex, text: &str) -> (count: usize)
    ensures
        count == regex_match_count(*expression, text@),
{
    expression.find_iter(text).count()
}

/// Calls `regex::Regex::is_match`. Trusted: the answer depends on the
/// expression and the text alone.
#[verifier::external_body]
pub(crate) fn is_regex_match(expression: &regex::Regex, text: &str) -> (found: bool)
    ensures
        found == regex_matches(*expression, text@),
{
    expression.is_match(text)
}

/// Calls the `Display` of `regex::Error` through `to_string`. Trusted: the
/// text depends on the error alone.
#[verifier::external_body]
pub(crate) fn describe_regex_error(error: &regex::Error) -> (text: String)
    ensures
        text@ == regex_diagnostic(*error),
{
    error.to_string()
}

} // verus!
