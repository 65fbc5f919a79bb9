//! The regular expressions of `match?` predicates, compiled and run by the
//! regex engine.

use vstd::prelude::*;
use regex_cursor::engines::meta::Regex;

verus! {

/// `regex_cursor::engines::meta::Regex`: a compiled regex.
#[verifier::external_type_specification]
#[verifier::external_body]
pub struct ExRegex(Regex);

/// What the regex engine makes of a pattern: the compiled regex, or the
/// message that says why the pattern cannot be compiled.
pub uninterp spec fn regex_build(pattern: Seq<char>) -> Result<Regex, Seq<char>>;

/// Whether a compiled regex matches somewhere in a haystack.
pub uninterp spec fn regex_is_match(regex: Regex, haystack: Seq<u8>) -> bool;

/// `Regex::builder().build(pattern)`: compiles a pattern with the engine's
/// default settings. The outcome depends on the pattern alone. The engine's
/// error type has no public path, so the error is handed on as the message
/// that its `to_string` gives.
#[verifier::external_body]
pub(crate) fn build_regex(pattern: &str) -> (r: Result<Regex, String>)
    ensures
        match r {
            Ok(regex) => regex_build(pattern@) == Ok::<Regex, Seq<char>>(regex),
            Err(msg) => regex_build(pattern@) == Err::<Regex, Seq<char>>(msg@),
        },
{
    match Regex::builder().build(pattern) {
        Ok(regex) => Ok(regex),
        Err(err) => Err(err.to_string()),
    }
}

} // verus!
