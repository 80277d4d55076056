//! Regular-expression matching of rule patterns against descriptions.
//!
//! Patterns are compiled and run by the `regex` crate. What that crate
//! answers for a pattern and a text is not restated here: it is given the
//! name [`regex_verdict`], and everything the library decides from it is
//! proved over that name.

use vstd::prelude::*;
use crate::error::LedgerError;

verus! {

/// The error type of the `regex` crate, carried through unread.
#[verifier::external_type_specification]
#[verifier::external_body]
pub struct ExRegexError(regex::Error);

/// What the `regex` crate answers for `pattern` on `text`: `None` where the
/// pattern does not compile, else whether the compiled expression matches
/// somewhere in the text.
pub uninterp spec fn regex_verdict(pattern: Seq<char>, text: Seq<char>) -> Option<bool>;

/// Compiles `pattern` with `regex::Regex::new` and, where that succeeds, asks
/// `regex::Regex::is_match` whether it matches anywhere in `text`.
///
/// Trusted: the result is the crate's verdict for this pattern and text. An
/// `Err` stands for a pattern that `Regex::new` refused (bad syntax, or an
/// expression over the crate's default size limit); neither call panics.
#[verifier::external_body]
fn regex_is_match(pattern: &str, text: &str) -> (r: Result<bool, regex::Error>)
    ensures
        match r {
            Ok(b) => regex_verdict(pattern@, text@) == Some(b),
            Err(_) => regex_verdict(pattern@, text@) is None,
        },
{
    match regex::Regex::new(pattern) {
        Ok(re) => Ok(re.is_match(text)),
        Err(e) => Err(e),
    }
}

/// What a verdict means to the rule matcher: a match, no match, or a
/// malformed pattern.
pub open spec fn verdict_result(verdict: Option<bool>) -> Result<bool, LedgerError> {
    match verdict {
        Some(b) => Ok(b),
        None => Err(LedgerError::PatternError),
    }
}

/// Turns the outcome of a regular-expression test into the matcher's result:
/// the answer where the pattern compiled, `PatternError` where it did not.
pub fn outcome_result(outcome: Result<bool, regex::Error>) -> (r: Result<bool, LedgerError>)
    ensures
        r == match outcome {
            Ok(b) => Ok::<bool, LedgerError>(b),
            Err(_) => Err(LedgerError::PatternError),
        },
{
    match outcome {
        Ok(b) => Ok(b),
        Err(_) => Err(LedgerError::PatternError),
    }
}

/// Tests `text` against `pattern`. A malformed pattern is an error, never a
/// silent non-match.
pub fn pattern_matches(pattern: &str, text: &str) -> (r: Result<bool, LedgerError>)
    ensures
        r == verdict_result(regex_verdict(pattern@, text@)),
{
    outcome_result(regex_is_match(pattern, text))
}

} // verus!
