//! Regular-expression search, done by the `regex` crate.

use vstd::prelude::*;

verus! {

/// Whether `pattern` compiles as a regular expression (`None` if not), and
/// whether it then finds a match anywhere in `text`.
pub uninterp spec fn pattern_search(pattern: Seq<char>, text: Seq<char>) -> Option<bool>;

/// Relies on `regex::Regex::new` to compile the pattern (an error for a
/// malformed one) and on `Regex::is_match` to search `text` for a match
/// anywhere in it; both depend on their arguments alone.
#[verifier::external_body]
pub(crate) fn search(pattern: &str, text: &str) -> (r: Option<bool>)
    ensures
        r == pattern_search(pattern@, text@),
{
    match regex::Regex::new(pattern) {
        Ok(re) => Some(re.is_match(text)),
        Err(_) => None,
    }
}

} // verus!
