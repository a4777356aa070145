//! The fuzzy-matching primitive, delegated to the `nucleo_matcher` crate.
//!
//! The score and the matched positions for a given query and haystack are
//! functions of the two strings alone (the matcher is always configured the
//! same way here: path matching, case-insensitive, smart normalization), so
//! they are given names that the rest of the library reasons with.

use nucleo_matcher::pattern::{CaseMatching, Normalization, Pattern};
use nucleo_matcher::{Config, Matcher, Utf32Str};
use vstd::prelude::*;

verus! {

/// The score that the fuzzy primitive assigns to `query` against `haystack`,
/// `None` when the query has no viable alignment in the haystack.
pub uninterp spec fn fuzzy_score(query: Seq<char>, haystack: Seq<char>) -> Option<u32>;

/// The character positions in `haystack` that the fuzzy primitive reports as
/// contributing to the match of `query`, when a score exists.
pub uninterp spec fn fuzzy_indices(query: Seq<char>, haystack: Seq<char>) -> Seq<u32>;

/// Relies on `nucleo_matcher`: a `Pattern` parsed from `query` with
/// `CaseMatching::Ignore` and `Normalization::Smart`, scored with
/// `Pattern::score` and positioned with `Pattern::indices` against a
/// `Matcher` built from `Config::DEFAULT.match_paths()`. Both outcomes
/// depend on the two strings alone; every reported index is a character
/// position in the haystack, so it is below the haystack's character count.
#[verifier::external_body]
pub(crate) fn fuzzy_match(query: &str, haystack: &str) -> (r: Option<(u32, Vec<u32>)>)
    ensures
        r is Some <==> fuzzy_score(query@, haystack@) is Some,
        r matches Some(p) ==> {
            &&& fuzzy_score(query@, haystack@) == Some(p.0)
            &&& p.1@ == fuzzy_indices(query@, haystack@)
            &&& forall|i: int| 0 <= i < p.1@.len() ==> (p.1@[i] as int) < haystack@.len()
        },
{
    let pattern = Pattern::parse(query, CaseMatching::Ignore, Normalization::Smart);
    let mut matcher = Matcher::new(Config::DEFAULT.match_paths());
    let mut buf = Vec::new();
    let hay = Utf32Str::new(haystack, &mut buf);
    match pattern.score(hay, &mut matcher) {
        None => None,
        Some(score) => {
            let mut indices: Vec<u32> = Vec::new();
            pattern.indices(hay, &mut matcher, &mut indices);
            Some((score, indices))
        },
    }
}

} // verus!
