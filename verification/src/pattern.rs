//! Regular expressions over names, matched by the `regex` crate.
//!
//! A pattern of a policy always has to match a whole name: it is wrapped as
//! `^(?:pattern)$` before it is handed to the matcher.

use vstd::prelude::*;
use vstd::string::*;

verus! {

/// What `regex::Regex::new` says against a pattern text: nothing where it
/// accepts the pattern, else the words of its error.
pub uninterp spec fn regex_refusal(pattern: Seq<char>) -> Option<Seq<char>>;

/// Whether `regex::Regex::new` accepts the pattern text.
pub open spec fn regex_compiles(pattern: Seq<char>) -> bool {
    regex_refusal(pattern) is None
}

/// Whether the expression compiled from the pattern text finds a match
/// somewhere in `text` (`regex::Regex::is_match`).
pub uninterp spec fn regex_accepts(pattern: Seq<char>, text: Seq<char>) -> bool;

/// Trusted: `regex::Regex::new`, then `Regex::is_match` on its result.
///
/// Both depend on their arguments alone. The contract claims no more than
/// that: an error comes back exactly for the patterns that do not compile,
/// with the words that the crate prints for this pattern (`Display` of
/// `regex::Error`), and otherwise the answer is the one that `is_match` gives
/// for this pattern and text.
#[verifier::external_body]
fn regex_search(pattern: &str, text: &str) -> (res: Result<bool, String>)
    ensures
        match res {
            Ok(found) => regex_refusal(pattern@) is None && found == regex_accepts(
                pattern@,
                text@,
            ),
            Err(words) => regex_refusal(pattern@) == Some(words@),
        },
{
    match regex::Regex::new(pattern) {
        Ok(re) => Ok(re.is_match(text)),
        Err(e) => Err(e.to_string()),
    }
}

/// The pattern wrapped so that it has to match a whole text.
pub open spec fn anchored(pattern: Seq<char>) -> Seq<char> {
    "^(?:"@ + pattern + ")$"@
}

/// Whether the pattern can be used: its anchored form compiles.
pub open spec fn pattern_is_valid(pattern: Seq<char>) -> bool {
    regex_compiles(anchored(pattern))
}

/// What the matcher says against the pattern in its anchored form, if it
/// refuses it.
pub open spec fn pattern_refusal(pattern: Seq<char>) -> Option<Seq<char>> {
    regex_refusal(anchored(pattern))
}

/// Whether the pattern matches the whole of `text`.
pub open spec fn fully_matches(pattern: Seq<char>, text: Seq<char>) -> bool {
    regex_accepts(anchored(pattern), text)
}

/// Every pattern of the list can be used.
pub open spec fn all_patterns_valid(patterns: Seq<Seq<char>>) -> bool {
    forall|i: int| 0 <= i < patterns.len() ==> pattern_is_valid(#[trigger] patterns[i])
}

/// Wraps the pattern so that it has to match a whole text.
pub fn anchor(pattern: &str) -> (r: String)
    ensures
        r@ == anchored(pattern@),
{
    let mut r = String::from_str("^(?:");
    r.append(pattern);
    r.append(")$");
    r
}

/// Matches `text` against the pattern; without a valid pattern the matcher's
/// words against it come back.
pub fn try_match(pattern: &str, text: &str) -> (res: Result<bool, String>)
    ensures
        res is Ok <==> pattern_is_valid(pattern@),
        match res {
            Ok(found) => found == fully_matches(pattern@, text@),
            Err(words) => pattern_refusal(pattern@) == Some(words@),
        },
{
    let whole = anchor(pattern);
    regex_search(whole.as_str(), text)
}

/// Checks that the pattern can be used; the matcher's words against it come
/// back where it cannot.
pub fn check_pattern(pattern: &str) -> (res: Result<(), String>)
    ensures
        res is Ok <==> pattern_is_valid(pattern@),
        res matches Err(words) ==> pattern_refusal(pattern@) == Some(words@),
{
    match try_match(pattern, "") {
        Ok(_) => Ok(()),
        Err(detail) => Err(detail),
    }
}

/// Whether a valid pattern matches the whole of `text`.
pub fn matches_fully(pattern: &str, text: &str) -> (r: bool)
    requires
        pattern_is_valid(pattern@),
    ensures
        r == fully_matches(pattern@, text@),
{
    match try_match(pattern, text) {
        Ok(found) => found,
        Err(_) => false,
    }
}

} // verus!
