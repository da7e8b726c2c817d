//! Regular-expression matching, done by the `regex` crate.
//!
//! What a regular expression matches is the `regex` crate's business: it is
//! named here, not restated. The library's logic works on the plain values
//! that come back (the matched groups as strings).
use vstd::prelude::*;

verus! {

/// The capture groups of the leftmost match of `pattern` in `hay`: `None` when
/// the pattern does not compile or does not match; otherwise one entry per
/// group of the pattern, group 0 first (the whole match), `None` for a group
/// that took no part in the match.
pub uninterp spec fn regex_captures_of(pattern: Seq<char>, hay: Seq<char>) -> Option<
    Seq<Option<Seq<char>>>,
>;

/// The strings held by a list of optional groups.
pub open spec fn groups_view(g: Seq<Option<String>>) -> Seq<Option<Seq<char>>> {
    g.map_values(
        |o: Option<String>|
            match o {
                Some(s) => Some(s@),
                None => None,
            },
    )
}

/// Compiles `pattern` with `regex::Regex::new` and, when it compiles, runs
/// `regex::Regex::captures` on `hay`, handing back the groups of the match as
/// strings (`Captures::iter`).
///
/// Trusted: the result is `regex_captures_of(pattern, hay)`, a function of the
/// two strings alone; as the crate documents, a match always holds group 0.
#[verifier::external_body]
pub(crate) fn regex_captures(pattern: &str, hay: &str) -> (r: Option<Vec<Option<String>>>)
    ensures
        match r {
            Some(g) => regex_captures_of(pattern@, hay@) == Some(groups_view(g@)),
            None => regex_captures_of(pattern@, hay@) is None,
        },
        r matches Some(g) ==> g.len() >= 1 && g@[0] is Some,
{
    let re = regex::Regex::new(pattern).ok()?;
    let caps = re.captures(hay)?;
    Some(caps.iter().map(|m| m.map(|m| m.as_str().to_string())).collect())
}

/// Whether `pattern` compiles and matches somewhere in `hay`.
pub uninterp spec fn regex_is_match_of(pattern: Seq<char>, hay: Seq<char>) -> bool;

/// Whether `pattern` compiles as a regular expression.
pub uninterp spec fn regex_compiles_of(pattern: Seq<char>) -> bool;

/// `regex::Regex::new`, then `Regex::is_match` on `hay`; false when the pattern
/// does not compile.
///
/// Trusted: the result is `regex_is_match_of(pattern, hay)`.
#[verifier::external_body]
pub(crate) fn regex_is_match(pattern: &str, hay: &str) -> (r: bool)
    ensures
        r == regex_is_match_of(pattern@, hay@),
{
    match regex::Regex::new(pattern) {
        Ok(re) => re.is_match(hay),
        Err(_) => false,
    }
}

/// `regex::Regex::new`: whether the pattern compiles.
///
/// Trusted: the result is `regex_compiles_of(pattern)`.
#[verifier::external_body]
pub(crate) fn regex_compiles(pattern: &str) -> (r: bool)
    ensures
        r == regex_compiles_of(pattern@),
{
    regex::Regex::new(pattern).is_ok()
}

} // verus!
