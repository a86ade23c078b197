//! Anchored wildcard matching: `?` matches exactly one arbitrary character,
//! `*` matches zero or more arbitrary characters; the whole candidate must
//! match, not a substring.

use vstd::prelude::*;
use wildmatch::WildMatch;

verus! {

/// Whether the wildcard pattern `p` matches the entirety of `s`.
pub open spec fn wild_matches(p: Seq<char>, s: Seq<char>) -> bool
    decreases p.len(), s.len(),
{
    if p.len() == 0 {
        s.len() == 0
    } else if p[0] == '*' {
        wild_matches(p.skip(1), s) || (s.len() > 0 && wild_matches(p, s.skip(1)))
    } else if s.len() == 0 {
        false
    } else {
        (p[0] == '?' || p[0] == s[0]) && wild_matches(p.skip(1), s.skip(1))
    }
}

/// Relies on `wildmatch::WildMatch`: `new(p).matches(s)` returns true exactly
/// when the whole of `s` matches the pattern `p`, where `?` stands for one
/// arbitrary character and `*` for zero or more.
#[verifier::external_body]
pub(crate) fn wild_match_line(p: &str, s: &str) -> (r: bool)
    ensures
        r == wild_matches(p@, s@),
{
    WildMatch::new(p).matches(s)
}

} // verus!
