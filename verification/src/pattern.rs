//! Regular-expression matching, done by the `regex` crate.

use vstd::prelude::*;

verus! {

/// What matching the regular expression `pattern` against `text` yields:
/// the capture groups of the first match, the whole match first and
/// then one entry per group in the order of their opening parentheses,
/// `None` for a group that took no part. The result is `None` where
/// nothing matches or `pattern` is no valid expression.
pub uninterp spec fn regex_captures(pattern: Seq<char>, text: Seq<char>) -> Option<
    Seq<Option<Seq<char>>>,
>;

/// Compiles `pattern` with `regex::Regex::new`, searches `text` with
/// `Regex::captures` and copies each group out of `Captures::iter`.
/// Believed, not proved: the groups are those that [`regex_captures`]
/// names, and a pattern that does not compile counts as no match.
#[verifier::external_body]
pub(crate) fn captures(pattern: &str, text: &str) -> (r: Option<Vec<Option<String>>>)
    ensures
        r.deep_view() == regex_captures(pattern@, text@),
{
    let re = regex::Regex::new(pattern).ok()?;
    let caps = re.captures(text)?;
    Some(caps.iter().map(|m| m.map(|g| g.as_str().to_string())).collect())
}

/// The text of group `i`, where the match has such a group and it took part.
pub open spec fn group(groups: Seq<Option<Seq<char>>>, i: int) -> Option<Seq<char>> {
    if 0 <= i < groups.len() {
        groups[i]
    } else {
        None
    }
}

/// Copies the text of group `i` out of a match.
pub fn group_text(groups: &Vec<Option<String>>, i: usize) -> (r: Option<String>)
    ensures
        r.deep_view() == group(groups.deep_view(), i as int),
{
    if i < groups.len() {
        match &groups[i] {
            Some(s) => Some(s.clone()),
            None => None,
        }
    } else {
        None
    }
}

} // verus!
