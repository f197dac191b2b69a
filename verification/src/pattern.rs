//! Regular expressions of the `regex` crate, compiled and matched behind trusted wrappers.
//!
//! What a match gives depends on the pattern and the text alone, so each outside function
//! has a name for its result; the library's contracts speak of those names.

use vstd::prelude::*;

verus! {

#[verifier::external_type_specification]
#[verifier::external_body]
pub struct ExRegex(regex::Regex);

/// What `regex::Regex::new(pattern)` gives: `Ok(())` where the pattern compiles,
/// else the text of its error (`regex::Error` through `to_string`).
pub uninterp spec fn regex_new_result(pattern: Seq<char>) -> Result<(), Seq<char>>;

/// What `regex::Regex::captures` gives for a regex compiled from `pattern` on `haystack`:
/// `None` where nothing matches, else each group's text (`None` for a group that did not
/// take part), group 0 first.
pub uninterp spec fn regex_captures(pattern: Seq<char>, haystack: Seq<char>) -> Option<
    Seq<Option<Seq<char>>>,
>;

/// What `regex::Regex::is_match` gives for a regex compiled from `pattern` on `haystack`.
pub uninterp spec fn regex_is_match(pattern: Seq<char>, haystack: Seq<char>) -> bool;

/// A compiled regular expression together with the pattern it was compiled from.
/// Only `compile` makes one, so `regex` is always `Regex::new(source)`.
pub struct Pattern {
    regex: regex::Regex,
    source: String,
}

impl Pattern {
    /// The pattern this regular expression was compiled from.
    pub closed spec fn source(&self) -> Seq<char> {
        self.source@
    }
}

/// Compiles `pattern` with `regex::Regex::new`; an error comes back as its text.
/// Claimed: the outcome is `regex_new_result(pattern)`, and a compiled value remembers its pattern.
#[verifier::external_body]
pub(crate) fn compile(pattern: &str) -> (r: Result<Pattern, String>)
    ensures
        match r {
            Ok(p) => regex_new_result(pattern@) is Ok && p.source() == pattern@,
            Err(e) => regex_new_result(pattern@) == Err::<(), Seq<char>>(e@),
        },
{
    match regex::Regex::new(pattern) {
        Ok(regex) => Ok(Pattern { regex, source: pattern.to_string() }),
        Err(e) => Err(e.to_string()),
    }
}

/// The groups of the first match of `p` in `haystack` (`regex::Regex::captures`), each
/// group's text copied out. Claimed: the result is `regex_captures(p.source(), haystack)`.
#[verifier::external_body]
pub(crate) fn captures(p: &Pattern, haystack: &str) -> (r: Option<Vec<Option<String>>>)
    ensures
        r.deep_view() == regex_captures(p.source(), haystack@),
{
    p.regex.captures(haystack).map(
        |caps| caps.iter().map(|m| m.map(|m| m.as_str().to_string())).collect(),
    )
}

/// Whether `p` matches somewhere in `haystack` (`regex::Regex::is_match`).
/// Claimed: the result is `regex_is_match(p.source(), haystack)`.
#[verifier::external_body]
pub(crate) fn is_match(p: &Pattern, haystack: &str) -> (r: bool)
    ensures
        r == regex_is_match(p.source(), haystack@),
{
    p.regex.is_match(haystack)
}

/// Group `i` of a match: its text where the group exists and took part, else `None`.
pub open spec fn group(caps: Seq<Option<Seq<char>>>, i: int) -> Option<Seq<char>> {
    if 0 <= i < caps.len() {
        caps[i]
    } else {
        None
    }
}

/// Group `i` of a match, copied out; `None` where `&caps[i]` would panic.
pub fn get_group(caps: &Vec<Option<String>>, i: usize) -> (r: Option<String>)
    ensures
        r.deep_view() == group(caps.deep_view(), i as int),
{
    if i < caps.len() {
        match &caps[i] {
            Some(s) => Some(s.clone()),
            None => None,
        }
    } else {
        None
    }
}

} // verus!
