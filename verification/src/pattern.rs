//! Pattern searches, carried out by the `regex` crate.
//!
//! The two functions are taken on trust. Their contracts give what a
//! search hands back a name and say nothing more of it: the callers check
//! every offset before they rely on it.

use regex::Regex;
use vstd::prelude::*;

verus! {

/// One match of a pattern in a text, in byte offsets: the whole match at
/// `start..end`, and where one chosen group matched, if it took part.
#[derive(Clone, Copy, Debug)]
pub struct Capture {
    pub start: usize,
    pub end: usize,
    pub group: Option<(usize, usize)>,
}

/// What `regex::Regex::captures_iter` yields for `pattern` over `haystack`:
/// for each match, in order, its offsets and those of group number `group`.
/// `None` where the pattern does not compile.
pub uninterp spec fn pattern_captures(pattern: Seq<char>, haystack: Seq<char>, group: usize) -> Option<Seq<Capture>>;

/// What `regex::Regex::find` yields for `pattern` over `haystack`: the
/// offsets of the leftmost match, if there is one. `None` where the pattern
/// does not compile.
pub uninterp spec fn pattern_find(pattern: Seq<char>, haystack: Seq<char>) -> Option<Option<(usize, usize)>>;

/// Compiles `pattern` with `regex::Regex::new` and collects the matches of
/// `regex::Regex::captures_iter` over `haystack`. The contract only names
/// the outcome: the successive matches as `regex` reports them, or `None`
/// for a pattern that it does not compile.
#[verifier::external_body]
pub(crate) fn captures(pattern: &str, haystack: &str, group: usize) -> (found: Option<Vec<Capture>>)
    ensures
        match found {
            Some(list) => pattern_captures(pattern@, haystack@, group) == Some(list@),
            None => pattern_captures(pattern@, haystack@, group) is None,
        },
{
    let re = Regex::new(pattern).ok()?;
    let spans = re.captures_iter(haystack).map(
        |caps| {
            let whole = caps.get(0).unwrap();
            let group = caps.get(group).map(|m| (m.start(), m.end()));
            Capture { start: whole.start(), end: whole.end(), group }
        },
    );
    Some(spans.collect())
}

/// Compiles `pattern` with `regex::Regex::new` and runs `regex::Regex::find`
/// over `haystack`. The contract only names the outcome: the offsets of the
/// leftmost match as `regex` reports it, or `None` for a pattern that it
/// does not compile.
#[verifier::external_body]
pub(crate) fn find(pattern: &str, haystack: &str) -> (found: Option<Option<(usize, usize)>>)
    ensures
        found == pattern_find(pattern@, haystack@),
{
    let re = Regex::new(pattern).ok()?;
    Some(re.find(haystack).map(|m| (m.start(), m.end())))
}

} // verus!
