//! The regex engine's surface, taken on trust.
//!
//! The alternation pattern is built and checked by verified code; only
//! compiling it and scanning a haystack are handed to the outside regex
//! engine.  Both results are functions of the pattern, the
//! case-sensitivity toggle and the haystack alone, so they are named by
//! uninterpreted functions; everything downstream of the scan is
//! verified for every value they may take.

use vstd::prelude::*;

verus! {

/// Whether the engine accepts `pat` (as UTF-8 text) as a pattern, under
/// the given case-sensitivity toggle.
pub uninterp spec fn regex_compiles(pat: Seq<u8>, ci: bool) -> bool;

/// The successive non-overlapping matches of the compiled pattern over
/// the haystack, in order: for each match, one entry per capture group
/// (group 0 first, the whole match), holding the group's byte range in
/// the haystack where the group participated.
pub uninterp spec fn regex_captures(pat: Seq<u8>, ci: bool, hay: Seq<u8>) -> Seq<
    Seq<Option<(usize, usize)>>,
>;

/// The spec value of a scan result.
pub open spec fn caps_view(r: Seq<Vec<Option<(usize, usize)>>>) -> Seq<
    Seq<Option<(usize, usize)>>,
> {
    r.map_values(|v: Vec<Option<(usize, usize)>>| v@)
}

/// Relies on regex::bytes::RegexBuilder::build: whether a pattern
/// compiles depends on the pattern text and the case-insensitivity
/// toggle alone.
#[verifier::external_body]
pub(crate) fn regex_try_compile(pat: &Vec<u8>, ci: bool) -> (r: bool)
    ensures
        r == regex_compiles(pat@, ci),
{
    match std::str::from_utf8(pat.as_slice()) {
        Ok(p) => regex::bytes::RegexBuilder::new(p).case_insensitive(ci).build().is_ok(),
        Err(_) => false,
    }
}

/// Relies on regex::bytes::Regex::captures_iter and
/// regex::bytes::Captures::get: the iterator yields the successive
/// non-overlapping matches in order, and each participating group's
/// `start..end` is a byte range inside the haystack.
#[verifier::external_body]
pub(crate) fn regex_scan(pat: &Vec<u8>, ci: bool, hay: &Vec<u8>) -> (r: Vec<
    Vec<Option<(usize, usize)>>,
>)
    requires
        regex_compiles(pat@, ci),
    ensures
        caps_view(r@) == regex_captures(pat@, ci, hay@),
        forall|m: int, g: int|
            0 <= m < r@.len() && 0 <= g < r@[m]@.len() ==> ((#[trigger] r@[m]@[g]) matches Some(pr)
                ==> pr.0 <= pr.1 <= hay@.len()),
{
    let p = std::str::from_utf8(pat.as_slice()).unwrap();
    let re = regex::bytes::RegexBuilder::new(p).case_insensitive(ci).build().unwrap();
    re.captures_iter(hay.as_slice()).map(
        |c| (0..c.len()).map(|g| c.get(g).map(|mt| (mt.start(), mt.end()))).collect(),
    ).collect()
}

} // verus!
