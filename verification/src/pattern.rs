//! Pattern search in file names and rendered documents.
//!
//! The field markers of a rendered document are found with regular
//! expressions. The search itself is done by the `regex` crate; what it
//! returns is named here, and the rules that read the captured text are
//! verified against those names.

use vstd::prelude::*;
use regex::Regex;

verus! {

/// The text captured by the first group of `pattern` in its first match within
/// `text`. `None` where `pattern` does not match, where it is no valid
/// regular expression, or where the group takes no part in the match.
pub uninterp spec fn first_capture(pattern: Seq<char>, text: Seq<char>) -> Option<Seq<char>>;

/// The text captured by the first group of `pattern` in each of its successive
/// non-overlapping matches within `text`, in order of occurrence. A match in
/// which the group takes no part contributes the empty text. Empty where
/// `pattern` is no valid regular expression.
pub uninterp spec fn all_captures(pattern: Seq<char>, text: Seq<char>) -> Seq<Seq<char>>;

/// `regex::Regex::captures`, after `regex::Regex::new`: the first group of the
/// leftmost match. The contract only gives the result its name.
#[verifier::external_body]
pub(crate) fn find_first_capture(pattern: &str, text: &str) -> (r: Option<String>)
    ensures
        r.deep_view() == first_capture(pattern@, text@),
{
    match Regex::new(pattern) {
        Ok(re) => re.captures(text).and_then(|c| c.get(1)).map(|m| m.as_str().to_string()),
        Err(_) => None,
    }
}

/// `regex::Regex::captures_iter`, after `regex::Regex::new`: the first group of
/// every match. The contract only gives the result its name.
#[verifier::external_body]
pub(crate) fn find_all_captures(pattern: &str, text: &str) -> (r: Vec<String>)
    ensures
        r.deep_view() == all_captures(pattern@, text@),
{
    match Regex::new(pattern) {
        Ok(re) => re.captures_iter(text).map(
            |c| c.get(1).map_or(String::new(), |m| m.as_str().to_string()),
        ).collect(),
        Err(_) => Vec::new(),
    }
}

} // verus!
