//! Searches with regular expressions of the `regex` crate.
use crate::quiz::{topic_span, TOPIC_PATTERN};
use crate::sheet_cells::{cell_tag_span, BEGIN_ALT_CHARS, BEGIN_CHARS};
use regex::Regex;
use vstd::prelude::*;
use vstd::string::StringSliceAdditionalSpecFns;

verus! {

/// What a search with one of the library's patterns finds in `b`: the cell
/// starts (group 0, the whole match) or the topic option (group 1).
pub open spec fn pattern_span(pattern: Seq<char>, group: usize, b: Seq<u8>) -> Option<(int, int)> {
    if group == 0 {
        cell_tag_span(b, pattern == BEGIN_ALT_CHARS@)
    } else {
        topic_span(b)
    }
}

/// Calls `regex::Regex::new(pattern)`, `Regex::captures(haystack)` and
/// `Captures::get(group)`, and gives the byte range of that group. Only the
/// library's patterns are admitted, with the groups it reads; they compile.
/// regex searches leftmost-first, `[1-9]{1}` takes one digit, `.` any
/// character but a line break and `*?` as few as it can, so:
/// - the cell patterns find the first place where `<td class="s`, one digit
///   from 1 to 9 and `">` (or ` softmerge">`) stand in a row;
/// - the topic pattern finds the first `-t "` from which a quote can be
///   reached without a line break, and group 1 is the text up to that quote.
#[verifier::external_body]
pub(crate) fn regex_group(pattern: &str, haystack: &str, group: usize) -> (r: Option<(usize, usize)>)
    requires
        (group == 0 && (pattern@ == BEGIN_CHARS@ || pattern@ == BEGIN_ALT_CHARS@)) || (group == 1
            && pattern@ == TOPIC_PATTERN@),
    ensures
        match r {
            None => pattern_span(pattern@, group, haystack.spec_bytes()) is None,
            Some((s, e)) => pattern_span(pattern@, group, haystack.spec_bytes()) == Some(
                (s as int, e as int),
            ),
        },
{
    let re = Regex::new(pattern).unwrap();
    match re.captures(haystack) {
        Some(caps) => match caps.get(group) {
            Some(m) => Some((m.start(), m.end())),
            None => None,
        },
        None => None,
    }
}

} // verus!
