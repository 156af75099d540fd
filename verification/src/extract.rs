//! The tolerant entry extractor and the per-entry pipeline: filter the
//! entry's path, classify it, decode its bytes as text without ever letting
//! a malformed entry abort the scan, and search the text.

use vstd::prelude::*;
use vstd::utf8::{decode_utf8, valid_utf8};
use crate::classify::{is_plain_text, is_text_name};
use crate::pattern::{check_inner_file_pattern, pattern_admits, InnerPattern};
use crate::search::{match_views, search_entry, search_result, MatchLine};

verus! {

/// Relies on `String::from_utf8` (std): it returns the decoded string
/// exactly when the bytes are valid UTF-8, and an error otherwise. vstd's
/// `valid_utf8` and `decode_utf8` model which byte sequences are valid
/// UTF-8 and what they decode to.
#[verifier::external_body]
fn utf8_to_string(bytes: Vec<u8>) -> (r: Option<String>)
    ensures
        match r {
            Some(s) => valid_utf8(bytes@) && s@ == decode_utf8(bytes@),
            None => !valid_utf8(bytes@),
        },
{
    String::from_utf8(bytes).ok()
}

/// Materialise an entry's bytes as text, tolerantly: the decoded content
/// and true when the bytes are valid UTF-8; an empty content and false
/// otherwise, so that a malformed entry simply yields no matches instead of
/// an error. The caller owes the user a diagnostic when the flag is false.
pub fn extract_entry_text(bytes: Vec<u8>) -> (r: (String, bool))
    ensures
        valid_utf8(bytes@) ==> r.1 && r.0@ == decode_utf8(bytes@),
        !valid_utf8(bytes@) ==> !r.1 && r.0@ == Seq::<char>::empty(),
{
    match utf8_to_string(bytes) {
        Some(s) => (s, true),
        None => (String::new(), false),
    }
}

/// The outcome of scanning one entry's content: the match records, and
/// whether the content was valid UTF-8 (when it was not, the content was
/// treated as empty, so there are no records).
pub struct EntryScan {
    pub matches: Vec<MatchLine>,
    pub utf8_ok: bool,
}

/// Filter, then classify: whether an entry is worth extracting at all,
/// decided from its in-archive path alone, before any extraction cost is
/// paid.
pub fn should_scan_entry(path: &str, pattern: &InnerPattern) -> (r: bool)
    ensures
        r == (pattern_admits(pattern@, path@) && is_text_name(path@)),
{
    if !check_inner_file_pattern(path, pattern) {
        return false;
    }
    is_plain_text(path)
}

/// Extract, then search: decode an entry's bytes tolerantly and scan the
/// text for the target. Non-UTF-8 content yields no matches and a false
/// `utf8_ok`; it never aborts the scan.
pub fn scan_entry_content(bytes: Vec<u8>, target: &str) -> (r: EntryScan)
    requires
        target@.len() >= 1,
    ensures
        valid_utf8(bytes@) ==> r.utf8_ok && match_views(r.matches@) == search_result(
            decode_utf8(bytes@),
            target@,
        ),
        !valid_utf8(bytes@) ==> !r.utf8_ok && r.matches@ == Seq::<MatchLine>::empty(),
{
    let (content, ok) = extract_entry_text(bytes);
    if ok {
        let matches = search_entry(content.as_str(), target);
        EntryScan { matches, utf8_ok: true }
    } else {
        EntryScan { matches: Vec::new(), utf8_ok: false }
    }
}

} // verus!
