//! The inner-path filter: an optional, OR-combined set of substrings that an
//! entry's in-archive path must contain to be considered at all.

use vstd::prelude::*;
use crate::lines::{split_char, split_string};
use crate::text::{contains_chars, contains_seq, to_chars};

verus! {

/// The parsed form of the optional user-supplied filter string. `None`
/// means no filter was configured: every path is admitted. The filter
/// string is split on '|'; empty pieces (as in "a|") are kept, and an
/// empty piece admits every path, since every text contains the empty
/// substring.
pub struct InnerPattern {
    parts: Option<Vec<String>>,
}

impl View for InnerPattern {
    type V = Option<Seq<Seq<char>>>;

    closed spec fn view(&self) -> Option<Seq<Seq<char>>> {
        match self.parts {
            None => None,
            Some(v) => Some(v.deep_view()),
        }
    }
}

/// Whether the filter admits the path: with no filter configured every path
/// is admitted, otherwise the path must contain at least one of the pieces.
pub open spec fn pattern_admits(pattern: Option<Seq<Seq<char>>>, path: Seq<char>) -> bool {
    match pattern {
        None => true,
        Some(parts) => exists|j: int| 0 <= j < parts.len() && contains_seq(path, parts[j]),
    }
}

impl InnerPattern {
    /// Parse the optional filter string once, splitting it on '|'.
    pub fn new(filter: Option<&str>) -> (r: InnerPattern)
        ensures
            r@ == match filter {
                None => None::<Seq<Seq<char>>>,
                Some(s) => Some(split_char(s@, '|')),
            },
    {
        match filter {
            None => InnerPattern { parts: None },
            Some(s) => InnerPattern { parts: Some(split_string(s, '|')) },
        }
    }
}

/// Law: OR semantics of the inner-path filter — a path passes a filter
/// parsed from a string exactly when it contains at least one of the
/// string's '|'-separated pieces, and every path passes an absent filter.
pub proof fn lemma_filter_or_semantics(filter: Seq<char>, path: Seq<char>)
    ensures
        pattern_admits(Some(split_char(filter, '|')), path) <==> exists|j: int|
            0 <= j < split_char(filter, '|').len() && contains_seq(
                path,
                split_char(filter, '|')[j],
            ),
        pattern_admits(None::<Seq<Seq<char>>>, path),
{
}

/// Whether the entry path passes the inner-path filter: true when no filter
/// is configured, and otherwise exactly when the path contains at least one
/// of the '|'-separated pieces of the filter string.
pub fn check_inner_file_pattern(path: &str, pattern: &InnerPattern) -> (r: bool)
    ensures
        r == pattern_admits(pattern@, path@),
{
    match &pattern.parts {
        None => true,
        Some(parts) => {
            let path_chars = to_chars(path);
            let mut j: usize = 0;
            while j < parts.len()
                invariant
                    pattern@ == Some(parts.deep_view()),
                    path_chars@ == path@,
                    j <= parts@.len(),
                    forall|k: int| 0 <= k < j ==> !contains_seq(path@, parts.deep_view()[k]),
                decreases parts@.len() - j,
            {
                let part_chars = to_chars(parts[j].as_str());
                proof {
                    assert(parts.deep_view()[j as int] == parts@[j as int]@);
                }
                if contains_chars(&path_chars, &part_chars) {
                    proof {
                        let pp = pattern@->Some_0;
                        assert(pp == parts.deep_view());
                        assert(0 <= j < pp.len() && contains_seq(path@, pp[j as int]));
                    }
                    return true;
                }
                j = j + 1;
            }
            false
        },
    }
}

} // verus!
