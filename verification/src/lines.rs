//! Splitting extracted text into lines, and strings on a separator
//! character, together with a specification-level model of both.

use vstd::prelude::*;
use crate::text::to_chars;

verus! {

/// Index of the first occurrence of `c` in `s`, or -1 if there is none.
pub open spec fn find_char(s: Seq<char>, c: char) -> int
    decreases s.len(),
{
    if s.len() == 0 {
        -1
    } else if s[0] == c {
        0
    } else {
        let r = find_char(s.drop_first(), c);
        if r < 0 {
            -1
        } else {
            r + 1
        }
    }
}

pub proof fn lemma_find_char_props(s: Seq<char>, c: char)
    ensures
        find_char(s, c) == -1 || 0 <= find_char(s, c) < s.len(),
        find_char(s, c) >= 0 ==> s[find_char(s, c)] == c,
        forall|j: int|
            0 <= j < s.len() && (find_char(s, c) == -1 || j < find_char(s, c)) ==> s[j] != c,
    decreases s.len(),
{
    if s.len() > 0 && s[0] != c {
        lemma_find_char_props(s.drop_first(), c);
        assert(forall|j: int| 1 <= j < s.len() ==> s[j] == s.drop_first()[j - 1]);
    }
}

pub proof fn lemma_find_char_at(s: Seq<char>, c: char, k: int)
    requires
        0 <= k < s.len(),
        s[k] == c,
        forall|j: int| 0 <= j < k ==> s[j] != c,
    ensures
        find_char(s, c) == k,
    decreases s.len(),
{
    if k > 0 {
        assert(forall|j: int| 1 <= j < s.len() ==> s[j] == s.drop_first()[j - 1]);
        lemma_find_char_at(s.drop_first(), c, k - 1);
    }
}

pub proof fn lemma_find_char_none(s: Seq<char>, c: char)
    requires
        forall|j: int| 0 <= j < s.len() ==> s[j] != c,
    ensures
        find_char(s, c) == -1,
    decreases s.len(),
{
    if s.len() > 0 {
        assert(forall|j: int| 1 <= j < s.len() ==> s[j] == s.drop_first()[j - 1]);
        lemma_find_char_none(s.drop_first(), c);
    }
}

/// Split `s` on `sep`, keeping empty pieces, including a trailing one; an
/// empty `s` yields one empty piece.
pub open spec fn split_char(s: Seq<char>, sep: char) -> Seq<Seq<char>>
    decreases s.len(),
    via split_char_dec
{
    let k = find_char(s, sep);
    if k < 0 {
        seq![s]
    } else {
        seq![s.take(k)] + split_char(s.skip(k + 1), sep)
    }
}

#[via_fn]
proof fn split_char_dec(s: Seq<char>, sep: char) {
    lemma_find_char_props(s, sep);
}

/// A trailing carriage return is stripped from a line terminated by '\n'.
pub open spec fn strip_cr(l: Seq<char>) -> Seq<char> {
    if l.len() > 0 && l[l.len() - 1] == '\r' {
        l.drop_last()
    } else {
        l
    }
}

/// The lines of a text: terminators ('\n', or '\r' followed by '\n') are
/// stripped, the final line needs no terminator, and a trailing terminator
/// adds no empty final line.
pub open spec fn lines_of(s: Seq<char>) -> Seq<Seq<char>>
    decreases s.len(),
    via lines_of_dec
{
    if s.len() == 0 {
        Seq::empty()
    } else {
        let k = find_char(s, '\n');
        if k < 0 {
            seq![s]
        } else {
            seq![strip_cr(s.take(k))] + lines_of(s.skip(k + 1))
        }
    }
}

#[via_fn]
proof fn lines_of_dec(s: Seq<char>) {
    lemma_find_char_props(s, '\n');
}

/// Split a text into its lines.
pub fn split_lines(content: &str) -> (r: Vec<String>)
    ensures
        r.deep_view() == lines_of(content@),
{
    let chars = to_chars(content);
    let n = chars.len();
    let mut lines: Vec<String> = Vec::new();
    let mut start: usize = 0;
    let mut i: usize = 0;
    proof {
        assert(content@.skip(0) =~= content@);
        assert(lines.deep_view() + lines_of(content@) =~~= lines_of(content@));
    }
    while i < n
        invariant
            chars@ == content@,
            n == content@.len(),
            start <= i <= n,
            forall|k: int| start <= k < i ==> content@[k] != '\n',
            lines.deep_view() + lines_of(content@.skip(start as int)) == lines_of(content@),
        decreases n - i,
    {
        if chars[i] == '\n' {
            let piece_end = if i > start && chars[i - 1] == '\r' {
                i - 1
            } else {
                i
            };
            let piece = content.substring_char(start, piece_end).to_owned();
            proof {
                let s0 = content@.skip(start as int);
                assert(s0[i - start] == content@[i as int]);
                assert(forall|j: int| 0 <= j < i - start ==> s0[j] == content@[start + j]);
                lemma_find_char_at(s0, '\n', i - start);
                assert(s0.take(i - start) =~= content@.subrange(start as int, i as int));
                assert(strip_cr(content@.subrange(start as int, i as int)) =~= piece@);
                assert(s0.skip(i - start + 1) =~= content@.skip(i + 1));
                assert(lines.deep_view().push(piece@) + lines_of(content@.skip(i + 1))
                    =~~= lines.deep_view() + lines_of(s0));
            }
            let ghost old_dv = lines.deep_view();
            lines.push(piece);
            proof {
                assert(lines.deep_view() =~~= old_dv.push(piece@));
            }
            i = i + 1;
            start = i;
        } else {
            i = i + 1;
        }
    }
    if start < n {
        let piece = content.substring_char(start, n).to_owned();
        proof {
            let s0 = content@.skip(start as int);
            assert(forall|j: int| 0 <= j < s0.len() ==> s0[j] == content@[start + j]);
            lemma_find_char_none(s0, '\n');
            assert(piece@ =~= s0);
            assert(lines.deep_view().push(piece@) =~~= lines.deep_view() + lines_of(s0));
        }
        let ghost old_dv = lines.deep_view();
        lines.push(piece);
        proof {
            assert(lines.deep_view() =~~= old_dv.push(piece@));
        }
    } else {
        proof {
            assert(content@.skip(start as int) =~= Seq::<char>::empty());
            assert(lines.deep_view() + lines_of(Seq::<char>::empty()) =~~= lines.deep_view());
        }
    }
    lines
}

/// Split a string on a separator character, keeping empty pieces.
pub fn split_string(s: &str, sep: char) -> (r: Vec<String>)
    ensures
        r.deep_view() == split_char(s@, sep),
{
    let chars = to_chars(s);
    let n = chars.len();
    let mut pieces: Vec<String> = Vec::new();
    let mut start: usize = 0;
    let mut i: usize = 0;
    proof {
        assert(s@.skip(0) =~= s@);
        assert(pieces.deep_view() + split_char(s@, sep) =~~= split_char(s@, sep));
    }
    while i < n
        invariant
            chars@ == s@,
            n == s@.len(),
            start <= i <= n,
            forall|k: int| start <= k < i ==> s@[k] != sep,
            pieces.deep_view() + split_char(s@.skip(start as int), sep) == split_char(s@, sep),
        decreases n - i,
    {
        if chars[i] == sep {
            let piece = s.substring_char(start, i).to_owned();
            proof {
                let s0 = s@.skip(start as int);
                assert(s0[i - start] == s@[i as int]);
                assert(forall|j: int| 0 <= j < i - start ==> s0[j] == s@[start + j]);
                lemma_find_char_at(s0, sep, i - start);
                assert(s0.take(i - start) =~= s@.subrange(start as int, i as int));
                assert(s0.skip(i - start + 1) =~= s@.skip(i + 1));
                assert(pieces.deep_view().push(piece@) + split_char(s@.skip(i + 1), sep)
                    =~~= pieces.deep_view() + split_char(s0, sep));
            }
            let ghost old_dv = pieces.deep_view();
            pieces.push(piece);
            proof {
                assert(pieces.deep_view() =~~= old_dv.push(piece@));
            }
            i = i + 1;
            start = i;
        } else {
            i = i + 1;
        }
    }
    let piece = s.substring_char(start, n).to_owned();
    proof {
        let s0 = s@.skip(start as int);
        assert(forall|j: int| 0 <= j < s0.len() ==> s0[j] == s@[start + j]);
        lemma_find_char_none(s0, sep);
        assert(piece@ =~= s0);
        assert(pieces.deep_view().push(piece@) =~~= pieces.deep_view() + split_char(s0, sep));
    }
    let ghost old_dv = pieces.deep_view();
    pieces.push(piece);
    proof {
        assert(pieces.deep_view() =~~= old_dv.push(piece@));
    }
    pieces
}

} // verus!
