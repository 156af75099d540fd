//! Line search and highlighting: scan extracted text line by line for a
//! literal target substring and render each matching line with every
//! occurrence of the target marked, in left-to-right order.

use vstd::prelude::*;
use crate::lines::{lines_of, split_lines};
use crate::text::{contains_chars, contains_seq, find_from, is_match_at, to_chars};

verus! {

/// First position at or after `i` where `pat` occurs in `text`, or -1.
pub open spec fn find_at(text: Seq<char>, pat: Seq<char>, i: int) -> int
    decreases text.len() - i,
    when 0 <= i <= text.len()
    via find_at_dec
{
    if i + pat.len() > text.len() {
        -1
    } else if is_match_at(text, pat, i) {
        i
    } else {
        find_at(text, pat, i + 1)
    }
}

#[via_fn]
proof fn find_at_dec(text: Seq<char>, pat: Seq<char>, i: int) {
    if pat.len() == 0 && 0 <= i && i + pat.len() <= text.len() {
        assert(text.subrange(i, i) =~= pat);
    }
}

pub proof fn lemma_find_at_props(text: Seq<char>, pat: Seq<char>, i: int)
    requires
        0 <= i <= text.len(),
    ensures
        find_at(text, pat, i) == -1 || i <= find_at(text, pat, i),
        find_at(text, pat, i) >= 0 ==> is_match_at(text, pat, find_at(text, pat, i)),
    decreases text.len() - i,
{
    if i + pat.len() <= text.len() {
        if pat.len() == 0 {
            assert(text.subrange(i, i) =~= pat);
        } else if !is_match_at(text, pat, i) {
            lemma_find_at_props(text, pat, i + 1);
        }
    }
}

pub proof fn lemma_find_at_first(text: Seq<char>, pat: Seq<char>, i: int, j: int)
    requires
        0 <= i <= j,
        is_match_at(text, pat, j),
        forall|k: int| i <= k < j ==> !is_match_at(text, pat, k),
    ensures
        find_at(text, pat, i) == j,
    decreases j - i,
{
    if i < j {
        lemma_find_at_first(text, pat, i + 1, j);
    }
}

pub proof fn lemma_find_at_none(text: Seq<char>, pat: Seq<char>, i: int)
    requires
        0 <= i <= text.len(),
        forall|k: int| i <= k ==> !is_match_at(text, pat, k),
    ensures
        find_at(text, pat, i) == -1,
    decreases text.len() - i,
{
    if i + pat.len() <= text.len() {
        if pat.len() == 0 {
            assert(text.subrange(i, i) =~= pat);
            assert(is_match_at(text, pat, i));
            assert(false);
        } else {
            lemma_find_at_none(text, pat, i + 1);
        }
    }
}

/// One rendered piece of a matching line: an unmarked stretch between
/// occurrences of the target, or one marked occurrence of it.
pub struct Segment {
    pub text: String,
    pub marked: bool,
}

/// The mathematical value of a `Segment`.
pub ghost struct SegmentView {
    pub text: Seq<char>,
    pub marked: bool,
}

impl View for Segment {
    type V = SegmentView;

    open spec fn view(&self) -> SegmentView {
        SegmentView { text: self.text@, marked: self.marked }
    }
}

pub open spec fn seg_views(segs: Seq<Segment>) -> Seq<SegmentView> {
    segs.map_values(|s: Segment| s@)
}

/// The rendering of `line` against a non-empty `target`, from position `i`
/// on: greedily, left to right, an unmarked stretch up to the next
/// occurrence, then that occurrence marked; after the last occurrence the
/// remaining stretch, if any, unmarked.
pub open spec fn render_from(line: Seq<char>, target: Seq<char>, i: int) -> Seq<SegmentView>
    decreases line.len() - i,
    when 0 <= i <= line.len() && target.len() >= 1
    via render_from_dec
{
    let j = find_at(line, target, i);
    if j < 0 {
        if i < line.len() {
            seq![SegmentView { text: line.skip(i), marked: false }]
        } else {
            Seq::empty()
        }
    } else {
        let marked = seq![SegmentView { text: target, marked: true }];
        let rest = render_from(line, target, j + target.len());
        if j > i {
            seq![SegmentView { text: line.subrange(i, j), marked: false }] + marked + rest
        } else {
            marked + rest
        }
    }
}

#[via_fn]
proof fn render_from_dec(line: Seq<char>, target: Seq<char>, i: int) {
    lemma_find_at_props(line, target, i);
}

/// The positions of the greedy non-overlapping left-to-right occurrences of
/// a non-empty `target` in `line`, from position `i` on.
pub open spec fn occurrences_from(line: Seq<char>, target: Seq<char>, i: int) -> Seq<int>
    decreases line.len() - i,
    when 0 <= i <= line.len() && target.len() >= 1
    via occurrences_from_dec
{
    let j = find_at(line, target, i);
    if j < 0 {
        Seq::empty()
    } else {
        seq![j] + occurrences_from(line, target, j + target.len())
    }
}

#[via_fn]
proof fn occurrences_from_dec(line: Seq<char>, target: Seq<char>, i: int) {
    lemma_find_at_props(line, target, i);
}

/// The segments' texts, concatenated: the line as printed once highlight
/// marks are stripped.
pub open spec fn concat_segments(segs: Seq<SegmentView>) -> Seq<char>
    decreases segs.len(),
{
    if segs.len() == 0 {
        Seq::empty()
    } else {
        segs[0].text + concat_segments(segs.drop_first())
    }
}

/// How many of the segments are marked.
pub open spec fn count_marked(segs: Seq<SegmentView>) -> int
    decreases segs.len(),
{
    if segs.len() == 0 {
        0
    } else {
        (if segs[0].marked {
            1int
        } else {
            0int
        }) + count_marked(segs.drop_first())
    }
}

proof fn lemma_concat_append(a: Seq<SegmentView>, b: Seq<SegmentView>)
    ensures
        concat_segments(a + b) == concat_segments(a) + concat_segments(b),
    decreases a.len(),
{
    if a.len() == 0 {
        assert(a + b =~= b);
        assert(concat_segments(a) + concat_segments(b) =~= concat_segments(b));
    } else {
        assert((a + b).drop_first() =~= a.drop_first() + b);
        lemma_concat_append(a.drop_first(), b);
        assert((a + b)[0] == a[0]);
        assert(a[0].text + (concat_segments(a.drop_first()) + concat_segments(b)) =~= (a[0].text
            + concat_segments(a.drop_first())) + concat_segments(b));
    }
}

proof fn lemma_count_append(a: Seq<SegmentView>, b: Seq<SegmentView>)
    ensures
        count_marked(a + b) == count_marked(a) + count_marked(b),
    decreases a.len(),
{
    if a.len() == 0 {
        assert(a + b =~= b);
    } else {
        assert((a + b).drop_first() =~= a.drop_first() + b);
        lemma_count_append(a.drop_first(), b);
        assert((a + b)[0] == a[0]);
    }
}

proof fn lemma_concat_singleton(s: SegmentView)
    ensures
        concat_segments(seq![s]) == s.text,
{
    assert(seq![s].drop_first() =~= Seq::<SegmentView>::empty());
    assert(concat_segments(Seq::<SegmentView>::empty()) == Seq::<char>::empty());
    assert(s.text + Seq::<char>::empty() =~= s.text);
}

proof fn lemma_count_singleton(s: SegmentView)
    ensures
        count_marked(seq![s]) == if s.marked {
            1int
        } else {
            0int
        },
{
    assert(seq![s].drop_first() =~= Seq::<SegmentView>::empty());
    assert(count_marked(Seq::<SegmentView>::empty()) == 0);
}

proof fn lemma_render_concat_from(line: Seq<char>, target: Seq<char>, i: int)
    requires
        target.len() >= 1,
        0 <= i <= line.len(),
    ensures
        concat_segments(render_from(line, target, i)) == line.skip(i),
    decreases line.len() - i,
{
    lemma_find_at_props(line, target, i);
    let j = find_at(line, target, i);
    if j < 0 {
        if i < line.len() {
            let seg = SegmentView { text: line.skip(i), marked: false };
            assert(render_from(line, target, i) == seq![seg]);
            lemma_concat_singleton(seg);
        } else {
            assert(render_from(line, target, i) == Seq::<SegmentView>::empty());
            assert(concat_segments(Seq::<SegmentView>::empty()) == Seq::<char>::empty());
            assert(line.skip(i) =~= Seq::<char>::empty());
        }
    } else {
        let tlen = target.len() as int;
        let marked_seg = SegmentView { text: target, marked: true };
        let marked = seq![marked_seg];
        let rest = render_from(line, target, j + tlen);
        assert(is_match_at(line, target, j));
        lemma_render_concat_from(line, target, j + tlen);
        lemma_concat_singleton(marked_seg);
        lemma_concat_append(marked, rest);
        assert(concat_segments(marked + rest) == target + line.skip(j + tlen));
        if j > i {
            let pre_seg = SegmentView { text: line.subrange(i, j), marked: false };
            let pre = seq![pre_seg];
            assert(render_from(line, target, i) == pre + marked + rest);
            lemma_concat_singleton(pre_seg);
            lemma_concat_append(pre, marked + rest);
            assert(pre + marked + rest =~= pre + (marked + rest));
            assert(concat_segments(render_from(line, target, i)) == line.subrange(i, j) + (target
                + line.skip(j + tlen)));
            assert(line.subrange(i, j) + (target + line.skip(j + tlen)) =~= line.skip(i));
        } else {
            assert(render_from(line, target, i) == marked + rest);
            assert(target + line.skip(j + tlen) =~= line.skip(i));
        }
    }
}

/// Law: highlighting round trip — concatenating the rendered segments of a
/// line, marks stripped, gives back exactly the original line.
pub proof fn lemma_render_round_trip(line: Seq<char>, target: Seq<char>)
    requires
        target.len() >= 1,
    ensures
        concat_segments(render_from(line, target, 0)) == line,
{
    lemma_render_concat_from(line, target, 0);
    assert(line.skip(0) =~= line);
}

proof fn lemma_render_count_from(line: Seq<char>, target: Seq<char>, i: int)
    requires
        target.len() >= 1,
        0 <= i <= line.len(),
    ensures
        count_marked(render_from(line, target, i)) == occurrences_from(line, target, i).len(),
    decreases line.len() - i,
{
    lemma_find_at_props(line, target, i);
    let j = find_at(line, target, i);
    if j < 0 {
        if i < line.len() {
            let seg = SegmentView { text: line.skip(i), marked: false };
            assert(render_from(line, target, i) == seq![seg]);
            lemma_count_singleton(seg);
        } else {
            assert(render_from(line, target, i) == Seq::<SegmentView>::empty());
            assert(count_marked(Seq::<SegmentView>::empty()) == 0);
        }
        assert(occurrences_from(line, target, i) == Seq::<int>::empty());
    } else {
        let tlen = target.len() as int;
        let marked_seg = SegmentView { text: target, marked: true };
        let marked = seq![marked_seg];
        let rest = render_from(line, target, j + tlen);
        assert(is_match_at(line, target, j));
        lemma_render_count_from(line, target, j + tlen);
        lemma_count_singleton(marked_seg);
        lemma_count_append(marked, rest);
        assert(occurrences_from(line, target, i) == seq![j] + occurrences_from(
            line,
            target,
            j + tlen,
        ));
        if j > i {
            let pre_seg = SegmentView { text: line.subrange(i, j), marked: false };
            let pre = seq![pre_seg];
            assert(render_from(line, target, i) == pre + marked + rest);
            lemma_count_singleton(pre_seg);
            lemma_count_append(pre, marked + rest);
            assert(pre + marked + rest =~= pre + (marked + rest));
        } else {
            assert(render_from(line, target, i) == marked + rest);
        }
    }
}

/// Law: one mark per occurrence — a rendered line has exactly as many
/// marked segments as the target has greedy left-to-right occurrences in
/// it; in particular a line containing the target exactly once gets exactly
/// one mark.
pub proof fn lemma_render_marks_occurrences(line: Seq<char>, target: Seq<char>)
    requires
        target.len() >= 1,
    ensures
        count_marked(render_from(line, target, 0)) == occurrences_from(line, target, 0).len(),
{
    lemma_render_count_from(line, target, 0);
}

proof fn lemma_marked_are_target_from(line: Seq<char>, target: Seq<char>, i: int)
    requires
        target.len() >= 1,
        0 <= i <= line.len(),
    ensures
        forall|k: int|
            0 <= k < render_from(line, target, i).len() && render_from(line, target, i)[k].marked
                ==> render_from(line, target, i)[k].text == target,
    decreases line.len() - i,
{
    lemma_find_at_props(line, target, i);
    let j = find_at(line, target, i);
    let segs = render_from(line, target, i);
    if j >= 0 {
        let tlen = target.len() as int;
        assert(is_match_at(line, target, j));
        lemma_marked_are_target_from(line, target, j + tlen);
        let marked_seg = SegmentView { text: target, marked: true };
        let marked = seq![marked_seg];
        let rest = render_from(line, target, j + tlen);
        assert forall|k: int| 0 <= k < segs.len() && segs[k].marked implies segs[k].text
            == target by {
            if j > i {
                let pre_seg = SegmentView { text: line.subrange(i, j), marked: false };
                let pre = seq![pre_seg];
                assert(segs == pre + marked + rest);
                if k == 0 {
                    assert(segs[k] == pre_seg);
                } else if k == 1 {
                    assert((pre + marked)[k] == marked_seg);
                    assert(segs[k] == marked_seg);
                } else {
                    assert(segs[k] == rest[k - 2]);
                }
            } else {
                assert(segs == marked + rest);
                if k == 0 {
                    assert(segs[k] == marked_seg);
                } else {
                    assert(segs[k] == rest[k - 1]);
                }
            }
        }
    }
}

/// Law: marks carry the target — every marked segment of a rendered line is
/// exactly the target substring.
pub proof fn lemma_marked_are_target(line: Seq<char>, target: Seq<char>)
    requires
        target.len() >= 1,
    ensures
        forall|k: int|
            0 <= k < render_from(line, target, 0).len() && render_from(line, target, 0)[k].marked
                ==> render_from(line, target, 0)[k].text == target,
{
    lemma_marked_are_target_from(line, target, 0);
}

/// Law: recorded occurrences are genuine — every recorded position is a
/// real match of the target at or after the start, and consecutive
/// occurrences are in order and do not overlap.
pub proof fn lemma_occurrences_are_matches(line: Seq<char>, target: Seq<char>, i: int)
    requires
        target.len() >= 1,
        0 <= i <= line.len(),
    ensures
        forall|k: int|
            0 <= k < occurrences_from(line, target, i).len() ==> is_match_at(
                line,
                target,
                occurrences_from(line, target, i)[k],
            ) && occurrences_from(line, target, i)[k] >= i,
        forall|k: int|
            #![trigger occurrences_from(line, target, i)[k]]
            0 <= k < occurrences_from(line, target, i).len() - 1 ==> occurrences_from(
                line,
                target,
                i,
            )[k] + target.len() <= occurrences_from(line, target, i)[k + 1],
    decreases line.len() - i,
{
    lemma_find_at_props(line, target, i);
    let j = find_at(line, target, i);
    if j >= 0 {
        let tlen = target.len() as int;
        assert(is_match_at(line, target, j));
        lemma_occurrences_are_matches(line, target, j + tlen);
        let rest = occurrences_from(line, target, j + tlen);
        let occ = occurrences_from(line, target, i);
        assert(occ == seq![j] + rest);
        assert forall|k: int| 0 <= k < occ.len() implies is_match_at(line, target, occ[k])
            && occ[k] >= i by {
            if k == 0 {
                assert(occ[k] == j);
            } else {
                assert(occ[k] == rest[k - 1]);
            }
        }
        assert forall|k: int| #![trigger occ[k]] 0 <= k < occ.len() - 1 implies occ[k]
            + target.len() <= occ[k + 1] by {
            if k == 0 {
                assert(occ[0] == j);
                assert(occ[1] == rest[0]);
            } else {
                assert(occ[k] == rest[k - 1]);
                assert(occ[k + 1] == rest[k]);
            }
        }
    }
}

/// Render one line: split it on every occurrence of the target, marking
/// each occurrence and leaving the stretches between them unmarked.
pub fn render_line(line: &str, target: &str) -> (r: Vec<Segment>)
    requires
        target@.len() >= 1,
    ensures
        seg_views(r@) == render_from(line@, target@, 0),
{
    let lc = to_chars(line);
    let tc = to_chars(target);
    let n = lc.len();
    let tlen = tc.len();
    let mut segs: Vec<Segment> = Vec::new();
    let mut i: usize = 0;
    let mut more = true;
    proof {
        assert(seg_views(segs@) + render_from(line@, target@, 0) =~~= render_from(
            line@,
            target@,
            0,
        ));
    }
    while more
        invariant
            lc@ == line@,
            tc@ == target@,
            n == line@.len(),
            tlen == target@.len(),
            tlen >= 1,
            i <= n,
            more ==> seg_views(segs@) + render_from(line@, target@, i as int) == render_from(
                line@,
                target@,
                0,
            ),
            !more ==> seg_views(segs@) == render_from(line@, target@, 0),
        decreases
                (if more {
                    1int
                } else {
                    0int
                }),
                n - i,
    {
        let ghost sv0 = seg_views(segs@);
        let ghost cur = render_from(line@, target@, i as int);
        match find_from(&lc, &tc, i) {
            Some(j) => {
                proof {
                    lemma_find_at_first(line@, target@, i as int, j as int);
                }
                if j > i {
                    let pre = line.substring_char(i, j).to_owned();
                    let ghost svp = seg_views(segs@);
                    segs.push(Segment { text: pre, marked: false });
                    proof {
                        assert(seg_views(segs@) =~~= svp.push(
                            SegmentView { text: line@.subrange(i as int, j as int), marked: false },
                        ));
                    }
                }
                let marked_text = target.to_owned();
                let ghost svm = seg_views(segs@);
                segs.push(Segment { text: marked_text, marked: true });
                proof {
                    assert(seg_views(segs@) =~~= svm.push(
                        SegmentView { text: target@, marked: true },
                    ));
                    assert(seg_views(segs@) + render_from(line@, target@, j + tlen) =~~= sv0
                        + cur);
                }
                i = j + tlen;
            },
            None => {
                proof {
                    lemma_find_at_none(line@, target@, i as int);
                }
                if i < n {
                    let tail = line.substring_char(i, n).to_owned();
                    let ghost svt = seg_views(segs@);
                    segs.push(Segment { text: tail, marked: false });
                    proof {
                        assert(seg_views(segs@) =~~= svt.push(
                            SegmentView { text: line@.skip(i as int), marked: false },
                        ));
                        assert(seg_views(segs@) =~~= sv0 + cur);
                    }
                } else {
                    proof {
                        assert(seg_views(segs@) =~~= sv0 + cur);
                    }
                }
                more = false;
            },
        }
    }
    segs
}

/// One matching line of an entry: its 1-based line number and its rendered
/// segments. The record is streamed to the caller; the line itself is the
/// concatenation of the segments.
pub struct MatchLine {
    pub line_number: usize,
    pub segments: Vec<Segment>,
}

/// The mathematical value of a `MatchLine`.
pub ghost struct MatchLineView {
    pub line_number: int,
    pub segments: Seq<SegmentView>,
}

impl View for MatchLine {
    type V = MatchLineView;

    open spec fn view(&self) -> MatchLineView {
        MatchLineView { line_number: self.line_number as int, segments: seg_views(self.segments@) }
    }
}

pub open spec fn match_views(ms: Seq<MatchLine>) -> Seq<MatchLineView> {
    ms.map_values(|m: MatchLine| m@)
}

/// The match records for a sequence of lines, numbered from `base`: one
/// record, in order, for every line that contains the target.
pub open spec fn matches_of_lines(lns: Seq<Seq<char>>, target: Seq<char>, base: int) -> Seq<
    MatchLineView,
>
    decreases lns.len(),
{
    if lns.len() == 0 {
        Seq::empty()
    } else {
        let rest = matches_of_lines(lns.drop_first(), target, base + 1);
        if contains_seq(lns[0], target) {
            seq![MatchLineView { line_number: base, segments: render_from(lns[0], target, 0) }]
                + rest
        } else {
            rest
        }
    }
}

/// Law: the records are sound and complete — every match record points at
/// a line, numbered from `base`, that contains the target and carries that
/// line's rendering; and every line that contains the target has a record.
pub proof fn lemma_search_records_lines(lns: Seq<Seq<char>>, target: Seq<char>, base: int)
    ensures
        forall|k: int|
            #![trigger matches_of_lines(lns, target, base)[k]]
            0 <= k < matches_of_lines(lns, target, base).len() ==> base <= matches_of_lines(
                lns,
                target,
                base,
            )[k].line_number < base + lns.len() && contains_seq(
                lns[matches_of_lines(lns, target, base)[k].line_number - base],
                target,
            ) && matches_of_lines(lns, target, base)[k].segments == render_from(
                lns[matches_of_lines(lns, target, base)[k].line_number - base],
                target,
                0,
            ),
        forall|idx: int|
            #![trigger lns[idx]]
            0 <= idx < lns.len() && contains_seq(lns[idx], target) ==> exists|k: int|
                0 <= k < matches_of_lines(lns, target, base).len() && matches_of_lines(
                    lns,
                    target,
                    base,
                )[k].line_number == base + idx,
    decreases lns.len(),
{
    if lns.len() > 0 {
        lemma_search_records_lines(lns.drop_first(), target, base + 1);
        let m = matches_of_lines(lns, target, base);
        let rest = matches_of_lines(lns.drop_first(), target, base + 1);
        assert(forall|x: int| 0 <= x < lns.len() - 1 ==> lns.drop_first()[x] == lns[x + 1]);
        if contains_seq(lns[0], target) {
            let rec0 = MatchLineView { line_number: base, segments: render_from(lns[0], target, 0) };
            assert(m == seq![rec0] + rest);
            assert forall|k: int|
                #![trigger m[k]]
                0 <= k < m.len() implies base <= m[k].line_number < base + lns.len()
                && contains_seq(lns[m[k].line_number - base], target) && m[k].segments
                == render_from(lns[m[k].line_number - base], target, 0) by {
                if k == 0 {
                    assert(m[k] == rec0);
                } else {
                    assert(m[k] == rest[k - 1]);
                    let ln = m[k].line_number;
                    assert(lns.drop_first()[ln - base - 1] == lns[ln - base]);
                }
            }
            assert forall|idx: int|
                #![trigger lns[idx]]
                0 <= idx < lns.len() && contains_seq(lns[idx], target) implies exists|k: int|
                0 <= k < m.len() && m[k].line_number == base + idx by {
                if idx == 0 {
                    assert(0 <= 0 < m.len() && m[0].line_number == base + idx);
                } else {
                    assert(lns.drop_first()[idx - 1] == lns[idx]);
                    assert(contains_seq(lns.drop_first()[idx - 1], target));
                    assert(exists|kp: int|
                        0 <= kp < rest.len() && rest[kp].line_number == base + idx);
                    let kp = choose|kp: int|
                        0 <= kp < rest.len() && rest[kp].line_number == base + idx;
                    assert(m[kp + 1] == rest[kp]);
                    assert(0 <= kp + 1 < m.len() && m[kp + 1].line_number == base + idx);
                }
            }
        } else {
            assert(m == rest);
            assert forall|k: int|
                #![trigger m[k]]
                0 <= k < m.len() implies base <= m[k].line_number < base + lns.len()
                && contains_seq(lns[m[k].line_number - base], target) && m[k].segments
                == render_from(lns[m[k].line_number - base], target, 0) by {
                assert(m[k] == rest[k]);
                let ln = m[k].line_number;
                assert(lns.drop_first()[ln - base - 1] == lns[ln - base]);
            }
            assert forall|idx: int|
                #![trigger lns[idx]]
                0 <= idx < lns.len() && contains_seq(lns[idx], target) implies exists|k: int|
                0 <= k < m.len() && m[k].line_number == base + idx by {
                assert(idx != 0);
                assert(lns.drop_first()[idx - 1] == lns[idx]);
                assert(contains_seq(lns.drop_first()[idx - 1], target));
                assert(exists|kp: int| 0 <= kp < rest.len() && rest[kp].line_number == base + idx);
            }
        }
    }
}

/// The search result for a whole text: one record for every line that
/// contains the target, in line order, 1-indexed, each line rendered with
/// its occurrences marked.
pub open spec fn search_result(content: Seq<char>, target: Seq<char>) -> Seq<MatchLineView> {
    matches_of_lines(lines_of(content), target, 1)
}

/// Scan an entry's extracted text line by line for the target substring.
/// An empty target is rejected at the boundary (see `requires`): literal
/// containment of the empty string would hold trivially of every line.
pub fn search_entry(content: &str, target: &str) -> (r: Vec<MatchLine>)
    requires
        target@.len() >= 1,
    ensures
        match_views(r@) == search_result(content@, target@),
{
    let lns = split_lines(content);
    let tc = to_chars(target);
    let mut out: Vec<MatchLine> = Vec::new();
    let mut idx: usize = 0;
    proof {
        assert(lns.deep_view().skip(0) =~~= lines_of(content@));
        assert(match_views(out@) + matches_of_lines(lines_of(content@), target@, 1)
            =~~= matches_of_lines(lines_of(content@), target@, 1));
    }
    while idx < lns.len()
        invariant
            tc@ == target@,
            target@.len() >= 1,
            lns.deep_view() == lines_of(content@),
            idx <= lns@.len(),
            match_views(out@) + matches_of_lines(
                lns.deep_view().skip(idx as int),
                target@,
                idx as int + 1,
            ) == search_result(content@, target@),
        decreases lns@.len() - idx,
    {
        let ghost tail = lns.deep_view().skip(idx as int);
        proof {
            assert(tail.len() > 0);
            assert(tail[0] == lns.deep_view()[idx as int]);
            assert(lns.deep_view()[idx as int] == lns@[idx as int]@);
            assert(tail.drop_first() =~~= lns.deep_view().skip(idx as int + 1));
        }
        let lc = to_chars(lns[idx].as_str());
        if contains_chars(&lc, &tc) {
            let segs = render_line(lns[idx].as_str(), target);
            let ghost old_mv = match_views(out@);
            let rec = MatchLine { line_number: idx + 1, segments: segs };
            proof {
                assert(rec@ == MatchLineView {
                    line_number: idx as int + 1,
                    segments: render_from(tail[0], target@, 0),
                });
            }
            out.push(rec);
            proof {
                assert(match_views(out@) =~~= old_mv.push(
                    MatchLineView {
                        line_number: idx as int + 1,
                        segments: render_from(tail[0], target@, 0),
                    },
                ));
                assert(match_views(out@) + matches_of_lines(
                    tail.drop_first(),
                    target@,
                    idx as int + 2,
                ) =~~= old_mv + matches_of_lines(tail, target@, idx as int + 1));
            }
        } else {
            proof {
                assert(!contains_seq(tail[0], target@));
                assert(matches_of_lines(tail, target@, idx as int + 1) == matches_of_lines(
                    tail.drop_first(),
                    target@,
                    idx as int + 2,
                ));
            }
        }
        idx = idx + 1;
    }
    proof {
        assert(lns.deep_view().skip(idx as int) =~~= Seq::<Seq<char>>::empty());
        assert(match_views(out@) + Seq::<MatchLineView>::empty() =~~= match_views(out@));
    }
    out
}

} // verus!
