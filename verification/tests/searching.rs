use arks::search::{render_line, search_entry, Segment};

fn strip(segs: &[Segment]) -> String {
    let mut s = String::new();
    for seg in segs {
        s.push_str(&seg.text);
    }
    s
}

fn marked_spans(segs: &[Segment]) -> Vec<(usize, usize)> {
    let mut spans = Vec::new();
    let mut pos = 0usize;
    for seg in segs {
        let len = seg.text.chars().count();
        if seg.marked {
            spans.push((pos, pos + len));
        }
        pos += len;
    }
    spans
}

#[test]
fn highlight_round_trip_single_occurrence() {
    let line = "hello world";
    let segs = render_line(line, "world");
    assert_eq!(strip(&segs), line);
    let marked: Vec<&Segment> = segs.iter().filter(|s| s.marked).collect();
    assert_eq!(marked.len(), 1);
    assert_eq!(marked[0].text, "world");
}

#[test]
fn two_occurrences_marked_at_correct_offsets() {
    let segs = render_line("foo bar foo", "foo");
    assert_eq!(strip(&segs), "foo bar foo");
    assert_eq!(marked_spans(&segs), vec![(0, 3), (8, 11)]);
    assert_eq!(segs.len(), 3);
    assert!(segs[0].marked);
    assert_eq!(segs[0].text, "foo");
    assert!(!segs[1].marked);
    assert_eq!(segs[1].text, " bar ");
    assert!(segs[2].marked);
    assert_eq!(segs[2].text, "foo");
}

#[test]
fn occurrences_are_greedy_and_non_overlapping() {
    let segs = render_line("aaa", "aa");
    assert_eq!(segs.len(), 2);
    assert!(segs[0].marked);
    assert_eq!(segs[0].text, "aa");
    assert!(!segs[1].marked);
    assert_eq!(segs[1].text, "a");
}

#[test]
fn match_at_line_start_and_end() {
    let segs = render_line("world says world", "world");
    assert_eq!(strip(&segs), "world says world");
    assert_eq!(marked_spans(&segs), vec![(0, 5), (11, 16)]);
}

#[test]
fn search_entry_reports_lines_one_indexed() {
    let ms = search_entry("hello world\ngoodbye world", "world");
    assert_eq!(ms.len(), 2);
    assert_eq!(ms[0].line_number, 1);
    assert_eq!(strip(&ms[0].segments), "hello world");
    assert_eq!(ms[1].line_number, 2);
    assert_eq!(strip(&ms[1].segments), "goodbye world");
}

#[test]
fn search_entry_skips_non_matching_lines() {
    let ms = search_entry("one\ntwo target two\nthree\ntarget", "target");
    assert_eq!(ms.len(), 2);
    assert_eq!(ms[0].line_number, 2);
    assert_eq!(ms[1].line_number, 4);
}

#[test]
fn search_entry_without_matches_is_empty() {
    assert!(search_entry("nothing here", "absent").is_empty());
    assert!(search_entry("", "x").is_empty());
}
