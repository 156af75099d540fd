use arks::extract::{extract_entry_text, scan_entry_content};

#[test]
fn valid_utf8_round_trips() {
    let (content, ok) = extract_entry_text("hello\nworld".as_bytes().to_vec());
    assert!(ok);
    assert_eq!(content, "hello\nworld");
}

#[test]
fn invalid_utf8_yields_empty_content() {
    let bytes = vec![0xff, 0xfe, b'h', b'i', 0x80];
    let (content, ok) = extract_entry_text(bytes);
    assert!(!ok);
    assert!(content.is_empty());
}

#[test]
fn invalid_utf8_entry_yields_no_matches_and_a_flag() {
    let bytes = vec![b'h', b'i', 0xc3, 0x28];
    let scan = scan_entry_content(bytes, "hi");
    assert!(!scan.utf8_ok);
    assert!(scan.matches.is_empty());
}

#[test]
fn valid_content_is_scanned() {
    let scan = scan_entry_content(b"a target line\nplain".to_vec(), "target");
    assert!(scan.utf8_ok);
    assert_eq!(scan.matches.len(), 1);
    assert_eq!(scan.matches[0].line_number, 1);
}

#[test]
fn empty_content_has_no_matches() {
    let scan = scan_entry_content(Vec::new(), "x");
    assert!(scan.utf8_ok);
    assert!(scan.matches.is_empty());
}
