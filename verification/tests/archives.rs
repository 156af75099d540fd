use std::io::{Cursor, Read, Write};

use arks::extract::{scan_entry_content, should_scan_entry, EntryScan};
use arks::pattern::InnerPattern;
use arks::search::Segment;

fn strip(segs: &[Segment]) -> String {
    let mut s = String::new();
    for seg in segs {
        s.push_str(&seg.text);
    }
    s
}

fn tar_bytes(entries: &[(&str, &[u8])]) -> Vec<u8> {
    let mut builder = tar::Builder::new(Vec::new());
    for (name, data) in entries {
        let mut header = tar::Header::new_gnu();
        header.set_size(data.len() as u64);
        header.set_mode(0o644);
        header.set_cksum();
        builder.append_data(&mut header, name, *data).unwrap();
    }
    builder.into_inner().unwrap()
}

fn gzip(bytes: &[u8]) -> Vec<u8> {
    let mut enc = flate2::write::GzEncoder::new(Vec::new(), flate2::Compression::default());
    enc.write_all(bytes).unwrap();
    enc.finish().unwrap()
}

/// The same per-entry pipeline the binary's tar drivers run: filter and
/// classify by path, then extract and scan; count enumeration errors
/// instead of aborting on them.
fn scan_tar<R: Read>(
    mut archive: tar::Archive<R>,
    target: &str,
    pattern: &InnerPattern,
) -> (Vec<(String, EntryScan)>, usize) {
    let mut scanned = Vec::new();
    let mut errors = 0usize;
    for entry in archive.entries().unwrap() {
        match entry {
            Ok(mut e) => {
                let path = e.path().unwrap().display().to_string();
                if should_scan_entry(&path, pattern) {
                    let mut bytes = Vec::new();
                    e.read_to_end(&mut bytes).unwrap();
                    scanned.push((path, scan_entry_content(bytes, target)));
                }
            }
            Err(_) => errors += 1,
        }
    }
    (scanned, errors)
}

fn scan_targz(
    archive_bytes: &[u8],
    target: &str,
    pattern: &InnerPattern,
) -> (Vec<(String, EntryScan)>, usize) {
    let dec = flate2::read::GzDecoder::new(Cursor::new(archive_bytes.to_vec()));
    scan_tar(tar::Archive::new(dec), target, pattern)
}

#[test]
fn gzip_tar_end_to_end() {
    let bytes = gzip(&tar_bytes(&[
        ("notes.txt", b"hello world\ngoodbye world".as_slice()),
        ("image.png", &[0x89u8, b'P', b'N', b'G', 0x00, 0x01, 0x02, 0x03]),
    ]));
    let pattern = InnerPattern::new(None);
    let (scanned, errors) = scan_targz(&bytes, "world", &pattern);
    assert_eq!(errors, 0);
    assert_eq!(scanned.len(), 1);
    let (path, scan) = &scanned[0];
    assert_eq!(path, "notes.txt");
    assert!(scan.utf8_ok);
    assert_eq!(scan.matches.len(), 2);
    assert_eq!(scan.matches[0].line_number, 1);
    assert_eq!(strip(&scan.matches[0].segments), "hello world");
    let marked: Vec<&Segment> = scan.matches[0].segments.iter().filter(|s| s.marked).collect();
    assert_eq!(marked.len(), 1);
    assert_eq!(marked[0].text, "world");
    assert_eq!(scan.matches[1].line_number, 2);
    assert_eq!(strip(&scan.matches[1].segments), "goodbye world");
}

#[test]
fn inner_pattern_filters_everything_out() {
    let bytes = gzip(&tar_bytes(&[("notes.txt", b"hello world".as_slice())]));
    let pattern = InnerPattern::new(Some("docs"));
    let (scanned, _) = scan_targz(&bytes, "world", &pattern);
    assert!(scanned.is_empty());
}

#[test]
fn inner_pattern_admits_matching_paths() {
    let bytes = gzip(&tar_bytes(&[("docs/notes.txt", b"hello world".as_slice())]));
    let pattern = InnerPattern::new(Some("docs"));
    let (scanned, _) = scan_targz(&bytes, "world", &pattern);
    assert_eq!(scanned.len(), 1);
    assert_eq!(scanned[0].1.matches.len(), 1);
}

#[test]
fn corrupt_middle_entry_is_isolated() {
    let bytes = gzip(&tar_bytes(&[
        ("one.txt", b"alpha target\n".as_slice()),
        ("two.txt", &[0xffu8, 0xfe, 0xfd, b'x']),
        ("three.txt", b"gamma target\n".as_slice()),
    ]));
    let pattern = InnerPattern::new(None);
    let (scanned, errors) = scan_targz(&bytes, "target", &pattern);
    assert_eq!(errors, 0);
    assert_eq!(scanned.len(), 3);
    assert!(scanned[0].1.utf8_ok);
    assert_eq!(scanned[0].1.matches.len(), 1);
    assert!(!scanned[1].1.utf8_ok);
    assert!(scanned[1].1.matches.is_empty());
    assert!(scanned[2].1.utf8_ok);
    assert_eq!(scanned[2].1.matches.len(), 1);
}

#[test]
fn truncated_archive_warns_and_keeps_earlier_matches() {
    let whole = tar_bytes(&[
        ("one.txt", b"alpha target\n".as_slice()),
        ("two.txt", b"beta target\n".as_slice()),
    ]);
    let truncated = gzip(&whole[..1024 + 100]);
    let pattern = InnerPattern::new(None);
    let (scanned, errors) = scan_targz(&truncated, "target", &pattern);
    assert_eq!(errors, 1);
    assert_eq!(scanned.len(), 1);
    assert_eq!(scanned[0].0, "one.txt");
    assert_eq!(scanned[0].1.matches.len(), 1);
}

#[test]
fn bzip2_tar_end_to_end() {
    let tarred = tar_bytes(&[("doc.txt", b"a needle here\nnothing there".as_slice())]);
    let mut enc = bzip2::write::BzEncoder::new(Vec::new(), bzip2::Compression::best());
    enc.write_all(&tarred).unwrap();
    let compressed = enc.finish().unwrap();
    let dec = bzip2::read::BzDecoder::new(Cursor::new(compressed));
    let pattern = InnerPattern::new(None);
    let (scanned, errors) = scan_tar(tar::Archive::new(dec), "needle", &pattern);
    assert_eq!(errors, 0);
    assert_eq!(scanned.len(), 1);
    assert_eq!(scanned[0].0, "doc.txt");
    assert_eq!(scanned[0].1.matches.len(), 1);
    assert_eq!(scanned[0].1.matches[0].line_number, 1);
}

#[test]
fn zip_end_to_end_two_pass() {
    let mut w = zip::ZipWriter::new(Cursor::new(Vec::new()));
    let opts = zip::write::SimpleFileOptions::default();
    w.start_file("notes.txt", opts).unwrap();
    w.write_all(b"hello world\n").unwrap();
    w.start_file("image.png", opts).unwrap();
    w.write_all(&[0x89u8, b'P', b'N', b'G']).unwrap();
    let cursor = w.finish().unwrap();

    let mut archive = zip::ZipArchive::new(cursor).unwrap();
    let mut names = Vec::new();
    for i in 0..archive.len() {
        names.push(archive.by_index(i).unwrap().name().to_string());
    }
    let pattern = InnerPattern::new(None);
    let mut scanned = Vec::new();
    for name in &names {
        if should_scan_entry(name, &pattern) {
            let mut file = archive.by_name(name).unwrap();
            let mut bytes = Vec::new();
            file.read_to_end(&mut bytes).unwrap();
            scanned.push((name.clone(), scan_entry_content(bytes, "world")));
        }
    }
    assert_eq!(scanned.len(), 1);
    assert_eq!(scanned[0].0, "notes.txt");
    assert!(scanned[0].1.utf8_ok);
    assert_eq!(scanned[0].1.matches.len(), 1);
    assert_eq!(strip(&scanned[0].1.matches[0].segments), "hello world");
}
