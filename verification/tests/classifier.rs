use arks::classify::{extension, is_plain_text, verify_as_archive, MimeType};

#[test]
fn classifier_is_pure_and_repeatable() {
    let name = "docs/readme.txt";
    let first = is_plain_text(name);
    let second = is_plain_text(name);
    assert_eq!(first, second);
    assert!(first);
}

#[test]
fn known_text_extensions_are_text() {
    assert!(is_plain_text("notes.txt"));
    assert!(is_plain_text("src/lib.md"));
    assert!(is_plain_text("a/b/c.csv"));
    assert!(is_plain_text("main.rs"));
}

#[test]
fn fallback_extension_is_text() {
    assert!(is_plain_text("analysis/model.r"));
}

#[test]
fn binary_extensions_are_not_text() {
    assert!(!is_plain_text("image.png"));
    assert!(!is_plain_text("archive.tar.gz"));
    assert!(!is_plain_text("music.mp3"));
}

#[test]
fn extensionless_names_are_not_text() {
    assert!(!is_plain_text("Makefile_like"));
    assert!(!is_plain_text("bin/tool"));
    assert!(!is_plain_text(".bashrc"));
}

#[test]
fn extension_extraction() {
    assert_eq!(extension("a/b/c.tar.gz"), Some("gz".to_string()));
    assert_eq!(extension(".bashrc"), None);
    assert_eq!(extension("plain"), None);
    assert_eq!(extension("dir.d/plain"), None);
    assert_eq!(extension("x."), Some(String::new()));
}

#[test]
fn archive_kinds_recognised() {
    assert_eq!(verify_as_archive("b.tar.gz"), Some(MimeType::Gz));
    assert_eq!(verify_as_archive("b.zip"), Some(MimeType::Zip));
    assert_eq!(verify_as_archive("b.tar.bz2"), Some(MimeType::Bz2));
    assert_eq!(verify_as_archive("b.txt"), None);
    assert_eq!(verify_as_archive("noext"), None);
}
