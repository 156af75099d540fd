//! The content classifier: decides from an entry's name alone whether its
//! content is worth decoding as text, and recognises the supported outer
//! container kinds from the outer file's name. No byte of content is
//! inspected here.

use vstd::prelude::*;
use crate::text::{is_match_at, rfind, rfind_char, starts_with, str_eq, to_chars};

verus! {

/// The supported kinds of outer container.
#[derive(Clone, Copy, Debug, PartialEq, Eq, Structural)]
pub enum MimeType {
    Bz2,
    Gz,
    Zip,
}

/// The first MIME type that the `mime_guess` extension table gives for a
/// path, as a string, if the table has one. The table is fixed at build
/// time, so the result is a function of the path alone.
pub uninterp spec fn mime_guess_of(path: Seq<char>) -> Option<Seq<char>>;

/// Relies on `mime_guess::from_path` and `mime_guess::MimeGuess::first_raw`:
/// the guess is a lookup of the path's extension in a table fixed at build
/// time, so it depends on the path alone.
#[verifier::external_body]
fn guess_mime(path: &str) -> (r: Option<&'static str>)
    ensures
        r.deep_view() == mime_guess_of(path@),
{
    mime_guess::from_path(path).first_raw()
}

/// The file name of a path: what follows the last '/', or the whole path.
pub open spec fn file_name_of(path: Seq<char>) -> Seq<char> {
    path.skip(rfind_char(path, '/') + 1)
}

/// The extension of a path: what follows the last '.' of its file name,
/// unless that dot is absent or leads the name (".bashrc" has none).
pub open spec fn extension_of(path: Seq<char>) -> Option<Seq<char>> {
    let name = file_name_of(path);
    let k = rfind_char(name, '.');
    if k >= 1 {
        Some(name.skip(k + 1))
    } else {
        None
    }
}

/// The extension of the path's file name, if it has one.
pub fn extension(path: &str) -> (r: Option<String>)
    ensures
        r.deep_view() == extension_of(path@),
{
    let chars = to_chars(path);
    let n = chars.len();
    let name_start: usize = match rfind(&chars, '/') {
        Some(k) => k + 1,
        None => 0,
    };
    let ghost name = file_name_of(path@);
    proof {
        assert(name =~= path@.subrange(name_start as int, n as int));
    }
    let mut name_vec: Vec<char> = Vec::new();
    let mut i = name_start;
    while i < n
        invariant
            chars@ == path@,
            n == path@.len(),
            name_start <= i <= n,
            name_vec@ == path@.subrange(name_start as int, i as int),
        decreases n - i,
    {
        name_vec.push(chars[i]);
        i = i + 1;
        proof {
            assert(name_vec@ =~= path@.subrange(name_start as int, i as int));
        }
    }
    proof {
        assert(name_vec@ == name);
    }
    match rfind(&name_vec, '.') {
        Some(k) => {
            if k >= 1 {
                let e = path.substring_char(name_start + k + 1, n).to_owned();
                proof {
                    assert(e@ =~= name.skip(k + 1));
                }
                Some(e)
            } else {
                None
            }
        },
        None => None,
    }
}

/// Extensions treated as text although the MIME table types them otherwise
/// or not at all.
pub open spec fn is_fallback_text_extension(ext: Seq<char>) -> bool {
    ext == "r"@
}

/// The classifier's decision: the MIME table's type for the name is in the
/// `text` top-level category, or the name's extension is on the fallback
/// list. Entries without an extension are never classified as text.
pub open spec fn is_text_name(path: Seq<char>) -> bool {
    (match mime_guess_of(path) {
        Some(m) => is_match_at(m, "text/"@, 0),
        None => false,
    }) || (match extension_of(path) {
        Some(e) => is_fallback_text_extension(e),
        None => false,
    })
}

/// Infer whether an entry holds plain text from its name alone: first the
/// MIME table, then the fallback extension list. A pure function of the
/// name, so repeated calls on the same name agree.
pub fn is_plain_text(path: &str) -> (r: bool)
    ensures
        r == is_text_name(path@),
{
    match guess_mime(path) {
        Some(m) => {
            if starts_with(m, "text/") {
                return true;
            }
        },
        None => {},
    }
    match extension(path) {
        Some(e) => str_eq(e.as_str(), "r"),
        None => false,
    }
}

/// The MIME names under which the supported container kinds appear in the
/// `mime_guess` table.
pub open spec fn archive_kind_of_mime(m: Seq<char>) -> Option<MimeType> {
    if m == "application/gzip"@ || m == "application/x-gzip"@ {
        Some(MimeType::Gz)
    } else if m == "application/x-bzip2"@ {
        Some(MimeType::Bz2)
    } else if m == "application/zip"@ {
        Some(MimeType::Zip)
    } else {
        None
    }
}

/// The container kind that the outer file's name announces, if a supported
/// one.
pub open spec fn archive_type_of(path: Seq<char>) -> Option<MimeType> {
    match mime_guess_of(path) {
        None => None,
        Some(m) => archive_kind_of_mime(m),
    }
}

/// Verify the file name as one of the supported archive kinds; `None` is
/// the setup failure "does not appear to be a valid archive".
pub fn verify_as_archive(path: &str) -> (r: Option<MimeType>)
    ensures
        r == archive_type_of(path@),
{
    match guess_mime(path) {
        None => None,
        Some(m) => {
            if str_eq(m, "application/gzip") || str_eq(m, "application/x-gzip") {
                Some(MimeType::Gz)
            } else if str_eq(m, "application/x-bzip2") {
                Some(MimeType::Bz2)
            } else if str_eq(m, "application/zip") {
                Some(MimeType::Zip)
            } else {
                None
            }
        },
    }
}

} // verus!
