//! The metadata extractor: structured title/author metadata read from an
//! EPUB container's bytes, with graceful fallback to the filename parser.
//! A file that cannot be parsed structurally still yields a usable entry;
//! extraction never fails outward for a path that has a stem, and the
//! entry it yields never has an empty title or author.
//!
//! Opening a container is guarded: the EPUB reader aborts on a container
//! whose root-file path has no parent, so the archive's container file is
//! read first and its root-file attribute values are checked to hold a
//! plain non-separator character before the reader is handed the bytes.
//! A container that fails the guard degrades to the filename parse, as a
//! corrupt one does.

use vstd::prelude::*;
use vstd::string::*;

use crate::book::Book;
use crate::filename::ext_of;
use crate::filename::has_stem;
use crate::filename::parse_spec;
use crate::filename::stem_of;
use crate::filename::unknown_seq;
use crate::filename::basename_exec;
use crate::filename::ext_exec;
use crate::filename::parse_stem_chars;
use crate::filename::stem_exec;
use crate::filename::unknown_chars;
use crate::text::chars_to_string;
use crate::text::lower_chars;
use crate::text::lower_seq;
use crate::text::str_to_chars;

verus! {

/// What the EPUB reader's archive layer yields as the container file
/// `META-INF/container.xml` of these bytes; a function of the bytes
/// alone.
pub uninterp spec fn epub_container_of(bytes: Seq<u8>) -> Option<Seq<u8>>;

/// Whether the EPUB reader accepts these bytes as a container; a function
/// of the bytes alone.
pub uninterp spec fn epub_parses(bytes: Seq<u8>) -> bool;

/// The first "title" metadata item the EPUB reader finds in a container
/// with these bytes; a function of the bytes alone.
pub uninterp spec fn epub_title_of(bytes: Seq<u8>) -> Option<Seq<char>>;

/// The first "creator" metadata item the EPUB reader finds in a container
/// with these bytes; a function of the bytes alone.
pub uninterp spec fn epub_creator_of(bytes: Seq<u8>) -> Option<Seq<char>>;

/// The view of an optional string.
pub open spec fn opt_view(o: Option<String>) -> Option<Seq<char>> {
    match o {
        Option::Some(s) => Option::Some(s@),
        Option::None => Option::None,
    }
}

/// Relies on `epub::archive::EpubArchive::from_reader` and
/// `EpubArchive::get_container_file`: both return their failures as
/// `Err` values, never abort, and the container's bytes are a function
/// of the archive's bytes alone.
#[verifier::external_body]
fn read_container(bytes: &Vec<u8>) -> (r: Option<Vec<u8>>)
    ensures
        r is Some <==> epub_container_of(bytes@) is Some,
        r is Some ==> r->0@ == epub_container_of(bytes@)->0,
{
    match epub::archive::EpubArchive::from_reader(std::io::Cursor::new(bytes.clone())) {
        Ok(mut archive) => archive.get_container_file().ok(),
        Err(_) => None,
    }
}

/// The bytes of the root-file attribute's name, `full-path`.
pub open spec fn fp_pat() -> Seq<u8> {
    seq![102u8, 117u8, 108u8, 108u8, 45u8, 112u8, 97u8, 116u8, 104u8]
}

/// Whether the attribute name occurs at offset `i` of the container.
pub open spec fn fp_at(c: Seq<u8>, i: int) -> bool {
    0 <= i && i + 9 <= c.len() && c.subrange(i, i + 9) == fp_pat()
}

/// A byte that XML attribute parsing passes through unchanged — a
/// letter, a digit, a dot, an underscore or a hyphen — and that is not a
/// path separator.
pub open spec fn plain_byte(b: u8) -> bool {
    (48 <= b <= 57) || (65 <= b <= 90) || (97 <= b <= 122) || b == 46 || b == 95 || b == 45
}

/// Scan of an attribute value from offset `v` to its closing quote `q`:
/// accepted when the value holds only plain bytes and slashes and at
/// least one plain byte, so that the path it names has a parent.
pub open spec fn value_scan(c: Seq<u8>, v: int, q: u8, seen: bool) -> bool
    decreases c.len() - v,
{
    if v < 0 || v >= c.len() {
        false
    } else if c[v] == q {
        seen
    } else if plain_byte(c[v]) {
        value_scan(c, v + 1, q, true)
    } else if c[v] == 47 {
        value_scan(c, v + 1, q, seen)
    } else {
        false
    }
}

/// The attribute at offset `i` carries a well-shaped value: an equals
/// sign, a quote, and an accepted value scan.
pub open spec fn fp_value_ok(c: Seq<u8>, i: int) -> bool {
    &&& i + 11 <= c.len()
    &&& c[i + 9] == 61
    &&& (c[i + 10] == 34 || c[i + 10] == 39)
    &&& value_scan(c, i + 11, c[i + 10], false)
}

/// Whether the container's bytes are admitted for structured opening: no
/// UTF-16 byte-order mark, and every occurrence of the root-file
/// attribute's name is followed by a well-shaped value. Values admitted
/// here hold no ampersand, quote or angle bracket, so the value the XML
/// reader extracts is exactly those bytes, and its plain byte gives the
/// root-file path a parent.
pub open spec fn container_permits(c: Seq<u8>) -> bool {
    &&& !(c.len() >= 2 && c[0] == 0xfe && c[1] == 0xff)
    &&& !(c.len() >= 2 && c[0] == 0xff && c[1] == 0xfe)
    &&& forall|i: int| #[trigger] fp_at(c, i) ==> fp_value_ok(c, i)
}

/// Whether structured opening is attempted for a file's bytes: its
/// archive yields a container that passes the guard.
pub open spec fn epub_openable(bytes: Seq<u8>) -> bool {
    epub_container_of(bytes) is Some && container_permits(epub_container_of(bytes)->0)
}

fn fp_at_exec(c: &Vec<u8>, i: usize) -> (r: bool)
    ensures
        r == fp_at(c@, i as int),
{
    let n = c.len();
    if n < 9 || i > n - 9 {
        return false;
    }
    if c[i] == 102 && c[i + 1] == 117 && c[i + 2] == 108 && c[i + 3] == 108 && c[i + 4] == 45
        && c[i + 5] == 112 && c[i + 6] == 97 && c[i + 7] == 116 && c[i + 8] == 104 {
        proof {
            assert(c@.subrange(i as int, i + 9) =~= fp_pat());
        }
        true
    } else {
        proof {
            if fp_at(c@, i as int) {
                let s = c@.subrange(i as int, i + 9);
                assert(s[0] == c@[i as int] && s[1] == c@[i + 1] && s[2] == c@[i + 2] && s[3] == c@[
                    i + 3
                ] && s[4] == c@[i + 4] && s[5] == c@[i + 5] && s[6] == c@[i + 6] && s[7] == c@[i + 7]
                    && s[8] == c@[i + 8]);
            }
        }
        false
    }
}

fn value_scan_exec(c: &Vec<u8>, v: usize, q: u8) -> (r: bool)
    ensures
        r == value_scan(c@, v as int, q, false),
{
    if v > c.len() {
        return false;
    }
    let mut m: usize = v;
    let mut seen = false;
    loop
        invariant
            v <= m <= c@.len(),
            value_scan(c@, v as int, q, false) == value_scan(c@, m as int, q, seen),
        decreases c@.len() - m,
    {
        if m == c.len() {
            return false;
        }
        let b = c[m];
        if b == q {
            return seen;
        }
        if 48 <= b && b <= 57 || 65 <= b && b <= 90 || 97 <= b && b <= 122 || b == 46 || b == 95
            || b == 45 {
            seen = true;
        } else if b != 47 {
            return false;
        }
        m = m + 1;
    }
}

/// Whether a container passes the guard for structured opening.
fn container_permits_exec(c: &Vec<u8>) -> (r: bool)
    ensures
        r == container_permits(c@),
{
    if c.len() >= 2 {
        let b0 = c[0];
        let b1 = c[1];
        if (b0 == 0xfe && b1 == 0xff) || (b0 == 0xff && b1 == 0xfe) {
            return false;
        }
    }
    let n = c.len();
    let mut i: usize = 0;
    while i < n
        invariant
            i <= n,
            n == c@.len(),
            !(c@.len() >= 2 && c@[0] == 0xfe && c@[1] == 0xff),
            !(c@.len() >= 2 && c@[0] == 0xff && c@[1] == 0xfe),
            forall|k: int| 0 <= k < i ==> #[trigger] fp_at(c@, k) ==> fp_value_ok(c@, k),
        decreases n - i,
    {
        if fp_at_exec(c, i) {
            if n - i < 11 {
                return false;
            }
            if c[i + 9] != 61 {
                return false;
            }
            let q = c[i + 10];
            if q != 34 && q != 39 {
                return false;
            }
            if !value_scan_exec(c, i + 11, q) {
                return false;
            }
        }
        i = i + 1;
    }
    proof {
        assert forall|k: int| #[trigger] fp_at(c@, k) implies fp_value_ok(c@, k) by {
            assert(0 <= k && k + 9 <= c@.len());
        }
    }
    true
}

/// Relies on `epub::doc::EpubDoc::from_reader` and `EpubDoc::mdata`:
/// parse success and failure both come back as values, `mdata` returns
/// the first metadata item of the named property in document order, and
/// the closures only pick the item's `value` field; all results are
/// functions of the bytes alone. The `requires` keeps the call off bytes
/// on which `from_reader` would abort: its only aborting step takes the
/// parent of the container's root-file path, and the guard admits only
/// containers whose root-file attribute values name a path with a
/// parent.
#[verifier::external_body]
fn read_epub_metadata(bytes: &Vec<u8>) -> (r: Option<(Option<String>, Option<String>)>)
    requires
        epub_openable(bytes@),
    ensures
        r is Some <==> epub_parses(bytes@),
        r is Some ==> opt_view((r->0).0) == epub_title_of(bytes@),
        r is Some ==> opt_view((r->0).1) == epub_creator_of(bytes@),
{
    match epub::doc::EpubDoc::from_reader(std::io::Cursor::new(bytes.clone())) {
        Ok(doc) => Some(
            (
                doc.mdata("title").map(|m| m.value.clone()),
                doc.mdata("creator").map(|m| m.value.clone()),
            ),
        ),
        Err(_) => None,
    }
}

/// Whether a path's extension, folded to lowercase, is `epub`: only such
/// files get structured extraction.
pub open spec fn is_epub_path(p: Seq<char>) -> bool {
    match ext_of(p) {
        Some(e) => lower_seq(e) == seq!['e', 'p', 'u', 'b'],
        None => false,
    }
}

/// The entry extraction yields for a path and the optional bytes of the
/// backing file: structured metadata when the file is an EPUB whose
/// bytes pass the guard and parse, with the filename parse filling any
/// gap; the plain filename parse otherwise. An empty metadata value
/// counts as absent. Nothing only when the path has no stem.
pub open spec fn extract_view(path: Seq<char>, bytes: Option<Seq<u8>>) -> Option<crate::book::BookView> {
    if !has_stem(path) {
        Option::None
    } else {
        let parsed = parse_spec(stem_of(path));
        let structured = is_epub_path(path) && bytes is Some && epub_openable(bytes->0)
            && epub_parses(bytes->0);
        Option::Some(
            crate::book::BookView {
                title: if structured && epub_title_of(bytes->0) is Some && epub_title_of(
                    bytes->0,
                )->0.len() > 0 {
                    epub_title_of(bytes->0)->0
                } else {
                    parsed.0
                },
                author: if structured && epub_creator_of(bytes->0) is Some && epub_creator_of(
                    bytes->0,
                )->0.len() > 0 {
                    epub_creator_of(bytes->0)->0
                } else if structured {
                    unknown_seq()
                } else {
                    parsed.1
                },
                path: Option::Some(path),
            },
        )
    }
}

/// Whether the path names an EPUB file, by its extension alone.
pub(crate) fn is_epub_path_exec(path_chars: &Vec<char>) -> (r: bool)
    ensures
        r == is_epub_path(path_chars@),
{
    let base = basename_exec(path_chars);
    match ext_exec(&base) {
        Some(e) => crate::text::chars_eq4(&lower_chars(&e), 'e', 'p', 'u', 'b'),
        None => false,
    }
}

impl Book {
    /// Extract an entry for one file: `bytes` are the contents of the
    /// backing file, or nothing when they could not be read. A container
    /// that cannot be opened or parsed, or that fails the opening guard,
    /// degrades to the filename parse; only a path without a stem yields
    /// nothing, and the entry's title and author are never empty.
    pub fn extract(path: &str, bytes: Option<&Vec<u8>>) -> (r: Option<Book>)
        ensures
            r is Some <==> has_stem(path@),
            r is Some ==> r->0@ == extract_view(
                path@,
                match bytes {
                    Option::Some(b) => Option::Some(b@),
                    Option::None => Option::None,
                },
            )->0,
            r is Some ==> r->0@.title.len() > 0 && r->0@.author.len() > 0,
    {
        let chars = str_to_chars(path);
        let base = basename_exec(&chars);
        if base.len() == 0 {
            return None;
        }
        let stem = stem_exec(&base);
        proof {
            crate::filename::lemma_stem_nonempty(base@);
            crate::filename::lemma_parse_nonempty(stem@);
        }
        let (ptitle, pauthor) = parse_stem_chars(&stem);
        let mut title = chars_to_string(&ptitle);
        let mut author = chars_to_string(&pauthor);
        if is_epub_path_exec(&chars) {
            if let Some(b) = bytes {
                let openable = match read_container(b) {
                    Some(container) => container_permits_exec(&container),
                    None => false,
                };
                if openable {
                    if let Some((mtitle, mauthor)) = read_epub_metadata(b) {
                        if let Some(t) = mtitle {
                            if !t.as_str().is_empty() {
                                title = t;
                            }
                        }
                        author = match mauthor {
                            Some(a) => if a.as_str().is_empty() {
                                chars_to_string(&unknown_chars())
                            } else {
                                a
                            },
                            None => chars_to_string(&unknown_chars()),
                        };
                    }
                }
            }
        }
        Some(Book { title, author, path: Some(path.to_owned()) })
    }
}

} // verus!
