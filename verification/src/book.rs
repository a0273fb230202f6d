//! The book entry: a resolved title/author/path record, and its
//! construction from a bare filename.

use vstd::prelude::*;
use vstd::string::*;

use crate::filename::has_stem;
use crate::filename::parse_spec;
use crate::filename::stem_of;
use crate::filename::basename_exec;
use crate::filename::stem_exec;
use crate::filename::parse_stem_chars;
use crate::text::chars_to_string;
use crate::text::str_to_chars;

verus! {

/// One entry of the library: a display title, a display author, and the
/// path of the backing file. The path is absent only for entries without
/// a backing file, such as seeded samples.
pub struct Book {
    pub title: String,
    pub author: String,
    pub path: Option<String>,
}

/// The mathematical shadow of a [`Book`]: its strings as character
/// sequences.
pub struct BookView {
    pub title: Seq<char>,
    pub author: Seq<char>,
    pub path: Option<Seq<char>>,
}

impl View for Book {
    type V = BookView;

    open spec fn view(&self) -> BookView {
        BookView {
            title: self.title@,
            author: self.author@,
            path: match self.path {
                Option::Some(p) => Option::Some(p@),
                Option::None => Option::None,
            },
        }
    }
}

impl Book {
    /// Build a book from a path: the title/author pair is parsed from the
    /// file stem and the path itself is recorded, and neither title nor
    /// author is ever empty. Yields nothing exactly when the path has no
    /// stem (its basename is empty).
    pub fn from_filename(path: &str) -> (r: Option<Book>)
        ensures
            r is Some <==> has_stem(path@),
            r is Some ==> r->0@.title == parse_spec(stem_of(path@)).0,
            r is Some ==> r->0@.author == parse_spec(stem_of(path@)).1,
            r is Some ==> r->0@.path == Some(path@),
            r is Some ==> r->0@.title.len() > 0 && r->0@.author.len() > 0,
    {
        let chars = str_to_chars(path);
        let base = basename_exec(&chars);
        if base.len() == 0 {
            return None;
        }
        let stem = stem_exec(&base);
        proof {
            crate::filename::lemma_stem_nonempty(base@);
            crate::filename::lemma_parse_nonempty(stem@);
        }
        let (title, author) = parse_stem_chars(&stem);
        Some(
            Book {
                title: chars_to_string(&title),
                author: chars_to_string(&author),
                path: Some(path.to_owned()),
            },
        )
    }

    /// A fixed convenience list of two sample entries without backing
    /// files.
    pub fn sample_books() -> (r: Vec<Book>)
        ensures
            r@.len() == 2,
            r@[0]@.title == "The Hobbit"@,
            r@[0]@.author == "J.R.R. Tolkien"@,
            r@[0]@.path is None,
            r@[1]@.title == "Dune"@,
            r@[1]@.author == "Frank Herbert"@,
            r@[1]@.path is None,
    {
        let mut r: Vec<Book> = Vec::new();
        r.push(
            Book {
                title: String::from_str("The Hobbit"),
                author: String::from_str("J.R.R. Tolkien"),
                path: None,
            },
        );
        r.push(
            Book {
                title: String::from_str("Dune"),
                author: String::from_str("Frank Herbert"),
                path: None,
            },
        );
        r
    }
}

} // verus!
