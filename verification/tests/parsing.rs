use storysphere::book::Book;

#[test]
fn test_parse_filename() {
    let p = "/books/The_Lies_of_Locke_Lamora - Scott_Lynch.epub";
    let book = Book::from_filename(p).unwrap();
    assert_eq!(book.title, "The Lies of Locke Lamora");
    assert_eq!(book.author, "Scott Lynch");
    assert_eq!(book.path.as_deref().unwrap(), p);
}

#[test]
fn parse_trims_and_substitutes_both_sides() {
    let book = Book::from_filename("/shelf/  Spaced_Title   -   An_Author  .epub").unwrap();
    assert_eq!(book.title, "Spaced Title");
    assert_eq!(book.author, "An Author");
}

#[test]
fn parse_without_separator_uses_stem_and_unknown() {
    let book = Book::from_filename("/books/Some_Lonely_Title.pdf").unwrap();
    assert_eq!(book.title, "Some Lonely Title");
    assert_eq!(book.author, "Unknown");
}

#[test]
fn parse_splits_at_first_separator() {
    let book = Book::from_filename("One - Two - Three.mobi").unwrap();
    assert_eq!(book.title, "One");
    assert_eq!(book.author, "Two - Three");
}

#[test]
fn parse_dotfile_keeps_whole_name_as_stem() {
    let book = Book::from_filename("/books/.hidden").unwrap();
    assert_eq!(book.title, ".hidden");
    assert_eq!(book.author, "Unknown");
}

#[test]
fn parse_bare_name_without_directory() {
    let book = Book::from_filename("Dune - Frank_Herbert.azw3").unwrap();
    assert_eq!(book.title, "Dune");
    assert_eq!(book.author, "Frank Herbert");
    assert_eq!(book.path.as_deref().unwrap(), "Dune - Frank_Herbert.azw3");
}

#[test]
fn parse_empty_path_has_no_stem() {
    assert!(Book::from_filename("").is_none());
    assert!(Book::from_filename("/books/").is_none());
}

#[test]
fn sample_books_are_fixed() {
    let books = Book::sample_books();
    assert_eq!(books.len(), 2);
    assert_eq!(books[0].title, "The Hobbit");
    assert_eq!(books[0].author, "J.R.R. Tolkien");
    assert!(books[0].path.is_none());
    assert_eq!(books[1].title, "Dune");
    assert_eq!(books[1].author, "Frank Herbert");
    assert!(books[1].path.is_none());
}

#[test]
fn parse_empty_title_side_falls_back_to_whole_stem() {
    let book = Book::from_filename("/x/ - Scott.epub").unwrap();
    assert_eq!(book.title, " - Scott");
    assert_eq!(book.author, "Scott");
}

#[test]
fn parse_empty_author_side_falls_back_to_unknown() {
    let book = Book::from_filename("/x/Title - .epub").unwrap();
    assert_eq!(book.title, "Title");
    assert_eq!(book.author, "Unknown");
}

#[test]
fn parse_bare_separator_stem_keeps_both_nonempty() {
    let book = Book::from_filename("/x/ - .epub").unwrap();
    assert_eq!(book.title, " - ");
    assert_eq!(book.author, "Unknown");
    assert!(!book.title.is_empty());
    assert!(!book.author.is_empty());
}

#[test]
fn parse_trims_unicode_whitespace() {
    let book = Book::from_filename("/x/\u{a0}Padded\u{2003}Title\u{a0} - \u{a0}Auth\u{a0}.epub").unwrap();
    assert_eq!(book.title, "Padded\u{2003}Title");
    assert_eq!(book.author, "Auth");
}
