use storysphere::book::Book;
use storysphere::library::AddError;
use storysphere::library::App;

fn book(title: &str, author: &str, path: Option<&str>) -> Book {
    Book {
        title: title.to_string(),
        author: author.to_string(),
        path: path.map(|p| p.to_string()),
    }
}

#[test]
fn add_one_rejects_a_duplicate_path() {
    let mut app = App::new();
    assert!(app.add_one(book("Dune", "Frank Herbert", Some("/shelf/dune.epub"))).is_ok());
    let second = app.add_one(book("Dune Again", "Someone Else", Some("/shelf/dune.epub")));
    assert!(matches!(second, Err(AddError::DuplicatePath)));
    assert_eq!(app.books().len(), 1);
    assert_eq!(app.books()[0].title, "Dune");
}

#[test]
fn add_one_accepts_distinct_paths() {
    let mut app = App::new();
    assert!(app.add_one(book("A", "X", Some("/shelf/a.epub"))).is_ok());
    assert!(app.add_one(book("B", "Y", Some("/shelf/b.epub"))).is_ok());
    assert_eq!(app.books().len(), 2);
}

#[test]
fn add_many_drops_duplicates_silently() {
    let mut app = App::new();
    app.add_one(book("Held", "H", Some("/shelf/held.epub"))).unwrap();
    app.add_many(vec![
        book("Held Again", "H2", Some("/shelf/held.epub")),
        book("New One", "N", Some("/shelf/new.epub")),
        book("New One Copy", "N2", Some("/shelf/new.epub")),
        book("Other", "O", Some("/shelf/other.epub")),
    ]);
    // only the two genuinely new paths were added
    assert_eq!(app.books().len(), 3);
    assert_eq!(app.books()[0].title, "Held");
    assert_eq!(app.books()[1].title, "New One");
    assert_eq!(app.books()[2].title, "Other");
}

#[test]
fn add_book_from_path_parses_and_checks() {
    let mut app = App::new();
    assert!(app.add_book_from_path("/shelf/First_Story - Some_Author.epub").is_ok());
    let dup = app.add_book_from_path("/shelf/First_Story - Some_Author.epub");
    assert!(matches!(dup, Err(AddError::DuplicatePath)));
    let nostem = app.add_book_from_path("/shelf/");
    assert!(matches!(nostem, Err(AddError::NoStem)));
    assert_eq!(app.books().len(), 1);
    assert_eq!(app.books()[0].title, "First Story");
    assert_eq!(app.books()[0].author, "Some Author");
}

#[test]
fn default_collection_is_empty() {
    let app = App::default();
    assert!(app.books().is_empty());
}

#[test]
fn scan_result_merges_into_collection() {
    let files = vec![
        storysphere::scan::FoundFile { path: "/shelf/Zebra.pdf".to_string(), bytes: None },
        storysphere::scan::FoundFile { path: "/shelf/Apple.pdf".to_string(), bytes: None },
    ];
    let found = Book::from_dir(Some(files)).unwrap();
    let mut app = App::new();
    app.add_one(book("Apple Held", "A", Some("/shelf/Apple.pdf"))).unwrap();
    app.add_many(found);
    assert_eq!(app.books().len(), 2);
    assert_eq!(app.books()[0].title, "Apple Held");
    assert_eq!(app.books()[1].title, "Zebra");
}

#[test]
fn pathless_entries_never_collide() {
    let mut app = App::new();
    assert!(app.add_one(book("The Hobbit", "J.R.R. Tolkien", None)).is_ok());
    assert!(app.add_one(book("Dune", "Frank Herbert", None)).is_ok());
    assert_eq!(app.books().len(), 2);
    app.add_many(vec![book("Third", "T", None), book("Fourth", "F", None)]);
    assert_eq!(app.books().len(), 4);
}

#[test]
fn sample_books_all_enter_the_collection() {
    let mut app = App::new();
    for b in Book::sample_books() {
        assert!(app.add_one(b).is_ok());
    }
    assert_eq!(app.books().len(), 2);
}
