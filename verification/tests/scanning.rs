use std::io::Write;

use storysphere::book::Book;
use storysphere::scan::FoundFile;
use storysphere::scan::ScanError;

fn plain_file(path: &str) -> FoundFile {
    FoundFile { path: path.to_string(), bytes: None }
}

fn file_with_bytes(path: &str, bytes: Vec<u8>) -> FoundFile {
    FoundFile { path: path.to_string(), bytes: Some(bytes) }
}

const CONTAINER_XML: &str = "<?xml version=\"1.0\" encoding=\"UTF-8\"?><container version=\"1.0\" xmlns=\"urn:oasis:names:tc:opendocument:xmlns:container\"><rootfiles><rootfile full-path=\"OEBPS/content.opf\" media-type=\"application/oebps-package+xml\"/></rootfiles></container>";

/// A minimal well-formed EPUB container whose package metadata holds the
/// given Dublin Core elements.
fn epub_with_metadata(dc_elements: &str) -> Vec<u8> {
    let mut writer = zip::ZipWriter::new(std::io::Cursor::new(Vec::new()));
    let stored = zip::write::SimpleFileOptions::default()
        .compression_method(zip::CompressionMethod::Stored);
    writer.start_file("mimetype", stored).unwrap();
    writer.write_all(b"application/epub+zip").unwrap();
    writer.start_file("META-INF/container.xml", stored).unwrap();
    writer.write_all(CONTAINER_XML.as_bytes()).unwrap();
    writer.start_file("OEBPS/content.opf", stored).unwrap();
    let opf = format!(
        "<?xml version=\"1.0\" encoding=\"UTF-8\"?><package xmlns=\"http://www.idpf.org/2007/opf\" version=\"2.0\" unique-identifier=\"id\"><metadata xmlns:dc=\"http://purl.org/dc/elements/1.1/\">{}</metadata><manifest/><spine/></package>",
        dc_elements
    );
    writer.write_all(opf.as_bytes()).unwrap();
    writer.finish().unwrap().into_inner()
}

fn epub_bytes(title: &str, creator: &str) -> Vec<u8> {
    epub_with_metadata(&format!(
        "<dc:title>{}</dc:title><dc:creator>{}</dc:creator>",
        title, creator
    ))
}

#[test]
fn scan_missing_root_fails_with_directory_not_found() {
    let r = Book::from_dir(None);
    assert!(matches!(r, Err(ScanError::DirectoryNotFound)));
}

#[test]
fn scan_empty_listing_yields_nothing() {
    let r = Book::from_dir(Some(Vec::new())).unwrap();
    assert!(r.is_empty());
}

#[test]
fn scan_sorts_case_insensitively_by_title() {
    let files = vec![
        plain_file("/shelf/Dune.pdf"),
        plain_file("/shelf/amber.azw3"),
        plain_file("/shelf/Bell.mobi"),
    ];
    let r = Book::from_dir(Some(files)).unwrap();
    let titles: Vec<&str> = r.iter().map(|b| b.title.as_str()).collect();
    assert_eq!(titles, vec!["amber", "Bell", "Dune"]);
}

#[test]
fn scan_keeps_discovery_order_between_equal_titles() {
    let files = vec![
        plain_file("/shelf/one/Same_Title - First.pdf"),
        plain_file("/shelf/two/same_title - Second.mobi"),
    ];
    let r = Book::from_dir(Some(files)).unwrap();
    assert_eq!(r.len(), 2);
    assert_eq!(r[0].author, "First");
    assert_eq!(r[1].author, "Second");
}

#[test]
fn scan_skips_unrecognized_extensions() {
    let files = vec![
        plain_file("/shelf/notes.txt"),
        plain_file("/shelf/Story.mobi"),
        plain_file("/shelf/archive.tar.gz"),
        plain_file("/shelf/noextension"),
    ];
    let r = Book::from_dir(Some(files)).unwrap();
    assert_eq!(r.len(), 1);
    assert_eq!(r[0].title, "Story");
}

#[test]
fn scan_reads_extensions_case_insensitively() {
    let files = vec![plain_file("/shelf/LOUD_STORY.EPUB")];
    let r = Book::from_dir(Some(files)).unwrap();
    assert_eq!(r.len(), 1);
    assert_eq!(r[0].title, "LOUD STORY");
    assert_eq!(r[0].author, "Unknown");
}

#[test]
fn scan_keeps_corrupt_and_wellformed_epubs() {
    let files = vec![
        file_with_bytes("/shelf/Broken_Book - Lost_Author.epub", b"not a zip archive".to_vec()),
        file_with_bytes(
            "/shelf/whatever.epub",
            epub_bytes("Zothique Tales", "Clark Ashton Smith"),
        ),
    ];
    let r = Book::from_dir(Some(files)).unwrap();
    assert_eq!(r.len(), 2);
    // the corrupt container degrades to the filename parse
    assert_eq!(r[0].title, "Broken Book");
    assert_eq!(r[0].author, "Lost Author");
    assert_eq!(r[0].path.as_deref().unwrap(), "/shelf/Broken_Book - Lost_Author.epub");
    // the well-formed container supplies its own metadata
    assert_eq!(r[1].title, "Zothique Tales");
    assert_eq!(r[1].author, "Clark Ashton Smith");
    assert_eq!(r[1].path.as_deref().unwrap(), "/shelf/whatever.epub");
}

#[test]
fn scan_epub_without_bytes_degrades_to_filename() {
    let files = vec![plain_file("/shelf/Fallback_Tale - Nobody.epub")];
    let r = Book::from_dir(Some(files)).unwrap();
    assert_eq!(r.len(), 1);
    assert_eq!(r[0].title, "Fallback Tale");
    assert_eq!(r[0].author, "Nobody");
}

#[test]
fn extract_prefers_container_metadata() {
    let bytes = epub_bytes("The Real Title", "The Real Author");
    let b = Book::extract("/shelf/wrong_name - wrong_author.epub", Some(&bytes)).unwrap();
    assert_eq!(b.title, "The Real Title");
    assert_eq!(b.author, "The Real Author");
}

#[test]
fn extract_on_unparseable_epub_falls_back_to_filename() {
    let bytes = b"garbage".to_vec();
    let b = Book::extract(
        "/books/The_Lies_of_Locke_Lamora - Scott_Lynch.epub",
        Some(&bytes),
    )
    .unwrap();
    assert_eq!(b.title, "The Lies of Locke Lamora");
    assert_eq!(b.author, "Scott Lynch");
    assert_eq!(
        b.path.as_deref().unwrap(),
        "/books/The_Lies_of_Locke_Lamora - Scott_Lynch.epub"
    );
}

#[test]
fn extract_fills_missing_metadata_from_filename_and_unknown() {
    let bytes = epub_with_metadata("<dc:title>Nameless</dc:title>");
    let b = Book::extract("/shelf/stem_name - someone.epub", Some(&bytes)).unwrap();
    assert_eq!(b.title, "Nameless");
    assert_eq!(b.author, "Unknown");

    let bytes = epub_with_metadata("<dc:creator>Authors Only</dc:creator>");
    let b = Book::extract("/shelf/stem_name - someone.epub", Some(&bytes)).unwrap();
    assert_eq!(b.title, "stem name");
    assert_eq!(b.author, "Authors Only");
}

#[test]
fn extract_non_epub_ignores_bytes() {
    let bytes = epub_bytes("Should Not Matter", "Nobody");
    let b = Book::extract("/shelf/Plain_Story - Author.pdf", Some(&bytes)).unwrap();
    assert_eq!(b.title, "Plain Story");
    assert_eq!(b.author, "Author");
}

#[test]
fn extract_pathless_name_yields_nothing() {
    assert!(Book::extract("/shelf/", None).is_none());
}

fn epub_with_container(container: &str) -> Vec<u8> {
    let mut writer = zip::ZipWriter::new(std::io::Cursor::new(Vec::new()));
    let stored = zip::write::SimpleFileOptions::default()
        .compression_method(zip::CompressionMethod::Stored);
    writer.start_file("mimetype", stored).unwrap();
    writer.write_all(b"application/epub+zip").unwrap();
    writer.start_file("META-INF/container.xml", stored).unwrap();
    writer.write_all(container.as_bytes()).unwrap();
    writer.finish().unwrap().into_inner()
}

#[test]
fn extract_survives_parentless_root_file_paths() {
    // containers whose root-file path has no parent would abort the
    // EPUB reader; the guard must degrade them to the filename parse
    for full_path in ["", "/", "//"] {
        let container = format!(
            "<?xml version=\"1.0\" encoding=\"UTF-8\"?><container version=\"1.0\" xmlns=\"urn:oasis:names:tc:opendocument:xmlns:container\"><rootfiles><rootfile full-path=\"{}\" media-type=\"application/oebps-package+xml\"/></rootfiles></container>",
            full_path
        );
        let bytes = epub_with_container(&container);
        let b = Book::extract("/shelf/Guarded_Book - Careful_Author.epub", Some(&bytes)).unwrap();
        assert_eq!(b.title, "Guarded Book");
        assert_eq!(b.author, "Careful Author");
    }
}

#[test]
fn extract_treats_empty_metadata_values_as_absent() {
    let bytes = epub_with_metadata("<dc:title></dc:title><dc:creator></dc:creator>");
    let b = Book::extract("/shelf/Stem_Title - Stem_Author.epub", Some(&bytes)).unwrap();
    assert_eq!(b.title, "Stem Title");
    assert_eq!(b.author, "Unknown");
}
