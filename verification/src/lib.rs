//! A small ebook-library core: filename parsing, EPUB metadata extraction
//! with graceful fallback, directory-scan result assembly with a stable
//! case-insensitive ordering, and a deduplicating in-memory collection.

pub mod book;
pub mod extract;
pub mod filename;
pub mod library;
pub mod scan;
pub mod text;
