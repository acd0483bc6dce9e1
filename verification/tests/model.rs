use bookexport::model::{encode, generate_book_id, Book, Library};

#[test]
fn test_generate_book_id() {
    let id1 = generate_book_id("The Great Gatsby", Some("F. Scott Fitzgerald"));
    let id2 = generate_book_id("the great gatsby", Some("f. scott fitzgerald"));
    let id3 = generate_book_id("  The Great Gatsby  ", Some("  F. Scott Fitzgerald  "));

    // All should produce the same ID due to normalization
    assert_eq!(id1, id2);
    assert_eq!(id2, id3);

    // ID should be 16 characters
    assert_eq!(id1.len(), 16);
}

#[test]
fn test_generate_book_id_no_author() {
    let id1 = generate_book_id("Some Book", None);
    let id2 = generate_book_id("some book", None);

    assert_eq!(id1, id2);
    assert_eq!(id1.len(), 16);
}

#[test]
fn test_generate_book_id_exact_digest() {
    // Pins the identifier to the real SHA-256 digest of the normalized input.
    let id = generate_book_id("The Great Gatsby", Some("F. Scott Fitzgerald"));
    assert_eq!(id, "07ab5de5fdde017f");
    assert_eq!(generate_book_id("Some Book", None), "be9f715330bb9e5a");
    assert_eq!(generate_book_id("Dune", None), "ab906be12ca6d9f2");
}

#[test]
fn test_hex_encode() {
    assert_eq!(encode(&[]), "");
    assert_eq!(encode(&[0x00, 0xff, 0x10]), "00ff10");
    assert_eq!(encode(&[0xab, 0xcd]), "abcd");
}

#[test]
fn test_book_new() {
    let b = Book::new("Dune".to_string(), None);
    assert_eq!(b.id, "ab906be12ca6d9f2");
    assert_eq!(b.title, "Dune");
    assert!(b.author.is_none());
    assert!(b.sources.is_empty());
    assert!(b.highlights.is_empty());
    assert!(b.finished.is_none());
    assert!(b.finished_at.is_none());
}

#[test]
fn test_library_new_empty() {
    let lib = Library::new();
    assert!(lib.books.is_empty());
    let lib2 = Library::default();
    assert!(lib2.books.is_empty());
}
