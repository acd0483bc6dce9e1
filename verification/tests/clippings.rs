use bookexport::kindle::clippings::{
    extract_location, parse_clippings_content, parse_title_author,
};
use bookexport::model::Source;

#[test]
fn test_parse_title_author() {
    let (title, author) = parse_title_author("The Great Gatsby (F. Scott Fitzgerald)");
    assert_eq!(title, "The Great Gatsby");
    assert_eq!(author, Some("F. Scott Fitzgerald".to_string()));

    let (title, author) = parse_title_author("Some Book Without Author");
    assert_eq!(title, "Some Book Without Author");
    assert_eq!(author, None);
}

#[test]
fn test_parse_clippings_content() {
    let content = r#"
The Great Gatsby (F. Scott Fitzgerald)
- Your Highlight on Location 123-145 | Added on Monday, January 1, 2024

In my younger and more vulnerable years my father gave me some advice.
==========
The Great Gatsby (F. Scott Fitzgerald)
- Your Highlight on Location 200-210 | Added on Monday, January 1, 2024

So we beat on, boats against the current.
==========
"#;

    let books = parse_clippings_content(content).unwrap();
    assert_eq!(books.len(), 1);
    assert_eq!(books[0].title, "The Great Gatsby");
    assert_eq!(books[0].highlights.len(), 2);
}

#[test]
fn test_extract_location() {
    assert_eq!(
        extract_location("- Your Highlight on Location 123-145"),
        Some("123-145".to_string())
    );
    assert_eq!(extract_location("- Your Highlight on Location 123"), Some("123".to_string()));
    assert_eq!(extract_location("- Your Highlight on page 45"), Some("45".to_string()));
}

#[test]
fn test_extract_location_variants() {
    assert_eq!(extract_location("- Highlight Loc. 77 | Added on ..."), Some("77".to_string()));
    assert_eq!(extract_location("no position here"), None);
}

#[test]
fn test_parse_clippings_fields() {
    let content = "My Book (Someone)\n- Your Highlight on Location 12 | Added on Monday, January 1, 2024\n\nA thought worth keeping.\n==========\n";
    let books = parse_clippings_content(content).unwrap();
    assert_eq!(books.len(), 1);
    let book = &books[0];
    assert_eq!(book.author, Some("Someone".to_string()));
    assert_eq!(book.sources, vec![Source::Kindle]);
    assert_eq!(book.highlights.len(), 1);
    let h = &book.highlights[0];
    assert_eq!(h.text, "A thought worth keeping.");
    assert_eq!(h.location.position, Some("12".to_string()));
    // The date is carried at year granularity: January the 1st, 2024.
    assert_eq!(h.created_at, Some(1704067200));
    assert_eq!(h.source, Source::Kindle);
    assert!(h.note.is_none());
    // Generated highlight identifiers are hyphenated UUIDs.
    assert_eq!(h.id.len(), 36);
}

#[test]
fn test_parse_clippings_date_shapes() {
    // The international shape: day, month name, four-digit year.
    let content = "My Book\n- Your Highlight on Location 9 | Added on Monday, 15 January 2024\n\nSome text.\n==========\n";
    let books = parse_clippings_content(content).unwrap();
    assert_eq!(books[0].highlights[0].created_at, Some(1704067200));

    // A bare year after "Added on" fits neither date shape.
    let content = "My Book\n- Your Highlight on Location 9 | Added on 2024\n\nSome text.\n==========\n";
    let books = parse_clippings_content(content).unwrap();
    assert_eq!(books[0].highlights[0].created_at, None);

    // No date metadata at all.
    let content = "My Book\n- Your Highlight on Location 9\n\nSome text.\n==========\n";
    let books = parse_clippings_content(content).unwrap();
    assert_eq!(books[0].highlights[0].created_at, None);
}

#[test]
fn test_parse_clippings_skips_bookmarks_and_garbage() {
    let content = "My Book (Someone)\n- Your Bookmark on Location 5 | Added on Monday, January 1, 2024\n==========\nnot a real entry\n==========\n";
    let books = parse_clippings_content(content).unwrap();
    // The bookmark still announces the book, but contributes no highlight.
    assert_eq!(books.len(), 1);
    assert!(books[0].highlights.is_empty());
}
