use bookexport::apple_books::{assemble_books, AnnotationRow, BookRow};
use bookexport::model::{generate_book_id, Source};

fn book_row(asset_id: &str, title: &str, author: Option<&str>) -> BookRow {
    BookRow {
        asset_id: asset_id.to_string(),
        title: title.to_string(),
        author: author.map(String::from),
        is_finished: None,
        finished_at: None,
    }
}

fn annotation_row(asset_id: &str, text: &str) -> AnnotationRow {
    AnnotationRow {
        id: format!("ann-{}", text.len()),
        asset_id: asset_id.to_string(),
        text: text.to_string(),
        note: None,
        chapter: None,
        position: None,
        created_at: Some(1_000_000),
    }
}

#[test]
fn test_assemble_books_grouping() {
    let rows = vec![
        book_row("A1", "Dune", None),
        book_row("A2", "The Great Gatsby", Some("F. Scott Fitzgerald")),
    ];
    let annotations = vec![
        annotation_row("A1", "Fear is the mind-killer"),
        annotation_row("A2", "In my younger and more vulnerable years"),
        annotation_row("A1", "A second quote"),
        annotation_row("A9", "An orphan annotation is dropped"),
    ];
    let books = assemble_books(rows, annotations);
    assert_eq!(books.len(), 2);
    assert_eq!(books[0].title, "Dune");
    assert_eq!(books[0].id, generate_book_id("Dune", None));
    assert_eq!(books[0].sources, vec![Source::AppleBooks]);
    assert_eq!(books[0].highlights.len(), 2);
    assert_eq!(books[0].highlights[0].text, "Fear is the mind-killer");
    assert_eq!(books[0].highlights[0].source, Source::AppleBooks);
    assert_eq!(books[1].title, "The Great Gatsby");
    assert_eq!(books[1].highlights.len(), 1);
}

#[test]
fn test_assemble_books_finished_flag() {
    let mut finished = book_row("A1", "Dune", None);
    finished.is_finished = Some(1);
    finished.finished_at = Some(5_000);
    let mut unfinished = book_row("A2", "Emma", None);
    unfinished.is_finished = Some(0);
    let unknown = book_row("A3", "Ulysses", None);

    let books = assemble_books(vec![finished, unfinished, unknown], Vec::new());
    assert_eq!(books[0].finished, Some(true));
    assert_eq!(books[0].finished_at, Some(5_000));
    assert_eq!(books[1].finished, Some(false));
    // An unset flag counts as not finished.
    assert_eq!(books[2].finished, Some(false));
}

#[test]
fn test_assemble_books_duplicate_asset() {
    // A repeated asset identifier overwrites the book, keeping its position.
    let rows = vec![
        book_row("A1", "Old Title", None),
        book_row("A2", "Other", None),
        book_row("A1", "New Title", None),
    ];
    let books = assemble_books(rows, Vec::new());
    assert_eq!(books.len(), 2);
    assert_eq!(books[0].title, "New Title");
    assert_eq!(books[1].title, "Other");
}
