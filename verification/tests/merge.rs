use bookexport::merge::{merge_books, merge_duplicate_highlight, merge_into_book};
use bookexport::model::{generate_book_id, Book, Highlight, Location, Source};
use bookexport::text::normalize_text;

fn make_book(title: &str, author: Option<&str>, source: Source) -> Book {
    Book {
        id: generate_book_id(title, author),
        title: title.to_string(),
        author: author.map(String::from),
        sources: vec![source],
        highlights: Vec::new(),
        finished: None,
        finished_at: None,
    }
}

fn make_highlight(text: &str, source: Source) -> Highlight {
    Highlight {
        id: uuid::Uuid::new_v4().to_string(),
        text: text.to_string(),
        note: None,
        location: Location { chapter: None, position: None },
        created_at: None,
        source,
    }
}

fn make_highlight_at(text: &str, source: Source, created_at: i64) -> Highlight {
    let mut h = make_highlight(text, source);
    h.created_at = Some(created_at);
    h
}

#[test]
fn test_merge_same_book_different_sources() {
    let mut book1 = make_book("The Great Gatsby", Some("F. Scott Fitzgerald"), Source::AppleBooks);
    book1.highlights.push(make_highlight("Highlight from Apple", Source::AppleBooks));

    let mut book2 = make_book("The Great Gatsby", Some("F. Scott Fitzgerald"), Source::Kindle);
    book2.highlights.push(make_highlight("Highlight from Kindle", Source::Kindle));

    let merged = merge_books(vec![vec![book1], vec![book2]]);

    assert_eq!(merged.len(), 1);
    assert_eq!(merged[0].sources.len(), 2);
    assert_eq!(merged[0].highlights.len(), 2);
}

#[test]
fn test_merge_duplicate_highlights() {
    let mut book1 = make_book("Test Book", None, Source::AppleBooks);
    book1.highlights.push(make_highlight("Same highlight text", Source::AppleBooks));

    let mut book2 = make_book("Test Book", None, Source::Kindle);
    book2.highlights.push(make_highlight("Same highlight text", Source::Kindle));
    book2.highlights.push(make_highlight("Different highlight", Source::Kindle));

    let merged = merge_books(vec![vec![book1], vec![book2]]);

    assert_eq!(merged.len(), 1);
    // Should have 2 highlights: one deduplicated, one unique
    assert_eq!(merged[0].highlights.len(), 2);
}

#[test]
fn test_finished_status_merge() {
    let mut book1 = make_book("Test Book", None, Source::AppleBooks);
    book1.finished = Some(false);

    let mut book2 = make_book("Test Book", None, Source::Kindle);
    book2.finished = Some(true);

    let merged = merge_books(vec![vec![book1], vec![book2]]);

    assert_eq!(merged[0].finished, Some(true));
}

#[test]
fn test_normalize_text() {
    assert_eq!(normalize_text("Hello   World"), normalize_text("hello world"));
    assert_eq!(normalize_text("  Multiple   Spaces  "), "multiple spaces");
}

#[test]
fn test_normalize_idempotent() {
    let once = normalize_text("  FOO \t  Bar\nbaz ");
    assert_eq!(normalize_text(&once), once);
    assert_eq!(normalize_text(""), "");
    assert_eq!(normalize_text("   "), "");
}

#[test]
fn test_merge_empty_input() {
    let merged = merge_books(Vec::new());
    assert!(merged.is_empty());
    let merged = merge_books(vec![Vec::new(), Vec::new()]);
    assert!(merged.is_empty());
}

// Determinism: the same inputs always give the same sequence.
#[test]
fn test_merge_deterministic() {
    let build = || {
        let mut a = make_book("Dune", None, Source::AppleBooks);
        a.highlights.push(make_highlight_at("First quote", Source::AppleBooks, 100));
        let mut b = make_book("Dune", None, Source::Kindle);
        b.highlights.push(make_highlight_at("Second quote", Source::Kindle, 50));
        vec![vec![a], vec![b]]
    };
    let m1 = merge_books(build());
    let m2 = merge_books(build());
    assert_eq!(m1.len(), m2.len());
    for (x, y) in m1.iter().zip(m2.iter()) {
        assert_eq!(x.id, y.id);
        assert_eq!(x.title, y.title);
        assert_eq!(x.sources, y.sources);
        assert_eq!(x.highlights.len(), y.highlights.len());
        for (hx, hy) in x.highlights.iter().zip(y.highlights.iter()) {
            assert_eq!(hx.text, hy.text);
            assert_eq!(hx.created_at, hy.created_at);
        }
    }
}

// Commutative grouping: either call order yields one book with the same
// identifier, finished state, source set and highlight count.
#[test]
fn test_merge_commutative_grouping() {
    let build_a = || {
        let mut a = make_book("Test Book", None, Source::AppleBooks);
        a.finished = Some(false);
        a.finished_at = Some(2000);
        a.highlights.push(make_highlight_at("shared text", Source::AppleBooks, 10));
        a
    };
    let build_b = || {
        let mut b = make_book("Test Book", None, Source::Kindle);
        b.finished = Some(true);
        b.finished_at = Some(1000);
        b.highlights.push(make_highlight_at("Shared   TEXT", Source::Kindle, 5));
        b.highlights.push(make_highlight_at("only here", Source::Kindle, 7));
        b
    };
    let m1 = merge_books(vec![vec![build_a()], vec![build_b()]]);
    let m2 = merge_books(vec![vec![build_b()], vec![build_a()]]);
    assert_eq!(m1.len(), 1);
    assert_eq!(m2.len(), 1);
    assert_eq!(m1[0].id, m2[0].id);
    assert_eq!(m1[0].finished, Some(true));
    assert_eq!(m2[0].finished, Some(true));
    assert_eq!(m1[0].finished_at, Some(1000));
    assert_eq!(m2[0].finished_at, Some(1000));
    assert_eq!(m1[0].highlights.len(), 2);
    assert_eq!(m2[0].highlights.len(), 2);
    let mut s1 = m1[0].sources.clone();
    let mut s2 = m2[0].sources.clone();
    s1.sort_by_key(|s| format!("{:?}", s));
    s2.sort_by_key(|s| format!("{:?}", s));
    assert_eq!(s1, s2);
}

// Dedup idempotence: merging a list with itself keeps the highlight count.
#[test]
fn test_merge_idempotent_highlight_count() {
    let build = || {
        let mut a = make_book("Dune", None, Source::Kindle);
        a.highlights.push(make_highlight_at("Fear is the mind-killer", Source::Kindle, 1));
        a.highlights.push(make_highlight_at("A different quote", Source::Kindle, 2));
        vec![a]
    };
    let once = merge_books(vec![build()]);
    let twice = merge_books(vec![build(), build()]);
    assert_eq!(once.len(), 1);
    assert_eq!(twice.len(), 1);
    assert_eq!(once[0].id, twice[0].id);
    assert_eq!(once[0].highlights.len(), twice[0].highlights.len());
}

// Union of sources, in the order first encountered.
#[test]
fn test_merge_union_of_sources() {
    let a = make_book("Test Book", None, Source::AppleBooks);
    let b = make_book("Test Book", None, Source::Kindle);
    let merged = merge_books(vec![vec![a], vec![b]]);
    assert_eq!(merged.len(), 1);
    assert_eq!(merged[0].sources, vec![Source::AppleBooks, Source::Kindle]);

    let a = make_book("Test Book", None, Source::AppleBooks);
    let b = make_book("Test Book", None, Source::Kindle);
    let merged = merge_books(vec![vec![b], vec![a]]);
    assert_eq!(merged[0].sources, vec![Source::Kindle, Source::AppleBooks]);
}

// Finished-wins, irrespective of which list is passed first.
#[test]
fn test_finished_wins_both_orders() {
    let mk = |finished| {
        let mut b = make_book("Test Book", None, Source::Kindle);
        b.finished = Some(finished);
        b
    };
    let m1 = merge_books(vec![vec![mk(false)], vec![mk(true)]]);
    let m2 = merge_books(vec![vec![mk(true)], vec![mk(false)]]);
    assert_eq!(m1[0].finished, Some(true));
    assert_eq!(m2[0].finished, Some(true));
}

// End-to-end scenario: dedup across sources, earlier timestamp kept, order by
// creation time.
#[test]
fn test_merge_end_to_end_scenario() {
    let t_a: i64 = 1704067200; // 2024-01-01
    let t_b1: i64 = 1702598400; // 2023-12-15
    let t_b2: i64 = 1706745600; // 2024-02-01

    let mut a = make_book("Dune", None, Source::AppleBooks);
    a.highlights.push(make_highlight_at("Fear is the mind-killer", Source::AppleBooks, t_a));

    let mut b = make_book("Dune", None, Source::Kindle);
    b.highlights.push(make_highlight_at("fear is the mind-killer", Source::Kindle, t_b1));
    b.highlights.push(make_highlight_at("A different quote", Source::Kindle, t_b2));

    let merged = merge_books(vec![vec![a], vec![b]]);
    assert_eq!(merged.len(), 1);
    let book = &merged[0];
    assert_eq!(book.sources, vec![Source::AppleBooks, Source::Kindle]);
    assert_eq!(book.highlights.len(), 2);
    assert_eq!(book.highlights[0].text, "Fear is the mind-killer");
    assert_eq!(book.highlights[0].created_at, Some(t_b1));
    assert_eq!(book.highlights[1].text, "A different quote");
    assert_eq!(book.highlights[1].created_at, Some(t_b2));
}

// Books sort by title case-insensitively; equal titles keep first-seen order.
#[test]
fn test_merge_book_ordering() {
    let a = make_book("zebra", None, Source::Kindle);
    let b = make_book("Apple", None, Source::Kindle);
    let c = make_book("mango", None, Source::Kindle);
    let merged = merge_books(vec![vec![a, b, c]]);
    let titles: Vec<&str> = merged.iter().map(|b| b.title.as_str()).collect();
    assert_eq!(titles, vec!["Apple", "mango", "zebra"]);
}

// A book whose id occurs only once still gets its highlights sorted by
// creation time.
#[test]
fn test_merge_single_book_highlight_ordering() {
    let mut a = make_book("Dune", None, Source::Kindle);
    a.highlights.push(make_highlight_at("second", Source::Kindle, 2));
    a.highlights.push(make_highlight_at("first", Source::Kindle, 1));
    a.highlights.push(make_highlight("untimed", Source::Kindle));

    let merged = merge_books(vec![vec![a]]);
    assert_eq!(merged.len(), 1);
    let texts: Vec<&str> = merged[0].highlights.iter().map(|h| h.text.as_str()).collect();
    assert_eq!(texts, vec!["first", "second", "untimed"]);
}

// Highlights without a timestamp sort after all timestamped ones, stably.
#[test]
fn test_merge_highlight_ordering() {
    let mut a = make_book("Test Book", None, Source::AppleBooks);
    a.highlights.push(make_highlight("no time one", Source::AppleBooks));
    a.highlights.push(make_highlight_at("late", Source::AppleBooks, 500));
    a.highlights.push(make_highlight("no time two", Source::AppleBooks));
    a.highlights.push(make_highlight_at("early", Source::AppleBooks, 5));

    let b = make_book("Test Book", None, Source::Kindle);
    let merged = merge_books(vec![vec![a], vec![b]]);
    let texts: Vec<&str> = merged[0].highlights.iter().map(|h| h.text.as_str()).collect();
    assert_eq!(texts, vec!["early", "late", "no time one", "no time two"]);
}

// A duplicate observation merges its note and earlier timestamp into the
// existing entry.
#[test]
fn test_merge_duplicate_fields() {
    let mut existing = make_book("Test Book", None, Source::AppleBooks);
    existing.highlights.push(make_highlight_at("Same highlight text", Source::AppleBooks, 900));

    let mut other = make_book("Test Book", None, Source::Kindle);
    let mut dup = make_highlight_at("same  HIGHLIGHT text", Source::Kindle, 300);
    dup.note = Some("a note".to_string());
    other.highlights.push(dup);

    merge_into_book(&mut existing, other);
    assert_eq!(existing.highlights.len(), 1);
    assert_eq!(existing.highlights[0].text, "Same highlight text");
    assert_eq!(existing.highlights[0].created_at, Some(300));
    assert_eq!(existing.highlights[0].note, Some("a note".to_string()));
    assert_eq!(existing.highlights[0].source, Source::AppleBooks);
}

// The earlier finished date wins; an existing note is never overwritten.
#[test]
fn test_merge_finished_at_and_note_kept() {
    let mut existing = make_book("Test Book", None, Source::AppleBooks);
    existing.finished_at = Some(10_000);
    let mut h = make_highlight("quote", Source::AppleBooks);
    h.note = Some("mine".to_string());
    existing.highlights.push(h);

    let mut other = make_book("Test Book", None, Source::Kindle);
    other.finished_at = Some(20_000);
    let mut oh = make_highlight("Quote", Source::Kindle);
    oh.note = Some("theirs".to_string());
    other.highlights.push(oh);

    merge_into_book(&mut existing, other);
    assert_eq!(existing.finished_at, Some(10_000));
    assert_eq!(existing.highlights[0].note, Some("mine".to_string()));
}

// With no matching text the duplicate-merge helper leaves the list unchanged.
#[test]
fn test_merge_duplicate_highlight_no_match() {
    let mut hls = vec![make_highlight("alpha", Source::Kindle)];
    merge_duplicate_highlight(&mut hls, make_highlight("beta", Source::Kindle));
    assert_eq!(hls.len(), 1);
    assert_eq!(hls[0].text, "alpha");
}
