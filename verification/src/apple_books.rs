//! Apple Books record assembly: turns the rows read from the library and
//! annotation databases into Book records. Reading the databases themselves
//! is the caller's business; this module owns the grouping logic.

use vstd::prelude::*;

use crate::model::{book_id_chars, generate_book_id, Book, BookV, Highlight, HighlightV, Location,
    LocationV, Source};

verus! {

/// One row of the library database: a book with its asset identifier.
/// Timestamps are Unix seconds.
#[derive(Debug, Clone)]
pub struct BookRow {
    pub asset_id: String,
    pub title: String,
    pub author: Option<String>,
    pub is_finished: Option<i64>,
    pub finished_at: Option<i64>,
}

/// One row of the annotation database: a highlight with the asset identifier
/// of its book. Timestamps are Unix seconds.
#[derive(Debug, Clone)]
pub struct AnnotationRow {
    pub id: String,
    pub asset_id: String,
    pub text: String,
    pub note: Option<String>,
    pub chapter: Option<String>,
    pub position: Option<String>,
    pub created_at: Option<i64>,
}

/// Mathematical model of a `BookRow`.
#[verifier::ext_equal]
pub struct BookRowV {
    pub asset_id: Seq<char>,
    pub title: Seq<char>,
    pub author: Option<Seq<char>>,
    pub is_finished: Option<i64>,
    pub finished_at: Option<i64>,
}

/// Mathematical model of an `AnnotationRow`.
#[verifier::ext_equal]
pub struct AnnotationRowV {
    pub id: Seq<char>,
    pub asset_id: Seq<char>,
    pub text: Seq<char>,
    pub note: Option<Seq<char>>,
    pub chapter: Option<Seq<char>>,
    pub position: Option<Seq<char>>,
    pub created_at: Option<i64>,
}

impl View for BookRow {
    type V = BookRowV;

    open spec fn view(&self) -> BookRowV {
        BookRowV {
            asset_id: self.asset_id@,
            title: self.title@,
            author: self.author.deep_view(),
            is_finished: self.is_finished,
            finished_at: self.finished_at,
        }
    }
}

impl DeepView for BookRow {
    type V = BookRowV;

    open spec fn deep_view(&self) -> BookRowV {
        self.view()
    }
}

impl View for AnnotationRow {
    type V = AnnotationRowV;

    open spec fn view(&self) -> AnnotationRowV {
        AnnotationRowV {
            id: self.id@,
            asset_id: self.asset_id@,
            text: self.text@,
            note: self.note.deep_view(),
            chapter: self.chapter.deep_view(),
            position: self.position.deep_view(),
            created_at: self.created_at,
        }
    }
}

impl DeepView for AnnotationRow {
    type V = AnnotationRowV;

    open spec fn deep_view(&self) -> AnnotationRowV {
        self.view()
    }
}

/// One accumulating slot: the asset identifier and the book built for it.
#[verifier::ext_equal]
pub struct SlotV {
    pub asset_id: Seq<char>,
    pub book: BookV,
}

/// The first slot holding the asset identifier `aid`, or `acc.len()`.
pub open spec fn first_slot_idx(acc: Seq<SlotV>, aid: Seq<char>) -> int
    decreases acc.len(),
{
    if acc.len() == 0 {
        0
    } else if acc.first().asset_id == aid {
        0
    } else {
        1 + first_slot_idx(acc.drop_first(), aid)
    }
}

proof fn lemma_first_slot_at(acc: Seq<SlotV>, aid: Seq<char>, i: int)
    requires
        0 <= i <= acc.len(),
        forall|j: int| 0 <= j < i ==> (#[trigger] acc[j].asset_id) != aid,
        i < acc.len() ==> acc[i].asset_id == aid,
    ensures
        first_slot_idx(acc, aid) == i,
    decreases acc.len(),
{
    if acc.len() > 0 {
        if i == 0 {
        } else {
            assert(acc[0].asset_id != aid);
            assert forall|j: int| 0 <= j < i - 1 implies (#[trigger] acc.drop_first()[j].asset_id)
                != aid by {
                assert(acc.drop_first()[j] == acc[j + 1]);
            }
            assert(i - 1 < acc.drop_first().len() ==> acc.drop_first()[i - 1].asset_id == aid);
            lemma_first_slot_at(acc.drop_first(), aid, i - 1);
        }
    }
}

/// The book one library row stands for: no highlights yet, Apple Books as
/// its source, the finished flag read as `value == 1` with an unset value
/// counting as not finished.
pub open spec fn row_book(r: BookRowV) -> BookV {
    BookV {
        id: book_id_chars(r.title, r.author),
        title: r.title,
        author: r.author,
        sources: seq![Source::AppleBooks],
        highlights: Seq::empty(),
        finished: Some(
            match r.is_finished {
                Some(x) => x == 1,
                None => false,
            },
        ),
        finished_at: r.finished_at,
    }
}

/// One library row folded in: a repeated asset identifier overwrites its
/// slot's book (keeping the slot's first-seen position), a new one appends.
pub open spec fn fold_book_row(acc: Seq<SlotV>, r: BookRowV) -> Seq<SlotV> {
    let i = first_slot_idx(acc, r.asset_id);
    if i < acc.len() {
        acc.update(i, SlotV { asset_id: r.asset_id, book: row_book(r) })
    } else {
        acc.push(SlotV { asset_id: r.asset_id, book: row_book(r) })
    }
}

pub open spec fn fold_book_rows(acc: Seq<SlotV>, rows: Seq<BookRowV>) -> Seq<SlotV>
    decreases rows.len(),
{
    if rows.len() == 0 {
        acc
    } else {
        fold_book_row(fold_book_rows(acc, rows.drop_last()), rows.last())
    }
}

/// The highlight one annotation row stands for.
pub open spec fn row_highlight(r: AnnotationRowV) -> HighlightV {
    HighlightV {
        id: r.id,
        text: r.text,
        note: r.note,
        location: LocationV { chapter: r.chapter, position: r.position },
        created_at: r.created_at,
        source: Source::AppleBooks,
    }
}

/// One annotation row folded in: appended to the book of its asset
/// identifier; an annotation without a matching book is dropped.
pub open spec fn fold_annotation(acc: Seq<SlotV>, r: AnnotationRowV) -> Seq<SlotV> {
    let i = first_slot_idx(acc, r.asset_id);
    if i < acc.len() {
        acc.update(
            i,
            SlotV {
                asset_id: acc[i].asset_id,
                book: BookV {
                    highlights: acc[i].book.highlights.push(row_highlight(r)),
                    ..acc[i].book
                },
            },
        )
    } else {
        acc
    }
}

pub open spec fn fold_annotations(acc: Seq<SlotV>, rows: Seq<AnnotationRowV>) -> Seq<SlotV>
    decreases rows.len(),
{
    if rows.len() == 0 {
        acc
    } else {
        fold_annotation(fold_annotations(acc, rows.drop_last()), rows.last())
    }
}

/// The assembled books: library rows grouped by asset identifier in
/// first-seen order, annotation rows attached to their books.
pub open spec fn assemble_spec(rows: Seq<BookRowV>, anns: Seq<AnnotationRowV>) -> Seq<BookV> {
    let slots = fold_annotations(fold_book_rows(Seq::empty(), rows), anns);
    Seq::new(slots.len(), |i: int| slots[i].book)
}

fn find_asset_idx(asset_ids: &Vec<String>, aid: &str) -> (r: Option<usize>)
    ensures
        match r {
            Some(x) => x < asset_ids@.len() && asset_ids.deep_view()[x as int] == aid@ && forall|
                j: int,
            | 0 <= j < x ==> (#[trigger] asset_ids.deep_view()[j]) != aid@,
            None => forall|j: int|
                0 <= j < asset_ids@.len() ==> (#[trigger] asset_ids.deep_view()[j]) != aid@,
        },
{
    let n = asset_ids.len();
    for i in 0..n
        invariant
            n == asset_ids@.len(),
            forall|j: int| 0 <= j < i ==> (#[trigger] asset_ids.deep_view()[j]) != aid@,
    {
        proof {
            assert(asset_ids.deep_view()[i as int] == asset_ids@[i as int]@);
        }
        if crate::text::str_eq(asset_ids[i].as_str(), aid) {
            return Some(i);
        }
    }
    None
}

/// Whether the parallel asset-id and book vectors carry exactly the slots.
spec fn slots_match(asset_ids: Seq<Seq<char>>, books: Seq<BookV>, slots: Seq<SlotV>) -> bool {
    &&& asset_ids.len() == slots.len()
    &&& books.len() == slots.len()
    &&& forall|i: int| 0 <= i < slots.len() ==> (#[trigger] asset_ids[i]) == slots[i].asset_id
    &&& forall|i: int| 0 <= i < slots.len() ==> (#[trigger] books[i]) == slots[i].book
}

/// Assemble the books of an Apple Books export from the rows of its two
/// databases.
pub fn assemble_books(rows: Vec<BookRow>, annotations: Vec<AnnotationRow>) -> (r: Vec<Book>)
    ensures
        r.deep_view() == assemble_spec(rows.deep_view(), annotations.deep_view()),
{
    let ghost rows0 = rows.deep_view();
    let ghost anns0 = annotations.deep_view();
    let mut asset_ids: Vec<String> = Vec::new();
    let mut books: Vec<Book> = Vec::new();

    let mut src = rows;
    proof {
        assert(rows0.take(0) =~= Seq::<BookRowV>::empty());
        assert(rows0.skip(0) =~= rows0);
    }
    while src.len() > 0
        invariant
            src@.len() <= rows0.len(),
            src.deep_view() == rows0.skip(rows0.len() - src@.len()),
            slots_match(
                asset_ids.deep_view(),
                books.deep_view(),
                fold_book_rows(Seq::empty(), rows0.take(rows0.len() - src@.len())),
            ),
        decreases src@.len(),
    {
        let ghost done = rows0.len() - src@.len();
        let ghost pre = src@;
        let ghost slots = fold_book_rows(Seq::empty(), rows0.take(done));
        let row = src.remove(0);
        proof {
            crate::merge::lemma_deep_step(pre, row, src@, rows0, done);
            assert(row@ == rows0[done]);
            assert(src.deep_view() =~= rows0.skip(done + 1));
        }
        let BookRow { asset_id, title, author, is_finished, finished_at } = row;
        let id = match &author {
            Some(a) => generate_book_id(title.as_str(), Some(a.as_str())),
            None => generate_book_id(title.as_str(), None),
        };
        let finished = match is_finished {
            Some(x) => Some(x == 1),
            None => Some(false),
        };
        let book = Book {
            id,
            title,
            author,
            sources: vec![Source::AppleBooks],
            highlights: Vec::new(),
            finished,
            finished_at,
        };
        proof {
            assert(book@ =~= row_book(rows0[done]));
        }
        let ghost aid = rows0[done].asset_id;
        match find_asset_idx(&asset_ids, asset_id.as_str()) {
            Some(i) => {
                proof {
                    assert forall|j: int| 0 <= j < i implies (#[trigger] slots[j].asset_id)
                        != aid by {
                        assert(asset_ids.deep_view()[j] == slots[j].asset_id);
                    }
                    assert(asset_ids.deep_view()[i as int] == slots[i as int].asset_id);
                    lemma_first_slot_at(slots, aid, i as int);
                }
                let ghost ids_before = asset_ids.deep_view();
                let ghost books_before = books.deep_view();
                let _ = asset_ids.remove(i);
                asset_ids.insert(i, asset_id);
                let _ = books.remove(i);
                books.insert(i, book);
                proof {
                    assert(asset_ids.deep_view() =~= ids_before.update(i as int, aid));
                    assert(books.deep_view() =~= books_before.update(
                        i as int,
                        row_book(rows0[done]),
                    ));
                    let next = fold_book_row(slots, rows0[done]);
                    assert forall|k: int| 0 <= k < next.len() implies (
                    #[trigger] asset_ids.deep_view()[k]) == next[k].asset_id
                        && books.deep_view()[k] == next[k].book by {
                        if k != i {
                            assert(next[k] == slots[k]);
                            assert(ids_before[k] == slots[k].asset_id);
                            assert(books_before[k] == slots[k].book);
                        }
                    }
                }
            },
            None => {
                proof {
                    assert forall|j: int| 0 <= j < slots.len() implies (
                    #[trigger] slots[j].asset_id) != aid by {
                        assert(asset_ids.deep_view()[j] == slots[j].asset_id);
                    }
                    lemma_first_slot_at(slots, aid, slots.len() as int);
                }
                let ghost ids_before = asset_ids.deep_view();
                let ghost books_before = books.deep_view();
                asset_ids.push(asset_id);
                books.push(book);
                proof {
                    assert(asset_ids.deep_view() =~= ids_before.push(aid));
                    assert(books.deep_view() =~= books_before.push(row_book(rows0[done])));
                    let next = fold_book_row(slots, rows0[done]);
                    assert forall|k: int| 0 <= k < next.len() implies (
                    #[trigger] asset_ids.deep_view()[k]) == next[k].asset_id
                        && books.deep_view()[k] == next[k].book by {
                        if k < slots.len() {
                            assert(next[k] == slots[k]);
                            assert(ids_before[k] == slots[k].asset_id);
                            assert(books_before[k] == slots[k].book);
                        }
                    }
                }
            },
        }
        proof {
            assert(rows0.take(done + 1).drop_last() =~= rows0.take(done));
            assert(rows0.take(done + 1).last() == rows0[done]);
        }
    }
    proof {
        assert(rows0.take(rows0.len() as int) =~= rows0);
    }

    let ghost base = fold_book_rows(Seq::empty(), rows0);
    let mut anns = annotations;
    proof {
        assert(anns0.take(0) =~= Seq::<AnnotationRowV>::empty());
        assert(anns0.skip(0) =~= anns0);
    }
    while anns.len() > 0
        invariant
            anns@.len() <= anns0.len(),
            anns.deep_view() == anns0.skip(anns0.len() - anns@.len()),
            slots_match(
                asset_ids.deep_view(),
                books.deep_view(),
                fold_annotations(base, anns0.take(anns0.len() - anns@.len())),
            ),
        decreases anns@.len(),
    {
        let ghost done = anns0.len() - anns@.len();
        let ghost pre = anns@;
        let ghost slots = fold_annotations(base, anns0.take(done));
        let row = anns.remove(0);
        proof {
            crate::merge::lemma_deep_step(pre, row, anns@, anns0, done);
            assert(row@ == anns0[done]);
            assert(anns.deep_view() =~= anns0.skip(done + 1));
        }
        let ghost aid = anns0[done].asset_id;
        match find_asset_idx(&asset_ids, row.asset_id.as_str()) {
            Some(i) => {
                proof {
                    assert forall|j: int| 0 <= j < i implies (#[trigger] slots[j].asset_id)
                        != aid by {
                        assert(asset_ids.deep_view()[j] == slots[j].asset_id);
                    }
                    assert(asset_ids.deep_view()[i as int] == slots[i as int].asset_id);
                    lemma_first_slot_at(slots, aid, i as int);
                }
                let AnnotationRow { id, asset_id: _, text, note, chapter, position, created_at } =
                    row;
                let h = Highlight {
                    id,
                    text,
                    note,
                    location: Location { chapter, position },
                    created_at,
                    source: Source::AppleBooks,
                };
                proof {
                    assert(h@ =~= row_highlight(anns0[done]));
                }
                let ghost books_before = books.deep_view();
                let mut b = books.remove(i);
                let ghost hls_before = b.highlights.deep_view();
                b.highlights.push(h);
                proof {
                    assert(b.highlights.deep_view() =~= hls_before.push(row_highlight(
                        anns0[done],
                    )));
                }
                books.insert(i, b);
                proof {
                    assert(books.deep_view() =~= books_before.update(
                        i as int,
                        books.deep_view()[i as int],
                    ));
                    let next = fold_annotation(slots, anns0[done]);
                    assert(books_before[i as int] == slots[i as int].book);
                    assert(hls_before == slots[i as int].book.highlights);
                    assert(books.deep_view()[i as int] =~= next[i as int].book);
                    assert forall|k: int| 0 <= k < next.len() implies (
                    #[trigger] asset_ids.deep_view()[k]) == next[k].asset_id
                        && books.deep_view()[k] == next[k].book by {
                        if k != i {
                            assert(next[k] == slots[k]);
                            assert(books_before[k] == slots[k].book);
                        }
                    }
                }
            },
            None => {
                proof {
                    assert forall|j: int| 0 <= j < slots.len() implies (
                    #[trigger] slots[j].asset_id) != aid by {
                        assert(asset_ids.deep_view()[j] == slots[j].asset_id);
                    }
                    lemma_first_slot_at(slots, aid, slots.len() as int);
                }
            },
        }
        proof {
            assert(anns0.take(done + 1).drop_last() =~= anns0.take(done));
            assert(anns0.take(done + 1).last() == anns0[done]);
        }
    }
    proof {
        assert(anns0.take(anns0.len() as int) =~= anns0);
        let slots = fold_annotations(base, anns0);
        assert forall|k: int| 0 <= k < books.deep_view().len() implies (
        #[trigger] books.deep_view()[k]) == slots[k].book by {}
        assert(books.deep_view() =~= assemble_spec(rows0, anns0));
    }
    books
}

} // verus!
