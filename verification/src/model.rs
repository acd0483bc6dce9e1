//! The canonical data model: Library, Book, Highlight, Location and Source,
//! together with the content-derived book identity scheme.
//!
//! Timestamps are carried as Unix seconds (`i64`); callers that speak a
//! richer date type convert at the boundary.

use sha2::Digest;
use vstd::prelude::*;

use crate::text::{norm, normalize_text};

verus! {

/// Source platform for books and highlights.
#[derive(Clone, Copy, Debug, PartialEq, Eq, Hash, Structural)]
pub enum Source {
    AppleBooks,
    Kindle,
}

/// Location information for a highlight: an opaque, source-specific
/// positional hint, carried through untouched by the merge engine.
#[derive(Debug, Clone)]
pub struct Location {
    pub chapter: Option<String>,
    /// Opaque string, format varies by source.
    pub position: Option<String>,
}

/// A single highlight or annotation.
#[derive(Debug, Clone)]
pub struct Highlight {
    /// From the source system, or generated fresh; never used for dedup.
    pub id: String,
    pub text: String,
    pub note: Option<String>,
    pub location: Location,
    /// Unix seconds.
    pub created_at: Option<i64>,
    /// Which platform this highlight came from.
    pub source: Source,
}

/// A book with its metadata and highlights.
#[derive(Debug, Clone)]
pub struct Book {
    /// Derived from the normalized title and author; see `generate_book_id`.
    pub id: String,
    pub title: String,
    pub author: Option<String>,
    /// Which platforms this book was found on; insertion order kept,
    /// duplicates never produced by the merge engine.
    pub sources: Vec<Source>,
    pub highlights: Vec<Highlight>,
    pub finished: Option<bool>,
    /// Unix seconds.
    pub finished_at: Option<i64>,
}

/// The complete library export containing all books and highlights.
#[derive(Debug, Clone)]
pub struct Library {
    /// Unix seconds.
    pub exported_at: i64,
    pub books: Vec<Book>,
}

/// Mathematical model of a `Location`.
#[verifier::ext_equal]
pub struct LocationV {
    pub chapter: Option<Seq<char>>,
    pub position: Option<Seq<char>>,
}

/// Mathematical model of a `Highlight`.
#[verifier::ext_equal]
pub struct HighlightV {
    pub id: Seq<char>,
    pub text: Seq<char>,
    pub note: Option<Seq<char>>,
    pub location: LocationV,
    pub created_at: Option<i64>,
    pub source: Source,
}

/// Mathematical model of a `Book`.
#[verifier::ext_equal]
pub struct BookV {
    pub id: Seq<char>,
    pub title: Seq<char>,
    pub author: Option<Seq<char>>,
    pub sources: Seq<Source>,
    pub highlights: Seq<HighlightV>,
    pub finished: Option<bool>,
    pub finished_at: Option<i64>,
}

impl View for Location {
    type V = LocationV;

    open spec fn view(&self) -> LocationV {
        LocationV { chapter: self.chapter.deep_view(), position: self.position.deep_view() }
    }
}

impl DeepView for Location {
    type V = LocationV;

    open spec fn deep_view(&self) -> LocationV {
        self.view()
    }
}

impl View for Highlight {
    type V = HighlightV;

    open spec fn view(&self) -> HighlightV {
        HighlightV {
            id: self.id@,
            text: self.text@,
            note: self.note.deep_view(),
            location: self.location@,
            created_at: self.created_at,
            source: self.source,
        }
    }
}

impl DeepView for Highlight {
    type V = HighlightV;

    open spec fn deep_view(&self) -> HighlightV {
        self.view()
    }
}

impl View for Book {
    type V = BookV;

    open spec fn view(&self) -> BookV {
        BookV {
            id: self.id@,
            title: self.title@,
            author: self.author.deep_view(),
            sources: self.sources@,
            highlights: self.highlights.deep_view(),
            finished: self.finished,
            finished_at: self.finished_at,
        }
    }
}

impl DeepView for Book {
    type V = BookV;

    open spec fn deep_view(&self) -> BookV {
        self.view()
    }
}

/// What `sha2::Sha256::digest` returns for a given byte sequence.
pub uninterp spec fn digest_of(bytes: Seq<u8>) -> Seq<u8>;

/// Relies on sha2::Sha256::digest: a 256-bit (32-byte) digest that is a
/// function of the input bytes alone.
#[verifier::external_body]
fn sha256(bytes: &[u8]) -> (r: Vec<u8>)
    ensures
        r@ == digest_of(bytes@),
        r@.len() == 32,
{
    sha2::Sha256::digest(bytes).to_vec()
}

pub open spec fn hex_digit_spec(d: int) -> char {
    seq!['0', '1', '2', '3', '4', '5', '6', '7', '8', '9', 'a', 'b', 'c', 'd', 'e', 'f'][d]
}

/// The lower-case hexadecimal encoding of a byte sequence: two digits per
/// byte, high nibble first.
pub open spec fn hex_of(bytes: Seq<u8>) -> Seq<char>
    decreases bytes.len(),
{
    if bytes.len() == 0 {
        Seq::empty()
    } else {
        hex_of(bytes.drop_last()) + seq![
            hex_digit_spec(bytes.last() as int / 16),
            hex_digit_spec(bytes.last() as int % 16),
        ]
    }
}

pub proof fn lemma_hex_of_len(bytes: Seq<u8>)
    ensures
        hex_of(bytes).len() == 2 * bytes.len(),
    decreases bytes.len(),
{
    if bytes.len() > 0 {
        lemma_hex_of_len(bytes.drop_last());
    }
}

fn hex_digit(d: u8) -> (c: char)
    requires
        d < 16,
    ensures
        c == hex_digit_spec(d as int),
{
    if d == 0 {
        '0'
    } else if d == 1 {
        '1'
    } else if d == 2 {
        '2'
    } else if d == 3 {
        '3'
    } else if d == 4 {
        '4'
    } else if d == 5 {
        '5'
    } else if d == 6 {
        '6'
    } else if d == 7 {
        '7'
    } else if d == 8 {
        '8'
    } else if d == 9 {
        '9'
    } else if d == 10 {
        'a'
    } else if d == 11 {
        'b'
    } else if d == 12 {
        'c'
    } else if d == 13 {
        'd'
    } else if d == 14 {
        'e'
    } else {
        'f'
    }
}

/// Hex encoding of a byte slice.
pub fn encode(bytes: &[u8]) -> (r: String)
    ensures
        r@ == hex_of(bytes@),
{
    let n = bytes.len();
    let mut out = String::new();
    for i in 0..n
        invariant
            n == bytes@.len(),
            out@ == hex_of(bytes@.take(i as int)),
    {
        let b = bytes[i];
        out.push(hex_digit(b / 16));
        out.push(hex_digit(b % 16));
        proof {
            assert(bytes@.take(i + 1).drop_last() =~= bytes@.take(i as int));
            assert(bytes@.take(i + 1).last() == b);
        }
    }
    proof {
        assert(bytes@.take(n as int) =~= bytes@);
    }
    out
}

/// The normalized form of an optional author: an absent author normalizes to
/// the empty text.
pub open spec fn norm_opt(author: Option<Seq<char>>) -> Seq<char> {
    match author {
        Some(a) => norm(a),
        None => Seq::empty(),
    }
}

/// The book identifier derived from a title and an optional author: the
/// normalized title and normalized author are concatenated, hashed, and the
/// first 8 digest bytes are hex-encoded (16 hex characters).
pub open spec fn book_id_chars(title: Seq<char>, author: Option<Seq<char>>) -> Seq<char> {
    let combined = norm(title) + norm_opt(author);
    hex_of(digest_of(vstd::utf8::encode_utf8(combined)).take(8))
}

/// Generate a book ID from title and author: insensitive to case and
/// whitespace variation, and to an absent author, across sources.
pub fn generate_book_id(title: &str, author: Option<&str>) -> (r: String)
    ensures
        r@ == book_id_chars(title@, author.deep_view()),
        r@.len() == 16,
{
    let mut combined = normalize_text(title);
    match author {
        Some(a) => {
            let normalized_author = normalize_text(a);
            combined.append(normalized_author.as_str());
        },
        None => {
            proof {
                assert(combined@ + Seq::<char>::empty() =~= combined@);
            }
        },
    }
    let mut digest = sha256(combined.as_str().as_bytes());
    digest.truncate(8);
    proof {
        assert(digest@ =~= digest_of(vstd::utf8::encode_utf8(combined@)).take(8));
        lemma_hex_of_len(digest@);
    }
    encode(digest.as_slice())
}

impl Book {
    /// Create a new book with a generated ID and no sources or highlights.
    pub fn new(title: String, author: Option<String>) -> (r: Book)
        ensures
            r@.id == book_id_chars(title@, author.deep_view()),
            r@.title == title@,
            r@.author == author.deep_view(),
            r@.sources == Seq::<Source>::empty(),
            r@.highlights == Seq::<HighlightV>::empty(),
            r@.finished is None,
            r@.finished_at is None,
    {
        let id = match &author {
            Some(a) => generate_book_id(title.as_str(), Some(a.as_str())),
            None => generate_book_id(title.as_str(), None),
        };
        Book {
            id,
            title,
            author,
            sources: Vec::new(),
            highlights: Vec::new(),
            finished: None,
            finished_at: None,
        }
    }
}

/// Relies on chrono::Utc::now: the current time, as Unix seconds; nothing is
/// assumed of its value.
#[verifier::external_body]
fn now_unix_seconds() -> i64 {
    chrono::Utc::now().timestamp()
}

impl Library {
    /// Create a new empty library stamped with the current time.
    pub fn new() -> (r: Library)
        ensures
            r.books@.len() == 0,
    {
        Library { exported_at: now_unix_seconds(), books: Vec::new() }
    }
}

impl Default for Library {
    fn default() -> (r: Library)
        ensures
            r.books@.len() == 0,
    {
        Library::new()
    }
}

} // verus!
