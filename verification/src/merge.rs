//! The merge engine: combines any number of per-source book lists into a
//! single deduplicated, deterministically ordered library.
//!
//! Books are grouped by identifier in first-seen order; within a group,
//! sources are unioned, finished flags and timestamps reconciled, and
//! highlights deduplicated by normalized text. Merged books are sorted by
//! lower-cased title, merged highlights by creation time.

use vstd::prelude::*;

use crate::model::{Book, BookV, Highlight, HighlightV, Source};
use crate::text::{lower_of, norm, normalize_text, str_eq};

verus! {

/// The merged finished flag: `true` from any source wins; otherwise a set
/// flag beats an unset one; otherwise the existing flag is kept.
pub open spec fn merge_finished(e: Option<bool>, o: Option<bool>) -> Option<bool> {
    if o == Some(true) {
        Some(true)
    } else if e is None {
        o
    } else {
        e
    }
}

/// The merged timestamp: the chronologically earlier of the two, a set
/// timestamp beating an unset one, and the existing one kept on a tie.
pub open spec fn earlier_opt(e: Option<i64>, o: Option<i64>) -> Option<i64> {
    match (e, o) {
        (None, Some(y)) => Some(y),
        (Some(x), Some(y)) => if y < x {
            Some(y)
        } else {
            Some(x)
        },
        _ => e,
    }
}

/// Source union, preserving existing order and appending unseen sources.
pub open spec fn union_sources(es: Seq<Source>, os: Seq<Source>) -> Seq<Source>
    decreases os.len(),
{
    if os.len() == 0 {
        es
    } else {
        let pre = union_sources(es, os.drop_last());
        if pre.contains(os.last()) {
            pre
        } else {
            pre.push(os.last())
        }
    }
}

/// Fields of a duplicate observation folded into the existing highlight:
/// the earlier creation time is kept, and the note adopted only if the
/// existing entry has none. Text, id, location and source stay untouched.
pub open spec fn merge_dup_highlight(e: HighlightV, o: HighlightV) -> HighlightV {
    HighlightV {
        created_at: earlier_opt(e.created_at, o.created_at),
        note: if e.note is None {
            o.note
        } else {
            e.note
        },
        ..e
    }
}

/// The first index whose highlight has normalized text `t`, or `hs.len()`.
pub open spec fn first_match_idx(hs: Seq<HighlightV>, t: Seq<char>) -> int
    decreases hs.len(),
{
    if hs.len() == 0 {
        0
    } else if norm(hs.first().text) == t {
        0
    } else {
        1 + first_match_idx(hs.drop_first(), t)
    }
}

pub proof fn lemma_first_match_at(hs: Seq<HighlightV>, t: Seq<char>, i: int)
    requires
        0 <= i <= hs.len(),
        forall|j: int| 0 <= j < i ==> norm(#[trigger] hs[j].text) != t,
        i < hs.len() ==> norm(hs[i].text) == t,
    ensures
        first_match_idx(hs, t) == i,
    decreases hs.len(),
{
    if hs.len() > 0 {
        if i == 0 {
        } else {
            assert(norm(hs[0].text) != t);
            assert forall|j: int| 0 <= j < i - 1 implies norm(
                #[trigger] hs.drop_first()[j].text,
            ) != t by {
                assert(hs.drop_first()[j] == hs[j + 1]);
            }
            assert(i - 1 < hs.drop_first().len() ==> norm(hs.drop_first()[i - 1].text) == t);
            lemma_first_match_at(hs.drop_first(), t, i - 1);
        }
    }
}

pub proof fn lemma_first_match_props(hs: Seq<HighlightV>, t: Seq<char>)
    ensures
        0 <= first_match_idx(hs, t) <= hs.len(),
        first_match_idx(hs, t) < hs.len() ==> norm(hs[first_match_idx(hs, t)].text) == t,
        forall|j: int| 0 <= j < first_match_idx(hs, t) ==> norm(#[trigger] hs[j].text) != t,
    decreases hs.len(),
{
    if hs.len() > 0 && norm(hs.first().text) != t {
        let sub = hs.drop_first();
        lemma_first_match_props(sub, t);
        let i = first_match_idx(hs, t);
        if i < hs.len() {
            assert(hs[i] == sub[i - 1]);
        }
        assert forall|j: int| 0 <= j < i implies norm(#[trigger] hs[j].text) != t by {
            if j > 0 {
                assert(hs[j] == sub[j - 1]);
            }
        }
    }
}

pub proof fn lemma_first_id_props(bs: Seq<BookV>, id: Seq<char>)
    ensures
        0 <= first_id_idx(bs, id) <= bs.len(),
        first_id_idx(bs, id) < bs.len() ==> bs[first_id_idx(bs, id)].id == id,
        forall|j: int| 0 <= j < first_id_idx(bs, id) ==> (#[trigger] bs[j].id) != id,
    decreases bs.len(),
{
    if bs.len() > 0 && bs.first().id != id {
        let sub = bs.drop_first();
        lemma_first_id_props(sub, id);
        let i = first_id_idx(bs, id);
        if i < bs.len() {
            assert(bs[i] == sub[i - 1]);
        }
        assert forall|j: int| 0 <= j < i implies (#[trigger] bs[j].id) != id by {
            if j > 0 {
                assert(bs[j] == sub[j - 1]);
            }
        }
    }
}

/// A duplicate highlight folded into the accumulating list: the first entry
/// with the same normalized text absorbs it; with no such entry the list is
/// unchanged (and the duplicate dropped).
pub open spec fn merge_dup_seq(hs: Seq<HighlightV>, o: HighlightV) -> Seq<HighlightV> {
    let i = first_match_idx(hs, norm(o.text));
    if i < hs.len() {
        hs.update(i, merge_dup_highlight(hs[i], o))
    } else {
        hs
    }
}

/// One incoming highlight folded into the accumulating list: appended when
/// its normalized text is new, absorbed by the first match otherwise.
pub open spec fn fold_highlight(acc: Seq<HighlightV>, h: HighlightV) -> Seq<HighlightV> {
    if first_match_idx(acc, norm(h.text)) < acc.len() {
        merge_dup_seq(acc, h)
    } else {
        acc.push(h)
    }
}

/// All of `os` folded into `acc`, left to right.
pub open spec fn fold_highlights(acc: Seq<HighlightV>, os: Seq<HighlightV>) -> Seq<HighlightV>
    decreases os.len(),
{
    if os.len() == 0 {
        acc
    } else {
        fold_highlight(fold_highlights(acc, os.drop_last()), os.last())
    }
}

/// Highlight order: by creation time ascending, entries without a timestamp
/// after all timestamped entries.
pub open spec fn hl_le(a: HighlightV, b: HighlightV) -> bool {
    match (a.created_at, b.created_at) {
        (Some(x), Some(y)) => x <= y,
        (Some(_), None) => true,
        (None, Some(_)) => false,
        (None, None) => true,
    }
}

/// Stable insertion of `h` into `s`: after every entry it does not strictly
/// precede.
pub open spec fn insert_hl(s: Seq<HighlightV>, h: HighlightV) -> Seq<HighlightV>
    decreases s.len(),
{
    if s.len() == 0 {
        seq![h]
    } else if hl_le(s.last(), h) {
        s.push(h)
    } else {
        insert_hl(s.drop_last(), h).push(s.last())
    }
}

/// Stable sort of highlights by `hl_le`.
pub open spec fn sort_highlights_spec(s: Seq<HighlightV>) -> Seq<HighlightV>
    decreases s.len(),
{
    if s.len() == 0 {
        Seq::empty()
    } else {
        insert_hl(sort_highlights_spec(s.drop_last()), s.last())
    }
}

/// One book folded into an existing book with the same identifier.
pub open spec fn merge_book_spec(e: BookV, o: BookV) -> BookV {
    BookV {
        sources: union_sources(e.sources, o.sources),
        highlights: sort_highlights_spec(fold_highlights(e.highlights, o.highlights)),
        finished: merge_finished(e.finished, o.finished),
        finished_at: earlier_opt(e.finished_at, o.finished_at),
        ..e
    }
}

/// The first index whose book has identifier `id`, or `bs.len()`.
pub open spec fn first_id_idx(bs: Seq<BookV>, id: Seq<char>) -> int
    decreases bs.len(),
{
    if bs.len() == 0 {
        0
    } else if bs.first().id == id {
        0
    } else {
        1 + first_id_idx(bs.drop_first(), id)
    }
}

pub proof fn lemma_first_id_at(bs: Seq<BookV>, id: Seq<char>, i: int)
    requires
        0 <= i <= bs.len(),
        forall|j: int| 0 <= j < i ==> (#[trigger] bs[j].id) != id,
        i < bs.len() ==> bs[i].id == id,
    ensures
        first_id_idx(bs, id) == i,
    decreases bs.len(),
{
    if bs.len() > 0 {
        if i == 0 {
        } else {
            assert(bs[0].id != id);
            assert forall|j: int| 0 <= j < i - 1 implies (#[trigger] bs.drop_first()[j].id)
                != id by {
                assert(bs.drop_first()[j] == bs[j + 1]);
            }
            assert(i - 1 < bs.drop_first().len() ==> bs.drop_first()[i - 1].id == id);
            lemma_first_id_at(bs.drop_first(), id, i - 1);
        }
    }
}

/// A book as it first seeds a library slot: its highlights sorted by
/// creation time. Sorting applies to every grouped book, folded into or not.
pub open spec fn sorted_book(b: BookV) -> BookV {
    BookV { highlights: sort_highlights_spec(b.highlights), ..b }
}

/// One book grouped into the accumulating library: the first slot with its
/// identifier absorbs it, a new slot is appended (highlights sorted)
/// otherwise.
pub open spec fn group_book(acc: Seq<BookV>, b: BookV) -> Seq<BookV> {
    let i = first_id_idx(acc, b.id);
    if i < acc.len() {
        acc.update(i, merge_book_spec(acc[i], b))
    } else {
        acc.push(sorted_book(b))
    }
}

/// All books of one list grouped in order.
pub open spec fn group_list(acc: Seq<BookV>, list: Seq<BookV>) -> Seq<BookV>
    decreases list.len(),
{
    if list.len() == 0 {
        acc
    } else {
        group_book(group_list(acc, list.drop_last()), list.last())
    }
}

/// All lists grouped in order.
pub open spec fn group_lists(acc: Seq<BookV>, lists: Seq<Seq<BookV>>) -> Seq<BookV>
    decreases lists.len(),
{
    if lists.len() == 0 {
        acc
    } else {
        group_list(group_lists(acc, lists.drop_last()), lists.last())
    }
}

/// Lexicographic order on character sequences, by code point; the same order
/// as byte-wise comparison of their UTF-8 encodings.
pub open spec fn lex_le(a: Seq<char>, b: Seq<char>) -> bool
    decreases a.len(),
{
    if a.len() == 0 {
        true
    } else if b.len() == 0 {
        false
    } else if (a.first() as u32) == (b.first() as u32) {
        lex_le(a.drop_first(), b.drop_first())
    } else {
        (a.first() as u32) < (b.first() as u32)
    }
}

/// Book order: by lower-cased title.
pub open spec fn book_le(a: BookV, b: BookV) -> bool {
    lex_le(lower_of(a.title), lower_of(b.title))
}

/// Stable insertion of `b` into `s` by `book_le`.
pub open spec fn insert_book(s: Seq<BookV>, b: BookV) -> Seq<BookV>
    decreases s.len(),
{
    if s.len() == 0 {
        seq![b]
    } else if book_le(s.last(), b) {
        s.push(b)
    } else {
        insert_book(s.drop_last(), b).push(s.last())
    }
}

/// Stable sort of books by `book_le`: ties keep first-seen order.
pub open spec fn sort_books_spec(s: Seq<BookV>) -> Seq<BookV>
    decreases s.len(),
{
    if s.len() == 0 {
        Seq::empty()
    } else {
        insert_book(sort_books_spec(s.drop_last()), s.last())
    }
}

/// The whole merge: group every book of every list by identifier in
/// first-seen order, then sort the merged books by lower-cased title.
pub open spec fn merge_books_spec(lists: Seq<Seq<BookV>>) -> Seq<BookV> {
    sort_books_spec(group_lists(Seq::empty(), lists))
}

fn sources_contain(v: &Vec<Source>, s: Source) -> (r: bool)
    ensures
        r == v@.contains(s),
{
    let n = v.len();
    for i in 0..n
        invariant
            n == v@.len(),
            forall|j: int| 0 <= j < i ==> v@[j] != s,
    {
        if v[i] == s {
            return true;
        }
    }
    false
}

/// Whether some highlight of `hs` already has normalized text `t`.
fn has_normalized(hs: &Vec<Highlight>, t: &str) -> (r: bool)
    ensures
        r == (first_match_idx(hs.deep_view(), t@) < hs.deep_view().len()),
{
    let n = hs.len();
    for i in 0..n
        invariant
            n == hs@.len(),
            forall|j: int| 0 <= j < i ==> norm(#[trigger] hs.deep_view()[j].text) != t@,
    {
        let hn = normalize_text(hs[i].text.as_str());
        if str_eq(hn.as_str(), t) {
            proof {
                assert(hs.deep_view()[i as int].text == hs@[i as int].text@);
                lemma_first_match_at(hs.deep_view(), t@, i as int);
            }
            return true;
        }
        proof {
            assert(hs.deep_view()[i as int].text == hs@[i as int].text@);
        }
    }
    proof {
        lemma_first_match_at(hs.deep_view(), t@, n as int);
    }
    false
}

/// Fold a duplicate observation into the first highlight sharing its
/// normalized text; with no such highlight, the list is left unchanged.
pub fn merge_duplicate_highlight(highlights: &mut Vec<Highlight>, other: Highlight)
    ensures
        final(highlights).deep_view() == merge_dup_seq(old(highlights).deep_view(), other@),
{
    let normalized_other = normalize_text(other.text.as_str());
    let n = highlights.len();
    let mut i: usize = 0;
    while i < n
        invariant
            n == highlights@.len(),
            *highlights == *old(highlights),
            i <= n,
            normalized_other@ == norm(other@.text),
            forall|j: int|
                0 <= j < i ==> norm(#[trigger] highlights.deep_view()[j].text)
                    != normalized_other@,
        decreases n - i,
    {
        let hn = normalize_text(highlights[i].text.as_str());
        if str_eq(hn.as_str(), normalized_other.as_str()) {
            proof {
                assert(highlights.deep_view()[i as int].text == highlights@[i as int].text@);
                lemma_first_match_at(highlights.deep_view(), normalized_other@, i as int);
            }
            let existing = highlights.remove(i);
            let merged = Highlight {
                created_at: merge_created_at(existing.created_at, other.created_at),
                note: merge_note(existing.note, other.note),
                ..existing
            };
            highlights.insert(i, merged);
            proof {
                assert(highlights.deep_view() =~= merge_dup_seq(
                    old(highlights).deep_view(),
                    other@,
                ));
            }
            return ;
        }
        proof {
            assert(highlights.deep_view()[i as int].text == highlights@[i as int].text@);
        }
        i = i + 1;
    }
    proof {
        lemma_first_match_at(highlights.deep_view(), normalized_other@, n as int);
    }
}

fn merge_created_at(e: Option<i64>, o: Option<i64>) -> (r: Option<i64>)
    ensures
        r == earlier_opt(e, o),
{
    match (e, o) {
        (None, Some(y)) => Some(y),
        (Some(x), Some(y)) => if y < x {
            Some(y)
        } else {
            Some(x)
        },
        _ => e,
    }
}

fn merge_note(e: Option<String>, o: Option<String>) -> (r: Option<String>)
    ensures
        r.deep_view() == (if e.deep_view() is None {
            o.deep_view()
        } else {
            e.deep_view()
        }),
{
    if e.is_none() {
        o
    } else {
        e
    }
}

/// Removing the front element of a sequence shifts its element-wise view by
/// one position.
pub(crate) proof fn lemma_deep_step<T: DeepView>(
    pre: Seq<T>,
    h: T,
    post: Seq<T>,
    whole: Seq<T::V>,
    done: int,
)
    requires
        0 <= done,
        pre.len() > 0,
        done + pre.len() == whole.len(),
        h == pre[0],
        post == pre.remove(0),
        Seq::new(pre.len(), |i: int| pre[i].deep_view()) == whole.skip(done),
    ensures
        h.deep_view() == whole[done],
        Seq::new(post.len(), |i: int| post[i].deep_view()) =~= whole.skip(done + 1),
{
    let pred = Seq::new(pre.len(), |i: int| pre[i].deep_view());
    assert(pred[0] == whole.skip(done)[0]);
    assert(whole.skip(done)[0] == whole[done]);
    let postd = Seq::new(post.len(), |i: int| post[i].deep_view());
    assert forall|k: int| 0 <= k < postd.len() implies postd[k] == whole.skip(done + 1)[k] by {
        assert(post[k] == pre[k + 1]);
        assert(postd[k] == post[k].deep_view());
        assert(pred[k + 1] == pre[k + 1].deep_view());
        assert(pred[k + 1] == whole.skip(done)[k + 1]);
        assert(whole.skip(done)[k + 1] == whole[done + 1 + k]);
        assert(whole.skip(done + 1)[k] == whole[done + 1 + k]);
    }
    assert(postd =~= whole.skip(done + 1));
}

fn hl_le_exec(a: &Highlight, b: &Highlight) -> (r: bool)
    ensures
        r == hl_le(a@, b@),
{
    match (a.created_at, b.created_at) {
        (Some(x), Some(y)) => x <= y,
        (Some(_), None) => true,
        (None, Some(_)) => false,
        (None, None) => true,
    }
}

proof fn lemma_lex_le_skip(a: Seq<char>, b: Seq<char>, i: int)
    requires
        0 <= i <= a.len(),
        i <= b.len(),
        forall|j: int| 0 <= j < i ==> (a[j] as u32) == (b[j] as u32),
    ensures
        lex_le(a, b) == lex_le(a.skip(i), b.skip(i)),
    decreases i,
{
    if i > 0 {
        assert((a.first() as u32) == (b.first() as u32));
        lemma_lex_le_skip(a.drop_first(), b.drop_first(), i - 1);
        assert(a.drop_first().skip(i - 1) =~= a.skip(i));
        assert(b.drop_first().skip(i - 1) =~= b.skip(i));
    } else {
        assert(a.skip(0) =~= a);
        assert(b.skip(0) =~= b);
    }
}

fn lex_le_exec(a: &str, b: &str) -> (r: bool)
    ensures
        r == lex_le(a@, b@),
{
    let na = a.unicode_len();
    let nb = b.unicode_len();
    let mut i: usize = 0;
    while i < na && i < nb
        invariant
            na == a@.len(),
            nb == b@.len(),
            i <= na,
            i <= nb,
            forall|j: int| 0 <= j < i ==> (a@[j] as u32) == (b@[j] as u32),
        decreases na - i,
    {
        let ca = a.get_char(i);
        let cb = b.get_char(i);
        let ua = ca as u32;
        let ub = cb as u32;
        if ua != ub {
            proof {
                lemma_lex_le_skip(a@, b@, i as int);
                assert(a@.skip(i as int).first() == ca);
                assert(b@.skip(i as int).first() == cb);
            }
            return ua < ub;
        }
        i = i + 1;
    }
    proof {
        lemma_lex_le_skip(a@, b@, i as int);
        if i == na {
            assert(a@.skip(i as int).len() == 0);
        } else {
            assert(b@.skip(i as int).len() == 0);
            assert(a@.skip(i as int).len() > 0);
        }
    }
    na <= nb
}

fn book_le_exec(a: &Book, b: &Book) -> (r: bool)
    ensures
        r == book_le(a@, b@),
{
    let la = crate::text::lowercase(a.title.as_str());
    let lb = crate::text::lowercase(b.title.as_str());
    lex_le_exec(la.as_str(), lb.as_str())
}

proof fn lemma_insert_hl_at(s: Seq<HighlightV>, h: HighlightV, pos: int)
    requires
        0 <= pos <= s.len(),
        forall|k: int| pos <= k < s.len() ==> !hl_le(#[trigger] s[k], h),
        pos > 0 ==> hl_le(s[pos - 1], h),
    ensures
        insert_hl(s, h) == s.take(pos) + seq![h] + s.skip(pos),
    decreases s.len(),
{
    if s.len() == 0 {
        assert(insert_hl(s, h) =~= s.take(0) + seq![h] + s.skip(0));
    } else if pos == s.len() {
        assert(hl_le(s.last(), h));
        assert(s.push(h) =~= s.take(pos) + seq![h] + s.skip(pos));
    } else {
        assert(!hl_le(s[s.len() - 1], h));
        lemma_insert_hl_at(s.drop_last(), h, pos);
        assert(insert_hl(s.drop_last(), h).push(s.last()) =~= s.take(pos) + seq![h] + s.skip(
            pos,
        ));
    }
}

proof fn lemma_insert_book_at(s: Seq<BookV>, b: BookV, pos: int)
    requires
        0 <= pos <= s.len(),
        forall|k: int| pos <= k < s.len() ==> !book_le(#[trigger] s[k], b),
        pos > 0 ==> book_le(s[pos - 1], b),
    ensures
        insert_book(s, b) == s.take(pos) + seq![b] + s.skip(pos),
    decreases s.len(),
{
    if s.len() == 0 {
        assert(insert_book(s, b) =~= s.take(0) + seq![b] + s.skip(0));
    } else if pos == s.len() {
        assert(book_le(s.last(), b));
        assert(s.push(b) =~= s.take(pos) + seq![b] + s.skip(pos));
    } else {
        assert(!book_le(s[s.len() - 1], b));
        lemma_insert_book_at(s.drop_last(), b, pos);
        assert(insert_book(s.drop_last(), b).push(s.last()) =~= s.take(pos) + seq![b] + s.skip(
            pos,
        ));
    }
}

/// Stable sort of highlights by creation time: entries without a timestamp
/// sort after all timestamped entries, ties keep their relative order.
fn sort_highlights(v: Vec<Highlight>) -> (r: Vec<Highlight>)
    ensures
        r.deep_view() == sort_highlights_spec(v.deep_view()),
{
    let ghost orig = v.deep_view();
    let mut src = v;
    let mut out: Vec<Highlight> = Vec::new();
    while src.len() > 0
        invariant
            src@.len() <= orig.len(),
            src.deep_view() == orig.skip(orig.len() - src@.len()),
            out.deep_view() == sort_highlights_spec(orig.take(orig.len() - src@.len())),
        decreases src@.len(),
    {
        let ghost done = orig.len() - src@.len();
        let ghost pre = src@;
        let h = src.remove(0);
        proof {
            lemma_deep_step(pre, h, src@, orig, done);
            assert(h@ == orig[done]);
            assert(src.deep_view() =~= orig.skip(done + 1));
        }
        let mut pos: usize = out.len();
        loop
            invariant
                pos <= out@.len(),
                forall|k: int|
                    pos <= k < out@.len() ==> !hl_le(#[trigger] out.deep_view()[k], h@),
            ensures
                pos <= out@.len(),
                forall|k: int|
                    pos <= k < out@.len() ==> !hl_le(#[trigger] out.deep_view()[k], h@),
                pos > 0 ==> hl_le(out.deep_view()[pos - 1], h@),
            decreases pos,
        {
            if pos == 0 {
                break ;
            }
            proof {
                assert(out.deep_view()[pos - 1] == out@[pos - 1]@);
            }
            if hl_le_exec(&out[pos - 1], &h) {
                break ;
            }
            pos = pos - 1;
        }
        let ghost before = out.deep_view();
        out.insert(pos, h);
        proof {
            lemma_insert_hl_at(before, h@, pos as int);
            assert(out.deep_view() =~= before.take(pos as int) + seq![h@] + before.skip(
                pos as int,
            ));
            assert(orig.take(done + 1).drop_last() =~= orig.take(done));
            assert(orig.take(done + 1).last() == orig[done]);
        }
    }
    proof {
        assert(orig.take(orig.len() as int) =~= orig);
    }
    out
}

/// Stable sort of books by lower-cased title: ties keep first-seen order.
fn sort_books(v: Vec<Book>) -> (r: Vec<Book>)
    ensures
        r.deep_view() == sort_books_spec(v.deep_view()),
{
    let ghost orig = v.deep_view();
    let mut src = v;
    let mut out: Vec<Book> = Vec::new();
    while src.len() > 0
        invariant
            src@.len() <= orig.len(),
            src.deep_view() == orig.skip(orig.len() - src@.len()),
            out.deep_view() == sort_books_spec(orig.take(orig.len() - src@.len())),
        decreases src@.len(),
    {
        let ghost done = orig.len() - src@.len();
        let ghost pre = src@;
        let b = src.remove(0);
        proof {
            lemma_deep_step(pre, b, src@, orig, done);
            assert(b@ == orig[done]);
            assert(src.deep_view() =~= orig.skip(done + 1));
        }
        let mut pos: usize = out.len();
        loop
            invariant
                pos <= out@.len(),
                forall|k: int|
                    pos <= k < out@.len() ==> !book_le(#[trigger] out.deep_view()[k], b@),
            ensures
                pos <= out@.len(),
                forall|k: int|
                    pos <= k < out@.len() ==> !book_le(#[trigger] out.deep_view()[k], b@),
                pos > 0 ==> book_le(out.deep_view()[pos - 1], b@),
            decreases pos,
        {
            if pos == 0 {
                break ;
            }
            proof {
                assert(out.deep_view()[pos - 1] == out@[pos - 1]@);
            }
            if book_le_exec(&out[pos - 1], &b) {
                break ;
            }
            pos = pos - 1;
        }
        let ghost before = out.deep_view();
        out.insert(pos, b);
        proof {
            lemma_insert_book_at(before, b@, pos as int);
            assert(out.deep_view() =~= before.take(pos as int) + seq![b@] + before.skip(
                pos as int,
            ));
            assert(orig.take(done + 1).drop_last() =~= orig.take(done));
            assert(orig.take(done + 1).last() == orig[done]);
        }
    }
    proof {
        assert(orig.take(orig.len() as int) =~= orig);
    }
    out
}

/// Fold `other` into an existing book entry sharing its identifier: union of
/// sources, reconciled finished flag and timestamp, highlights deduplicated
/// by normalized text and sorted by creation time.
pub fn merge_into_book(existing: &mut Book, other: Book)
    ensures
        final(existing)@ == merge_book_spec(old(existing)@, other@),
{
    let Book {
        id: _,
        title: _,
        author: _,
        sources: other_sources,
        highlights: other_highlights,
        finished: other_finished,
        finished_at: other_finished_at,
    } = other;

    // Merge sources.
    let ns = other_sources.len();
    for i in 0..ns
        invariant
            ns == other_sources@.len(),
            existing.sources@ == union_sources(old(existing)@.sources, other_sources@.take(
                i as int,
            )),
            existing.id == old(existing).id,
            existing.title == old(existing).title,
            existing.author == old(existing).author,
            existing.highlights == old(existing).highlights,
            existing.finished == old(existing).finished,
            existing.finished_at == old(existing).finished_at,
    {
        let s = other_sources[i];
        if !sources_contain(&existing.sources, s) {
            existing.sources.push(s);
        }
        proof {
            assert(other_sources@.take(i + 1).drop_last() =~= other_sources@.take(i as int));
            assert(other_sources@.take(i + 1).last() == s);
        }
    }
    proof {
        assert(other_sources@.take(ns as int) =~= other_sources@);
    }

    // Merge finished status (true from any source wins).
    match other_finished {
        Some(true) => {
            existing.finished = Some(true);
        },
        _ => {
            if existing.finished.is_none() {
                existing.finished = other_finished;
            }
        },
    }

    // Prefer the earlier finished date.
    existing.finished_at = merge_created_at(existing.finished_at, other_finished_at);

    // Merge highlights, deduplicating by normalized text.
    let ghost inc0 = other_highlights.deep_view();
    let mut incoming = other_highlights;
    while incoming.len() > 0
        invariant
            incoming@.len() <= inc0.len(),
            incoming.deep_view() == inc0.skip(inc0.len() - incoming@.len()),
            existing.highlights.deep_view() == fold_highlights(
                old(existing)@.highlights,
                inc0.take(inc0.len() - incoming@.len()),
            ),
            existing.id == old(existing).id,
            existing.title == old(existing).title,
            existing.author == old(existing).author,
            existing.sources@ == union_sources(old(existing)@.sources, other@.sources),
            existing.finished == merge_finished(old(existing)@.finished, other@.finished),
            existing.finished_at == earlier_opt(old(existing)@.finished_at, other@.finished_at),
        decreases incoming@.len(),
    {
        let ghost done = inc0.len() - incoming@.len();
        let ghost pre = incoming@;
        let h = incoming.remove(0);
        proof {
            lemma_deep_step(pre, h, incoming@, inc0, done);
            assert(h@ == inc0[done]);
            assert(incoming.deep_view() =~= inc0.skip(done + 1));
        }
        let nh = normalize_text(h.text.as_str());
        if !has_normalized(&existing.highlights, nh.as_str()) {
            existing.highlights.push(h);
        } else {
            merge_duplicate_highlight(&mut existing.highlights, h);
        }
        proof {
            assert(inc0.take(done + 1).drop_last() =~= inc0.take(done));
            assert(inc0.take(done + 1).last() == inc0[done]);
        }
    }
    proof {
        assert(inc0.take(inc0.len() as int) =~= inc0);
    }

    // Sort highlights by creation time.
    let mut hls: Vec<Highlight> = Vec::new();
    core::mem::swap(&mut existing.highlights, &mut hls);
    let sorted = sort_highlights(hls);
    existing.highlights = sorted;

    proof {
        assert(final(existing)@ =~= merge_book_spec(old(existing)@, other@));
    }
}

/// Group one book into the accumulating library: the first entry with its
/// identifier absorbs it, a new entry is appended otherwise.
fn group_into(acc: &mut Vec<Book>, b: Book)
    ensures
        final(acc).deep_view() == group_book(old(acc).deep_view(), b@),
{
    let n = acc.len();
    let mut i: usize = 0;
    while i < n
        invariant
            n == acc@.len(),
            *acc == *old(acc),
            i <= n,
            forall|j: int| 0 <= j < i ==> (#[trigger] acc.deep_view()[j].id) != b@.id,
        decreases n - i,
    {
        proof {
            assert(acc.deep_view()[i as int].id == acc@[i as int].id@);
        }
        if str_eq(acc[i].id.as_str(), b.id.as_str()) {
            proof {
                lemma_first_id_at(acc.deep_view(), b@.id, i as int);
            }
            let mut existing = acc.remove(i);
            merge_into_book(&mut existing, b);
            acc.insert(i, existing);
            proof {
                assert(acc.deep_view() =~= group_book(old(acc).deep_view(), b@));
            }
            return ;
        }
        i = i + 1;
    }
    proof {
        lemma_first_id_at(acc.deep_view(), b@.id, n as int);
    }
    let Book { id, title, author, sources, highlights, finished, finished_at } = b;
    let sorted = sort_highlights(highlights);
    let seeded = Book { id, title, author, sources, highlights: sorted, finished, finished_at };
    proof {
        assert(seeded@ =~= sorted_book(b@));
    }
    acc.push(seeded);
    proof {
        assert(acc.deep_view() =~= group_book(old(acc).deep_view(), b@));
    }
}

/// Merge books from multiple sources, deduplicating by book identifier and,
/// within a book, by normalized highlight text. The result is grouped in
/// first-seen order, then sorted by lower-cased title (ties keep first-seen
/// order); it is a pure function of the input lists.
pub fn merge_books(book_lists: Vec<Vec<Book>>) -> (r: Vec<Book>)
    ensures
        r.deep_view() == merge_books_spec(book_lists.deep_view()),
{
    let ghost lists0 = book_lists.deep_view();
    let mut lists = book_lists;
    let mut acc: Vec<Book> = Vec::new();
    while lists.len() > 0
        invariant
            lists@.len() <= lists0.len(),
            lists.deep_view() == lists0.skip(lists0.len() - lists@.len()),
            acc.deep_view() == group_lists(
                Seq::empty(),
                lists0.take(lists0.len() - lists@.len()),
            ),
        decreases lists@.len(),
    {
        let ghost ldone = lists0.len() - lists@.len();
        let ghost lpre = lists@;
        let list = lists.remove(0);
        proof {
            lemma_deep_step(lpre, list, lists@, lists0, ldone);
            assert(list.deep_view() == lists0[ldone]);
            assert(lists.deep_view() =~= lists0.skip(ldone + 1));
        }
        let ghost cur = lists0[ldone];
        let ghost acc_before = acc.deep_view();
        let mut books = list;
        while books.len() > 0
            invariant
                books@.len() <= cur.len(),
                books.deep_view() == cur.skip(cur.len() - books@.len()),
                acc.deep_view() == group_list(acc_before, cur.take(cur.len() - books@.len())),
            decreases books@.len(),
        {
            let ghost done = cur.len() - books@.len();
            let ghost bpre = books@;
            let b = books.remove(0);
            proof {
                lemma_deep_step(bpre, b, books@, cur, done);
                assert(b@ == cur[done]);
                assert(books.deep_view() =~= cur.skip(done + 1));
            }
            group_into(&mut acc, b);
            proof {
                assert(cur.take(done + 1).drop_last() =~= cur.take(done));
                assert(cur.take(done + 1).last() == cur[done]);
            }
        }
        proof {
            assert(cur.take(cur.len() as int) =~= cur);
            assert(lists0.take(ldone + 1).drop_last() =~= lists0.take(ldone));
            assert(lists0.take(ldone + 1).last() == lists0[ldone]);
        }
    }
    proof {
        assert(lists0.take(lists0.len() as int) =~= lists0);
    }
    sort_books(acc)
}

} // verus!
