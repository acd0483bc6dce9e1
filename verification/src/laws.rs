//! Laws of the identity scheme and the merge engine, stated over the spec
//! model and proved once and for all.

use vstd::multiset::Multiset;
use vstd::prelude::*;
use vstd::seq_lib::group_to_multiset_ensures;

use crate::merge::{
    book_le, earlier_opt, group_book, group_list, group_lists, hl_le, insert_book, insert_hl,
    merge_book_spec, merge_books_spec, merge_finished, sort_books_spec, sort_highlights_spec,
    union_sources,
};
use crate::model::{book_id_chars, norm_opt, BookV, HighlightV, Source};
use crate::text::norm;

verus! {

/// Identity stability: titles and authors that agree after normalization
/// yield the same book identifier, whatever their case or whitespace.
pub proof fn lemma_book_id_stable(
    t1: Seq<char>,
    t2: Seq<char>,
    a1: Option<Seq<char>>,
    a2: Option<Seq<char>>,
)
    requires
        norm(t1) == norm(t2),
        norm_opt(a1) == norm_opt(a2),
    ensures
        book_id_chars(t1, a1) == book_id_chars(t2, a2),
{
}

/// Merging two single-book lists whose books share an identifier yields
/// exactly the second book folded into the first (whose highlights the
/// grouping sorted when it was seeded).
pub proof fn lemma_merge_pair(a: BookV, b: BookV)
    requires
        a.id == b.id,
    ensures
        merge_books_spec(seq![seq![a], seq![b]]) == seq![
            merge_book_spec(crate::merge::sorted_book(a), b),
        ],
{
    let sa = crate::merge::sorted_book(a);
    let lists = seq![seq![a], seq![b]];
    let empty_lists = Seq::<Seq<BookV>>::empty();
    let empty_books = Seq::<BookV>::empty();
    assert(lists.drop_last() =~= seq![seq![a]]);
    assert(seq![seq![a]].drop_last() =~= empty_lists);
    assert(group_lists(empty_books, empty_lists) == empty_books);
    assert(seq![a].drop_last() =~= empty_books);
    assert(group_list(empty_books, empty_books) == empty_books);
    assert(group_book(empty_books, a) =~= seq![sa]);
    assert(group_lists(empty_books, seq![seq![a]]) =~= seq![sa]);
    assert(seq![b].drop_last() =~= empty_books);
    assert(group_list(seq![sa], empty_books) == seq![sa]);
    assert(seq![sa].first().id == b.id);
    let m = merge_book_spec(sa, b);
    assert(group_book(seq![sa], b) =~= seq![m]);
    assert(group_lists(empty_books, lists) =~= seq![m]);
    assert(seq![m].drop_last() =~= empty_books);
    assert(sort_books_spec(empty_books) == empty_books);
    assert(insert_book(empty_books, m) =~= seq![m]);
    assert(merge_books_spec(lists) =~= seq![m]);
}

/// The merged finished flag does not depend on the order of arrival.
pub proof fn lemma_merge_finished_comm(x: Option<bool>, y: Option<bool>)
    ensures
        merge_finished(x, y) == merge_finished(y, x),
{
}

/// The merged timestamp does not depend on the order of arrival.
pub proof fn lemma_earlier_opt_comm(x: Option<i64>, y: Option<i64>)
    ensures
        earlier_opt(x, y) == earlier_opt(y, x),
{
}

/// Union of sources: merging a book seen on Apple Books with one sharing its
/// identifier seen on Kindle yields a single book carrying both sources, in
/// the order first encountered.
pub proof fn lemma_union_of_sources(a: BookV, b: BookV)
    requires
        a.id == b.id,
        a.sources == seq![Source::AppleBooks],
        b.sources == seq![Source::Kindle],
    ensures
        merge_books_spec(seq![seq![a], seq![b]]).len() == 1,
        merge_books_spec(seq![seq![a], seq![b]])[0].sources == seq![
            Source::AppleBooks,
            Source::Kindle,
        ],
{
    lemma_merge_pair(a, b);
    assert(seq![Source::Kindle].drop_last() =~= Seq::<Source>::empty());
    assert(union_sources(a.sources, Seq::empty()) == a.sources);
    assert(!seq![Source::AppleBooks].contains(Source::Kindle)) by {
        assert(forall|i: int|
            0 <= i < 1 ==> #[trigger] seq![Source::AppleBooks][i] == Source::AppleBooks);
    }
    assert(union_sources(a.sources, b.sources) =~= seq![Source::AppleBooks, Source::Kindle]);
}

/// Finished-wins rule: merging `finished == Some(false)` with
/// `finished == Some(true)` for the same book identifier yields
/// `finished == Some(true)`, whichever list comes first.
pub proof fn lemma_finished_wins(a: BookV, b: BookV)
    requires
        a.id == b.id,
        a.finished == Some(false),
        b.finished == Some(true),
    ensures
        merge_books_spec(seq![seq![a], seq![b]]).len() == 1,
        merge_books_spec(seq![seq![a], seq![b]])[0].finished == Some(true),
        merge_books_spec(seq![seq![b], seq![a]]).len() == 1,
        merge_books_spec(seq![seq![b], seq![a]])[0].finished == Some(true),
{
    lemma_merge_pair(a, b);
    lemma_merge_pair(b, a);
}

/// Sorted by highlight order: creation times ascending, absent times last.
pub open spec fn hl_sorted(s: Seq<HighlightV>) -> bool {
    forall|i: int, j: int| 0 <= i <= j < s.len() ==> hl_le(#[trigger] s[i], #[trigger] s[j])
}

/// Sorted by book order: lower-cased titles ascending.
pub open spec fn books_sorted(s: Seq<BookV>) -> bool {
    forall|i: int, j: int| 0 <= i <= j < s.len() ==> book_le(#[trigger] s[i], #[trigger] s[j])
}

pub proof fn lemma_hl_le_total(a: HighlightV, b: HighlightV)
    ensures
        hl_le(a, b) || hl_le(b, a),
{
}

pub proof fn lemma_lex_le_refl(a: Seq<char>)
    ensures
        crate::merge::lex_le(a, a),
    decreases a.len(),
{
    if a.len() > 0 {
        lemma_lex_le_refl(a.drop_first());
    }
}

pub proof fn lemma_lex_le_total(a: Seq<char>, b: Seq<char>)
    ensures
        crate::merge::lex_le(a, b) || crate::merge::lex_le(b, a),
    decreases a.len(),
{
    if a.len() > 0 && b.len() > 0 && (a.first() as u32) == (b.first() as u32) {
        lemma_lex_le_total(a.drop_first(), b.drop_first());
    }
}

pub proof fn lemma_lex_le_trans(a: Seq<char>, b: Seq<char>, c: Seq<char>)
    requires
        crate::merge::lex_le(a, b),
        crate::merge::lex_le(b, c),
    ensures
        crate::merge::lex_le(a, c),
    decreases a.len(),
{
    if a.len() > 0 && b.len() > 0 && c.len() > 0 && (a.first() as u32) == (b.first() as u32)
        && (b.first() as u32) == (c.first() as u32) {
        lemma_lex_le_trans(a.drop_first(), b.drop_first(), c.drop_first());
    }
}

proof fn lemma_insert_hl_ensures(s: Seq<HighlightV>, h: HighlightV)
    requires
        hl_sorted(s),
    ensures
        hl_sorted(insert_hl(s, h)),
        insert_hl(s, h).to_multiset() == s.to_multiset().insert(h),
    decreases s.len(),
{
    broadcast use group_to_multiset_ensures;

    if s.len() == 0 {
        assert(insert_hl(s, h) =~= Seq::empty().push(h));
        assert(Seq::<HighlightV>::empty().to_multiset() =~= Multiset::empty());
        assert(insert_hl(s, h).to_multiset() =~= s.to_multiset().insert(h));
    } else if hl_le(s.last(), h) {
        assert forall|i: int, j: int|
            0 <= i <= j < s.push(h).len() implies hl_le(
            #[trigger] s.push(h)[i],
            #[trigger] s.push(h)[j],
        ) by {
            if j == s.len() && i < j {
                assert(hl_le(s[i], s.last()));
            }
        }
    } else {
        let sub = insert_hl(s.drop_last(), h);
        assert(hl_sorted(s.drop_last()));
        lemma_insert_hl_ensures(s.drop_last(), h);
        assert(s.drop_last().push(s.last()) =~= s);
        assert(s.to_multiset() == s.drop_last().to_multiset().insert(s.last()));
        assert forall|m: int| 0 <= m < sub.len() implies hl_le(sub[m], s.last()) by {
            assert(sub.to_multiset().count(sub[m]) > 0);
            if s.drop_last().to_multiset().count(sub[m]) > 0 {
                let i = choose|i: int|
                    0 <= i < s.drop_last().len() && s.drop_last()[i] == sub[m];
                assert(hl_le(s[i], s.last()));
            } else {
                assert(sub[m] == h);
                lemma_hl_le_total(s.last(), h);
            }
        }
        assert forall|i: int, j: int|
            0 <= i <= j < sub.push(s.last()).len() implies hl_le(
            #[trigger] sub.push(s.last())[i],
            #[trigger] sub.push(s.last())[j],
        ) by {
            if j < sub.len() {
                assert(hl_le(sub[i], sub[j]));
            } else if i < j {
                assert(hl_le(sub[i], s.last()));
            }
        }
    }
}

proof fn lemma_insert_book_ensures(s: Seq<BookV>, b: BookV)
    requires
        books_sorted(s),
    ensures
        books_sorted(insert_book(s, b)),
        insert_book(s, b).to_multiset() == s.to_multiset().insert(b),
    decreases s.len(),
{
    broadcast use group_to_multiset_ensures;

    if s.len() == 0 {
        lemma_lex_le_refl(crate::text::lower_of(b.title));
        assert(insert_book(s, b) =~= Seq::empty().push(b));
        assert(Seq::<BookV>::empty().to_multiset() =~= Multiset::empty());
        assert(insert_book(s, b).to_multiset() =~= s.to_multiset().insert(b));
    } else if book_le(s.last(), b) {
        assert forall|i: int, j: int|
            0 <= i <= j < s.push(b).len() implies book_le(
            #[trigger] s.push(b)[i],
            #[trigger] s.push(b)[j],
        ) by {
            if j == s.len() && i < j {
                assert(book_le(s[i], s.last()));
                lemma_lex_le_trans(
                    crate::text::lower_of(s[i].title),
                    crate::text::lower_of(s.last().title),
                    crate::text::lower_of(b.title),
                );
            } else if j == s.len() && i == j {
                lemma_lex_le_refl(crate::text::lower_of(b.title));
            }
        }
    } else {
        let sub = insert_book(s.drop_last(), b);
        assert(books_sorted(s.drop_last()));
        lemma_insert_book_ensures(s.drop_last(), b);
        assert(s.drop_last().push(s.last()) =~= s);
        assert(s.to_multiset() == s.drop_last().to_multiset().insert(s.last()));
        assert forall|m: int| 0 <= m < sub.len() implies book_le(sub[m], s.last()) by {
            assert(sub.to_multiset().count(sub[m]) > 0);
            if s.drop_last().to_multiset().count(sub[m]) > 0 {
                let i = choose|i: int|
                    0 <= i < s.drop_last().len() && s.drop_last()[i] == sub[m];
                assert(book_le(s[i], s.last()));
            } else {
                assert(sub[m] == b);
                lemma_lex_le_total(
                    crate::text::lower_of(s.last().title),
                    crate::text::lower_of(b.title),
                );
            }
        }
        assert forall|i: int, j: int|
            0 <= i <= j < sub.push(s.last()).len() implies book_le(
            #[trigger] sub.push(s.last())[i],
            #[trigger] sub.push(s.last())[j],
        ) by {
            if j < sub.len() {
                assert(book_le(sub[i], sub[j]));
            } else if i < j {
                assert(book_le(sub[i], s.last()));
            } else {
                lemma_lex_le_refl(crate::text::lower_of(s.last().title));
            }
        }
    }
}

/// The normalized text of each highlight, in order.
pub open spec fn texts_seq(hs: Seq<HighlightV>) -> Seq<Seq<char>> {
    hs.map_values(|h: HighlightV| norm(h.text))
}

/// The set of normalized texts of a highlight list.
pub open spec fn texts_of(hs: Seq<HighlightV>) -> Set<Seq<char>> {
    texts_seq(hs).to_set()
}

/// No two highlights of the list share a normalized text.
pub open spec fn distinct_norm_texts(hs: Seq<HighlightV>) -> bool {
    forall|i: int, j: int|
        0 <= i < j < hs.len() ==> norm(#[trigger] hs[i].text) != norm(#[trigger] hs[j].text)
}

proof fn lemma_texts_contains(hs: Seq<HighlightV>, t: Seq<char>)
    ensures
        texts_of(hs).contains(t) <==> exists|i: int|
            0 <= i < hs.len() && norm(#[trigger] hs[i].text) == t,
{
    if texts_of(hs).contains(t) {
        let i = choose|i: int| 0 <= i < texts_seq(hs).len() && texts_seq(hs)[i] == t;
        assert(norm(hs[i].text) == t);
    }
    if exists|i: int| 0 <= i < hs.len() && norm(#[trigger] hs[i].text) == t {
        let i = choose|i: int| 0 <= i < hs.len() && norm(#[trigger] hs[i].text) == t;
        assert(texts_seq(hs)[i] == t);
        assert(texts_seq(hs).contains(t));
    }
}

proof fn lemma_texts_push(hs: Seq<HighlightV>, h: HighlightV)
    ensures
        texts_of(hs.push(h)) == texts_of(hs).insert(norm(h.text)),
{
    assert(texts_seq(hs.push(h)) =~= texts_seq(hs).push(norm(h.text)));
    texts_seq(hs).lemma_push_to_set_commute(norm(h.text));
    assert(texts_of(hs.push(h)) =~= texts_of(hs).insert(norm(h.text)));
}

proof fn lemma_texts_update_same(hs: Seq<HighlightV>, i: int, h2: HighlightV)
    requires
        0 <= i < hs.len(),
        norm(h2.text) == norm(hs[i].text),
    ensures
        texts_of(hs.update(i, h2)) == texts_of(hs),
{
    assert(texts_seq(hs.update(i, h2)) =~= texts_seq(hs));
}

/// One highlight folded in: the set of normalized texts gains the incoming
/// text; distinctness is preserved; the length grows exactly when the text
/// was new.
proof fn lemma_fold_highlight_ensures(acc: Seq<HighlightV>, h: HighlightV)
    ensures
        texts_of(crate::merge::fold_highlight(acc, h)) == texts_of(acc).insert(norm(h.text)),
        distinct_norm_texts(acc) ==> distinct_norm_texts(crate::merge::fold_highlight(acc, h)),
        crate::merge::fold_highlight(acc, h).len() == (if texts_of(acc).contains(norm(h.text)) {
            acc.len()
        } else {
            acc.len() + 1
        }),
{
    let t = norm(h.text);
    crate::merge::lemma_first_match_props(acc, t);
    lemma_texts_contains(acc, t);
    let i = crate::merge::first_match_idx(acc, t);
    if i < acc.len() {
        let merged = crate::merge::merge_dup_highlight(acc[i], h);
        assert(merged.text == acc[i].text);
        lemma_texts_update_same(acc, i, merged);
        assert(texts_of(acc).contains(t));
        assert(texts_of(acc).insert(t) =~= texts_of(acc));
        let r = acc.update(i, merged);
        assert(distinct_norm_texts(acc) ==> distinct_norm_texts(r)) by {
            if distinct_norm_texts(acc) {
                assert forall|x: int, y: int| 0 <= x < y < r.len() implies norm(
                    #[trigger] r[x].text,
                ) != norm(#[trigger] r[y].text) by {
                    assert(norm(r[x].text) == norm(acc[x].text));
                    assert(norm(r[y].text) == norm(acc[y].text));
                }
            }
        }
    } else {
        lemma_texts_push(acc, h);
        assert(!texts_of(acc).contains(t));
        let r = acc.push(h);
        assert(distinct_norm_texts(acc) ==> distinct_norm_texts(r)) by {
            if distinct_norm_texts(acc) {
                assert forall|x: int, y: int| 0 <= x < y < r.len() implies norm(
                    #[trigger] r[x].text,
                ) != norm(#[trigger] r[y].text) by {
                    if y == acc.len() {
                        assert(norm(acc[x].text) != t);
                    }
                }
            }
        }
    }
}

/// Folding a whole list in: the texts become the union; distinctness of the
/// accumulator is preserved.
proof fn lemma_fold_highlights_ensures(acc: Seq<HighlightV>, os: Seq<HighlightV>)
    ensures
        texts_of(crate::merge::fold_highlights(acc, os)) == texts_of(acc).union(texts_of(os)),
        distinct_norm_texts(acc) ==> distinct_norm_texts(
            crate::merge::fold_highlights(acc, os),
        ),
    decreases os.len(),
{
    if os.len() == 0 {
        assert(texts_seq(os).len() == 0);
        assert(texts_of(os) =~= Set::<Seq<char>>::empty());
        assert(texts_of(acc).union(texts_of(os)) =~= texts_of(acc));
    } else {
        let pre = crate::merge::fold_highlights(acc, os.drop_last());
        lemma_fold_highlights_ensures(acc, os.drop_last());
        lemma_fold_highlight_ensures(pre, os.last());
        lemma_texts_push(os.drop_last(), os.last());
        assert(os.drop_last().push(os.last()) =~= os);
        assert(texts_of(os) == texts_of(os.drop_last()).insert(norm(os.last().text)));
        assert(texts_of(acc).union(texts_of(os.drop_last())).insert(norm(os.last().text))
            =~= texts_of(acc).union(texts_of(os)));
    }
}

/// Folding in highlights whose normalized texts are all already present
/// leaves the length and the texts unchanged.
proof fn lemma_fold_highlights_noop(acc: Seq<HighlightV>, os: Seq<HighlightV>)
    requires
        texts_of(os).subset_of(texts_of(acc)),
    ensures
        crate::merge::fold_highlights(acc, os).len() == acc.len(),
        texts_of(crate::merge::fold_highlights(acc, os)) == texts_of(acc),
    decreases os.len(),
{
    if os.len() > 0 {
        assert(texts_of(os.drop_last()).subset_of(texts_of(acc))) by {
            assert forall|t: Seq<char>| texts_of(os.drop_last()).contains(t) implies texts_of(
                acc,
            ).contains(t) by {
                lemma_texts_contains(os.drop_last(), t);
                let i = choose|i: int|
                    0 <= i < os.drop_last().len() && norm(#[trigger] os.drop_last()[i].text)
                        == t;
                lemma_texts_contains(os, t);
                assert(norm(os[i].text) == t);
            }
        }
        let pre = crate::merge::fold_highlights(acc, os.drop_last());
        lemma_fold_highlights_noop(acc, os.drop_last());
        lemma_fold_highlight_ensures(pre, os.last());
        let t = norm(os.last().text);
        assert(texts_of(os).contains(t)) by {
            lemma_texts_contains(os, t);
            assert(norm(os[os.len() - 1].text) == t);
        }
        assert(texts_of(pre).contains(t));
        assert(texts_of(pre).insert(t) =~= texts_of(pre));
    }
}

/// A list with pairwise distinct normalized texts has exactly as many
/// highlights as it has normalized texts.
proof fn lemma_distinct_len_card(hs: Seq<HighlightV>)
    requires
        distinct_norm_texts(hs),
    ensures
        hs.len() == texts_of(hs).len(),
{
    assert(texts_seq(hs).no_duplicates()) by {
        assert forall|i: int, j: int|
            0 <= i < texts_seq(hs).len() && 0 <= j < texts_seq(hs).len() && i != j implies
            texts_seq(hs)[i] != texts_seq(hs)[j] by {
            assert(texts_seq(hs)[i] == norm(hs[i].text));
            assert(texts_seq(hs)[j] == norm(hs[j].text));
        }
    }
    texts_seq(hs).unique_seq_to_set();
}

/// Lists that are permutations of one another have the same length, the same
/// normalized texts, and the same distinctness.
proof fn lemma_multiset_texts(s1: Seq<HighlightV>, s2: Seq<HighlightV>)
    requires
        s1.to_multiset() == s2.to_multiset(),
    ensures
        s1.len() == s2.len(),
        texts_of(s1) == texts_of(s2),
        distinct_norm_texts(s1) ==> distinct_norm_texts(s2),
{
    vstd::seq_lib::to_multiset_len(s1);
    vstd::seq_lib::to_multiset_len(s2);
    assert(s1.len() == s2.len());
    assert forall|t: Seq<char>| texts_of(s1).contains(t) == texts_of(s2).contains(t) by {
        lemma_texts_contains(s1, t);
        lemma_texts_contains(s2, t);
        if texts_of(s1).contains(t) {
            let i = choose|i: int| 0 <= i < s1.len() && norm(#[trigger] s1[i].text) == t;
            assert(s1.contains(s1[i]));
            vstd::seq_lib::to_multiset_contains(s1, s1[i]);
            vstd::seq_lib::to_multiset_contains(s2, s1[i]);
            assert(s2.contains(s1[i]));
            let k = choose|k: int| 0 <= k < s2.len() && s2[k] == s1[i];
            assert(norm(s2[k].text) == t);
        }
        if texts_of(s2).contains(t) {
            let i = choose|i: int| 0 <= i < s2.len() && norm(#[trigger] s2[i].text) == t;
            assert(s2.contains(s2[i]));
            vstd::seq_lib::to_multiset_contains(s2, s2[i]);
            vstd::seq_lib::to_multiset_contains(s1, s2[i]);
            assert(s1.contains(s2[i]));
            let k = choose|k: int| 0 <= k < s1.len() && s1[k] == s2[i];
            assert(norm(s1[k].text) == t);
        }
    }
    assert(texts_of(s1) =~= texts_of(s2));
    if distinct_norm_texts(s1) {
        assert(s1.no_duplicates()) by {
            assert forall|i: int, j: int|
                0 <= i < s1.len() && 0 <= j < s1.len() && i != j implies s1[i] != s1[j] by {
                if i < j {
                    assert(norm(s1[i].text) != norm(s1[j].text));
                } else {
                    assert(norm(s1[j].text) != norm(s1[i].text));
                }
            }
        }
        s1.lemma_multiset_has_no_duplicates();
        s2.lemma_multiset_has_no_duplicates_conv();
        assert forall|i: int, j: int| 0 <= i < j < s2.len() implies norm(
            #[trigger] s2[i].text,
        ) != norm(#[trigger] s2[j].text) by {
            assert(s2[i] != s2[j]);
            assert(s2.contains(s2[i]));
            vstd::seq_lib::to_multiset_contains(s2, s2[i]);
            vstd::seq_lib::to_multiset_contains(s1, s2[i]);
            assert(s1.contains(s2[i]));
            assert(s2.contains(s2[j]));
            vstd::seq_lib::to_multiset_contains(s2, s2[j]);
            vstd::seq_lib::to_multiset_contains(s1, s2[j]);
            assert(s1.contains(s2[j]));
            let x = choose|x: int| 0 <= x < s1.len() && s1[x] == s2[i];
            let y = choose|y: int| 0 <= y < s1.len() && s1[y] == s2[j];
            assert(x != y);
            if x < y {
                assert(norm(s1[x].text) != norm(s1[y].text));
            } else {
                assert(norm(s1[y].text) != norm(s1[x].text));
            }
        }
    }
}

/// The union of sources contains exactly the sources of both inputs.
proof fn lemma_union_sources_set(es: Seq<Source>, os: Seq<Source>)
    ensures
        union_sources(es, os).to_set() == es.to_set().union(os.to_set()),
    decreases os.len(),
{
    if os.len() == 0 {
        assert(os.to_set() =~= Set::<Source>::empty());
        assert(union_sources(es, os).to_set() =~= es.to_set().union(os.to_set()));
    } else {
        lemma_union_sources_set(es, os.drop_last());
        let pre = union_sources(es, os.drop_last());
        let s = os.last();
        os.drop_last().lemma_push_to_set_commute(s);
        assert(os.drop_last().push(s) =~= os);
        assert(os.to_set() == os.drop_last().to_set().insert(s));
        if pre.contains(s) {
            assert(pre.to_set().contains(s));
            assert(union_sources(es, os).to_set() =~= es.to_set().union(os.to_set()));
        } else {
            pre.lemma_push_to_set_commute(s);
            assert(union_sources(es, os).to_set() =~= es.to_set().union(os.to_set()));
        }
    }
}

/// Commutative grouping: merging two same-identifier books in either order
/// yields one book with, up to the documented tie-break rules, the same
/// content: identifier, finished flag, finished timestamp, set of sources,
/// and set and number of highlights (keyed by normalized text). Each input
/// book is assumed not to carry two highlights with the same normalized text.
pub proof fn lemma_commutative_grouping(a: BookV, b: BookV)
    requires
        a.id == b.id,
    ensures
        merge_books_spec(seq![seq![a], seq![b]]).len() == 1,
        merge_books_spec(seq![seq![b], seq![a]]).len() == 1,
        ({
            let m1 = merge_books_spec(seq![seq![a], seq![b]])[0];
            let m2 = merge_books_spec(seq![seq![b], seq![a]])[0];
            &&& m1.id == m2.id
            &&& m1.finished == m2.finished
            &&& m1.finished_at == m2.finished_at
            &&& m1.sources.to_set() == m2.sources.to_set()
            &&& texts_of(m1.highlights) == texts_of(m2.highlights)
        }),
{
    lemma_merge_pair(a, b);
    lemma_merge_pair(b, a);
    let sa = crate::merge::sorted_book(a);
    let sb = crate::merge::sorted_book(b);
    lemma_sort_highlights_ensures(a.highlights);
    lemma_sort_highlights_ensures(b.highlights);
    lemma_multiset_texts(a.highlights, sa.highlights);
    lemma_multiset_texts(b.highlights, sb.highlights);
    let m1 = merge_book_spec(sa, b);
    let m2 = merge_book_spec(sb, a);
    lemma_merge_finished_comm(a.finished, b.finished);
    lemma_earlier_opt_comm(a.finished_at, b.finished_at);
    lemma_union_sources_set(a.sources, b.sources);
    lemma_union_sources_set(b.sources, a.sources);
    assert(m1.sources.to_set() =~= m2.sources.to_set());
    let f1 = crate::merge::fold_highlights(sa.highlights, b.highlights);
    let f2 = crate::merge::fold_highlights(sb.highlights, a.highlights);
    lemma_fold_highlights_ensures(sa.highlights, b.highlights);
    lemma_fold_highlights_ensures(sb.highlights, a.highlights);
    assert(texts_of(f1) =~= texts_of(f2));
    lemma_sort_highlights_ensures(f1);
    lemma_sort_highlights_ensures(f2);
    lemma_multiset_texts(f1, m1.highlights);
    lemma_multiset_texts(f2, m2.highlights);
}

/// Commutative grouping, counted: when neither book carries two highlights
/// with the same normalized text, the merged book also has the same number
/// of highlights in either order.
pub proof fn lemma_commutative_grouping_counts(a: BookV, b: BookV)
    requires
        a.id == b.id,
        distinct_norm_texts(a.highlights),
        distinct_norm_texts(b.highlights),
    ensures
        merge_books_spec(seq![seq![a], seq![b]]).len() == 1,
        merge_books_spec(seq![seq![b], seq![a]]).len() == 1,
        merge_books_spec(seq![seq![a], seq![b]])[0].highlights.len() == merge_books_spec(
            seq![seq![b], seq![a]],
        )[0].highlights.len(),
{
    lemma_commutative_grouping(a, b);
    lemma_merge_pair(a, b);
    lemma_merge_pair(b, a);
    let sa = crate::merge::sorted_book(a);
    let sb = crate::merge::sorted_book(b);
    lemma_sort_highlights_ensures(a.highlights);
    lemma_sort_highlights_ensures(b.highlights);
    lemma_multiset_texts(a.highlights, sa.highlights);
    lemma_multiset_texts(b.highlights, sb.highlights);
    let m1 = merge_book_spec(sa, b);
    let m2 = merge_book_spec(sb, a);
    let f1 = crate::merge::fold_highlights(sa.highlights, b.highlights);
    let f2 = crate::merge::fold_highlights(sb.highlights, a.highlights);
    lemma_fold_highlights_ensures(sa.highlights, b.highlights);
    lemma_fold_highlights_ensures(sb.highlights, a.highlights);
    lemma_distinct_len_card(f1);
    lemma_distinct_len_card(f2);
    lemma_sort_highlights_ensures(f1);
    lemma_sort_highlights_ensures(f2);
    lemma_multiset_texts(f1, m1.highlights);
    lemma_multiset_texts(f2, m2.highlights);
    assert(texts_of(f1) =~= texts_of(f2));
}

/// No two grouped books share an identifier.
pub open spec fn ids_distinct(bs: Seq<BookV>) -> bool {
    forall|i: int, j: int| 0 <= i < j < bs.len() ==> (#[trigger] bs[i].id) != (#[trigger] bs[j].id)
}

/// Books that agree on identifier, title, highlight count and highlight
/// texts; what dedup idempotence compares across the two merges.
spec fn same_shape(x: BookV, y: BookV) -> bool {
    &&& x.id == y.id
    &&& x.title == y.title
    &&& x.highlights.len() == y.highlights.len()
    &&& texts_of(x.highlights) == texts_of(y.highlights)
}

spec fn shapes_eq(s1: Seq<BookV>, s2: Seq<BookV>) -> bool {
    s1.len() == s2.len() && forall|i: int|
        0 <= i < s1.len() ==> same_shape(#[trigger] s1[i], #[trigger] s2[i])
}

/// Every book of `l` already has a slot in `acc` that carries all of its
/// highlight texts.
spec fn saturated(acc: Seq<BookV>, l: Seq<BookV>) -> bool {
    forall|x: int|
        0 <= x < l.len() ==> exists|k: int|
            0 <= k < acc.len() && acc[k].id == (#[trigger] l[x]).id && texts_of(
                l[x].highlights,
            ).subset_of(texts_of(acc[k].highlights))
}

proof fn lemma_merge_book_texts(e: BookV, o: BookV)
    ensures
        merge_book_spec(e, o).id == e.id,
        merge_book_spec(e, o).title == e.title,
        texts_of(merge_book_spec(e, o).highlights) == texts_of(e.highlights).union(
            texts_of(o.highlights),
        ),
        texts_of(o.highlights).subset_of(texts_of(e.highlights)) ==> merge_book_spec(
            e,
            o,
        ).highlights.len() == e.highlights.len(),
{
    let f = crate::merge::fold_highlights(e.highlights, o.highlights);
    lemma_fold_highlights_ensures(e.highlights, o.highlights);
    lemma_sort_highlights_ensures(f);
    lemma_multiset_texts(f, sort_highlights_spec(f));
    if texts_of(o.highlights).subset_of(texts_of(e.highlights)) {
        lemma_fold_highlights_noop(e.highlights, o.highlights);
    }
}

proof fn lemma_group_book_props(acc: Seq<BookV>, b: BookV)
    requires
        ids_distinct(acc),
    ensures
        ids_distinct(group_book(acc, b)),
        group_book(acc, b).len() >= acc.len(),
        forall|k: int|
            0 <= k < acc.len() ==> (#[trigger] group_book(acc, b)[k]).id == acc[k].id
                && group_book(acc, b)[k].title == acc[k].title && texts_of(
                acc[k].highlights,
            ).subset_of(texts_of(group_book(acc, b)[k].highlights)),
        exists|k: int|
            0 <= k < group_book(acc, b).len() && (#[trigger] group_book(acc, b)[k]).id == b.id
                && texts_of(b.highlights).subset_of(texts_of(group_book(acc, b)[k].highlights)),
{
    crate::merge::lemma_first_id_props(acc, b.id);
    let i = crate::merge::first_id_idx(acc, b.id);
    let g = group_book(acc, b);
    if i < acc.len() {
        lemma_merge_book_texts(acc[i], b);
        assert forall|k: int| 0 <= k < acc.len() implies (#[trigger] g[k]).id == acc[k].id
            && g[k].title == acc[k].title && texts_of(acc[k].highlights).subset_of(
            texts_of(g[k].highlights),
        ) by {
            if k == i {
                assert forall|t: Seq<char>|
                    texts_of(acc[k].highlights).contains(t) implies texts_of(
                    g[k].highlights,
                ).contains(t) by {}
            }
        }
        assert(g[i].id == b.id && texts_of(b.highlights).subset_of(texts_of(g[i].highlights)))
            by {
            assert forall|t: Seq<char>| texts_of(b.highlights).contains(t) implies texts_of(
                g[i].highlights,
            ).contains(t) by {}
        }
    } else {
        let sb = crate::merge::sorted_book(b);
        lemma_sort_highlights_ensures(b.highlights);
        lemma_multiset_texts(b.highlights, sb.highlights);
        assert(g == acc.push(sb));
        assert forall|k: int| 0 <= k < acc.len() implies (#[trigger] g[k]).id == acc[k].id
            && g[k].title == acc[k].title && texts_of(acc[k].highlights).subset_of(
            texts_of(g[k].highlights),
        ) by {}
        assert(g[acc.len() as int] == sb);
        assert(g[acc.len() as int].id == b.id && texts_of(b.highlights).subset_of(
            texts_of(g[acc.len() as int].highlights),
        ));
    }
}

proof fn lemma_group_list_props(acc: Seq<BookV>, l: Seq<BookV>)
    requires
        ids_distinct(acc),
    ensures
        ids_distinct(group_list(acc, l)),
        group_list(acc, l).len() >= acc.len(),
        forall|k: int|
            0 <= k < acc.len() ==> (#[trigger] group_list(acc, l)[k]).id == acc[k].id
                && group_list(acc, l)[k].title == acc[k].title && texts_of(
                acc[k].highlights,
            ).subset_of(texts_of(group_list(acc, l)[k].highlights)),
        saturated(group_list(acc, l), l),
    decreases l.len(),
{
    let g = group_list(acc, l);
    if l.len() == 0 {
        assert forall|k: int| 0 <= k < acc.len() implies (#[trigger] g[k]).id == acc[k].id
            && g[k].title == acc[k].title && texts_of(acc[k].highlights).subset_of(
            texts_of(g[k].highlights),
        ) by {}
    } else {
        let dl = l.drop_last();
        let b = l.last();
        lemma_group_list_props(acc, dl);
        let g1 = group_list(acc, dl);
        lemma_group_book_props(g1, b);
        assert(g == group_book(g1, b));
        assert forall|k: int| 0 <= k < acc.len() implies (#[trigger] g[k]).id == acc[k].id
            && g[k].title == acc[k].title && texts_of(acc[k].highlights).subset_of(
            texts_of(g[k].highlights),
        ) by {
            assert(g1[k].id == acc[k].id);
            assert forall|t: Seq<char>|
                texts_of(acc[k].highlights).contains(t) implies texts_of(
                g[k].highlights,
            ).contains(t) by {
                assert(texts_of(g1[k].highlights).contains(t));
            }
        }
        assert forall|x: int| 0 <= x < l.len() implies exists|k: int|
            0 <= k < g.len() && g[k].id == (#[trigger] l[x]).id && texts_of(
                l[x].highlights,
            ).subset_of(texts_of(g[k].highlights)) by {
            if x < l.len() - 1 {
                assert(dl[x] == l[x]);
                assert(saturated(g1, dl));
                let k = choose|k: int|
                    0 <= k < g1.len() && g1[k].id == dl[x].id && texts_of(
                        dl[x].highlights,
                    ).subset_of(texts_of(g1[k].highlights));
                assert(g[k].id == g1[k].id);
                assert(texts_of(l[x].highlights).subset_of(texts_of(g[k].highlights))) by {
                    assert forall|t: Seq<char>|
                        texts_of(l[x].highlights).contains(t) implies texts_of(
                        g[k].highlights,
                    ).contains(t) by {
                        assert(texts_of(g1[k].highlights).contains(t));
                    }
                }
            } else {
                assert(l[x] == b);
                let k = choose|k: int|
                    0 <= k < g.len() && g[k].id == b.id && texts_of(b.highlights).subset_of(
                        texts_of(g[k].highlights),
                    );
                assert(0 <= k < g.len() && g[k].id == l[x].id && texts_of(
                    l[x].highlights,
                ).subset_of(texts_of(g[k].highlights)));
            }
        }
    }
}

proof fn lemma_group_second_pass(acc: Seq<BookV>, l: Seq<BookV>)
    requires
        ids_distinct(acc),
        saturated(acc, l),
    ensures
        shapes_eq(group_list(acc, l), acc),
    decreases l.len(),
{
    if l.len() == 0 {
    } else {
        let dl = l.drop_last();
        let b = l.last();
        assert(saturated(acc, dl)) by {
            assert forall|x: int| 0 <= x < dl.len() implies exists|k: int|
                0 <= k < acc.len() && acc[k].id == (#[trigger] dl[x]).id && texts_of(
                    dl[x].highlights,
                ).subset_of(texts_of(acc[k].highlights)) by {
                assert(dl[x] == l[x]);
                let k = choose|k: int|
                    0 <= k < acc.len() && acc[k].id == l[x].id && texts_of(
                        l[x].highlights,
                    ).subset_of(texts_of(acc[k].highlights));
                assert(0 <= k < acc.len() && acc[k].id == dl[x].id && texts_of(
                    dl[x].highlights,
                ).subset_of(texts_of(acc[k].highlights)));
            }
        }
        lemma_group_second_pass(acc, dl);
        let g1 = group_list(acc, dl);
        assert(l[l.len() - 1] == b);
        let k0 = choose|k: int|
            0 <= k < acc.len() && acc[k].id == b.id && texts_of(b.highlights).subset_of(
                texts_of(acc[k].highlights),
            );
        assert(ids_distinct(g1)) by {
            assert forall|i: int, j: int| 0 <= i < j < g1.len() implies (#[trigger] g1[i].id)
                != (#[trigger] g1[j].id) by {
                assert(same_shape(g1[i], acc[i]));
                assert(same_shape(g1[j], acc[j]));
            }
        }
        crate::merge::lemma_first_id_props(g1, b.id);
        let i = crate::merge::first_id_idx(g1, b.id);
        assert(same_shape(g1[k0], acc[k0]));
        assert(g1[k0].id == b.id);
        assert(i < g1.len());
        assert(i == k0) by {
            if i < k0 {
                assert(g1[i].id == g1[k0].id);
            }
        }
        lemma_merge_book_texts(g1[i], b);
        let m = merge_book_spec(g1[i], b);
        assert(texts_of(b.highlights).subset_of(texts_of(g1[i].highlights)));
        assert(texts_of(m.highlights) =~= texts_of(g1[i].highlights)) by {
            assert forall|t: Seq<char>|
                texts_of(m.highlights).contains(t) == texts_of(
                g1[i].highlights,
            ).contains(t) by {}
        }
        let g = group_book(g1, b);
        assert(g == g1.update(i, m));
        assert forall|x: int| 0 <= x < g.len() implies same_shape(
            #[trigger] g[x],
            #[trigger] acc[x],
        ) by {
            if x == i {
                assert(same_shape(g1[i], acc[i]));
            } else {
                assert(g[x] == g1[x]);
                assert(same_shape(g1[x], acc[x]));
            }
        }
    }
}

proof fn lemma_insert_book_shapes(s1: Seq<BookV>, s2: Seq<BookV>, b1: BookV, b2: BookV)
    requires
        shapes_eq(s1, s2),
        same_shape(b1, b2),
    ensures
        shapes_eq(insert_book(s1, b1), insert_book(s2, b2)),
    decreases s1.len(),
{
    if s1.len() == 0 {
        assert(shapes_eq(seq![b1], seq![b2]));
    } else {
        assert(same_shape(s1.last(), s2.last()));
        assert(book_le(s1.last(), b1) == book_le(s2.last(), b2));
        if book_le(s1.last(), b1) {
            assert(shapes_eq(s1.push(b1), s2.push(b2)));
        } else {
            assert(shapes_eq(s1.drop_last(), s2.drop_last())) by {
                assert forall|x: int| 0 <= x < s1.drop_last().len() implies same_shape(
                    #[trigger] s1.drop_last()[x],
                    #[trigger] s2.drop_last()[x],
                ) by {
                    assert(same_shape(s1[x], s2[x]));
                }
            }
            lemma_insert_book_shapes(s1.drop_last(), s2.drop_last(), b1, b2);
            let r1 = insert_book(s1.drop_last(), b1);
            let r2 = insert_book(s2.drop_last(), b2);
            assert(shapes_eq(r1.push(s1.last()), r2.push(s2.last())));
        }
    }
}

proof fn lemma_sort_books_shapes(s1: Seq<BookV>, s2: Seq<BookV>)
    requires
        shapes_eq(s1, s2),
    ensures
        shapes_eq(sort_books_spec(s1), sort_books_spec(s2)),
    decreases s1.len(),
{
    if s1.len() > 0 {
        assert(shapes_eq(s1.drop_last(), s2.drop_last())) by {
            assert forall|x: int| 0 <= x < s1.drop_last().len() implies same_shape(
                #[trigger] s1.drop_last()[x],
                #[trigger] s2.drop_last()[x],
            ) by {
                assert(same_shape(s1[x], s2[x]));
            }
        }
        lemma_sort_books_shapes(s1.drop_last(), s2.drop_last());
        assert(same_shape(s1.last(), s2.last()));
        lemma_insert_book_shapes(
            sort_books_spec(s1.drop_last()),
            sort_books_spec(s2.drop_last()),
            s1.last(),
            s2.last(),
        );
    }
}

/// Dedup idempotence: merging a book list with itself yields books with the
/// same identifiers, titles and highlight counts as merging it once.
pub proof fn lemma_dedup_idempotent(l: Seq<BookV>)
    ensures
        merge_books_spec(seq![l, l]).len() == merge_books_spec(seq![l]).len(),
        forall|i: int|
            0 <= i < merge_books_spec(seq![l]).len() ==> {
                let r1 = #[trigger] merge_books_spec(seq![l])[i];
                let r2 = merge_books_spec(seq![l, l])[i];
                r1.id == r2.id && r1.title == r2.title && r1.highlights.len()
                    == r2.highlights.len()
            },
{
    let empty_lists = Seq::<Seq<BookV>>::empty();
    let empty_books = Seq::<BookV>::empty();
    assert(seq![l].drop_last() =~= empty_lists);
    assert(group_lists(empty_books, empty_lists) == empty_books);
    let g1 = group_list(empty_books, l);
    assert(group_lists(empty_books, seq![l]) == g1);
    assert(seq![l, l].drop_last() =~= seq![l]);
    let g2 = group_list(g1, l);
    assert(group_lists(empty_books, seq![l, l]) == g2);
    lemma_group_list_props(empty_books, l);
    lemma_group_second_pass(g1, l);
    lemma_sort_books_shapes(g2, g1);
    assert(shapes_eq(merge_books_spec(seq![l, l]), merge_books_spec(seq![l])));
    assert forall|i: int| 0 <= i < merge_books_spec(seq![l]).len() implies {
        let r1 = #[trigger] merge_books_spec(seq![l])[i];
        let r2 = merge_books_spec(seq![l, l])[i];
        r1.id == r2.id && r1.title == r2.title && r1.highlights.len() == r2.highlights.len()
    } by {
        assert(same_shape(merge_books_spec(seq![l, l])[i], merge_books_spec(seq![l])[i]));
    }
}

/// A well-formed book: its identifier is derived from its normalized title
/// and author, its sources carry no duplicates, and its highlights carry
/// non-empty text.
pub open spec fn book_wf(b: BookV) -> bool {
    &&& b.id == book_id_chars(b.title, b.author)
    &&& b.sources.no_duplicates()
    &&& forall|j: int| 0 <= j < b.highlights.len() ==> (#[trigger] b.highlights[j]).text.len() > 0
}

pub open spec fn books_wf(bs: Seq<BookV>) -> bool {
    forall|i: int| 0 <= i < bs.len() ==> book_wf(#[trigger] bs[i])
}

proof fn lemma_union_sources_no_dup(es: Seq<Source>, os: Seq<Source>)
    requires
        es.no_duplicates(),
    ensures
        union_sources(es, os).no_duplicates(),
    decreases os.len(),
{
    if os.len() > 0 {
        lemma_union_sources_no_dup(es, os.drop_last());
        let pre = union_sources(es, os.drop_last());
        let s = os.last();
        if !pre.contains(s) {
            assert forall|i: int, j: int|
                0 <= i < pre.push(s).len() && 0 <= j < pre.push(s).len() && i != j implies
                pre.push(s)[i] != pre.push(s)[j] by {
                if i < pre.len() && j < pre.len() {
                    assert(pre[i] != pre[j]);
                }
            }
        }
    }
}

proof fn lemma_fold_highlights_nonempty(acc: Seq<HighlightV>, os: Seq<HighlightV>)
    requires
        forall|j: int| 0 <= j < acc.len() ==> (#[trigger] acc[j]).text.len() > 0,
        forall|j: int| 0 <= j < os.len() ==> (#[trigger] os[j]).text.len() > 0,
    ensures
        forall|j: int|
            0 <= j < crate::merge::fold_highlights(acc, os).len() ==> (
            #[trigger] crate::merge::fold_highlights(acc, os)[j]).text.len() > 0,
    decreases os.len(),
{
    if os.len() > 0 {
        assert(forall|j: int|
            0 <= j < os.drop_last().len() ==> (#[trigger] os.drop_last()[j]).text.len() > 0);
        lemma_fold_highlights_nonempty(acc, os.drop_last());
        let pre = crate::merge::fold_highlights(acc, os.drop_last());
        let h = os.last();
        crate::merge::lemma_first_match_props(pre, norm(h.text));
        let i = crate::merge::first_match_idx(pre, norm(h.text));
        if i < pre.len() {
            let r = pre.update(i, crate::merge::merge_dup_highlight(pre[i], h));
            assert forall|j: int| 0 <= j < r.len() implies (#[trigger] r[j]).text.len() > 0 by {
                if j != i {
                    assert(r[j] == pre[j]);
                }
            }
        } else {
            assert(os[os.len() - 1].text.len() > 0);
        }
    }
}

proof fn lemma_merge_book_wf(e: BookV, o: BookV)
    requires
        book_wf(e),
        book_wf(o),
    ensures
        book_wf(merge_book_spec(e, o)),
{
    lemma_union_sources_no_dup(e.sources, o.sources);
    lemma_fold_highlights_nonempty(e.highlights, o.highlights);
    let f = crate::merge::fold_highlights(e.highlights, o.highlights);
    lemma_sort_highlights_ensures(f);
    let sorted = sort_highlights_spec(f);
    assert forall|j: int| 0 <= j < sorted.len() implies (#[trigger] sorted[j]).text.len()
        > 0 by {
        vstd::seq_lib::to_multiset_contains(sorted, sorted[j]);
        vstd::seq_lib::to_multiset_contains(f, sorted[j]);
        assert(sorted.contains(sorted[j]));
        assert(f.contains(sorted[j]));
        let k = choose|k: int| 0 <= k < f.len() && f[k] == sorted[j];
        assert(f[k].text.len() > 0);
    }
}

/// Sorting a book's highlights preserves its well-formedness.
proof fn lemma_sorted_book_wf(b: BookV)
    requires
        book_wf(b),
    ensures
        book_wf(crate::merge::sorted_book(b)),
{
    let sorted = sort_highlights_spec(b.highlights);
    lemma_sort_highlights_ensures(b.highlights);
    assert forall|j: int| 0 <= j < sorted.len() implies (#[trigger] sorted[j]).text.len()
        > 0 by {
        vstd::seq_lib::to_multiset_contains(sorted, sorted[j]);
        vstd::seq_lib::to_multiset_contains(b.highlights, sorted[j]);
        assert(sorted.contains(sorted[j]));
        assert(b.highlights.contains(sorted[j]));
        let k = choose|k: int| 0 <= k < b.highlights.len() && b.highlights[k] == sorted[j];
        assert(b.highlights[k].text.len() > 0);
    }
}

proof fn lemma_group_book_wf(acc: Seq<BookV>, b: BookV)
    requires
        books_wf(acc),
        book_wf(b),
    ensures
        books_wf(group_book(acc, b)),
{
    crate::merge::lemma_first_id_props(acc, b.id);
    let i = crate::merge::first_id_idx(acc, b.id);
    let g = group_book(acc, b);
    if i < acc.len() {
        lemma_merge_book_wf(acc[i], b);
        assert forall|k: int| 0 <= k < g.len() implies book_wf(#[trigger] g[k]) by {
            if k != i {
                assert(g[k] == acc[k]);
            }
        }
    } else {
        lemma_sorted_book_wf(b);
        assert forall|k: int| 0 <= k < g.len() implies book_wf(#[trigger] g[k]) by {
            if k < acc.len() {
                assert(g[k] == acc[k]);
            } else {
                assert(g[k] == crate::merge::sorted_book(b));
            }
        }
    }
}

proof fn lemma_group_list_wf(acc: Seq<BookV>, l: Seq<BookV>)
    requires
        books_wf(acc),
        books_wf(l),
    ensures
        books_wf(group_list(acc, l)),
    decreases l.len(),
{
    if l.len() > 0 {
        assert(books_wf(l.drop_last())) by {
            assert forall|i: int| 0 <= i < l.drop_last().len() implies book_wf(
                #[trigger] l.drop_last()[i],
            ) by {
                assert(l.drop_last()[i] == l[i]);
            }
        }
        lemma_group_list_wf(acc, l.drop_last());
        assert(book_wf(l[l.len() - 1]));
        lemma_group_book_wf(group_list(acc, l.drop_last()), l.last());
    }
}

/// The merge preserves the record invariants: when every input book is
/// well-formed, so is every merged book, and no two merged books share an
/// identifier.
pub proof fn lemma_merge_books_wf(lists: Seq<Seq<BookV>>)
    requires
        forall|i: int| 0 <= i < lists.len() ==> books_wf(#[trigger] lists[i]),
    ensures
        books_wf(merge_books_spec(lists)),
        ids_distinct(merge_books_spec(lists)),
    decreases lists.len(),
{
    let g = group_lists(Seq::empty(), lists);
    assert(books_wf(g) && ids_distinct(g)) by {
        lemma_group_lists_wf(Seq::empty(), lists);
    }
    lemma_sort_books_ensures(g);
    let sorted = sort_books_spec(g);
    assert forall|j: int| 0 <= j < sorted.len() implies book_wf(#[trigger] sorted[j]) by {
        vstd::seq_lib::to_multiset_contains(sorted, sorted[j]);
        vstd::seq_lib::to_multiset_contains(g, sorted[j]);
        let k = choose|k: int| 0 <= k < g.len() && g[k] == sorted[j];
        assert(book_wf(g[k]));
    }
    assert forall|i: int, j: int| 0 <= i < j < sorted.len() implies (#[trigger] sorted[i].id)
        != (#[trigger] sorted[j].id) by {
        if sorted[i] == sorted[j] {
            assert(g.no_duplicates()) by {
                assert forall|x: int, y: int|
                    0 <= x < g.len() && 0 <= y < g.len() && x != y implies g[x] != g[y] by {
                    if x < y {
                        assert(g[x].id != g[y].id);
                    } else {
                        assert(g[y].id != g[x].id);
                    }
                }
            }
            g.lemma_multiset_has_no_duplicates();
            sorted.lemma_multiset_has_no_duplicates_conv();
            assert(sorted[i] != sorted[j]);
        } else {
            vstd::seq_lib::to_multiset_contains(sorted, sorted[i]);
            vstd::seq_lib::to_multiset_contains(g, sorted[i]);
            vstd::seq_lib::to_multiset_contains(sorted, sorted[j]);
            vstd::seq_lib::to_multiset_contains(g, sorted[j]);
            let x = choose|x: int| 0 <= x < g.len() && g[x] == sorted[i];
            let y = choose|y: int| 0 <= y < g.len() && g[y] == sorted[j];
            assert(x != y);
            if x < y {
                assert(g[x].id != g[y].id);
            } else {
                assert(g[y].id != g[x].id);
            }
        }
    }
}

proof fn lemma_group_lists_wf(acc: Seq<BookV>, lists: Seq<Seq<BookV>>)
    requires
        books_wf(acc),
        ids_distinct(acc),
        forall|i: int| 0 <= i < lists.len() ==> books_wf(#[trigger] lists[i]),
    ensures
        books_wf(group_lists(acc, lists)),
        ids_distinct(group_lists(acc, lists)),
    decreases lists.len(),
{
    if lists.len() > 0 {
        assert(forall|i: int|
            0 <= i < lists.drop_last().len() ==> books_wf(#[trigger] lists.drop_last()[i]));
        lemma_group_lists_wf(acc, lists.drop_last());
        let g1 = group_lists(acc, lists.drop_last());
        assert(books_wf(lists[lists.len() - 1]));
        lemma_group_list_wf(g1, lists.last());
        lemma_group_list_props(g1, lists.last());
    }
}

/// Book ordering: the merged library is sorted by lower-cased title.
pub proof fn lemma_merge_books_sorted(lists: Seq<Seq<BookV>>)
    ensures
        books_sorted(merge_books_spec(lists)),
{
    lemma_sort_books_ensures(group_lists(Seq::empty(), lists));
}

/// Every book of the sequence has its highlights in highlight order.
pub open spec fn all_highlights_sorted(bs: Seq<BookV>) -> bool {
    forall|i: int| 0 <= i < bs.len() ==> hl_sorted((#[trigger] bs[i]).highlights)
}

proof fn lemma_group_book_hl_sorted(acc: Seq<BookV>, b: BookV)
    requires
        all_highlights_sorted(acc),
    ensures
        all_highlights_sorted(group_book(acc, b)),
{
    crate::merge::lemma_first_id_props(acc, b.id);
    let i = crate::merge::first_id_idx(acc, b.id);
    let g = group_book(acc, b);
    if i < acc.len() {
        lemma_sort_highlights_ensures(
            crate::merge::fold_highlights(acc[i].highlights, b.highlights),
        );
        assert forall|k: int| 0 <= k < g.len() implies hl_sorted(
            (#[trigger] g[k]).highlights,
        ) by {
            if k != i {
                assert(g[k] == acc[k]);
            }
        }
    } else {
        lemma_sort_highlights_ensures(b.highlights);
        assert forall|k: int| 0 <= k < g.len() implies hl_sorted(
            (#[trigger] g[k]).highlights,
        ) by {
            if k < acc.len() {
                assert(g[k] == acc[k]);
            } else {
                assert(g[k] == crate::merge::sorted_book(b));
            }
        }
    }
}

proof fn lemma_group_list_hl_sorted(acc: Seq<BookV>, l: Seq<BookV>)
    requires
        all_highlights_sorted(acc),
    ensures
        all_highlights_sorted(group_list(acc, l)),
    decreases l.len(),
{
    if l.len() > 0 {
        lemma_group_list_hl_sorted(acc, l.drop_last());
        lemma_group_book_hl_sorted(group_list(acc, l.drop_last()), l.last());
    }
}

proof fn lemma_group_lists_hl_sorted(acc: Seq<BookV>, lists: Seq<Seq<BookV>>)
    requires
        all_highlights_sorted(acc),
    ensures
        all_highlights_sorted(group_lists(acc, lists)),
    decreases lists.len(),
{
    if lists.len() > 0 {
        lemma_group_lists_hl_sorted(acc, lists.drop_last());
        lemma_group_list_hl_sorted(group_lists(acc, lists.drop_last()), lists.last());
    }
}

/// Highlight ordering holds of every merged book, folded into or not: its
/// highlights stand sorted by creation time, untimestamped entries last.
pub proof fn lemma_merge_books_highlights_sorted(lists: Seq<Seq<BookV>>)
    ensures
        all_highlights_sorted(merge_books_spec(lists)),
{
    let g = group_lists(Seq::empty(), lists);
    lemma_group_lists_hl_sorted(Seq::empty(), lists);
    lemma_sort_books_ensures(g);
    let sorted = sort_books_spec(g);
    assert forall|i: int| 0 <= i < sorted.len() implies hl_sorted(
        (#[trigger] sorted[i]).highlights,
    ) by {
        vstd::seq_lib::to_multiset_contains(sorted, sorted[i]);
        vstd::seq_lib::to_multiset_contains(g, sorted[i]);
        assert(sorted.contains(sorted[i]));
        assert(g.contains(sorted[i]));
        let k = choose|k: int| 0 <= k < g.len() && g[k] == sorted[i];
        assert(hl_sorted(g[k].highlights));
    }
}

/// Highlight ordering: sorting is a permutation that leaves the highlights
/// ordered by creation time, absent timestamps last.
pub proof fn lemma_sort_highlights_ensures(s: Seq<HighlightV>)
    ensures
        hl_sorted(sort_highlights_spec(s)),
        sort_highlights_spec(s).to_multiset() == s.to_multiset(),
    decreases s.len(),
{
    broadcast use group_to_multiset_ensures;

    if s.len() == 0 {
    } else {
        lemma_sort_highlights_ensures(s.drop_last());
        lemma_insert_hl_ensures(sort_highlights_spec(s.drop_last()), s.last());
        assert(s.drop_last().push(s.last()) =~= s);
        assert(s.to_multiset() == s.drop_last().to_multiset().insert(s.last()));
    }
}

/// Book ordering: sorting is a permutation that leaves the books ordered by
/// lower-cased title; the stable insertion keeps first-seen order on ties.
pub proof fn lemma_sort_books_ensures(s: Seq<BookV>)
    ensures
        books_sorted(sort_books_spec(s)),
        sort_books_spec(s).to_multiset() == s.to_multiset(),
    decreases s.len(),
{
    broadcast use group_to_multiset_ensures;

    if s.len() == 0 {
    } else {
        lemma_sort_books_ensures(s.drop_last());
        lemma_insert_book_ensures(sort_books_spec(s.drop_last()), s.last());
        assert(s.drop_last().push(s.last()) =~= s);
        assert(s.to_multiset() == s.drop_last().to_multiset().insert(s.last()));
    }
}

} // verus!
