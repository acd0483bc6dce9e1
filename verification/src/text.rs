//! Text normalization: lower-casing and whitespace collapsing, applied before
//! any text comparison (book identity and highlight deduplication).

use vstd::prelude::*;

verus! {

/// What `str::to_lowercase` returns for a given character sequence.
pub uninterp spec fn lower_of(s: Seq<char>) -> Seq<char>;

/// Relies on str::to_lowercase: the resulting characters are a function of
/// the input characters alone. Three further facts of it are relied on:
/// lower-casing is idempotent (the result holds no character with a distinct
/// lowercase form); collapsing whitespace in the result only removes
/// characters and inserts ASCII spaces, which are caseless, so the collapsed
/// result is also its own lowercase form; and on ASCII input the result is
/// the ASCII lowercase.
#[verifier::external_body]
pub(crate) fn lowercase(s: &str) -> (r: String)
    ensures
        r@ == lower_of(s@),
        s@.len() == 0 ==> r@.len() == 0,
        lower_of(r@) == r@,
        lower_of(collapse(r@)) == collapse(r@),
        vstd::utf8::is_ascii_chars(s@) ==> r@ == ascii_lower(s@),
{
    s.to_lowercase()
}

/// Relies on String::push: appends the given character to the end of the string.
pub assume_specification[ String::push ](s: &mut String, c: char)
    ensures
        final(s)@ == old(s)@.push(c),
;

/// What `char::is_alphanumeric` returns for a character.
pub uninterp spec fn is_alnum_char(c: char) -> bool;

/// Relies on char::is_alphanumeric: a function of the character alone.
pub assume_specification[ char::is_alphanumeric ](c: char) -> (r: bool)
    ensures
        r == is_alnum_char(c),
;

/// The Unicode `White_Space` code points, which `str::split_whitespace`
/// splits on.
pub open spec fn is_space_code(u: u32) -> bool {
    u == 0x20 || (0x09 <= u && u <= 0x0D) || u == 0x85 || u == 0xA0 || u == 0x1680 || (0x2000
        <= u && u <= 0x200A) || u == 0x2028 || u == 0x2029 || u == 0x202F || u == 0x205F || u
        == 0x3000
}

pub open spec fn is_space_char(c: char) -> bool {
    is_space_code(c as u32)
}

/// Whether `c` is a whitespace character for the purposes of normalization.
pub fn is_space(c: char) -> (r: bool)
    ensures
        r == is_space_char(c),
{
    let u = c as u32;
    u == 0x20 || (0x09 <= u && u <= 0x0D) || u == 0x85 || u == 0xA0 || u == 0x1680 || (0x2000
        <= u && u <= 0x200A) || u == 0x2028 || u == 0x2029 || u == 0x202F || u == 0x205F || u
        == 0x3000
}

/// One left-to-right pass over `s` that collapses whitespace: the first
/// component is the text built so far (words joined by single spaces, no
/// leading or trailing space), the second whether a space is owed before the
/// next word.
pub open spec fn collapse_st(s: Seq<char>) -> (Seq<char>, bool)
    decreases s.len(),
{
    if s.len() == 0 {
        (Seq::empty(), false)
    } else {
        let (out, pending) = collapse_st(s.drop_last());
        let c = s.last();
        if is_space_char(c) {
            (out, out.len() > 0)
        } else {
            if pending {
                (out.push(' ').push(c), false)
            } else {
                (out.push(c), false)
            }
        }
    }
}

/// `s` with every run of whitespace collapsed to a single space and
/// leading/trailing whitespace removed.
pub open spec fn collapse(s: Seq<char>) -> Seq<char> {
    collapse_st(s).0
}

/// The canonical form of a text: lower-cased, whitespace-collapsed.
pub open spec fn norm(s: Seq<char>) -> Seq<char> {
    collapse(lower_of(s))
}

/// The shape `collapse` leaves behind: every whitespace character is a single
/// ASCII space, and none stands first, last, or next to another.
pub open spec fn collapsed_form(t: Seq<char>) -> bool {
    &&& forall|i: int| 0 <= i < t.len() && is_space_char(#[trigger] t[i]) ==> t[i] == ' '
    &&& t.len() > 0 ==> !is_space_char(t[0])
    &&& t.len() > 0 ==> !is_space_char(t[t.len() - 1])
    &&& forall|i: int|
        0 < i < t.len() && is_space_char(#[trigger] t[i]) ==> !is_space_char(t[i - 1])
}

proof fn lemma_collapse_form(s: Seq<char>)
    ensures
        collapsed_form(collapse_st(s).0),
        collapse_st(s).1 ==> collapse_st(s).0.len() > 0,
    decreases s.len(),
{
    if s.len() > 0 {
        lemma_collapse_form(s.drop_last());
        let (out, pending) = collapse_st(s.drop_last());
        let c = s.last();
        if is_space_char(c) {
        } else if pending {
            let out2 = out.push(' ').push(c);
            assert(is_space_char(' '));
            assert(out.len() > 0);
            assert(!is_space_char(out[out.len() - 1]));
            assert forall|i: int|
                0 <= i < out2.len() && is_space_char(#[trigger] out2[i]) implies out2[i]
                == ' ' by {
                if i < out.len() {
                    assert(out2[i] == out[i]);
                }
            }
            assert forall|i: int|
                0 < i < out2.len() && is_space_char(#[trigger] out2[i]) implies !is_space_char(
                out2[i - 1],
            ) by {
                if i < out.len() {
                    assert(out2[i] == out[i] && out2[i - 1] == out[i - 1]);
                } else if i == out.len() + 1 {
                    assert(!is_space_char(c));
                    assert(false);
                }
            }
        } else {
            let out2 = out.push(c);
            assert forall|i: int|
                0 <= i < out2.len() && is_space_char(#[trigger] out2[i]) implies out2[i]
                == ' ' by {
                if i < out.len() {
                    assert(out2[i] == out[i]);
                }
            }
            assert forall|i: int|
                0 < i < out2.len() && is_space_char(#[trigger] out2[i]) implies !is_space_char(
                out2[i - 1],
            ) by {
                if i < out.len() {
                    assert(out2[i] == out[i] && out2[i - 1] == out[i - 1]);
                }
            }
        }
    }
}

proof fn lemma_collapse_fix(t: Seq<char>, i: int)
    requires
        collapsed_form(t),
        0 <= i <= t.len(),
    ensures
        collapse_st(t.take(i)) == (if i > 0 && t[i - 1] == ' ' {
            (t.take(i - 1), true)
        } else {
            (t.take(i), false)
        }),
    decreases i,
{
    if i == 0 {
        assert(t.take(0) =~= Seq::<char>::empty());
    } else {
        lemma_collapse_fix(t, i - 1);
        let c = t[i - 1];
        assert(t.take(i).drop_last() =~= t.take(i - 1));
        assert(t.take(i).last() == c);
        if is_space_char(c) {
            assert(c == ' ');
            assert(i - 1 > 0);
            assert(!is_space_char(t[i - 2]));
            assert(collapse_st(t.take(i - 1)) == (t.take(i - 1), false));
            assert(t.take(i - 1).len() > 0);
        } else {
            if i - 1 > 0 && t[i - 2] == ' ' {
                assert(collapse_st(t.take(i - 1)) == (t.take(i - 2), true));
                assert(t.take(i - 2).push(' ').push(c) =~= t.take(i)) by {
                    assert(is_space_char(t[i - 2]));
                }
            } else {
                assert(collapse_st(t.take(i - 1)) == (t.take(i - 1), false));
                assert(t.take(i - 1).push(c) =~= t.take(i));
            }
        }
    }
}

/// Whitespace collapsing is idempotent; normalization is as insensitive to
/// repeated application as its lower-casing stage is.
pub proof fn lemma_collapse_idempotent(s: Seq<char>)
    ensures
        collapse(collapse(s)) == collapse(s),
{
    lemma_collapse_form(s);
    let t = collapse(s);
    lemma_collapse_fix(t, t.len() as int);
    if t.len() > 0 {
        assert(!is_space_char(t[t.len() - 1]));
        assert(is_space_char(' '));
    }
    assert(t.take(t.len() as int) =~= t);
}

fn collapse_ws(s: &str) -> (r: String)
    ensures
        r@ == collapse(s@),
{
    let n = s.unicode_len();
    let mut out = String::new();
    let mut pending = false;
    for i in 0..n
        invariant
            n == s@.len(),
            out@ == collapse_st(s@.take(i as int)).0,
            pending == collapse_st(s@.take(i as int)).1,
    {
        let c = s.get_char(i);
        proof {
            assert(s@.take(i + 1).drop_last() =~= s@.take(i as int));
            assert(s@.take(i + 1).last() == c);
        }
        if is_space(c) {
            if !out.as_str().is_empty() {
                pending = true;
            }
        } else {
            if pending {
                out.push(' ');
                pending = false;
            }
            out.push(c);
        }
    }
    proof {
        assert(s@.take(n as int) =~= s@);
    }
    out
}

/// Canonicalizes free text for equality comparison: lower-cases the input,
/// splits on runs of whitespace and rejoins the words single-space-separated.
/// Total over every string, including the empty string, and idempotent: the
/// result is its own normal form.
pub fn normalize_text(text: &str) -> (r: String)
    ensures
        r@ == norm(text@),
        norm(r@) == r@,
{
    let lowered = lowercase(text);
    let out = collapse_ws(lowered.as_str());
    proof {
        lemma_collapse_idempotent(lowered@);
    }
    out
}

/// ASCII lower-casing of one character: `A`..`Z` map to `a`..`z`, everything
/// else is unchanged.
pub open spec fn ascii_lower_char(c: char) -> char {
    if 0x41 <= (c as u32) && (c as u32) <= 0x5A {
        (((c as u32) + 32) as u8) as char
    } else {
        c
    }
}

pub open spec fn ascii_lower(s: Seq<char>) -> Seq<char> {
    s.map_values(|c: char| ascii_lower_char(c))
}

/// ASCII lower-casing of a string; enough for the region codes it is used on.
pub fn ascii_lowercase(s: &str) -> (r: String)
    ensures
        r@ == ascii_lower(s@),
{
    let n = s.unicode_len();
    let mut out = String::new();
    for i in 0..n
        invariant
            n == s@.len(),
            out@ =~= ascii_lower(s@.take(i as int)),
    {
        let c = s.get_char(i);
        let u = c as u32;
        let lc: char = if 0x41 <= u && u <= 0x5A {
            ((u + 32) as u8) as char
        } else {
            c
        };
        out.push(lc);
        proof {
            assert(lc == ascii_lower_char(c));
            assert(ascii_lower(s@.take(i + 1)) =~= ascii_lower(s@.take(i as int)).push(
                ascii_lower_char(c),
            ));
        }
    }
    proof {
        assert(s@.take(n as int) =~= s@);
    }
    out
}

/// Character-by-character string equality.
pub fn str_eq(a: &str, b: &str) -> (r: bool)
    ensures
        r == (a@ == b@),
{
    let na = a.unicode_len();
    let nb = b.unicode_len();
    if na != nb {
        return false;
    }
    for i in 0..na
        invariant
            na == a@.len(),
            na == b@.len(),
            forall|j: int| 0 <= j < i ==> a@[j] == b@[j],
    {
        if a.get_char(i) != b.get_char(i) {
            return false;
        }
    }
    proof {
        assert(a@ =~= b@);
    }
    true
}

} // verus!
