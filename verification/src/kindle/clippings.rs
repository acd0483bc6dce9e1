//! Parser for the Kindle clippings file.
//!
//! The format, one entry per highlight:
//!
//! ```text
//! Book Title (Author Name)
//! - Your Highlight on Location 123-145 | Added on Monday, January 1, 2024
//!
//! The actual highlighted text goes here...
//! ==========
//! ```

use vstd::prelude::*;

use crate::model::{book_id_chars, Book, BookV, Highlight, HighlightV, Location, Source};
use crate::text::{ascii_lower, ascii_lowercase, is_space, is_space_char, str_eq};

verus! {

/// `s` without its leading whitespace.
pub open spec fn drop_leading_ws(s: Seq<char>) -> Seq<char>
    decreases s.len(),
{
    if s.len() > 0 && is_space_char(s.first()) {
        drop_leading_ws(s.drop_first())
    } else {
        s
    }
}

/// `s` without its trailing whitespace.
pub open spec fn drop_trailing_ws(s: Seq<char>) -> Seq<char>
    decreases s.len(),
{
    if s.len() > 0 && is_space_char(s.last()) {
        drop_trailing_ws(s.drop_last())
    } else {
        s
    }
}

/// `s` without leading and trailing whitespace.
pub open spec fn trim_spec(s: Seq<char>) -> Seq<char> {
    drop_trailing_ws(drop_leading_ws(s))
}

proof fn lemma_drop_leading_at(s: Seq<char>, a: int)
    requires
        0 <= a <= s.len(),
        forall|k: int| 0 <= k < a ==> is_space_char(#[trigger] s[k]),
        a < s.len() ==> !is_space_char(s[a]),
    ensures
        drop_leading_ws(s) == s.skip(a),
    decreases a,
{
    if a == 0 {
        assert(s.skip(0) =~= s);
    } else {
        assert(is_space_char(s[0]));
        let sub = s.drop_first();
        assert forall|k: int| 0 <= k < a - 1 implies is_space_char(#[trigger] sub[k]) by {
            assert(sub[k] == s[k + 1]);
        }
        assert(a - 1 < sub.len() ==> !is_space_char(sub[a - 1]));
        lemma_drop_leading_at(sub, a - 1);
        assert(sub.skip(a - 1) =~= s.skip(a));
    }
}

proof fn lemma_drop_trailing_at(s: Seq<char>, b: int)
    requires
        0 <= b <= s.len(),
        forall|k: int| b <= k < s.len() ==> is_space_char(#[trigger] s[k]),
        b > 0 ==> !is_space_char(s[b - 1]),
    ensures
        drop_trailing_ws(s) == s.take(b),
    decreases s.len() - b,
{
    if b == s.len() {
        if s.len() > 0 && is_space_char(s.last()) {
            assert(!is_space_char(s[b - 1]));
            assert(false);
        }
        assert(s.take(b) =~= s);
    } else {
        assert(is_space_char(s.last()));
        let sub = s.drop_last();
        lemma_drop_trailing_at(sub, b);
        assert(sub.take(b) =~= s.take(b));
    }
}

/// Remove leading and trailing whitespace.
pub fn trim_str(s: &str) -> (r: String)
    ensures
        r@ == trim_spec(s@),
{
    let n = s.unicode_len();
    let mut a: usize = 0;
    loop
        invariant
            a <= n,
            n == s@.len(),
            forall|k: int| 0 <= k < a ==> is_space_char(#[trigger] s@[k]),
        ensures
            a <= n,
            n == s@.len(),
            forall|k: int| 0 <= k < a ==> is_space_char(#[trigger] s@[k]),
            a < n ==> !is_space_char(s@[a as int]),
        decreases n - a,
    {
        if a == n {
            break ;
        }
        if !is_space(s.get_char(a)) {
            break ;
        }
        a = a + 1;
    }
    proof {
        lemma_drop_leading_at(s@, a as int);
    }
    if a == n {
        proof {
            assert(s@.skip(n as int) =~= Seq::<char>::empty());
            assert(drop_trailing_ws(Seq::<char>::empty()) == Seq::<char>::empty());
        }
        return String::new();
    }
    let mut b: usize = n;
    loop
        invariant
            n == s@.len(),
            a < n,
            a < b <= n,
            !is_space_char(s@[a as int]),
            forall|k: int| b <= k < n ==> is_space_char(#[trigger] s@[k]),
        ensures
            a < b <= n,
            forall|k: int| b <= k < n ==> is_space_char(#[trigger] s@[k]),
            !is_space_char(s@[b - 1]),
        decreases b,
    {
        if !is_space(s.get_char(b - 1)) {
            break ;
        }
        if b == a + 1 {
            proof {
                assert(!is_space_char(s@[a as int]));
                assert(false);
            }
            break ;
        }
        b = b - 1;
    }
    proof {
        let tail = s@.skip(a as int);
        assert forall|k: int| b - a <= k < tail.len() implies is_space_char(
            #[trigger] tail[k],
        ) by {
            assert(tail[k] == s@[k + a]);
        }
        assert(tail[b - a - 1] == s@[b - 1]);
        lemma_drop_trailing_at(tail, b - a);
        assert(s@.subrange(a as int, b as int) =~= tail.take(b - a));
    }
    s.substring_char(a, b).to_owned()
}

/// Whether the delimiter `d` occurs in `s` at position `i`.
pub open spec fn delim_at(s: Seq<char>, d: Seq<char>, i: int) -> bool {
    0 <= i && i + d.len() <= s.len() && s.subrange(i, i + d.len()) == d
}

/// The first position where `d` occurs in `s`, or -1.
pub open spec fn first_delim_idx(s: Seq<char>, d: Seq<char>) -> int
    decreases s.len(),
{
    if s.len() < d.len() {
        -1
    } else if s.take(d.len() as int) == d {
        0
    } else if s.len() == 0 {
        -1
    } else {
        let sub = first_delim_idx(s.drop_first(), d);
        if sub == -1 {
            -1
        } else {
            1 + sub
        }
    }
}

pub proof fn lemma_first_delim_props(s: Seq<char>, d: Seq<char>)
    ensures
        first_delim_idx(s, d) == -1 ==> forall|i: int| !delim_at(s, d, i),
        first_delim_idx(s, d) != -1 ==> 0 <= first_delim_idx(s, d) && first_delim_idx(s, d)
            + d.len() <= s.len() && delim_at(s, d, first_delim_idx(s, d)),
        forall|i: int|
            0 <= i < first_delim_idx(s, d) ==> !delim_at(s, d, i),
    decreases s.len(),
{
    let r = first_delim_idx(s, d);
    if s.len() < d.len() {
        assert forall|i: int| !delim_at(s, d, i) by {}
    } else if s.take(d.len() as int) == d {
        assert(s.subrange(0, d.len() as int) =~= s.take(d.len() as int));
    } else if s.len() == 0 {
        assert(s.take(d.len() as int) =~= d);
        assert(false);
    } else {
        let sub = s.drop_first();
        lemma_first_delim_props(sub, d);
        assert(!delim_at(s, d, 0)) by {
            assert(s.subrange(0, d.len() as int) =~= s.take(d.len() as int));
        }
        assert forall|i: int| 0 < i implies (delim_at(s, d, i) <==> delim_at(sub, d, i - 1)) by {
            if 0 < i && i + d.len() <= s.len() {
                assert(s.subrange(i, i + d.len()) =~= sub.subrange(i - 1, i - 1 + d.len()));
            }
        }
        if r != -1 {
            assert(delim_at(sub, d, r - 1));
            assert forall|i: int| 0 <= i < r implies !delim_at(s, d, i) by {
                if i > 0 {
                    assert(!delim_at(sub, d, i - 1));
                }
            }
        } else {
            assert forall|i: int| !delim_at(s, d, i) by {
                if i > 0 {
                    assert(!delim_at(sub, d, i - 1));
                }
            }
        }
    }
}

/// Find the first occurrence of `d` in `s`.
pub fn find_sub(s: &str, d: &str) -> (r: Option<usize>)
    requires
        d@.len() > 0,
    ensures
        match r {
            Some(i) => i == first_delim_idx(s@, d@),
            None => first_delim_idx(s@, d@) == -1,
        },
{
    let n = s.unicode_len();
    let m = d.unicode_len();
    if m > n {
        proof {
            lemma_first_delim_props(s@, d@);
            if first_delim_idx(s@, d@) != -1 {
                assert(delim_at(s@, d@, first_delim_idx(s@, d@)));
            }
        }
        return None;
    }
    let mut i: usize = 0;
    while i <= n - m
        invariant
            n == s@.len(),
            m == d@.len(),
            0 < m <= n,
            i <= n - m + 1,
            forall|j: int| 0 <= j < i ==> !delim_at(s@, d@, j),
        decreases n - m + 1 - i,
    {
        let piece = s.substring_char(i, i + m);
        if str_eq(piece, d) {
            proof {
                lemma_first_delim_props(s@, d@);
                assert(delim_at(s@, d@, i as int));
                let r = first_delim_idx(s@, d@);
                assert(r != -1);
                assert(!(r < i) && !(r > i));
            }
            return Some(i);
        }
        proof {
            assert(!delim_at(s@, d@, i as int));
        }
        i = i + 1;
    }
    proof {
        lemma_first_delim_props(s@, d@);
        if first_delim_idx(s@, d@) != -1 {
            assert(delim_at(s@, d@, first_delim_idx(s@, d@)));
        }
    }
    None
}

/// Whether `d` occurs anywhere in `s`.
pub fn contains_sub(s: &str, d: &str) -> (r: bool)
    requires
        d@.len() > 0,
    ensures
        r == (first_delim_idx(s@, d@) != -1),
{
    match find_sub(s, d) {
        Some(_) => true,
        None => false,
    }
}

/// `s` split on every occurrence of the delimiter `d`.
pub open spec fn split_delim(s: Seq<char>, d: Seq<char>) -> Seq<Seq<char>>
    decreases s.len()
        when d.len() > 0
        via split_delim_dec
{
    let i = first_delim_idx(s, d);
    if i == -1 {
        seq![s]
    } else {
        seq![s.take(i)] + split_delim(s.skip(i + d.len() as int), d)
    }
}

#[via_fn]
proof fn split_delim_dec(s: Seq<char>, d: Seq<char>) {
    lemma_first_delim_props(s, d);
}

/// Split `s` on every occurrence of `d`.
pub fn split_string(s: &str, d: &str) -> (r: Vec<String>)
    requires
        d@.len() > 0,
    ensures
        r.deep_view() == split_delim(s@, d@),
{
    let mut out: Vec<String> = Vec::new();
    let mut rest: String = s.to_owned();
    loop
        invariant_except_break
            split_delim(s@, d@) == out.deep_view() + split_delim(rest@, d@),
        invariant
            d@.len() > 0,
        ensures
            out.deep_view() == split_delim(s@, d@),
        decreases rest@.len(),
    {
        let ghost out0 = out.deep_view();
        let ghost old_rest = rest@;
        match find_sub(rest.as_str(), d) {
            Some(i) => {
                proof {
                    lemma_first_delim_props(old_rest, d@);
                }
                let m = d.unicode_len();
                let rn = rest.as_str().unicode_len();
                let piece = rest.as_str().substring_char(0, i).to_owned();
                let new_rest = rest.as_str().substring_char(i + m, rn).to_owned();
                proof {
                    assert(piece@ =~= old_rest.take(i as int));
                    assert(new_rest@ =~= old_rest.skip(i + d@.len() as int));
                }
                out.push(piece);
                rest = new_rest;
                proof {
                    assert(split_delim(old_rest, d@) == seq![old_rest.take(i as int)]
                        + split_delim(old_rest.skip(i + d@.len() as int), d@));
                    assert(out.deep_view() =~= out0.push(piece@));
                    assert(out0 + split_delim(old_rest, d@) =~= out.deep_view() + split_delim(
                        rest@,
                        d@,
                    ));
                }
            },
            None => {
                proof {
                    assert(split_delim(old_rest, d@) == seq![old_rest]);
                }
                out.push(rest);
                proof {
                    assert(out.deep_view() =~= out0.push(old_rest));
                    assert(out0 + seq![old_rest] =~= out.deep_view());
                }
                break ;
            },
        }
    }
    out
}

/// A line without a single trailing carriage return.
pub open spec fn strip_cr(l: Seq<char>) -> Seq<char> {
    if l.len() > 0 && l.last() == '\r' {
        l.drop_last()
    } else {
        l
    }
}

/// `s` with every carriage return that precedes a line feed removed.
pub open spec fn strip_cr_nl(s: Seq<char>) -> Seq<char>
    decreases s.len(),
{
    if s.len() == 0 {
        s
    } else if s.len() >= 2 && s.first() == '\r' && s[1] == '\n' {
        seq!['\n'] + strip_cr_nl(s.skip(2))
    } else {
        seq![s.first()] + strip_cr_nl(s.skip(1))
    }
}

fn strip_cr_str(l: &str) -> (r: String)
    ensures
        r@ == strip_cr(l@),
{
    let n = l.unicode_len();
    if n > 0 && l.get_char(n - 1) == '\r' {
        let r = l.substring_char(0, n - 1).to_owned();
        proof {
            assert(r@ =~= l@.drop_last());
        }
        r
    } else {
        l.to_owned()
    }
}

fn strip_cr_nl_str(s: &str) -> (r: String)
    ensures
        r@ == strip_cr_nl(s@),
{
    let n = s.unicode_len();
    let mut out = String::new();
    let mut i: usize = 0;
    proof {
        assert(s@.skip(0) =~= s@);
        assert(Seq::<char>::empty() + strip_cr_nl(s@) =~= strip_cr_nl(s@));
    }
    loop
        invariant_except_break
            i <= n,
            n == s@.len(),
            strip_cr_nl(s@) == out@ + strip_cr_nl(s@.skip(i as int)),
        ensures
            out@ == strip_cr_nl(s@),
        decreases n - i,
    {
        let ghost out0 = out@;
        if i == n {
            proof {
                assert(s@.skip(n as int) =~= Seq::<char>::empty());
                assert(out@ + strip_cr_nl(s@.skip(n as int)) =~= out@);
            }
            break ;
        }
        let c = s.get_char(i);
        let ghost tail = s@.skip(i as int);
        proof {
            assert(tail.first() == c);
            assert(tail.len() == n - i);
        }
        if c == '\r' && i + 1 < n && s.get_char(i + 1) == '\n' {
            out.push('\n');
            proof {
                assert(tail[1] == s@[i + 1]);
                assert(strip_cr_nl(tail) == seq!['\n'] + strip_cr_nl(tail.skip(2)));
                assert(tail.skip(2) =~= s@.skip(i + 2));
                assert(out@ =~= out0 + seq!['\n']);
                assert(out0 + (seq!['\n'] + strip_cr_nl(s@.skip(i + 2))) =~= out@ + strip_cr_nl(
                    s@.skip(i + 2),
                ));
            }
            i = i + 2;
        } else {
            out.push(c);
            proof {
                assert(!(tail.len() >= 2 && tail.first() == '\r' && tail[1] == '\n')) by {
                    if tail.len() >= 2 {
                        assert(tail[1] == s@[i + 1]);
                    }
                }
                assert(strip_cr_nl(tail) == seq![c] + strip_cr_nl(tail.skip(1)));
                assert(tail.skip(1) =~= s@.skip(i + 1));
                assert(out@ =~= out0 + seq![c]);
                assert(out0 + (seq![c] + strip_cr_nl(s@.skip(i + 1))) =~= out@ + strip_cr_nl(
                    s@.skip(i + 1),
                ));
            }
            i = i + 1;
        }
    }
    out
}

/// Whether position `i` of `t` can split a `Title (Author)` line: an opening
/// parenthesis with at least one character of title before it, at least one
/// character of author after it, and no closing parenthesis until the final
/// one that ends the line.
pub open spec fn valid_split_at(t: Seq<char>, i: int) -> bool {
    &&& t.len() >= 2
    &&& t.last() == ')'
    &&& 1 <= i <= t.len() - 3
    &&& t[i] == '('
    &&& forall|k: int| i < k < t.len() - 1 ==> t[k] != ')'
}

/// The first position from `i` on that can split the line, or -1.
pub open spec fn first_split_idx(t: Seq<char>, i: int) -> int
    decreases t.len() - i
        when 1 <= i
{
    if i + 3 > t.len() {
        -1
    } else if valid_split_at(t, i) {
        i
    } else {
        first_split_idx(t, i + 1)
    }
}

/// The parsed `Title (Author)` line: the author is the parenthesized suffix
/// when one exists, and the whole trimmed line is the title otherwise.
pub open spec fn title_author_spec(line: Seq<char>) -> (Seq<char>, Option<Seq<char>>) {
    let t = trim_spec(line);
    let i = first_split_idx(t, 1);
    if i == -1 {
        (t, None)
    } else {
        (trim_spec(t.take(i)), Some(trim_spec(t.subrange(i + 1, t.len() - 1))))
    }
}

fn valid_split_exec(t: &str, i: usize, n: usize) -> (r: bool)
    requires
        n == t@.len(),
        1 <= i,
        i + 3 <= n,
    ensures
        r == valid_split_at(t@, i as int),
{
    if t.get_char(n - 1) != ')' {
        return false;
    }
    if t.get_char(i) != '(' {
        return false;
    }
    let mut k: usize = i + 1;
    while k < n - 1
        invariant
            n == t@.len(),
            i + 1 <= k <= n - 1,
            forall|j: int| i < j < k ==> t@[j] != ')',
        decreases n - k,
    {
        if t.get_char(k) == ')' {
            return false;
        }
        k = k + 1;
    }
    true
}

fn first_split_exec(t: &str, i: usize, n: usize) -> (r: Option<usize>)
    requires
        n == t@.len(),
        1 <= i,
    ensures
        match r {
            Some(x) => x == first_split_idx(t@, i as int) && valid_split_at(t@, x as int),
            None => first_split_idx(t@, i as int) == -1,
        },
    decreases n - i,
{
    if n < 3 || i > n - 3 {
        return None;
    }
    if valid_split_exec(t, i, n) {
        return Some(i);
    }
    first_split_exec(t, i + 1, n)
}

/// Parse `Title (Author)` into title and optional author; a line without a
/// parenthesized author is all title.
pub fn parse_title_author(line: &str) -> (r: (String, Option<String>))
    ensures
        r.0@ == title_author_spec(line@).0,
        r.1.deep_view() == title_author_spec(line@).1,
{
    let t = trim_str(line);
    let n = t.as_str().unicode_len();
    match first_split_exec(t.as_str(), 1, n) {
        None => (t, None),
        Some(i) => {
            let title = trim_str(t.as_str().substring_char(0, i));
            let author = trim_str(t.as_str().substring_char(i + 1, n - 1));
            proof {
                assert(t@.subrange(0, i as int) =~= t@.take(i as int));
            }
            (title, Some(author))
        },
    }
}

/// Decimal digits.
pub open spec fn is_digit_char(c: char) -> bool {
    0x30 <= (c as u32) && (c as u32) <= 0x39
}

/// The end of the whitespace run starting at `j`.
pub open spec fn ws_end(s: Seq<char>, j: int) -> int
    decreases s.len() - j
        when 0 <= j <= s.len()
{
    if j < s.len() && is_space_char(s[j]) {
        ws_end(s, j + 1)
    } else {
        j
    }
}

/// The end of the digit run starting at `j`.
pub open spec fn digits_end(s: Seq<char>, j: int) -> int
    decreases s.len() - j
        when 0 <= j <= s.len()
{
    if j < s.len() && is_digit_char(s[j]) {
        digits_end(s, j + 1)
    } else {
        j
    }
}

fn ws_end_exec(s: &str, j: usize, n: usize) -> (r: usize)
    requires
        n == s@.len(),
        j <= n,
    ensures
        r == ws_end(s@, j as int),
        j <= r <= n,
    decreases n - j,
{
    if j < n && is_space(s.get_char(j)) {
        ws_end_exec(s, j + 1, n)
    } else {
        j
    }
}

fn is_digit(c: char) -> (r: bool)
    ensures
        r == is_digit_char(c),
{
    let u = c as u32;
    0x30 <= u && u <= 0x39
}

fn digits_end_exec(s: &str, j: usize, n: usize) -> (r: usize)
    requires
        n == s@.len(),
        j <= n,
    ensures
        r == digits_end(s@, j as int),
        j <= r <= n,
    decreases n - j,
{
    if j < n && is_digit(s.get_char(j)) {
        digits_end_exec(s, j + 1, n)
    } else {
        j
    }
}

/// The length of the location keyword at position `i` of the lower-cased
/// line, or 0.
pub open spec fn kw_len_at(s: Seq<char>, i: int) -> int {
    if 0 <= i && i + 8 <= s.len() && s.subrange(i, i + 8) == "location"@ {
        8
    } else if 0 <= i && i + 4 <= s.len() && s.subrange(i, i + 4) == "loc."@ {
        4
    } else if 0 <= i && i + 4 <= s.len() && s.subrange(i, i + 4) == "page"@ {
        4
    } else {
        0
    }
}

/// The span of the location value following a keyword at `i`: past the
/// keyword and any whitespace, a run of digits, optionally followed by a
/// hyphen and a second run of digits.
pub open spec fn loc_span_at(s: Seq<char>, i: int) -> Option<(int, int)> {
    let l = kw_len_at(s, i);
    if l == 0 {
        None
    } else {
        let j = ws_end(s, i + l);
        let e = digits_end(s, j);
        if e == j {
            None
        } else {
            let e2 = if e < s.len() && s[e] == '-' && digits_end(s, e + 1) > e + 1 {
                digits_end(s, e + 1)
            } else {
                e
            };
            Some((j, e2))
        }
    }
}

/// The first location value in the lower-cased line from `i` on.
pub open spec fn loc_scan(s: Seq<char>, i: int) -> Option<Seq<char>>
    decreases s.len() - i
        when 0 <= i
{
    if i >= s.len() {
        None
    } else {
        match loc_span_at(s, i) {
            Some(span) => Some(s.subrange(span.0, span.1)),
            None => loc_scan(s, i + 1),
        }
    }
}

/// The location extracted from a metadata line, such as `Location 123-145`,
/// `Loc. 123` or `page 45`, keyword matched case-insensitively.
pub open spec fn extract_location_spec(line: Seq<char>) -> Option<Seq<char>> {
    loc_scan(ascii_lower(line), 0)
}

fn kw_len_exec(s: &str, i: usize, n: usize) -> (r: usize)
    requires
        n == s@.len(),
        i <= n,
    ensures
        r == kw_len_at(s@, i as int),
{
    if n >= 8 && i <= n - 8 && str_eq(s.substring_char(i, i + 8), "location") {
        8
    } else if n >= 4 && i <= n - 4 && str_eq(s.substring_char(i, i + 4), "loc.") {
        4
    } else if n >= 4 && i <= n - 4 && str_eq(s.substring_char(i, i + 4), "page") {
        4
    } else {
        proof {
            if i + 8 <= s@.len() {
                assert(s@.subrange(i as int, i + 8) != "location"@);
            }
            if i + 4 <= s@.len() {
                assert(s@.subrange(i as int, i + 4) != "loc."@);
                assert(s@.subrange(i as int, i + 4) != "page"@);
            }
        }
        0
    }
}

fn loc_span_exec(s: &str, i: usize, n: usize) -> (r: Option<(usize, usize)>)
    requires
        n == s@.len(),
        i <= n,
    ensures
        match r {
            Some(span) => loc_span_at(s@, i as int) == Some((span.0 as int, span.1 as int))
                && span.0 <= span.1 <= n,
            None => loc_span_at(s@, i as int) is None,
        },
{
    let l = kw_len_exec(s, i, n);
    if l == 0 {
        return None;
    }
    let j = ws_end_exec(s, i + l, n);
    let e = digits_end_exec(s, j, n);
    if e == j {
        return None;
    }
    let e2: usize = if e < n && s.get_char(e) == '-' {
        let e3 = digits_end_exec(s, e + 1, n);
        if e3 > e + 1 {
            e3
        } else {
            e
        }
    } else {
        e
    };
    Some((j, e2))
}

fn loc_scan_exec(s: &str, i: usize, n: usize) -> (r: Option<String>)
    requires
        n == s@.len(),
        i <= n,
    ensures
        r.deep_view() == loc_scan(s@, i as int),
    decreases n - i,
{
    if i >= n {
        return None;
    }
    match loc_span_exec(s, i, n) {
        Some(span) => {
            let piece = s.substring_char(span.0, span.1).to_owned();
            Some(piece)
        },
        None => loc_scan_exec(s, i + 1, n),
    }
}

/// Extract a location such as `Location 123-145`, `Location 123` or
/// `page 45` from a metadata line.
pub fn extract_location(line: &str) -> (r: Option<String>)
    ensures
        r.deep_view() == extract_location_spec(line@),
{
    let lc = ascii_lowercase(line);
    let n = lc.as_str().unicode_len();
    loc_scan_exec(lc.as_str(), 0, n)
}

/// A word character as the date shapes use it: alphanumeric or underscore.
pub open spec fn is_word_ch(c: char) -> bool {
    crate::text::is_alnum_char(c) || c == '_'
}

fn is_word(c: char) -> (r: bool)
    ensures
        r == is_word_ch(c),
{
    c.is_alphanumeric() || c == '_'
}

/// The end of the word-character run starting at `j`.
pub open spec fn word_end(s: Seq<char>, j: int) -> int
    decreases s.len() - j
        when 0 <= j <= s.len()
{
    if j < s.len() && is_word_ch(s[j]) {
        word_end(s, j + 1)
    } else {
        j
    }
}

fn word_end_exec(s: &str, j: usize, n: usize) -> (r: usize)
    requires
        n == s@.len(),
        j <= n,
    ensures
        r == word_end(s@, j as int),
        j <= r <= n,
    decreases n - j,
{
    if j < n && is_word(s.get_char(j)) {
        word_end_exec(s, j + 1, n)
    } else {
        j
    }
}

/// Four digits starting at `j`.
pub open spec fn four_digits_from(s: Seq<char>, j: int) -> bool {
    &&& 0 <= j
    &&& j + 4 <= s.len()
    &&& forall|k: int| j <= k < j + 4 ==> is_digit_char(#[trigger] s[k])
}

fn four_digits_exec(s: &str, j: usize, n: usize) -> (r: bool)
    requires
        n == s@.len(),
        j <= n,
    ensures
        r == four_digits_from(s@, j as int),
{
    let ok = n >= 4 && j <= n - 4 && is_digit(s.get_char(j)) && is_digit(s.get_char(j + 1))
        && is_digit(s.get_char(j + 2)) && is_digit(s.get_char(j + 3));
    proof {
        if ok {
            assert forall|k: int| j <= k < j + 4 implies is_digit_char(#[trigger] s@[k]) by {
                assert(k == j || k == j + 1 || k == j + 2 || k == j + 3);
            }
        }
    }
    ok
}

/// The first date shape after position `j`: a word then a comma, optional
/// whitespace, a word, whitespace, digits, a comma, optional whitespace, and
/// a four-digit year (`Added on Monday, January 1, 2024`). The year's
/// position, or -1.
pub open spec fn date_p1_at(s: Seq<char>, j: int) -> int
    recommends
        0 <= j <= s.len(),
{
    let w = word_end(s, j);
    if w == j || w >= s.len() || s[w] != ',' {
        -1
    } else {
        let p = ws_end(s, w + 1);
        let w2 = word_end(s, p);
        if w2 == p {
            -1
        } else {
            let q = ws_end(s, w2);
            if q == w2 {
                -1
            } else {
                let d = digits_end(s, q);
                if d == q || d >= s.len() || s[d] != ',' {
                    -1
                } else {
                    let y = ws_end(s, d + 1);
                    if four_digits_from(s, y) {
                        y
                    } else {
                        -1
                    }
                }
            }
        }
    }
}

/// The second date shape after position `j`: a word then a comma, optional
/// whitespace, digits, whitespace, a word, whitespace, and a four-digit year
/// (`Added on Monday, 1 January 2024`). The year's position, or -1.
pub open spec fn date_p2_at(s: Seq<char>, j: int) -> int
    recommends
        0 <= j <= s.len(),
{
    let w = word_end(s, j);
    if w == j || w >= s.len() || s[w] != ',' {
        -1
    } else {
        let p = ws_end(s, w + 1);
        let d = digits_end(s, p);
        if d == p {
            -1
        } else {
            let q = ws_end(s, d);
            if q == d {
                -1
            } else {
                let w2 = word_end(s, q);
                if w2 == q {
                    -1
                } else {
                    let y = ws_end(s, w2);
                    if y == w2 {
                        -1
                    } else if four_digits_from(s, y) {
                        y
                    } else {
                        -1
                    }
                }
            }
        }
    }
}

/// The year position of the first `Added on ` occurrence (from `i` on) whose
/// continuation matches the first date shape, or -1.
pub open spec fn date_p1_from(s: Seq<char>, i: int) -> int
    decreases s.len() - i
        when 0 <= i
        via date_p1_from_dec
{
    if i + "Added on "@.len() > s.len() {
        -1
    } else if delim_at(s, "Added on "@, i) && date_p1_at(s, i + "Added on "@.len() as int)
        != -1 {
        date_p1_at(s, i + "Added on "@.len() as int)
    } else {
        date_p1_from(s, i + 1)
    }
}

#[via_fn]
proof fn date_p1_from_dec(s: Seq<char>, i: int) {
    reveal_strlit("Added on ");
}

/// As `date_p1_from`, for the second date shape.
pub open spec fn date_p2_from(s: Seq<char>, i: int) -> int
    decreases s.len() - i
        when 0 <= i
        via date_p2_from_dec
{
    if i + "Added on "@.len() > s.len() {
        -1
    } else if delim_at(s, "Added on "@, i) && date_p2_at(s, i + "Added on "@.len() as int)
        != -1 {
        date_p2_at(s, i + "Added on "@.len() as int)
    } else {
        date_p2_from(s, i + 1)
    }
}

#[via_fn]
proof fn date_p2_from_dec(s: Seq<char>, i: int) {
    reveal_strlit("Added on ");
}

pub open spec fn digit_val(c: char) -> int {
    (c as u32) - 0x30
}

pub open spec fn year_value(s: Seq<char>, i: int) -> int {
    digit_val(s[i]) * 1000 + digit_val(s[i + 1]) * 100 + digit_val(s[i + 2]) * 10 + digit_val(
        s[i + 3],
    )
}

/// Leap years strictly before year `y` in the proleptic Gregorian calendar.
pub open spec fn leaps_before(y: int) -> int {
    (y - 1) / 4 - (y - 1) / 100 + (y - 1) / 400
}

/// The Unix timestamp of January the 1st, 00:00:00 UTC, of year `y`.
pub open spec fn jan1_unix(y: int) -> int {
    (365 * (y - 1970) + leaps_before(y) - leaps_before(1970)) * 86400
}

/// The date recognized on a metadata line: the first `Added on ` whose
/// continuation fits the first date shape, else the first fitting the
/// second; the four-digit year found there is placed at January the 1st,
/// the line giving no finer grain reliably. Year 0 is not accepted.
pub open spec fn extract_date_spec(line: Seq<char>) -> Option<i64> {
    let y1 = date_p1_from(line, 0);
    let yi = if y1 != -1 {
        y1
    } else {
        date_p2_from(line, 0)
    };
    if yi == -1 {
        None
    } else {
        let y = year_value(line, yi);
        if y == 0 {
            None
        } else {
            Some(jan1_unix(y) as i64)
        }
    }
}

fn date_p1_at_exec(s: &str, j: usize, n: usize) -> (r: Option<usize>)
    requires
        n == s@.len(),
        j <= n,
    ensures
        match r {
            Some(x) => x == date_p1_at(s@, j as int) && four_digits_from(s@, x as int) && x
                <= n,
            None => date_p1_at(s@, j as int) == -1,
        },
{
    let w = word_end_exec(s, j, n);
    if w == j || w >= n || s.get_char(w) != ',' {
        return None;
    }
    let p = ws_end_exec(s, w + 1, n);
    let w2 = word_end_exec(s, p, n);
    if w2 == p {
        return None;
    }
    let q = ws_end_exec(s, w2, n);
    if q == w2 {
        return None;
    }
    let d = digits_end_exec(s, q, n);
    if d == q || d >= n || s.get_char(d) != ',' {
        return None;
    }
    let y = ws_end_exec(s, d + 1, n);
    if four_digits_exec(s, y, n) {
        Some(y)
    } else {
        None
    }
}

fn date_p2_at_exec(s: &str, j: usize, n: usize) -> (r: Option<usize>)
    requires
        n == s@.len(),
        j <= n,
    ensures
        match r {
            Some(x) => x == date_p2_at(s@, j as int) && four_digits_from(s@, x as int) && x
                <= n,
            None => date_p2_at(s@, j as int) == -1,
        },
{
    let w = word_end_exec(s, j, n);
    if w == j || w >= n || s.get_char(w) != ',' {
        return None;
    }
    let p = ws_end_exec(s, w + 1, n);
    let d = digits_end_exec(s, p, n);
    if d == p {
        return None;
    }
    let q = ws_end_exec(s, d, n);
    if q == d {
        return None;
    }
    let w2 = word_end_exec(s, q, n);
    if w2 == q {
        return None;
    }
    let y = ws_end_exec(s, w2, n);
    if y == w2 {
        return None;
    }
    if four_digits_exec(s, y, n) {
        Some(y)
    } else {
        None
    }
}

fn date_p1_from_exec(s: &str, i: usize, n: usize) -> (r: Option<usize>)
    requires
        n == s@.len(),
        i <= n,
    ensures
        match r {
            Some(x) => x == date_p1_from(s@, i as int) && four_digits_from(s@, x as int),
            None => date_p1_from(s@, i as int) == -1,
        },
    decreases n - i,
{
    proof {
        reveal_strlit("Added on ");
    }
    if n < 9 || i > n - 9 {
        return None;
    }
    let piece = s.substring_char(i, i + 9);
    if str_eq(piece, "Added on ") {
        proof {
            assert(delim_at(s@, "Added on "@, i as int));
        }
        match date_p1_at_exec(s, i + 9, n) {
            Some(x) => {
                return Some(x);
            },
            None => {},
        }
    } else {
        proof {
            assert(!delim_at(s@, "Added on "@, i as int));
        }
    }
    date_p1_from_exec(s, i + 1, n)
}

fn date_p2_from_exec(s: &str, i: usize, n: usize) -> (r: Option<usize>)
    requires
        n == s@.len(),
        i <= n,
    ensures
        match r {
            Some(x) => x == date_p2_from(s@, i as int) && four_digits_from(s@, x as int),
            None => date_p2_from(s@, i as int) == -1,
        },
    decreases n - i,
{
    proof {
        reveal_strlit("Added on ");
    }
    if n < 9 || i > n - 9 {
        return None;
    }
    let piece = s.substring_char(i, i + 9);
    if str_eq(piece, "Added on ") {
        proof {
            assert(delim_at(s@, "Added on "@, i as int));
        }
        match date_p2_at_exec(s, i + 9, n) {
            Some(x) => {
                return Some(x);
            },
            None => {},
        }
    } else {
        proof {
            assert(!delim_at(s@, "Added on "@, i as int));
        }
    }
    date_p2_from_exec(s, i + 1, n)
}

fn jan1_unix_exec(y: u32) -> (r: i64)
    requires
        1 <= y <= 9999,
    ensures
        r == jan1_unix(y as int),
{
    let q = y - 1;
    let a = (q / 4) as i64;
    let b = (q / 100) as i64;
    let c = (q / 400) as i64;
    proof {
        assert(q / 4 <= 2500 && q / 100 <= 100 && q / 400 <= 25) by (nonlinear_arith)
            requires
                q <= 9998,
        ;
        assert(1969int / 4 == 492 && 1969int / 100 == 19 && 1969int / 400 == 4);
    }
    let days: i64 = 365i64 * (y as i64 - 1970) + a - b + c - 477;
    days * 86400
}

/// Extract the year of an `Added on ...` date in one of the two recognized
/// shapes and place it at January the 1st of that year; the metadata line
/// gives no finer grain reliably.
fn extract_date(line: &str) -> (r: Option<i64>)
    ensures
        r == extract_date_spec(line@),
{
    let n = line.unicode_len();
    let yi = match date_p1_from_exec(line, 0, n) {
        Some(x) => x,
        None => {
            match date_p2_from_exec(line, 0, n) {
                Some(x) => x,
                None => {
                    return None;
                },
            }
        },
    };
    let d0 = (line.get_char(yi) as u32) - 0x30;
    let d1 = (line.get_char(yi + 1) as u32) - 0x30;
    let d2 = (line.get_char(yi + 2) as u32) - 0x30;
    let d3 = (line.get_char(yi + 3) as u32) - 0x30;
    let y = d0 * 1000 + d1 * 100 + d2 * 10 + d3;
    if y == 0 {
        None
    } else {
        Some(jan1_unix_exec(y))
    }
}

/// The kind of a clipping entry.
#[derive(Clone, Copy, Debug, PartialEq, Eq, Structural)]
pub enum ClippingType {
    Highlight,
    Note,
    Bookmark,
}

/// The kind of clipping a metadata line announces, by the word it carries.
pub open spec fn clipping_type_spec(t: Seq<char>) -> Option<ClippingType> {
    if first_delim_idx(t, "Highlight"@) != -1 {
        Some(ClippingType::Highlight)
    } else if first_delim_idx(t, "Note"@) != -1 {
        Some(ClippingType::Note)
    } else if first_delim_idx(t, "Bookmark"@) != -1 {
        Some(ClippingType::Bookmark)
    } else {
        None
    }
}

/// The parsed metadata line: the clipping kind, the location and the date.
pub open spec fn metadata_spec(line: Seq<char>) -> Option<
    (ClippingType, Option<Seq<char>>, Option<i64>),
> {
    let t = trim_spec(line);
    match clipping_type_spec(t) {
        None => None,
        Some(ty) => Some((ty, loc_scan(ascii_lower(t), 0), extract_date_spec(t))),
    }
}

fn parse_metadata(line: &str) -> (r: Option<(ClippingType, Option<String>, Option<i64>)>)
    ensures
        match r {
            None => metadata_spec(line@) is None,
            Some(m) => metadata_spec(line@) == Some((m.0, m.1.deep_view(), m.2)),
        },
{
    let t = trim_str(line);
    proof {
        reveal_strlit("Highlight");
        reveal_strlit("Note");
        reveal_strlit("Bookmark");
    }
    let ty: ClippingType = if contains_sub(t.as_str(), "Highlight") {
        ClippingType::Highlight
    } else if contains_sub(t.as_str(), "Note") {
        ClippingType::Note
    } else if contains_sub(t.as_str(), "Bookmark") {
        ClippingType::Bookmark
    } else {
        return None;
    };
    let loc = extract_location(t.as_str());
    let date = extract_date(t.as_str());
    Some((ty, loc, date))
}

/// One parsed clipping entry.
#[derive(Debug)]
struct Clipping {
    book_title: String,
    author: Option<String>,
    clipping_type: ClippingType,
    location: Option<String>,
    added_on: Option<i64>,
    content: String,
}

/// The parsed entry: title and author from the first line, kind, location
/// and date from the second, the trimmed remainder as the content. Entries
/// of fewer than two lines, with unrecognized metadata, or without content
/// (except bookmarks) are rejected.
pub open spec fn entry_parse_spec(entry: Seq<char>) -> Option<
    (Seq<char>, Option<Seq<char>>, ClippingType, Option<Seq<char>>, Option<i64>, Seq<char>),
> {
    let t = trim_spec(entry);
    let i0 = first_delim_idx(t, "\n"@);
    if i0 == -1 {
        None
    } else {
        let line0 = strip_cr(t.take(i0));
        let rest0 = t.skip(i0 + 1);
        let i1 = first_delim_idx(rest0, "\n"@);
        let line1 = if i1 == -1 {
            rest0
        } else {
            strip_cr(rest0.take(i1))
        };
        let content = if i1 == -1 {
            Seq::<char>::empty()
        } else {
            trim_spec(strip_cr_nl(rest0.skip(i1 + 1)))
        };
        let ta = title_author_spec(line0);
        match metadata_spec(line1) {
            None => None,
            Some(m) => {
                if content.len() == 0 && m.0 != ClippingType::Bookmark {
                    None
                } else {
                    Some((ta.0, ta.1, m.0, m.1, m.2, content))
                }
            },
        }
    }
}

fn parse_clipping_entry(entry: &str) -> (r: Option<Clipping>)
    ensures
        match r {
            None => entry_parse_spec(entry@) is None,
            Some(c) => entry_parse_spec(entry@) == Some(
                (
                    c.book_title@,
                    c.author.deep_view(),
                    c.clipping_type,
                    c.location.deep_view(),
                    c.added_on,
                    c.content@,
                ),
            ),
        },
{
    proof {
        reveal_strlit("\n");
    }
    let t = trim_str(entry);
    let n = t.as_str().unicode_len();
    let i0 = match find_sub(t.as_str(), "\n") {
        None => {
            return None;
        },
        Some(i0) => i0,
    };
    proof {
        lemma_first_delim_props(t@, "\n"@);
    }
    let line0 = strip_cr_str(t.as_str().substring_char(0, i0));
    let rest0 = t.as_str().substring_char(i0 + 1, n).to_owned();
    proof {
        assert(t@.subrange(0, i0 as int) =~= t@.take(i0 as int));
        assert(rest0@ =~= t@.skip(i0 + 1));
    }
    let rn = rest0.as_str().unicode_len();
    let mut content = String::new();
    let line1 = match find_sub(rest0.as_str(), "\n") {
        None => rest0.as_str().to_owned(),
        Some(i1) => {
            proof {
                lemma_first_delim_props(rest0@, "\n"@);
            }
            let raw = rest0.as_str().substring_char(i1 + 1, rn);
            proof {
                assert(raw@ =~= rest0@.skip(i1 + 1));
            }
            content = trim_str(strip_cr_nl_str(raw).as_str());
            let l1 = strip_cr_str(rest0.as_str().substring_char(0, i1));
            proof {
                assert(rest0@.subrange(0, i1 as int) =~= rest0@.take(i1 as int));
            }
            l1
        },
    };
    let (book_title, author) = parse_title_author(line0.as_str());
    let (clipping_type, location, added_on) = match parse_metadata(line1.as_str()) {
        None => {
            return None;
        },
        Some(m) => m,
    };
    if content.as_str().unicode_len() == 0 && !matches!(clipping_type, ClippingType::Bookmark) {
        return None;
    }
    Some(Clipping { book_title, author, clipping_type, location, added_on, content })
}

/// A highlight as parsed from an entry: text, position and creation time.
/// The runtime identifier is generated fresh and is not pinned here.
#[verifier::ext_equal]
pub struct ParsedHighlight {
    pub text: Seq<char>,
    pub position: Option<Seq<char>>,
    pub created_at: Option<i64>,
}

/// A book as accumulated from parsed entries.
#[verifier::ext_equal]
pub struct ParsedBook {
    pub title: Seq<char>,
    pub author: Option<Seq<char>>,
    pub highlights: Seq<ParsedHighlight>,
}

/// The first index whose accumulated book derives the identifier `id`, or
/// `acc.len()`.
pub open spec fn first_pid_idx(acc: Seq<ParsedBook>, id: Seq<char>) -> int
    decreases acc.len(),
{
    if acc.len() == 0 {
        0
    } else if book_id_chars(acc.first().title, acc.first().author) == id {
        0
    } else {
        1 + first_pid_idx(acc.drop_first(), id)
    }
}

proof fn lemma_first_pid_props(acc: Seq<ParsedBook>, id: Seq<char>)
    ensures
        0 <= first_pid_idx(acc, id) <= acc.len(),
        first_pid_idx(acc, id) < acc.len() ==> book_id_chars(
            acc[first_pid_idx(acc, id)].title,
            acc[first_pid_idx(acc, id)].author,
        ) == id,
        forall|j: int|
            0 <= j < first_pid_idx(acc, id) ==> book_id_chars(
                (#[trigger] acc[j]).title,
                acc[j].author,
            ) != id,
    decreases acc.len(),
{
    if acc.len() > 0 && book_id_chars(acc.first().title, acc.first().author) != id {
        let sub = acc.drop_first();
        lemma_first_pid_props(sub, id);
        let i = first_pid_idx(acc, id);
        if i < acc.len() {
            assert(acc[i] == sub[i - 1]);
        }
        assert forall|j: int| 0 <= j < i implies book_id_chars(
            (#[trigger] acc[j]).title,
            acc[j].author,
        ) != id by {
            if j > 0 {
                assert(acc[j] == sub[j - 1]);
            }
        }
    }
}

/// One parsed clipping folded into the accumulated books: the book is found
/// by identifier or appended, and every clipping but a bookmark contributes
/// one highlight.
pub open spec fn fold_parsed(
    acc: Seq<ParsedBook>,
    title: Seq<char>,
    author: Option<Seq<char>>,
    ty: ClippingType,
    position: Option<Seq<char>>,
    created_at: Option<i64>,
    content: Seq<char>,
) -> Seq<ParsedBook> {
    let id = book_id_chars(title, author);
    let i = first_pid_idx(acc, id);
    let hl = ParsedHighlight { text: content, position, created_at };
    if i < acc.len() {
        if ty == ClippingType::Bookmark {
            acc
        } else {
            acc.update(i, ParsedBook { highlights: acc[i].highlights.push(hl), ..acc[i] })
        }
    } else {
        acc.push(
            ParsedBook {
                title,
                author,
                highlights: if ty == ClippingType::Bookmark {
                    Seq::empty()
                } else {
                    seq![hl]
                },
            },
        )
    }
}

/// One entry folded into the accumulated books: an unparsable entry changes
/// nothing.
pub open spec fn fold_clipping(acc: Seq<ParsedBook>, e: Seq<char>) -> Seq<ParsedBook> {
    match entry_parse_spec(e) {
        None => acc,
        Some(c) => fold_parsed(acc, c.0, c.1, c.2, c.3, c.4, c.5),
    }
}

pub open spec fn fold_clippings(acc: Seq<ParsedBook>, es: Seq<Seq<char>>) -> Seq<ParsedBook>
    decreases es.len(),
{
    if es.len() == 0 {
        acc
    } else {
        fold_clipping(fold_clippings(acc, es.drop_last()), es.last())
    }
}

/// All books parsed from a clippings file, in first-seen order.
pub open spec fn clippings_spec(content: Seq<char>) -> Seq<ParsedBook> {
    fold_clippings(Seq::empty(), split_delim(content, "=========="@))
}

/// A produced book agrees with its parsed counterpart on everything but the
/// freshly generated highlight identifiers, which are 36 characters long.
pub open spec fn matches_parsed(b: BookV, p: ParsedBook) -> bool {
    &&& b.id == book_id_chars(p.title, p.author)
    &&& b.title == p.title
    &&& b.author == p.author
    &&& b.sources.len() == 1
    &&& b.sources[0] == Source::Kindle
    &&& b.finished is None
    &&& b.finished_at is None
    &&& b.highlights.len() == p.highlights.len()
    &&& forall|j: int|
        0 <= j < p.highlights.len() ==> {
            let h = #[trigger] b.highlights[j];
            let q = p.highlights[j];
            &&& h.text == q.text
            &&& h.location.position == q.position
            &&& h.location.chapter is None
            &&& h.created_at == q.created_at
            &&& h.note is None
            &&& h.source == Source::Kindle
            &&& h.id.len() == 36
        }
}

pub open spec fn all_match_parsed(bs: Seq<BookV>, ps: Seq<ParsedBook>) -> bool {
    bs.len() == ps.len() && forall|k: int|
        0 <= k < bs.len() ==> matches_parsed(#[trigger] bs[k], #[trigger] ps[k])
}

/// Relies on uuid::Uuid::new_v4 and its hyphenated rendering: a fresh random
/// identifier, 36 characters long; nothing else is assumed of its value.
#[verifier::external_body]
fn new_uuid_string() -> (r: String)
    ensures
        r@.len() == 36,
{
    uuid::Uuid::new_v4().to_string()
}

/// A highlight as the clippings parser produces it: non-empty text, no note,
/// no chapter, attributed to Kindle.
pub open spec fn kindle_highlight_ok(h: HighlightV) -> bool {
    &&& h.text.len() > 0
    &&& h.note is None
    &&& h.location.chapter is None
    &&& h.source == Source::Kindle
}

/// A book as the clippings parser produces it: identifier derived from its
/// title and author, Kindle as its only source, no finished state, and only
/// well-formed highlights.
pub open spec fn kindle_book_ok(b: BookV) -> bool {
    &&& b.id == book_id_chars(b.title, b.author)
    &&& b.sources.len() == 1
    &&& b.sources[0] == Source::Kindle
    &&& b.finished is None
    &&& b.finished_at is None
    &&& forall|j: int| 0 <= j < b.highlights.len() ==> kindle_highlight_ok(#[trigger] b.highlights[j])
}

/// Parse the content of a clippings file: entries are separated by a row of
/// ten equals signs; entries parse independently and unparsable ones are
/// skipped, so the parse itself never fails. Books are keyed by identifier in
/// first-seen order; bookmarks contribute a book but no highlight. Each
/// highlight's identifier is freshly generated.
pub fn parse_clippings_content(content: &str) -> (r: Result<
    Vec<Book>,
    crate::error::KindleError,
>)
    ensures
        r is Ok,
        all_match_parsed(r.unwrap().deep_view(), clippings_spec(content@)),
        forall|k: int|
            0 <= k < r.unwrap().deep_view().len() ==> kindle_book_ok(
                #[trigger] r.unwrap().deep_view()[k],
            ),
        forall|k1: int, k2: int|
            0 <= k1 < k2 < r.unwrap().deep_view().len() ==> r.unwrap().deep_view()[k1].id
                != r.unwrap().deep_view()[k2].id,
{
    proof {
        reveal_strlit("==========");
    }
    let entries = split_string(content, "==========");
    let ghost all = entries.deep_view();
    let mut books: Vec<Book> = Vec::new();
    let ne = entries.len();
    proof {
        assert(all.take(0) =~= Seq::<Seq<char>>::empty());
    }
    for idx in 0..ne
        invariant
            ne == entries@.len(),
            all == entries.deep_view(),
            all_match_parsed(books.deep_view(), fold_clippings(Seq::empty(), all.take(idx as int))),
            forall|k: int|
                0 <= k < books.deep_view().len() ==> kindle_book_ok(
                    #[trigger] books.deep_view()[k],
                ),
            forall|k1: int, k2: int|
                0 <= k1 < k2 < books.deep_view().len() ==> books.deep_view()[k1].id
                    != books.deep_view()[k2].id,
    {
        let entry = &entries[idx];
        proof {
            assert(all[idx as int] == entries@[idx as int]@);
        }
        let ghost p_acc = fold_clippings(Seq::empty(), all.take(idx as int));
        let probe = trim_str(entry.as_str());
        if !probe.as_str().is_empty() {
            match parse_clipping_entry(entry.as_str()) {
                None => {},
                Some(c) => {
                    add_clipping(&mut books, c, Ghost(p_acc));
                },
            }
        } else {
            proof {
                // A blank entry has no second line, so it parses to nothing.
                reveal_strlit("\n");
                assert(trim_spec(all[idx as int]).len() == 0);
                assert(first_delim_idx(trim_spec(all[idx as int]), "\n"@) == -1);
                assert(entry_parse_spec(all[idx as int]) is None);
            }
        }
        proof {
            assert(all.take(idx + 1).drop_last() =~= all.take(idx as int));
            assert(all.take(idx + 1).last() == all[idx as int]);
            assert(fold_clippings(Seq::empty(), all.take(idx + 1)) == fold_clipping(
                p_acc,
                all[idx as int],
            ));
        }
    }
    proof {
        assert(all.take(ne as int) =~= all);
    }
    Ok(books)
}

fn find_book_idx(books: &Vec<Book>, id: &str) -> (r: Option<usize>)
    ensures
        match r {
            Some(x) => x < books@.len() && books.deep_view()[x as int].id == id@ && forall|j: int|
                0 <= j < x ==> (#[trigger] books.deep_view()[j].id) != id@,
            None => forall|j: int|
                0 <= j < books@.len() ==> (#[trigger] books.deep_view()[j].id) != id@,
        },
{
    let n = books.len();
    for i in 0..n
        invariant
            n == books@.len(),
            forall|j: int| 0 <= j < i ==> (#[trigger] books.deep_view()[j].id) != id@,
    {
        proof {
            assert(books.deep_view()[i as int].id == books@[i as int].id@);
        }
        if str_eq(books[i].id.as_str(), id) {
            return Some(i);
        }
    }
    None
}

/// Fold one parsed clipping into the accumulating book list: the book is
/// looked up by identifier or freshly created, and every clipping but a
/// bookmark contributes one highlight.
fn add_clipping(books: &mut Vec<Book>, c: Clipping, Ghost(p_acc): Ghost<Seq<ParsedBook>>)
    requires
        all_match_parsed(old(books).deep_view(), p_acc),
        forall|k: int|
            0 <= k < old(books).deep_view().len() ==> kindle_book_ok(
                #[trigger] old(books).deep_view()[k],
            ),
        forall|k1: int, k2: int|
            0 <= k1 < k2 < old(books).deep_view().len() ==> old(books).deep_view()[k1].id != old(
                books,
            ).deep_view()[k2].id,
        c.clipping_type != ClippingType::Bookmark ==> c.content@.len() > 0,
    ensures
        all_match_parsed(
            final(books).deep_view(),
            fold_parsed(
                p_acc,
                c.book_title@,
                c.author.deep_view(),
                c.clipping_type,
                c.location.deep_view(),
                c.added_on,
                c.content@,
            ),
        ),
        forall|k: int|
            0 <= k < final(books).deep_view().len() ==> kindle_book_ok(
                #[trigger] final(books).deep_view()[k],
            ),
        forall|k1: int, k2: int|
            0 <= k1 < k2 < final(books).deep_view().len() ==> final(books).deep_view()[k1].id
                != final(books).deep_view()[k2].id,
{
    let Clipping { book_title, author, clipping_type, location, added_on, content } = c;
    let book_id = match &author {
        Some(a) => crate::model::generate_book_id(book_title.as_str(), Some(a.as_str())),
        None => crate::model::generate_book_id(book_title.as_str(), None),
    };
    proof {
        lemma_first_pid_props(p_acc, book_id@);
    }
    let ghost pidx = first_pid_idx(p_acc, book_id@);
    let ghost p_next = fold_parsed(
        p_acc,
        book_title@,
        author.deep_view(),
        clipping_type,
        location.deep_view(),
        added_on,
        content@,
    );
    let bi: usize = match find_book_idx(books, book_id.as_str()) {
        Some(x) => {
            proof {
                // The found slot is the first one whose derived identifier
                // matches, on either side of the correspondence.
                let bv = books.deep_view();
                assert(matches_parsed(bv[x as int], p_acc[x as int]));
                if pidx < x {
                    assert(matches_parsed(bv[pidx], p_acc[pidx]));
                    assert(bv[pidx].id == book_id@);
                    assert(false);
                }
                if x < pidx {
                    assert(matches_parsed(bv[x as int], p_acc[x as int]));
                    assert(false);
                }
            }
            x
        },
        None => {
            proof {
                if pidx < p_acc.len() {
                    let bv = books.deep_view();
                    assert(matches_parsed(bv[pidx], p_acc[pidx]));
                    assert(bv[pidx].id == book_id@);
                    assert(false);
                }
            }
            let fresh = Book {
                id: book_id,
                title: book_title,
                author,
                sources: vec![Source::Kindle],
                highlights: Vec::new(),
                finished: None,
                finished_at: None,
            };
            proof {
                assert(fresh@.id == book_id_chars(fresh@.title, fresh@.author));
                assert(fresh@.sources =~= seq![Source::Kindle]);
                assert(kindle_book_ok(fresh@));
            }
            let ghost before = books.deep_view();
            books.push(fresh);
            proof {
                assert(books.deep_view() =~= before.push(fresh@));
            }
            books.len() - 1
        },
    };
    if !matches!(clipping_type, ClippingType::Bookmark) {
        let h = Highlight {
            id: new_uuid_string(),
            text: content,
            note: None,
            location: Location { chapter: None, position: location },
            created_at: added_on,
            source: Source::Kindle,
        };
        proof {
            assert(kindle_highlight_ok(h@));
        }
        let ghost before = books.deep_view();
        let mut b = books.remove(bi);
        let ghost hls_before = b.highlights.deep_view();
        b.highlights.push(h);
        proof {
            assert(b.highlights.deep_view() =~= hls_before.push(h@));
        }
        books.insert(bi, b);
        proof {
            assert(books.deep_view() =~= before.update(bi as int, books.deep_view()[bi as int]));
            assert(books.deep_view()[bi as int].id == before[bi as int].id);
            assert(kindle_book_ok(books.deep_view()[bi as int])) by {
                let nb = books.deep_view()[bi as int];
                assert(nb.highlights =~= before[bi as int].highlights.push(h@));
                assert(kindle_book_ok(before[bi as int]));
                assert forall|j: int| 0 <= j < nb.highlights.len() implies kindle_highlight_ok(
                    #[trigger] nb.highlights[j],
                ) by {
                    if j < nb.highlights.len() - 1 {
                        assert(nb.highlights[j] == before[bi as int].highlights[j]);
                    }
                }
            }
        }
    }
    proof {
        let bv = final(books).deep_view();
        assert forall|k: int| 0 <= k < p_next.len() implies matches_parsed(
            #[trigger] bv[k],
            #[trigger] p_next[k],
        ) by {
            if k == bi && pidx < p_acc.len() && clipping_type != ClippingType::Bookmark {
                assert(matches_parsed(old(books).deep_view()[k], p_acc[k]));
                assert(bv[k].highlights.len() == p_next[k].highlights.len());
                assert forall|j: int| 0 <= j < p_next[k].highlights.len() implies {
                    let hh = #[trigger] bv[k].highlights[j];
                    let q = p_next[k].highlights[j];
                    &&& hh.text == q.text
                    &&& hh.location.position == q.position
                    &&& hh.location.chapter is None
                    &&& hh.created_at == q.created_at
                    &&& hh.note is None
                    &&& hh.source == Source::Kindle
                    &&& hh.id.len() == 36
                } by {
                    if j < p_next[k].highlights.len() - 1 {
                        assert(bv[k].highlights[j] == old(books).deep_view()[k].highlights[j]);
                        assert(p_next[k].highlights[j] == p_acc[k].highlights[j]);
                    }
                }
            } else if k < p_acc.len() {
                assert(matches_parsed(old(books).deep_view()[k], p_acc[k]));
                assert(bv[k] == old(books).deep_view()[k]);
                assert(p_next[k] == p_acc[k]);
            } else {
                // The freshly appended book.
                assert(matches_parsed(bv[k], p_next[k]));
            }
        }
    }
}

} // verus!
