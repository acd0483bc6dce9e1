//! Amazon region configuration for cookie-based scraping (legacy). The HTTP
//! client and the notebook pages themselves are the caller's business.

use vstd::prelude::*;

use crate::error::KindleError;
use crate::kindle::clippings::{
    contains_sub, first_delim_idx, split_delim, split_string, trim_spec, trim_str,
};
use crate::model::Highlight;
use crate::text::{ascii_lower, lower_of, lowercase, str_eq};

verus! {

/// Amazon region configuration for cookie-based scraping (legacy).
#[derive(Debug, Clone)]
pub struct LegacyAmazonRegion {
    pub code: String,
    pub domain: String,
    pub notebook_url: String,
}

/// The Amazon domain and notebook URL for a lower-cased region code, if the
/// code is recognized.
pub open spec fn legacy_region_urls(lc: Seq<char>) -> Option<(Seq<char>, Seq<char>)> {
    if lc == "us"@ {
        Some(("amazon.com"@, "https://read.amazon.com/notebook"@))
    } else if lc == "uk"@ || lc == "gb"@ {
        Some(("amazon.co.uk"@, "https://read.amazon.co.uk/notebook"@))
    } else if lc == "de"@ {
        Some(("amazon.de"@, "https://read.amazon.de/notebook"@))
    } else if lc == "fr"@ {
        Some(("amazon.fr"@, "https://read.amazon.fr/notebook"@))
    } else if lc == "es"@ {
        Some(("amazon.es"@, "https://read.amazon.es/notebook"@))
    } else if lc == "it"@ {
        Some(("amazon.it"@, "https://read.amazon.it/notebook"@))
    } else if lc == "jp"@ {
        Some(("amazon.co.jp"@, "https://read.amazon.co.jp/notebook"@))
    } else if lc == "ca"@ {
        Some(("amazon.ca"@, "https://read.amazon.ca/notebook"@))
    } else if lc == "au"@ {
        Some(("amazon.com.au"@, "https://read.amazon.com.au/notebook"@))
    } else if lc == "in"@ {
        Some(("amazon.in"@, "https://read.amazon.in/notebook"@))
    } else if lc == "br"@ {
        Some(("amazon.com.br"@, "https://read.amazon.com.br/notebook"@))
    } else if lc == "mx"@ {
        Some(("amazon.com.mx"@, "https://read.amazon.com.mx/notebook"@))
    } else {
        None
    }
}

impl LegacyAmazonRegion {
    /// Look the region up by its code, case-insensitively (Unicode
    /// lower-casing, as a caller would fold it); unknown codes are rejected.
    pub fn from_code(code: &str) -> (r: Result<LegacyAmazonRegion, KindleError>)
        ensures
            match legacy_region_urls(lower_of(code@)) {
                Some(urls) => match r {
                    Ok(region) => region.code@ == lower_of(code@) && region.domain@ == urls.0
                        && region.notebook_url@ == urls.1,
                    Err(_) => false,
                },
                None => match r {
                    Ok(_) => false,
                    Err(e) => e matches KindleError::InvalidRegion(c) && c@ == code@,
                },
            },
            vstd::utf8::is_ascii_chars(code@) ==> lower_of(code@) == ascii_lower(code@),
    {
        let lc = lowercase(code);
        let (domain, notebook_url): (&str, &str) = if crate::text::str_eq(lc.as_str(), "us") {
            ("amazon.com", "https://read.amazon.com/notebook")
        } else if crate::text::str_eq(lc.as_str(), "uk") || crate::text::str_eq(
            lc.as_str(),
            "gb",
        ) {
            ("amazon.co.uk", "https://read.amazon.co.uk/notebook")
        } else if crate::text::str_eq(lc.as_str(), "de") {
            ("amazon.de", "https://read.amazon.de/notebook")
        } else if crate::text::str_eq(lc.as_str(), "fr") {
            ("amazon.fr", "https://read.amazon.fr/notebook")
        } else if crate::text::str_eq(lc.as_str(), "es") {
            ("amazon.es", "https://read.amazon.es/notebook")
        } else if crate::text::str_eq(lc.as_str(), "it") {
            ("amazon.it", "https://read.amazon.it/notebook")
        } else if crate::text::str_eq(lc.as_str(), "jp") {
            ("amazon.co.jp", "https://read.amazon.co.jp/notebook")
        } else if crate::text::str_eq(lc.as_str(), "ca") {
            ("amazon.ca", "https://read.amazon.ca/notebook")
        } else if crate::text::str_eq(lc.as_str(), "au") {
            ("amazon.com.au", "https://read.amazon.com.au/notebook")
        } else if crate::text::str_eq(lc.as_str(), "in") {
            ("amazon.in", "https://read.amazon.in/notebook")
        } else if crate::text::str_eq(lc.as_str(), "br") {
            ("amazon.com.br", "https://read.amazon.com.br/notebook")
        } else if crate::text::str_eq(lc.as_str(), "mx") {
            ("amazon.com.mx", "https://read.amazon.com.mx/notebook")
        } else {
            return Err(KindleError::InvalidRegion(code.to_owned()));
        };
        Ok(
            LegacyAmazonRegion {
                code: lc,
                domain: domain.to_owned(),
                notebook_url: notebook_url.to_owned(),
            },
        )
    }
}

/// `s` without its leading dots.
pub open spec fn drop_dots(s: Seq<char>) -> Seq<char>
    decreases s.len(),
{
    if s.len() > 0 && s.first() == '.' {
        drop_dots(s.drop_first())
    } else {
        s
    }
}

proof fn lemma_drop_dots_at(s: Seq<char>, a: int)
    requires
        0 <= a <= s.len(),
        forall|k: int| 0 <= k < a ==> (#[trigger] s[k]) == '.',
        a < s.len() ==> s[a] != '.',
    ensures
        drop_dots(s) == s.skip(a),
    decreases a,
{
    if a == 0 {
        assert(s.skip(0) =~= s);
    } else {
        assert(s[0] == '.');
        let sub = s.drop_first();
        assert forall|k: int| 0 <= k < a - 1 implies (#[trigger] sub[k]) == '.' by {
            assert(sub[k] == s[k + 1]);
        }
        assert(a - 1 < sub.len() ==> sub[a - 1] != '.');
        lemma_drop_dots_at(sub, a - 1);
        assert(sub.skip(a - 1) =~= s.skip(a));
    }
}

fn drop_dots_str(s: &str) -> (r: String)
    ensures
        r@ == drop_dots(s@),
{
    let n = s.unicode_len();
    let mut a: usize = 0;
    loop
        invariant
            a <= n,
            n == s@.len(),
            forall|k: int| 0 <= k < a ==> (#[trigger] s@[k]) == '.',
        ensures
            a <= n,
            forall|k: int| 0 <= k < a ==> (#[trigger] s@[k]) == '.',
            a < n ==> s@[a as int] != '.',
        decreases n - a,
    {
        if a == n {
            break ;
        }
        if s.get_char(a) != '.' {
            break ;
        }
        a = a + 1;
    }
    proof {
        lemma_drop_dots_at(s@, a as int);
        assert(s@.subrange(a as int, n as int) =~= s@.skip(a as int));
    }
    s.substring_char(a, n).to_owned()
}

/// The cookie of one line of a Netscape-format cookie file, as `name=value`,
/// when the line is neither blank nor a comment, has at least seven
/// tab-separated fields, and its domain (without leading dots) and the
/// target domain contain one another either way.
pub open spec fn cookie_line_spec(line: Seq<char>, domain: Seq<char>) -> Option<Seq<char>> {
    let t = trim_spec(line);
    if t.len() == 0 || t[0] == '#' {
        None
    } else {
        let parts = split_delim(t, "\t"@);
        if parts.len() < 7 {
            None
        } else {
            let cd = drop_dots(parts[0]);
            if first_delim_idx(cd, domain) != -1 || first_delim_idx(domain, cd) != -1 {
                Some(parts[5] + seq!['='] + parts[6])
            } else {
                None
            }
        }
    }
}

/// `s` with every leading repetition of the prefix `p` removed.
pub open spec fn strip_prefix_rep(s: Seq<char>, p: Seq<char>) -> Seq<char>
    decreases s.len()
        when p.len() > 0
{
    if p.len() <= s.len() && s.take(p.len() as int) == p {
        strip_prefix_rep(s.skip(p.len() as int), p)
    } else {
        s
    }
}

fn strip_prefix_rep_exec(s: &str, p: &str) -> (r: String)
    requires
        p@.len() > 0,
    ensures
        r@ == strip_prefix_rep(s@, p@),
    decreases s@.len(),
{
    let n = s.unicode_len();
    let m = p.unicode_len();
    if m <= n && str_eq(s.substring_char(0, m), p) {
        proof {
            assert(s@.subrange(0, m as int) =~= s@.take(m as int));
        }
        let rest = s.substring_char(m, n);
        proof {
            assert(rest@ =~= s@.skip(m as int));
        }
        strip_prefix_rep_exec(rest, p)
    } else {
        proof {
            if m <= n {
                assert(s@.subrange(0, m as int) =~= s@.take(m as int));
            }
        }
        s.to_owned()
    }
}

/// The cleaned author of a scraped book entry: trimmed, any leading `By:` or
/// `by:` labels removed, trimmed again; an empty remainder means no author.
pub open spec fn clean_author_spec(text: Seq<char>) -> Option<Seq<char>> {
    let stripped = strip_prefix_rep(strip_prefix_rep(trim_spec(text), "By:"@), "by:"@);
    let cleaned = trim_spec(stripped);
    if cleaned.len() == 0 {
        None
    } else {
        Some(cleaned)
    }
}

/// Clean the author text of a scraped book entry.
pub fn clean_author(text: &str) -> (r: Option<String>)
    ensures
        r.deep_view() == clean_author_spec(text@),
{
    proof {
        reveal_strlit("By:");
        reveal_strlit("by:");
    }
    let t1 = trim_str(text);
    let t2 = strip_prefix_rep_exec(t1.as_str(), "By:");
    let t3 = strip_prefix_rep_exec(t2.as_str(), "by:");
    let cleaned = trim_str(t3.as_str());
    if cleaned.as_str().is_empty() {
        None
    } else {
        Some(cleaned)
    }
}

/// Whether some highlight already carries exactly this text; scraped pages
/// repeat entries, which are dropped by exact text.
pub fn contains_exact_text(highlights: &Vec<Highlight>, text: &str) -> (r: bool)
    ensures
        r == exists|i: int|
            0 <= i < highlights@.len() && (#[trigger] highlights.deep_view()[i].text) == text@,
{
    let n = highlights.len();
    for i in 0..n
        invariant
            n == highlights@.len(),
            forall|j: int| 0 <= j < i ==> (#[trigger] highlights.deep_view()[j].text) != text@,
    {
        proof {
            assert(highlights.deep_view()[i as int].text == highlights@[i as int].text@);
        }
        if str_eq(highlights[i].text.as_str(), text) {
            return true;
        }
    }
    false
}

/// Decide what one line of a Netscape-format cookie file contributes for the
/// given domain.
pub fn cookie_for_domain(line: &str, domain: &str) -> (r: Option<String>)
    requires
        domain@.len() > 0,
    ensures
        r.deep_view() == cookie_line_spec(line@, domain@),
{
    let t = trim_str(line);
    let tn = t.as_str().unicode_len();
    if tn == 0 {
        return None;
    }
    if t.as_str().get_char(0) == '#' {
        return None;
    }
    proof {
        reveal_strlit("\t");
    }
    let parts = split_string(t.as_str(), "\t");
    if parts.len() < 7 {
        return None;
    }
    proof {
        assert(parts.deep_view()[0] == parts@[0]@);
        assert(parts.deep_view()[5] == parts@[5]@);
        assert(parts.deep_view()[6] == parts@[6]@);
    }
    let cd = drop_dots_str(parts[0].as_str());
    let matches_domain: bool = if cd.as_str().unicode_len() == 0 {
        proof {
            assert(domain@.take(0) =~= cd@);
            assert(first_delim_idx(domain@, cd@) == 0);
        }
        true
    } else {
        contains_sub(cd.as_str(), domain) || contains_sub(domain, cd.as_str())
    };
    if matches_domain {
        let mut out = parts[5].clone();
        out.push('=');
        out.append(parts[6].as_str());
        proof {
            assert(out@ =~= parts.deep_view()[5] + seq!['='] + parts.deep_view()[6]);
        }
        Some(out)
    } else {
        None
    }
}

} // verus!
