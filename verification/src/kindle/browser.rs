//! Amazon region configuration for browser-based scraping, and the browser
//! scraper's settings. The browser itself is driven by the caller.

use vstd::prelude::*;

use crate::error::KindleError;
use crate::kindle::clippings::{contains_sub, first_delim_idx};
use crate::text::{ascii_lower, lower_of, lowercase};

verus! {

/// Amazon region configuration for browser-based scraping.
#[derive(Debug, Clone)]
pub struct AmazonRegion {
    pub code: String,
    pub notebook_url: String,
    pub signin_url: String,
}

/// The notebook and sign-in URLs for a lower-cased region code, if the code
/// is recognized.
pub open spec fn region_urls(lc: Seq<char>) -> Option<(Seq<char>, Seq<char>)> {
    if lc == "us"@ {
        Some(("https://read.amazon.com/notebook"@, "https://www.amazon.com/ap/signin"@))
    } else if lc == "uk"@ || lc == "gb"@ {
        Some(("https://read.amazon.co.uk/notebook"@, "https://www.amazon.co.uk/ap/signin"@))
    } else if lc == "de"@ {
        Some(("https://read.amazon.de/notebook"@, "https://www.amazon.de/ap/signin"@))
    } else if lc == "fr"@ {
        Some(("https://read.amazon.fr/notebook"@, "https://www.amazon.fr/ap/signin"@))
    } else if lc == "es"@ {
        Some(("https://read.amazon.es/notebook"@, "https://www.amazon.es/ap/signin"@))
    } else if lc == "it"@ {
        Some(("https://read.amazon.it/notebook"@, "https://www.amazon.it/ap/signin"@))
    } else if lc == "jp"@ {
        Some(("https://read.amazon.co.jp/notebook"@, "https://www.amazon.co.jp/ap/signin"@))
    } else if lc == "ca"@ {
        Some(("https://read.amazon.ca/notebook"@, "https://www.amazon.ca/ap/signin"@))
    } else if lc == "au"@ {
        Some(("https://read.amazon.com.au/notebook"@, "https://www.amazon.com.au/ap/signin"@))
    } else if lc == "in"@ {
        Some(("https://read.amazon.in/notebook"@, "https://www.amazon.in/ap/signin"@))
    } else {
        None
    }
}

impl AmazonRegion {
    /// Look the region up by its code, case-insensitively (Unicode
    /// lower-casing, as a caller would fold it); unknown codes are rejected.
    pub fn from_code(code: &str) -> (r: Result<AmazonRegion, KindleError>)
        ensures
            match region_urls(lower_of(code@)) {
                Some(urls) => match r {
                    Ok(region) => region.code@ == lower_of(code@) && region.notebook_url@
                        == urls.0 && region.signin_url@ == urls.1,
                    Err(_) => false,
                },
                None => match r {
                    Ok(_) => false,
                    Err(e) => e matches KindleError::InvalidRegion(c) && c@ == code@,
                },
            },
            vstd::utf8::is_ascii_chars(code@) ==> lower_of(code@) == ascii_lower(code@),
    {
        let lc = lowercase(code);
        let (notebook_url, signin_url): (&str, &str) = if crate::text::str_eq(lc.as_str(), "us") {
            ("https://read.amazon.com/notebook", "https://www.amazon.com/ap/signin")
        } else if crate::text::str_eq(lc.as_str(), "uk") || crate::text::str_eq(
            lc.as_str(),
            "gb",
        ) {
            ("https://read.amazon.co.uk/notebook", "https://www.amazon.co.uk/ap/signin")
        } else if crate::text::str_eq(lc.as_str(), "de") {
            ("https://read.amazon.de/notebook", "https://www.amazon.de/ap/signin")
        } else if crate::text::str_eq(lc.as_str(), "fr") {
            ("https://read.amazon.fr/notebook", "https://www.amazon.fr/ap/signin")
        } else if crate::text::str_eq(lc.as_str(), "es") {
            ("https://read.amazon.es/notebook", "https://www.amazon.es/ap/signin")
        } else if crate::text::str_eq(lc.as_str(), "it") {
            ("https://read.amazon.it/notebook", "https://www.amazon.it/ap/signin")
        } else if crate::text::str_eq(lc.as_str(), "jp") {
            ("https://read.amazon.co.jp/notebook", "https://www.amazon.co.jp/ap/signin")
        } else if crate::text::str_eq(lc.as_str(), "ca") {
            ("https://read.amazon.ca/notebook", "https://www.amazon.ca/ap/signin")
        } else if crate::text::str_eq(lc.as_str(), "au") {
            ("https://read.amazon.com.au/notebook", "https://www.amazon.com.au/ap/signin")
        } else if crate::text::str_eq(lc.as_str(), "in") {
            ("https://read.amazon.in/notebook", "https://www.amazon.in/ap/signin")
        } else {
            return Err(KindleError::InvalidRegion(code.to_owned()));
        };
        Ok(
            AmazonRegion {
                code: lc,
                notebook_url: notebook_url.to_owned(),
                signin_url: signin_url.to_owned(),
            },
        )
    }
}

/// Configuration for the browser scraper.
#[derive(Debug, Clone)]
pub struct BrowserConfig {
    /// Whether to run in headless mode (false shows the browser window).
    pub headless: bool,
    /// Amazon region.
    pub region: AmazonRegion,
    /// Path to store user data in, for session persistence.
    pub user_data_dir: Option<String>,
    /// Timeout for page loads, in seconds.
    pub timeout_secs: u64,
}

impl Default for BrowserConfig {
    fn default() -> (r: BrowserConfig)
        ensures
            r.headless == false,
            r.region.code@ == "us"@,
            r.user_data_dir is None,
            r.timeout_secs == 30,
    {
        proof {
            reveal_strlit("us");
            assert(vstd::utf8::is_ascii_chars("us"@));
            assert(ascii_lower("us"@) =~= "us"@);
        }
        let region = match AmazonRegion::from_code("us") {
            Ok(region) => region,
            Err(_) => {
                proof {
                    assert(false);
                }
                AmazonRegion {
                    code: String::new(),
                    notebook_url: String::new(),
                    signin_url: String::new(),
                }
            },
        };
        // Show the browser by default, so that the user can log in.
        BrowserConfig { headless: false, region, user_data_dir: None, timeout_secs: 30 }
    }
}

/// Decide whether the notebook page is ready: the URL shows the notebook and
/// not the sign-in flow, and either a book entry or the library pane was
/// found on the page.
pub fn notebook_page_ready(url: &str, has_book_entry: bool, has_library_pane: bool) -> (r: bool)
    ensures
        r == (first_delim_idx(url@, "notebook"@) != -1 && first_delim_idx(url@, "signin"@) == -1
            && (has_book_entry || has_library_pane)),
{
    proof {
        reveal_strlit("notebook");
        reveal_strlit("signin");
    }
    contains_sub(url, "notebook") && !contains_sub(url, "signin") && (has_book_entry
        || has_library_pane)
}

/// Decide whether the current URL is Amazon's sign-in flow, where the user
/// must log in before scraping can begin.
pub fn needs_login(url: &str) -> (r: bool)
    ensures
        r == (first_delim_idx(url@, "signin"@) != -1 || first_delim_idx(url@, "ap/signin"@)
            != -1),
{
    proof {
        reveal_strlit("signin");
        reveal_strlit("ap/signin");
    }
    contains_sub(url, "signin") || contains_sub(url, "ap/signin")
}

} // verus!
