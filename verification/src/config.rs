//! Application configuration: which extractors run and where their inputs and
//! the output live. Paths are carried as plain strings; reading and writing
//! the configuration file is the caller's business.

use vstd::prelude::*;

verus! {

/// Apple Books specific configuration.
#[derive(Debug, Clone)]
pub struct AppleBooksConfig {
    /// Whether Apple Books extraction is enabled.
    pub enabled: bool,
    /// Override path for the library database.
    pub library_db: Option<String>,
    /// Override path for the annotation database.
    pub annotation_db: Option<String>,
}

/// Kindle specific configuration.
#[derive(Debug, Clone)]
pub struct KindleConfig {
    /// Whether Kindle extraction is enabled.
    pub enabled: bool,
    /// Path to the clippings file.
    pub clippings_path: Option<String>,
    /// Path to a cookies file for Amazon scraping.
    pub cookies_path: Option<String>,
    /// Amazon region code (us, uk, de, fr, ...).
    pub region: String,
}

/// Application configuration.
#[derive(Debug, Clone)]
pub struct Config {
    /// Output path for the library JSON file.
    pub output_path: String,
    pub apple_books: AppleBooksConfig,
    pub kindle: KindleConfig,
}

impl Default for AppleBooksConfig {
    fn default() -> (r: AppleBooksConfig)
        ensures
            r.enabled == true,
            r.library_db is None,
            r.annotation_db is None,
    {
        AppleBooksConfig { enabled: true, library_db: None, annotation_db: None }
    }
}

impl Default for KindleConfig {
    fn default() -> (r: KindleConfig)
        ensures
            r.enabled == true,
            r.clippings_path is None,
            r.cookies_path is None,
            r.region@ == "us"@,
    {
        KindleConfig {
            enabled: true,
            clippings_path: None,
            cookies_path: None,
            region: String::from_str("us"),
        }
    }
}

impl Default for Config {
    fn default() -> (r: Config)
        ensures
            r.output_path@ == "library.json"@,
            r.apple_books.enabled == true,
            r.apple_books.library_db is None,
            r.apple_books.annotation_db is None,
            r.kindle.enabled == true,
            r.kindle.clippings_path is None,
            r.kindle.cookies_path is None,
            r.kindle.region@ == "us"@,
    {
        Config {
            output_path: String::from_str("library.json"),
            apple_books: AppleBooksConfig::default(),
            kindle: KindleConfig::default(),
        }
    }
}

/// A path beginning with `~/` expanded against a home directory: the tilde is
/// replaced by the home directory, keeping the separator. Any other path, or
/// an unknown home, leaves the path unchanged.
pub open spec fn expand_tilde_spec(path: Seq<char>, home: Option<Seq<char>>) -> Seq<char> {
    if path.len() >= 2 && path[0] == '~' && path[1] == '/' && home is Some {
        home.unwrap() + path.skip(1)
    } else {
        path
    }
}

/// `expand_tilde_spec` over an optional path.
pub open spec fn expand_opt_spec(path: Option<Seq<char>>, home: Option<Seq<char>>) -> Option<
    Seq<char>,
> {
    match path {
        Some(p) => Some(expand_tilde_spec(p, home)),
        None => None,
    }
}

/// Relies on dirs::home_dir: the user's home directory, if the platform knows
/// one; nothing is assumed of its value.
#[verifier::external_body]
fn home_dir_string() -> Option<String> {
    dirs::home_dir().map(|p| p.to_string_lossy().to_string())
}

fn expand_tilde_with(path: &str, home: Option<&str>) -> (r: String)
    ensures
        r@ == expand_tilde_spec(path@, home.deep_view()),
{
    let n = path.unicode_len();
    match home {
        Some(h) => {
            if n >= 2 && path.get_char(0) == '~' && path.get_char(1) == '/' {
                let mut out = String::from_str(h);
                let rest = path.substring_char(1, n);
                out.append(rest);
                out
            } else {
                path.to_owned()
            }
        },
        None => path.to_owned(),
    }
}

fn expand_opt(path: &Option<String>, home: Option<&str>) -> (r: Option<String>)
    ensures
        r.deep_view() == expand_opt_spec(path.deep_view(), home.deep_view()),
{
    match path {
        Some(p) => Some(expand_tilde_with(p.as_str(), home)),
        None => None,
    }
}

impl Config {
    /// Expand a leading tilde in every configured path, against the home
    /// directory the platform reports; everything else is left unchanged.
    pub fn expand_paths(&mut self)
        ensures
            exists|h: Option<Seq<char>>|
                {
                    &&& final(self).output_path@ == expand_tilde_spec(
                        old(self).output_path@,
                        h,
                    )
                    &&& final(self).apple_books.library_db.deep_view() == expand_opt_spec(
                        old(self).apple_books.library_db.deep_view(),
                        h,
                    )
                    &&& final(self).apple_books.annotation_db.deep_view() == expand_opt_spec(
                        old(self).apple_books.annotation_db.deep_view(),
                        h,
                    )
                    &&& final(self).kindle.clippings_path.deep_view() == expand_opt_spec(
                        old(self).kindle.clippings_path.deep_view(),
                        h,
                    )
                    &&& final(self).kindle.cookies_path.deep_view() == expand_opt_spec(
                        old(self).kindle.cookies_path.deep_view(),
                        h,
                    )
                },
            final(self).apple_books.enabled == old(self).apple_books.enabled,
            final(self).kindle.enabled == old(self).kindle.enabled,
            final(self).kindle.region == old(self).kindle.region,
    {
        let home = home_dir_string();
        let ghost h = home.deep_view();
        let home_ref = match &home {
            Some(hs) => Some(hs.as_str()),
            None => None,
        };
        proof {
            assert(home_ref.deep_view() == h);
        }
        self.output_path = expand_tilde_with(self.output_path.as_str(), home_ref);
        self.apple_books.library_db = expand_opt(&self.apple_books.library_db, home_ref);
        self.apple_books.annotation_db = expand_opt(&self.apple_books.annotation_db, home_ref);
        self.kindle.clippings_path = expand_opt(&self.kindle.clippings_path, home_ref);
        self.kindle.cookies_path = expand_opt(&self.kindle.cookies_path, home_ref);
    }
}

} // verus!
