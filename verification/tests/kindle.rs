use bookexport::error::KindleError;
use bookexport::kindle::browser::{needs_login, notebook_page_ready, AmazonRegion, BrowserConfig};
use bookexport::kindle::scraper::{
    clean_author, contains_exact_text, cookie_for_domain, LegacyAmazonRegion,
};
use bookexport::model::{Highlight, Location, Source};

#[test]
fn test_legacy_amazon_region() {
    let us = LegacyAmazonRegion::from_code("us").unwrap();
    assert_eq!(us.domain, "amazon.com");

    let uk = LegacyAmazonRegion::from_code("UK").unwrap();
    assert_eq!(uk.domain, "amazon.co.uk");

    let invalid = LegacyAmazonRegion::from_code("xyz");
    assert!(invalid.is_err());
}

#[test]
fn test_region_unicode_fold() {
    // The Kelvin sign lower-cases to `k`, so this spells `uk`.
    let uk = LegacyAmazonRegion::from_code("U\u{212A}").unwrap();
    assert_eq!(uk.domain, "amazon.co.uk");
}

#[test]
fn test_amazon_region_from_code() {
    let us = AmazonRegion::from_code("us").unwrap();
    assert_eq!(us.notebook_url, "https://read.amazon.com/notebook");
    assert_eq!(us.signin_url, "https://www.amazon.com/ap/signin");

    let gb = AmazonRegion::from_code("GB").unwrap();
    assert_eq!(gb.code, "gb");
    assert_eq!(gb.notebook_url, "https://read.amazon.co.uk/notebook");
}

#[test]
fn test_amazon_region_invalid_code() {
    match AmazonRegion::from_code("atlantis") {
        Err(KindleError::InvalidRegion(code)) => assert_eq!(code, "atlantis"),
        _ => panic!("expected an invalid-region error"),
    }
}

#[test]
fn test_cookie_for_domain() {
    let line = ".amazon.com\tTRUE\t/\tTRUE\t0\tsession-id\tabc123";
    assert_eq!(cookie_for_domain(line, "amazon.com"), Some("session-id=abc123".to_string()));
    // Comments, blank lines and short lines contribute nothing.
    assert_eq!(cookie_for_domain("# a comment", "amazon.com"), None);
    assert_eq!(cookie_for_domain("   ", "amazon.com"), None);
    assert_eq!(cookie_for_domain("too\tfew\tfields", "amazon.com"), None);
    // Cookies of other domains are skipped.
    assert_eq!(cookie_for_domain(line, "amazon.co.uk"), None);
}

#[test]
fn test_notebook_page_decisions() {
    assert!(notebook_page_ready("https://read.amazon.com/notebook", true, false));
    assert!(notebook_page_ready("https://read.amazon.com/notebook", false, true));
    assert!(!notebook_page_ready("https://read.amazon.com/notebook", false, false));
    assert!(!notebook_page_ready("https://www.amazon.com/ap/signin", true, true));
    assert!(needs_login("https://www.amazon.com/ap/signin"));
    assert!(!needs_login("https://read.amazon.com/notebook"));
}

#[test]
fn test_clean_author() {
    assert_eq!(clean_author("By: F. Scott Fitzgerald "), Some("F. Scott Fitzgerald".to_string()));
    assert_eq!(clean_author("  by:Jane Doe"), Some("Jane Doe".to_string()));
    assert_eq!(clean_author("Plain Author"), Some("Plain Author".to_string()));
    assert_eq!(clean_author("By:"), None);
    assert_eq!(clean_author("   "), None);
}

#[test]
fn test_contains_exact_text() {
    let h = |text: &str| Highlight {
        id: "h".to_string(),
        text: text.to_string(),
        note: None,
        location: Location { chapter: None, position: None },
        created_at: None,
        source: Source::Kindle,
    };
    let hls = vec![h("alpha"), h("beta")];
    assert!(contains_exact_text(&hls, "alpha"));
    assert!(!contains_exact_text(&hls, "Alpha"));
    assert!(!contains_exact_text(&hls, "gamma"));
}

#[test]
fn test_browser_config_default() {
    let config = BrowserConfig::default();
    assert!(!config.headless);
    assert_eq!(config.region.code, "us");
    assert!(config.user_data_dir.is_none());
    assert_eq!(config.timeout_secs, 30);
}
