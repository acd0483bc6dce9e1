//! Kindle extraction: Amazon region tables and the clippings-file parser.

pub mod browser;
pub mod clippings;
pub mod scraper;
