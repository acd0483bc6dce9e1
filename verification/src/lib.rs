//! Aggregates personal reading-highlight records from several platforms into
//! one deduplicated, canonically identified library.
//!
//! The heart of the crate is the record-identity and merge engine: a text
//! normalizer, a content-derived book identifier, and a merge algorithm that
//! fuses per-source book lists into a single deterministic library.

pub mod apple_books;
pub mod config;
pub mod error;
pub mod kindle;
pub mod laws;
pub mod merge;
pub mod model;
pub mod text;

pub use config::Config;
pub use model::{Book, Highlight, Library, Location, Source};
