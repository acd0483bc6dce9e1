//! Errors the library itself can report. Failures of the outside world
//! (databases, network, files) are the caller's business.

use vstd::prelude::*;

verus! {

/// Errors specific to Kindle extraction.
#[derive(Debug)]
pub enum KindleError {
    /// The given Amazon region code is not recognized.
    InvalidRegion(String),
}

} // verus!
