//! The library's error type.
use vstd::prelude::*;

verus! {

/// Why an operation did not complete.
#[derive(Clone, Debug)]
pub enum Error {
    /// Reading or writing failed.
    Io(String),
    /// A file derived from the source does not belong to it any more.
    StaleArtifact(String),
    /// The operation was cancelled before it was complete.
    Cancelled,
    /// A search pattern does not compile.
    InvalidPattern(String),
    /// A remote store failed.
    Remote(String),
}

} // verus!
