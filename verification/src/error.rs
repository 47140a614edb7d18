//! The error type of the crate.

use vstd::prelude::*;

verus! {

/// Why an operation on raw assets failed.
#[derive(Debug, PartialEq, Eq)]
pub enum Error {
    /// No stored path matches the path that was asked for. Holds that path
    /// as the caller wrote it.
    NotLoaded(String),
    /// A decoder could not make a value of the bytes it found. Holds the
    /// decoder's own message; the store never reads it.
    Decoding(String),
}

} // verus!
