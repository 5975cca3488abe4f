//! Failures of the scanner and of the value stream.

use vstd::prelude::*;

verus! {

/// A byte in a lookahead window that is neither whitespace nor the structural
/// byte that the scanner's state allows.
#[derive(Clone, Copy, Debug, PartialEq, Eq)]
pub struct ScanError {
    /// Index of the byte in the window; every byte before it is whitespace.
    pub index: usize,
    /// The byte itself.
    pub byte: u8,
}

/// Why a value stream stopped before the closing bracket.
#[derive(Clone, Copy, Debug, PartialEq, Eq)]
pub enum StreamError {
    /// Where `[`, `,` or `]` was required the input has another byte (`found`
    /// holds it) or has ended (`found` is `None`). `offset` counts the bytes
    /// of the input before that place.
    MalformedTopLevel { offset: u64, found: Option<u8> },
    /// The JSON parser rejected the bytes that start at `offset`, where an
    /// element was required.
    ValueParseError { offset: u64 },
}

} // verus!
