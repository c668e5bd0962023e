//! What can go wrong, and with which context.

use vstd::prelude::*;

verus! {

/// Which structural invariant of a stored object was violated.
#[derive(Debug, Clone, Copy, PartialEq, Eq)]
pub enum CorruptReason {
    /// No `\0` ends the header.
    MissingSeparator,
    /// The header names no known kind.
    UnknownKind,
    /// The header's length is missing or differs from the body's length.
    BadLength,
    /// A tree line is unterminated, has no space, or is not UTF-8.
    MalformedTreeLine,
}

/// The errors of the store; each carries the path or digest it concerns.
#[derive(Debug, PartialEq, Eq)]
pub enum StoreError {
    PathNotFound(String),
    OutOfScope(String),
    UnsupportedPathType(String),
    Io(String),
    NotFound(String),
    Integrity(String),
    Corrupt(CorruptReason),
}

} // verus!
