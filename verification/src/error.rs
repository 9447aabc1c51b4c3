use vstd::prelude::*;

verus! {

/// Every way an operation of this library can decline to do its work.
#[derive(Debug, Clone, Copy, PartialEq, Eq, Structural)]
pub enum CollectionError {
    /// An index or a range reaches past the end of the container.
    IndexOutOfBounds,
    /// No entry is stored under the key that was asked for.
    KeyAbsent,
    /// The bytes are not UTF-8; `offset` is where the first ill-formed
    /// sequence starts.
    Utf8ValidationError { offset: usize },
    /// A byte offset falls inside the encoding of a character.
    InvalidBoundary,
    /// The text is not a number of the requested type.
    ParseError,
    /// The requested capacity cannot be expressed in a `usize`.
    CapacityOverflow,
}

} // verus!
