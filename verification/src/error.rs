use vstd::prelude::*;

verus! {

/// Why a buffer could not be decoded, or a byte string could not be read as text.
#[derive(Debug, PartialEq, Eq, Clone, Copy)]
pub enum ParseError {
    /// The byte at the start of a value or of a dictionary key begins no production.
    UnexpectedByte,
    /// The input ends before the production is complete.
    TruncatedInput,
    /// An integer or a length field has no digits, holds a byte that is not a
    /// digit, or does not fit its type.
    MalformedNumber,
    /// A byte string was asked for as text and is not valid UTF-8.
    InvalidUtf8,
}

} // verus!
