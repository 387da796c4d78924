//! The ways in which escaped text can be malformed.

use vstd::prelude::*;

verus! {

/// Why a text could not be unescaped.
///
/// Every offset is a byte offset into the UTF-8 encoding of the text.
#[derive(PartialEq, Eq, Debug, Clone, Copy, Structural)]
pub enum UnescapeError {
    /// The text ends with a backslash that starts no escape sequence.
    UnmatchEscape,
    /// The character after the backslash at this offset selects no escape sequence.
    NotEscapeSequence(usize),
    /// A universal character name is cut short by the end of the text (the
    /// offset is then the length of the text), or holds a character other
    /// than a hexadecimal digit at this offset.
    UnivCharError(usize),
    /// The universal character name whose backslash stands at this offset
    /// names no Unicode scalar value.
    UnicodeError(usize),
    /// The hexadecimal or octal escape whose backslash stands at this offset
    /// has no digits or a value above 255.
    Overflow(usize),
}

} // verus!
