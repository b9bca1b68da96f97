//! What can be wrong with a hex string.
use vstd::prelude::*;

verus! {

/// The input that stands where a hex digit should.
#[derive(Debug, Clone, Copy, PartialEq, Eq, Structural)]
pub enum InvalidChar {
    /// A well-formed UTF-8 character that is no hex digit.
    Utf8(char),
    /// A byte that is not part of a well-formed UTF-8 character.
    Other(u8),
}

/// A character of the input is not a hex digit.
#[derive(Debug, Clone, Copy, PartialEq, Eq, Structural)]
pub struct InvalidCharError {
    /// What was found.
    pub invalid: InvalidChar,
    /// Its byte position.
    pub pos: usize,
}

/// A hex string has an odd number of bytes.
#[derive(Debug, Clone, Copy, PartialEq, Eq, Structural)]
pub struct OddLengthStringError {
    /// The length of the string in bytes.
    pub len: usize,
}

} // verus!
