//! The ways in which the library's functions refuse an input.

use vstd::prelude::*;

verus! {

/// Why a sentence could not be turned into camel case.
#[derive(Debug, PartialEq, Eq)]
pub enum Error {
    /// Once separators are replaced and the ends trimmed, fewer than two
    /// characters are left. Carries the sentence as it was given.
    InvalidWord(String),
    /// The sentence holds a character outside ASCII. Carries the sentence as
    /// it was given.
    NotAscii(String),
}

/// Why a colour code could not be read.
#[derive(Debug, PartialEq, Eq, Clone, Copy, Structural)]
pub enum HexError {
    /// The code has fewer than six characters.
    TooShort,
    /// One of the first six characters is not a hexadecimal digit.
    InvalidDigit,
}

/// Why a date could not be moved.
#[derive(Debug, PartialEq, Eq, Clone, Copy, Structural)]
pub enum DateError {
    /// The date asked for lies before the first or after the last date that
    /// can be represented.
    OutOfRange,
}

} // verus!
