//! Errors reported when reading proquint text.
use vstd::prelude::*;

verus! {

/// Why a piece of text is not a proquint.
#[derive(Debug, Clone, Copy, PartialEq, Eq, Structural)]
pub enum ProquintError {
    /// A label is not exactly five characters long.
    InvalidLabelLength,
    /// A byte that should be a consonant is not one.
    InvalidConsonant(u8),
    /// A byte that should be a vowel is not one.
    InvalidVowel(u8),
}

} // verus!
