//! Proquints: readable, spellable and pronounceable identifiers.
//!
//! A proquint label spells one unsigned 16-bit value as five lowercase
//! letters, alternating consonant and vowel.  Wider values are written as a
//! sequence of labels joined by `-`.
pub mod alphabet;
pub mod convert;
pub mod error;
pub mod identifier;
pub mod label;

pub use convert::{encode_ipv4, AsProquint};
pub use error::ProquintError;
pub use identifier::Proquint;
