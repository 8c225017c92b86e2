//! A label: five letters, consonant-vowel-consonant-vowel-consonant, that
//! spell one 16-bit value.  The value's bits are cut into fields of 4, 2, 4,
//! 2 and 4 bits, most significant first, and each field picks a letter.
use vstd::prelude::*;

use crate::alphabet::{
    consonant_at, consonant_char, consonant_index, consonant_value, is_consonant, is_vowel,
    lemma_consonant_index, lemma_vowel_index, vowel_at, vowel_char, vowel_index, vowel_value,
};
use crate::error::ProquintError;

verus! {

/// Number of letters in a label.
pub const LABEL_LEN: usize = 5;

/// The label that spells `v`.
pub open spec fn label_of(v: u16) -> Seq<u8> {
    seq![
        consonant_at(((v >> 12u16) & 0xfu16) as int),
        vowel_at(((v >> 10u16) & 0x3u16) as int),
        consonant_at(((v >> 6u16) & 0xfu16) as int),
        vowel_at(((v >> 4u16) & 0x3u16) as int),
        consonant_at((v & 0xfu16) as int),
    ]
}

/// The value spelled by a five-letter label whose letters are all in the
/// right alphabets.
pub open spec fn label_value(l: Seq<u8>) -> int {
    consonant_index(l[0]) * 4096 + vowel_index(l[1]) * 1024 + consonant_index(l[2]) * 64
        + vowel_index(l[3]) * 16 + consonant_index(l[4])
}

/// Reading a label: its length is checked first, then each letter from left
/// to right, and the first fault found is reported.
pub open spec fn decode_label_bytes(l: Seq<u8>) -> Result<u16, ProquintError> {
    if l.len() != LABEL_LEN {
        Err(ProquintError::InvalidLabelLength)
    } else if !is_consonant(l[0]) {
        Err(ProquintError::InvalidConsonant(l[0]))
    } else if !is_vowel(l[1]) {
        Err(ProquintError::InvalidVowel(l[1]))
    } else if !is_consonant(l[2]) {
        Err(ProquintError::InvalidConsonant(l[2]))
    } else if !is_vowel(l[3]) {
        Err(ProquintError::InvalidVowel(l[3]))
    } else if !is_consonant(l[4]) {
        Err(ProquintError::InvalidConsonant(l[4]))
    } else {
        Ok(label_value(l) as u16)
    }
}

/// Reading the label of `v` gives `v` back.
pub proof fn lemma_label_round_trip(v: u16)
    ensures
        decode_label_bytes(label_of(v)) == Ok::<u16, ProquintError>(v),
{
    let c0 = (v >> 12u16) & 0xfu16;
    let v1 = (v >> 10u16) & 0x3u16;
    let c2 = (v >> 6u16) & 0xfu16;
    let v3 = (v >> 4u16) & 0x3u16;
    let c4 = v & 0xfu16;
    assert(c0 < 16 && v1 < 4 && c2 < 16 && v3 < 4 && c4 < 16) by (bit_vector)
        requires
            c0 == (v >> 12u16) & 0xfu16,
            v1 == (v >> 10u16) & 0x3u16,
            c2 == (v >> 6u16) & 0xfu16,
            v3 == (v >> 4u16) & 0x3u16,
            c4 == v & 0xfu16,
    ;
    assert(v == c0 * 4096 + v1 * 1024 + c2 * 64 + v3 * 16 + c4) by (bit_vector)
        requires
            c0 == (v >> 12u16) & 0xfu16,
            v1 == (v >> 10u16) & 0x3u16,
            c2 == (v >> 6u16) & 0xfu16,
            v3 == (v >> 4u16) & 0x3u16,
            c4 == v & 0xfu16,
    ;
    lemma_consonant_index(c0 as int);
    lemma_vowel_index(v1 as int);
    lemma_consonant_index(c2 as int);
    lemma_vowel_index(v3 as int);
    lemma_consonant_index(c4 as int);
}

/// Appends the label of `u` to `out`.
pub fn quint_to_ascii(u: u16, out: &mut Vec<u8>)
    ensures
        final(out)@ == old(out)@ + label_of(u),
{
    let con0 = (u >> 12u16) & 0xfu16;
    let vo1 = (u >> 10u16) & 0x3u16;
    let con2 = (u >> 6u16) & 0xfu16;
    let vo3 = (u >> 4u16) & 0x3u16;
    let con4 = u & 0xfu16;
    assert(con0 < 16 && vo1 < 4 && con2 < 16 && vo3 < 4 && con4 < 16) by (bit_vector)
        requires
            con0 == (u >> 12u16) & 0xfu16,
            vo1 == (u >> 10u16) & 0x3u16,
            con2 == (u >> 6u16) & 0xfu16,
            vo3 == (u >> 4u16) & 0x3u16,
            con4 == u & 0xfu16,
    ;
    out.push(consonant_char(con0));
    out.push(vowel_char(vo1));
    out.push(consonant_char(con2));
    out.push(vowel_char(vo3));
    out.push(consonant_char(con4));
    assert(final(out)@ =~= old(out)@ + label_of(u));
}

/// Reads the value spelled by `label`.
pub fn decode_label(label: &[u8]) -> (r: Result<u16, ProquintError>)
    ensures
        r == decode_label_bytes(label@),
{
    if label.len() != LABEL_LEN {
        return Err(ProquintError::InvalidLabelLength);
    }
    let c0 = match consonant_value(label[0]) {
        Ok(x) => x,
        Err(e) => return Err(e),
    };
    let v1 = match vowel_value(label[1]) {
        Ok(x) => x,
        Err(e) => return Err(e),
    };
    let c2 = match consonant_value(label[2]) {
        Ok(x) => x,
        Err(e) => return Err(e),
    };
    let v3 = match vowel_value(label[3]) {
        Ok(x) => x,
        Err(e) => return Err(e),
    };
    let c4 = match consonant_value(label[4]) {
        Ok(x) => x,
        Err(e) => return Err(e),
    };
    Ok(c0 * 4096 + v1 * 1024 + c2 * 64 + v3 * 16 + c4)
}

} // verus!
