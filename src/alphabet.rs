//! The two alphabets of a label: sixteen consonants, each carrying four bits,
//! and four vowels, each carrying two bits.  A letter's position in its
//! alphabet is the value it stands for.
use vstd::prelude::*;

use crate::error::ProquintError;

verus! {

/// Number of consonants.
pub const NUM_CONSONANTS: u16 = 16;

/// Number of vowels.
pub const NUM_VOWELS: u16 = 4;

/// The consonant that stands for `i`, for `0 <= i < 16`: `bdfghjklmnprstvz`.
pub open spec fn consonant_at(i: int) -> u8 {
    if i == 0 { 98 /* b */ }
    else if i == 1 { 100 /* d */ }
    else if i == 2 { 102 /* f */ }
    else if i == 3 { 103 /* g */ }
    else if i == 4 { 104 /* h */ }
    else if i == 5 { 106 /* j */ }
    else if i == 6 { 107 /* k */ }
    else if i == 7 { 108 /* l */ }
    else if i == 8 { 109 /* m */ }
    else if i == 9 { 110 /* n */ }
    else if i == 10 { 112 /* p */ }
    else if i == 11 { 114 /* r */ }
    else if i == 12 { 115 /* s */ }
    else if i == 13 { 116 /* t */ }
    else if i == 14 { 118 /* v */ }
    else { 122 /* z */ }
}

/// The vowel that stands for `i`, for `0 <= i < 4`: `aiou`.
pub open spec fn vowel_at(i: int) -> u8 {
    if i == 0 { 97 /* a */ }
    else if i == 1 { 105 /* i */ }
    else if i == 2 { 111 /* o */ }
    else { 117 /* u */ }
}

/// The consonant alphabet in order.
pub open spec fn consonants() -> Seq<u8> {
    Seq::new(NUM_CONSONANTS as nat, |i: int| consonant_at(i))
}

/// The vowel alphabet in order.
pub open spec fn vowels() -> Seq<u8> {
    Seq::new(NUM_VOWELS as nat, |i: int| vowel_at(i))
}

/// The value that the consonant `c` stands for (meaningful where
/// `is_consonant(c)`).
pub open spec fn consonant_index(c: u8) -> int {
    choose|i: int| 0 <= i < NUM_CONSONANTS && consonant_at(i) == c
}

/// The value that the vowel `c` stands for (meaningful where `is_vowel(c)`).
pub open spec fn vowel_index(c: u8) -> int {
    choose|i: int| 0 <= i < NUM_VOWELS && vowel_at(i) == c
}

/// Whether `c` is a consonant of the alphabet.
pub open spec fn is_consonant(c: u8) -> bool {
    consonants().contains(c)
}

/// Whether `c` is a vowel of the alphabet.
pub open spec fn is_vowel(c: u8) -> bool {
    vowels().contains(c)
}

/// The consonant alphabet has sixteen distinct letters, the vowel alphabet
/// four, and no letter is in both.
pub proof fn lemma_alphabets_distinct()
    ensures
        consonants().len() == 16,
        vowels().len() == 4,
        consonants().no_duplicates(),
        vowels().no_duplicates(),
        forall|c: u8| is_consonant(c) ==> !is_vowel(c),
{
    assert forall|c: u8| is_consonant(c) implies !is_vowel(c) by {
        let i = choose|i: int| 0 <= i < consonants().len() && consonants()[i] == c;
        if is_vowel(c) {
            let j = choose|j: int| 0 <= j < vowels().len() && vowels()[j] == c;
            assert(consonant_at(i) == vowel_at(j));
        }
    }
}

/// Each consonant is read back as the value it stands for.
pub proof fn lemma_consonant_index(i: int)
    requires
        0 <= i < NUM_CONSONANTS,
    ensures
        is_consonant(consonant_at(i)),
        consonant_index(consonant_at(i)) == i,
{
    assert(consonants()[i] == consonant_at(i));
    let j = consonant_index(consonant_at(i));
    assert(0 <= j < NUM_CONSONANTS && consonant_at(j) == consonant_at(i));
}

/// Each vowel is read back as the value it stands for.
pub proof fn lemma_vowel_index(i: int)
    requires
        0 <= i < NUM_VOWELS,
    ensures
        is_vowel(vowel_at(i)),
        vowel_index(vowel_at(i)) == i,
{
    assert(vowels()[i] == vowel_at(i));
    let j = vowel_index(vowel_at(i));
    assert(0 <= j < NUM_VOWELS && vowel_at(j) == vowel_at(i));
}

/// The consonant that stands for `i`.
pub fn consonant_char(i: u16) -> (r: u8)
    requires
        i < NUM_CONSONANTS,
    ensures
        r == consonant_at(i as int),
{
    match i {
        0 => 98 /* b */,
        1 => 100 /* d */,
        2 => 102 /* f */,
        3 => 103 /* g */,
        4 => 104 /* h */,
        5 => 106 /* j */,
        6 => 107 /* k */,
        7 => 108 /* l */,
        8 => 109 /* m */,
        9 => 110 /* n */,
        10 => 112 /* p */,
        11 => 114 /* r */,
        12 => 115 /* s */,
        13 => 116 /* t */,
        14 => 118 /* v */,
        _ => 122 /* z */,
    }
}

/// The vowel that stands for `i`.
pub fn vowel_char(i: u16) -> (r: u8)
    requires
        i < NUM_VOWELS,
    ensures
        r == vowel_at(i as int),
{
    match i {
        0 => 97 /* a */,
        1 => 105 /* i */,
        2 => 111 /* o */,
        _ => 117 /* u */,
    }
}

/// The value that the consonant `c` stands for.
pub fn consonant_value(c: u8) -> (r: Result<u16, ProquintError>)
    ensures
        match r {
            Ok(i) => is_consonant(c) && i as int == consonant_index(c),
            Err(e) => !is_consonant(c) && e == ProquintError::InvalidConsonant(c),
        },
        r is Ok <==> is_consonant(c),
{
    let r = match c {
        98 /* b */ => Ok(0),
        100 /* d */ => Ok(1),
        102 /* f */ => Ok(2),
        103 /* g */ => Ok(3),
        104 /* h */ => Ok(4),
        106 /* j */ => Ok(5),
        107 /* k */ => Ok(6),
        108 /* l */ => Ok(7),
        109 /* m */ => Ok(8),
        110 /* n */ => Ok(9),
        112 /* p */ => Ok(10),
        114 /* r */ => Ok(11),
        115 /* s */ => Ok(12),
        116 /* t */ => Ok(13),
        118 /* v */ => Ok(14),
        122 /* z */ => Ok(15),
        _ => Err(ProquintError::InvalidConsonant(c)),
    };
    proof {
        match r {
            Ok(i) => {
                lemma_consonant_index(i as int);
            },
            Err(_) => {
                assert forall|i: int| 0 <= i < consonants().len() implies consonants()[i] != c by {
                    assert(consonants()[i] == consonant_at(i));
                }
            },
        }
    }
    r
}

/// The value that the vowel `c` stands for.
pub fn vowel_value(c: u8) -> (r: Result<u16, ProquintError>)
    ensures
        match r {
            Ok(i) => is_vowel(c) && i as int == vowel_index(c),
            Err(e) => !is_vowel(c) && e == ProquintError::InvalidVowel(c),
        },
        r is Ok <==> is_vowel(c),
{
    let r = match c {
        97 /* a */ => Ok(0),
        105 /* i */ => Ok(1),
        111 /* o */ => Ok(2),
        117 /* u */ => Ok(3),
        _ => Err(ProquintError::InvalidVowel(c)),
    };
    proof {
        match r {
            Ok(i) => {
                lemma_vowel_index(i as int);
            },
            Err(_) => {
                assert forall|i: int| 0 <= i < vowels().len() implies vowels()[i] != c by {
                    assert(vowels()[i] == vowel_at(i));
                }
            },
        }
    }
    r
}

} // verus!
