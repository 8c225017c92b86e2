use proquint::alphabet::{consonant_char, consonant_value, vowel_char, vowel_value};
use proquint::label::{decode_label, quint_to_ascii};
use proquint::{encode_ipv4, AsProquint, Proquint, ProquintError};
use std::collections::HashSet;

#[test]
fn alphabets_are_distinct_and_disjoint() {
    let consonants: HashSet<u8> = (0..16u16).map(consonant_char).collect();
    let vowels: HashSet<u8> = (0..4u16).map(vowel_char).collect();
    assert_eq!(consonants.len(), 16);
    assert_eq!(vowels.len(), 4);
    assert!(consonants.is_disjoint(&vowels));
    let all: Vec<u8> = (0..16u16).map(consonant_char).collect();
    assert_eq!(all, b"bdfghjklmnprstvz".to_vec());
    let all: Vec<u8> = (0..4u16).map(vowel_char).collect();
    assert_eq!(all, b"aiou".to_vec());
}

#[test]
fn letter_values() {
    assert_eq!(consonant_value(b'b'), Ok(0));
    assert_eq!(consonant_value(b'z'), Ok(15));
    assert_eq!(consonant_value(b'a'), Err(ProquintError::InvalidConsonant(b'a')));
    assert_eq!(vowel_value(b'a'), Ok(0));
    assert_eq!(vowel_value(b'u'), Ok(3));
    assert_eq!(vowel_value(b'b'), Err(ProquintError::InvalidVowel(b'b')));
    for i in 0..16u16 {
        assert_eq!(consonant_value(consonant_char(i)), Ok(i));
    }
    for i in 0..4u16 {
        assert_eq!(vowel_value(vowel_char(i)), Ok(i));
    }
}

#[test]
fn label_round_trip_every_value() {
    for v in 0..=u16::MAX {
        let mut out = Vec::new();
        quint_to_ascii(v, &mut out);
        assert_eq!(out.len(), 5);
        assert_eq!(decode_label(&out), Ok(v));
    }
}

#[test]
fn label_boundary_values() {
    let mut out = Vec::new();
    quint_to_ascii(0, &mut out);
    quint_to_ascii(1, &mut out);
    quint_to_ascii(0xffff, &mut out);
    quint_to_ascii(0x1234, &mut out);
    assert_eq!(out, b"bababbabadzuzuzdamuh".to_vec());
}

#[test]
fn decode_label_faults() {
    assert_eq!(decode_label(b"baba"), Err(ProquintError::InvalidLabelLength));
    assert_eq!(decode_label(b"bababa"), Err(ProquintError::InvalidLabelLength));
    assert_eq!(decode_label(b"Xabab"), Err(ProquintError::InvalidConsonant(b'X')));
    assert_eq!(decode_label(b"bXbab"), Err(ProquintError::InvalidVowel(b'X')));
    assert_eq!(decode_label(b"baXab"), Err(ProquintError::InvalidConsonant(b'X')));
    assert_eq!(decode_label(b"babXb"), Err(ProquintError::InvalidVowel(b'X')));
    assert_eq!(decode_label(b"babaX"), Err(ProquintError::InvalidConsonant(b'X')));
    assert_eq!(decode_label(b"damuh"), Ok(0x1234));
}

#[test]
fn text_round_trip_of_sequences() {
    let cases: Vec<Vec<u16>> = vec![
        vec![0],
        vec![0xffff],
        vec![1, 2, 3],
        vec![0x1234, 0xabcd, 0, 0xffff, 7],
    ];
    for ws in cases {
        let p = Proquint::from_slice(&ws);
        let text = p.to_string();
        assert_eq!(text.len(), 6 * ws.len() - 1);
        let back = Proquint::parse(&text).unwrap();
        assert_eq!(back.to_ints(), ws);
        let joined: String = text.chars().filter(|c| *c != '-').collect();
        assert_eq!(Proquint::parse(&joined), Proquint::parse(&text));
    }
}

#[test]
fn separators_are_optional() {
    assert_eq!(Proquint::parse("babab-babad"), Proquint::parse("bababbabad"));
    assert_eq!(Proquint::parse("bababbabad").unwrap().to_ints(), vec![0, 1]);
}

#[test]
fn parse_faults() {
    assert_eq!(Proquint::parse("babab-"), Err(ProquintError::InvalidLabelLength));
    assert_eq!(Proquint::parse("-babab"), Err(ProquintError::InvalidLabelLength));
    assert_eq!(Proquint::parse("babab-bab"), Err(ProquintError::InvalidLabelLength));
    assert_eq!(Proquint::parse("bababbabab-babab"), Err(ProquintError::InvalidLabelLength));
    assert_eq!(Proquint::parse("XXXXX-bab"), Err(ProquintError::InvalidConsonant(b'X')));
    assert_eq!(Proquint::parse("babab-bxbab"), Err(ProquintError::InvalidVowel(b'x')));
    assert_eq!(Proquint::parse("bababbab"), Err(ProquintError::InvalidLabelLength));
    assert_eq!(Proquint::parse("XXXXXbab"), Err(ProquintError::InvalidConsonant(b'X')));
    assert_eq!(Proquint::parse("bababbabaX"), Err(ProquintError::InvalidConsonant(b'X')));
    assert_eq!(Proquint::parse("BABAB"), Err(ProquintError::InvalidConsonant(b'B')));
}

#[test]
fn parse_empty_text() {
    let p = Proquint::parse("").unwrap();
    assert_eq!(p.to_ints(), Vec::<u16>::new());
    assert_eq!(p.to_string(), "");
}

#[test]
fn building_step_by_step() {
    let mut p = Proquint::from_vec(vec![]);
    p.append(0x1234);
    assert_eq!(p.to_string(), "damuh");
    assert_eq!(p.append_label(b"zuzuz"), Ok(()));
    assert_eq!(p.to_ints(), vec![0x1234, 0xffff]);
    assert_eq!(p.append_label(b"zuzu"), Err(ProquintError::InvalidLabelLength));
    assert_eq!(p.append_label(b"zizix"), Err(ProquintError::InvalidConsonant(b'x')));
    assert_eq!(p.to_string(), "damuh-zuzuz");
    let mut q = Proquint::from_slice(&[0x1234]);
    0xffffu16.into_proquint(&mut q);
    assert_eq!(p, q);
}

#[test]
fn wide_values() {
    assert_eq!(0u32.as_proquint_str(), "babab-babab");
    assert_eq!(1u32.as_proquint_str(), "babab-babad");
    assert_eq!(0x1234abcdu32.as_proquint().to_ints(), vec![0x1234, 0xabcd]);
    assert_eq!(1u64.as_proquint_str(), "babab-babab-babab-babad");
    assert_eq!(
        0x0123456789abcdefu64.as_proquint().to_ints(),
        vec![0x0123, 0x4567, 0x89ab, 0xcdef]
    );
    assert_eq!(0xffffffffffffffffu64.as_proquint_str(), "zuzuz-zuzuz-zuzuz-zuzuz");
    assert_eq!(vec![0x1234u16].as_proquint_str(), "damuh");
}

#[test]
fn ipv4_words() {
    assert_eq!(encode_ipv4([127, 0, 0, 1]).to_ints(), vec![0x7f00, 0x0001]);
    assert_eq!(encode_ipv4([255, 255, 255, 255]).to_string(), "zuzuz-zuzuz");
    assert_eq!(encode_ipv4([0, 0, 0, 0]).to_string(), "babab-babab");
}
