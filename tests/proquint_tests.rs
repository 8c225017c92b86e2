use proquint::alphabet::{NUM_CONSONANTS, NUM_VOWELS};
use proquint::{encode_ipv4, AsProquint, Proquint, ProquintError};
use std::str::FromStr;

#[test]
fn sanity() {
    assert_eq!(NUM_CONSONANTS, 16);
    assert_eq!(NUM_VOWELS, 4);
}

#[test]
fn test_proquint_u16() {
    let p = 1u16.as_proquint();
    let s = p.to_string();
    assert_eq!(s, "babad");
    assert_eq!(p, Proquint::from_str(&s).unwrap());
    assert_eq!(p.to_ints(), [1]);

    let p = 0u16.as_proquint();
    let s = p.to_string();
    assert_eq!(s, "babab");
    assert_eq!(p, Proquint::from_str(&s).unwrap());
    assert_eq!(p.to_ints(), [0]);

    let p = 0xffffu16.as_proquint();
    let s = p.to_string();
    assert_eq!(s, "zuzuz");
    assert_eq!(p, Proquint::from_str(&s).unwrap());
    assert_eq!(p.to_ints(), [0xffff]);
}

#[test]
fn test_proquint_u32() {
    let p = 1u32.as_proquint();
    let s = p.to_string();
    assert_eq!(s, "babab-babad");
    assert_eq!(p, Proquint::from_str(&s).unwrap());
    assert_eq!(p.to_ints(), [0, 1]);

    let p = 0u32.as_proquint();
    let s = p.to_string();
    assert_eq!(s, "babab-babab");
    assert_eq!(p, Proquint::from_str(&s).unwrap());
    assert_eq!(p.to_ints(), [0, 0]);
}

#[test]
fn test_proquint_u64() {
    let p = 1u64.as_proquint();
    let s = p.to_string();
    assert_eq!(s, "babab-babab-babab-babad");
    assert_eq!(p, Proquint::from_str(&s).unwrap());
    assert_eq!(p.to_ints(), [0, 0, 0, 1]);

    let p = 0u64.as_proquint();
    let s = p.to_string();
    assert_eq!(s, "babab-babab-babab-babab");
    assert_eq!(p, Proquint::from_str(&s).unwrap());
    assert_eq!(p.to_ints(), [0, 0, 0, 0]);
}

#[test]
fn test_proquint_vec() {
    let p = vec![0u16, 1].as_proquint();
    let s = p.to_string();
    assert_eq!(s, "babab-babad");
    assert_eq!(p, Proquint::from_str(&s).unwrap());
    assert_eq!(p.to_ints(), [0u16, 1]);
}

#[test]
fn test_proquint_from_ip() {
    let p = encode_ipv4([127, 0, 0, 1]);
    let s = p.to_string();
    assert_eq!(s, "lusab-babad");
    assert_eq!(p, Proquint::from_str(&s).unwrap());

    let p = encode_ipv4([63, 84, 220, 193]);
    let s = p.to_string();
    assert_eq!(s, "gutih-tugad");
    assert_eq!(p, Proquint::from_str(&s).unwrap());

    let p = encode_ipv4([63, 118, 7, 35]);
    let s = p.to_string();
    assert_eq!(s, "gutuk-bisog");
    assert_eq!(p, Proquint::from_str(&s).unwrap());

    let p = encode_ipv4([140, 98, 193, 141]);
    let s = p.to_string();
    assert_eq!(s, "mudof-sakat");

    let p = encode_ipv4([64, 255, 6, 200]);
    let s = p.to_string();
    assert_eq!(s, "haguz-biram");
    assert_eq!(p, Proquint::from_str(&s).unwrap());

    let p = encode_ipv4([128, 30, 52, 45]);
    let s = p.to_string();
    assert_eq!(s, "mabiv-gibot");
    assert_eq!(p, Proquint::from_str(&s).unwrap());

    let p = encode_ipv4([147, 67, 119, 2]);
    let s = p.to_string();
    assert_eq!(s, "natag-lisaf");

    let p = encode_ipv4([212, 58, 253, 68]);
    let s = p.to_string();
    assert_eq!(s, "tibup-zujah");
    assert_eq!(p, Proquint::from_str(&s).unwrap());

    let p = encode_ipv4([216, 35, 68, 215]);
    let s = p.to_string();
    assert_eq!(s, "tobog-higil");
    assert_eq!(p, Proquint::from_str(&s).unwrap());

    let p = encode_ipv4([216, 68, 232, 21]);
    let s = p.to_string();
    assert_eq!(s, "todah-vobij");
    assert_eq!(p, Proquint::from_str(&s).unwrap());

    let p = encode_ipv4([198, 81, 129, 136]);
    let s = p.to_string();
    assert_eq!(s, "sinid-makam");
    assert_eq!(p, Proquint::from_str(&s).unwrap());

    let p = encode_ipv4([12, 110, 110, 204]);
    let s = p.to_string();
    assert_eq!(s, "budov-kuras");
}

#[test]
fn test_from_string() {
    assert_eq!(Proquint::from_str("XXX"), Err(ProquintError::InvalidLabelLength));
    assert_eq!(Proquint::from_str("XXXXX"), Err(ProquintError::InvalidConsonant(b'X')));
    assert_eq!(Proquint::from_str("bbbbb"), Err(ProquintError::InvalidVowel(b'b')));
    Proquint::from_str("babab").unwrap();

    let p0 = Proquint::from_str("babab-babab").unwrap();
    let p1 = Proquint::from_str("bababbabab").unwrap();
    assert_eq!(p0, p1);
}
