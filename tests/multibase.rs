use std::collections::HashSet;

use passacre::bignum::BigNat;
use passacre::error::PassacreErrorKind;
use passacre::multibase::{Base, MultiBase};

const DIGITS: &str = "0123456789";
const HEXDIGITS: &str = "0123456789abcdef";

fn characters(cs: &str) -> Base {
    Base::Choices(cs.chars().map(|c| c.to_string()).collect())
}

fn words() -> Vec<String> {
    ["spam", "eggs", "sausage"].iter().map(|s| s.to_string()).collect()
}

fn encode(b: &MultiBase, n: u64) -> String {
    b.encode(&BigNat::from_u64(n)).unwrap()
}

fn encode_kind(b: &MultiBase, n: u64) -> PassacreErrorKind {
    b.encode(&BigNat::from_u64(n)).unwrap_err().kind
}

fn length(b: &MultiBase) -> u64 {
    b.length_product().to_u64().unwrap()
}

fn assert_all_unique(b: &MultiBase) {
    let l = length(b);
    let mut seen = HashSet::new();
    for i in 0..l {
        assert!(seen.insert(encode(b, i)), "duplicate encoding of {}", i);
    }
}

fn base_2x10() -> MultiBase {
    let mut b = MultiBase::new();
    b.add_base(characters(DIGITS)).unwrap();
    b.add_base(characters(DIGITS)).unwrap();
    b
}

fn base_2x16() -> MultiBase {
    let mut b = MultiBase::new();
    b.add_base(characters(HEXDIGITS)).unwrap();
    b.add_base(characters(HEXDIGITS)).unwrap();
    b
}

fn base_4_3_2() -> MultiBase {
    let mut b = MultiBase::new();
    b.add_base(characters("abcd")).unwrap();
    b.add_base(characters("abc")).unwrap();
    b.add_base(characters("ab")).unwrap();
    b
}

fn base_4_3_2_shuffled() -> MultiBase {
    let mut b = MultiBase::new();
    b.add_base(characters("abcd")).unwrap();
    b.add_base(characters("efg")).unwrap();
    b.add_base(characters("hi")).unwrap();
    b.enable_shuffle();
    b
}

fn base_2x3_words() -> MultiBase {
    let mut b = MultiBase::new();
    b.add_base(Base::Choices(words())).unwrap();
    b.add_base(Base::Separator(String::from(" "))).unwrap();
    b.repeat_base(0).unwrap();
    b
}

fn base_2x3_word_list() -> MultiBase {
    let mut b = MultiBase::new();
    b.set_words(words()).unwrap();
    b.add_base(Base::Words).unwrap();
    b.add_base(Base::Separator(String::from(" "))).unwrap();
    b.add_base(Base::Words).unwrap();
    b
}

fn base_2x3_words_and_2x10() -> MultiBase {
    let mut b = MultiBase::new();
    b.add_base(Base::Choices(words())).unwrap();
    b.add_base(characters(DIGITS)).unwrap();
    b.add_base(Base::Separator(String::from(" "))).unwrap();
    b.add_base(characters(DIGITS)).unwrap();
    b.repeat_base(0).unwrap();
    b
}

fn base_1x5_and_3x5_shuffled() -> MultiBase {
    let mut b = MultiBase::new();
    for _ in 0..3 {
        b.add_base(characters("02468")).unwrap();
    }
    b.add_base(characters("13579")).unwrap();
    b.enable_shuffle();
    b
}

#[test]
fn test_no_words_base_without_words() {
    let mut b = MultiBase::new();
    assert_eq!(b.add_base(Base::Words).unwrap_err().kind, PassacreErrorKind::UserError);
}

#[test]
fn test_base_2x10_max_encodable_value() {
    assert_eq!(length(&base_2x10()) - 1, 99);
}

#[test]
fn test_base_2x10_required_bytes() {
    assert_eq!(base_2x10().required_bytes(), 1);
}

#[test]
fn test_base_2x10_all_unique() {
    assert_all_unique(&base_2x10());
}

#[test]
fn test_base_2x10_encoding() {
    let b = base_2x10();
    for (n, s) in [(5, "05"), (9, "09"), (36, "36"), (94, "94")] {
        assert_eq!(encode(&b, n), s);
    }
}

#[test]
fn test_base_2x10_encoding_failure() {
    let b = base_2x10();
    for n in [100, 105] {
        assert_eq!(encode_kind(&b, n), PassacreErrorKind::DomainError);
    }
}

#[test]
fn test_base_2x16_max_encodable_value() {
    assert_eq!(length(&base_2x16()) - 1, 0xff);
}

#[test]
fn test_base_2x16_required_bytes() {
    assert_eq!(base_2x16().required_bytes(), 1);
}

#[test]
fn test_base_2x16_all_unique() {
    assert_all_unique(&base_2x16());
}

#[test]
fn test_base_2x16_encoding() {
    let b = base_2x16();
    for (n, s) in [(0x5, "05"), (0xc, "0c"), (0x36, "36"), (0xfe, "fe")] {
        assert_eq!(encode(&b, n), s);
    }
}

#[test]
fn test_base_2x16_encoding_failure() {
    let b = base_2x16();
    for n in [0x100, 0x105] {
        assert_eq!(encode_kind(&b, n), PassacreErrorKind::DomainError);
    }
}

#[test]
fn test_base_4_3_2_max_encodable_value() {
    assert_eq!(length(&base_4_3_2()) - 1, 23);
}

#[test]
fn test_base_4_3_2_required_bytes() {
    assert_eq!(base_4_3_2().required_bytes(), 1);
}

#[test]
fn test_base_4_3_2_all_unique() {
    assert_all_unique(&base_4_3_2());
}

#[test]
fn test_base_4_3_2_encoding() {
    let b = base_4_3_2();
    for (n, s) in [(0, "aaa"), (5, "acb"), (9, "bbb"), (11, "bcb"), (17, "ccb"), (23, "dcb")] {
        assert_eq!(encode(&b, n), s);
    }
}

#[test]
fn test_base_4_3_2_encoding_failure() {
    assert_eq!(encode_kind(&base_4_3_2(), 24), PassacreErrorKind::DomainError);
}

#[test]
fn test_base_4_3_2_shuffled_max_encodable_value() {
    assert_eq!(length(&base_4_3_2_shuffled()) - 1, 143);
}

#[test]
fn test_base_4_3_2_shuffled_required_bytes() {
    assert_eq!(base_4_3_2_shuffled().required_bytes(), 1);
}

#[test]
fn test_base_4_3_2_shuffled_all_unique() {
    assert_all_unique(&base_4_3_2_shuffled());
}

#[test]
fn test_base_4_3_2_shuffled_encoding() {
    let b = base_4_3_2_shuffled();
    for (n, s) in [(0, "hea"), (23, "afi"), (37, "eic"), (61, "fhc"), (143, "dgi")] {
        assert_eq!(encode(&b, n), s);
    }
}

#[test]
fn test_base_4_3_2_shuffled_encoding_failure() {
    assert_eq!(encode_kind(&base_4_3_2_shuffled(), 144), PassacreErrorKind::DomainError);
}

#[test]
fn test_base_2x3_words_max_encodable_value() {
    assert_eq!(length(&base_2x3_words()) - 1, 8);
}

#[test]
fn test_base_2x3_words_required_bytes() {
    assert_eq!(base_2x3_words().required_bytes(), 1);
}

#[test]
fn test_base_2x3_words_all_unique() {
    assert_all_unique(&base_2x3_words());
}

#[test]
fn test_base_2x3_words_encoding() {
    let b = base_2x3_words();
    for (n, s) in [(0, "spam spam"), (3, "eggs spam"), (8, "sausage sausage")] {
        assert_eq!(encode(&b, n), s);
    }
}

#[test]
fn test_base_2x3_words_encoding_failure() {
    let b = base_2x3_words();
    for n in [9, 12, 24] {
        assert_eq!(encode_kind(&b, n), PassacreErrorKind::DomainError);
    }
}

#[test]
fn test_base_2x3_word_list_encoding() {
    let b = base_2x3_word_list();
    assert_eq!(length(&b), 9);
    for (n, s) in [(0, "spam spam"), (3, "eggs spam"), (8, "sausage sausage")] {
        assert_eq!(encode(&b, n), s);
    }
    assert_eq!(encode_kind(&b, 9), PassacreErrorKind::DomainError);
}

#[test]
fn test_base_2x3_words_and_2x10_max_encodable_value() {
    assert_eq!(length(&base_2x3_words_and_2x10()) - 1, 899);
}

#[test]
fn test_base_2x3_words_and_2x10_required_bytes() {
    assert_eq!(base_2x3_words_and_2x10().required_bytes(), 2);
}

#[test]
fn test_base_2x3_words_and_2x10_all_unique() {
    assert_all_unique(&base_2x3_words_and_2x10());
}

#[test]
fn test_base_2x3_words_and_2x10_encoding() {
    let b = base_2x3_words_and_2x10();
    let cases = [
        (0, "spam0 0spam"),
        (3, "spam0 1spam"),
        (8, "spam0 2sausage"),
        (29, "spam0 9sausage"),
        (30, "spam1 0spam"),
        (99, "spam3 3spam"),
        (100, "spam3 3eggs"),
        (299, "spam9 9sausage"),
        (300, "eggs0 0spam"),
        (899, "sausage9 9sausage"),
    ];
    for (n, s) in cases {
        assert_eq!(encode(&b, n), s);
    }
}

#[test]
fn test_base_2x3_words_and_2x10_encoding_failure() {
    let b = base_2x3_words_and_2x10();
    for n in [900, 1000] {
        assert_eq!(encode_kind(&b, n), PassacreErrorKind::DomainError);
    }
}

#[test]
fn test_base_1x5_and_3x5_shuffled_max_encodable_value() {
    assert_eq!(length(&base_1x5_and_3x5_shuffled()) - 1, 2499);
}

#[test]
fn test_base_1x5_and_3x5_shuffled_required_bytes() {
    assert_eq!(base_1x5_and_3x5_shuffled().required_bytes(), 2);
}

#[test]
fn test_base_1x5_and_3x5_shuffled_all_unique() {
    assert_all_unique(&base_1x5_and_3x5_shuffled());
}

#[test]
fn test_base_1x5_and_3x5_shuffled_encoding() {
    let b = base_1x5_and_3x5_shuffled();
    let cases = [(0, "1000"), (1, "0100"), (2, "0010"), (3, "0001"), (4, "1002"), (2499, "8889")];
    for (n, s) in cases {
        assert_eq!(encode(&b, n), s);
    }
}

#[test]
fn test_base_1x5_and_3x5_shuffled_encoding_failure() {
    let b = base_1x5_and_3x5_shuffled();
    for n in [2500, 12500, 31250] {
        assert_eq!(encode_kind(&b, n), PassacreErrorKind::DomainError);
    }
}

#[test]
fn shuffle_of_distinct_bases_multiplies_by_factorial() {
    let plain = base_4_3_2();
    let shuffled = base_4_3_2_shuffled();
    assert_eq!(length(&shuffled), length(&plain) * 6);
    assert_eq!(plain.n_bases(), 3);
}

#[test]
fn shuffle_is_idempotent() {
    let mut b = base_4_3_2_shuffled();
    b.enable_shuffle();
    assert_eq!(length(&b), 144);
    assert!(b.is_shuffled());
}

#[test]
fn add_or_repeat_after_shuffle_fails() {
    let mut b = base_4_3_2_shuffled();
    assert_eq!(b.add_base(characters("xy")).unwrap_err().kind, PassacreErrorKind::UserError);
    assert_eq!(b.repeat_base(0).unwrap_err().kind, PassacreErrorKind::UserError);
    assert_eq!(length(&b), 144);
}

#[test]
fn repeat_of_missing_position_fails() {
    let mut b = base_2x10();
    assert_eq!(b.repeat_base(2).unwrap_err().kind, PassacreErrorKind::UserError);
    assert_eq!(b.n_bases(), 2);
}

#[test]
fn empty_alphabet_is_rejected() {
    let mut b = MultiBase::new();
    assert_eq!(b.add_base(Base::Choices(vec![])).unwrap_err().kind, PassacreErrorKind::UserError);
    assert_eq!(b.n_bases(), 0);
}

#[test]
fn words_can_be_set_once() {
    let mut b = MultiBase::new();
    b.set_words(words()).unwrap();
    assert_eq!(b.set_words(words()).unwrap_err().kind, PassacreErrorKind::UserError);
}

#[test]
fn empty_encoder_encodes_zero_only() {
    let b = MultiBase::new();
    assert_eq!(length(&b), 1);
    assert_eq!(encode(&b, 0), "");
    assert_eq!(encode_kind(&b, 1), PassacreErrorKind::DomainError);
    assert_eq!(b.required_bytes(), 0);
    assert_eq!(b.entropy_bits(), 1);
}

#[test]
fn nested_base_encodes_its_own_digits() {
    let mut inner = MultiBase::new();
    inner.add_base(characters("ab")).unwrap();
    inner.add_base(Base::Separator(String::from("-"))).unwrap();
    inner.add_base(characters("xyz")).unwrap();
    let mut b = MultiBase::new();
    b.add_base(characters(DIGITS)).unwrap();
    b.add_base(Base::NestedBase(inner)).unwrap();
    assert_eq!(length(&b), 60);
    assert_eq!(encode(&b, 0), "0a-x");
    assert_eq!(encode(&b, 7), "1a-y");
    assert_eq!(encode(&b, 59), "9b-z");
    assert_all_unique(&b);
}

#[test]
fn entropy_bits_is_bit_length_of_length() {
    assert_eq!(base_2x10().entropy_bits(), 7);
    assert_eq!(base_2x16().entropy_bits(), 9);
    assert_eq!(base_2x3_words_and_2x10().entropy_bits(), 10);
}

#[test]
fn encode_from_bytes_reads_big_endian() {
    let b = base_2x3_words_and_2x10();
    assert_eq!(b.encode_from_bytes(&[0x01, 0x2c]).unwrap(), "eggs0 0spam");
    assert_eq!(b.encode_from_bytes(&[0x03, 0x83]).unwrap(), "sausage9 9sausage");
    assert_eq!(b.encode_from_bytes(&[0x03, 0x84]).unwrap_err().kind, PassacreErrorKind::DomainError);
    assert_eq!(b.encode_from_bytes(&[]).unwrap(), "spam0 0spam");
}

#[test]
fn large_spaces_use_many_digits() {
    let mut b = MultiBase::new();
    for _ in 0..40 {
        b.add_base(characters(DIGITS)).unwrap();
    }
    assert_eq!(b.length_product().to_u64(), None);
    assert_eq!(b.required_bytes(), 17);
    assert_eq!(b.entropy_bits(), 133);
    let mut bytes = vec![0u8; 16];
    bytes[15] = 7;
    let s = b.encode_from_bytes(&bytes).unwrap();
    assert_eq!(s.len(), 40);
    assert!(s.ends_with("0007"));
}

#[test]
fn shuffle_chooses_the_slots_of_a_repeated_base_as_a_set() {
    // The two "ab" positions take one of the C(5, 2) = 10 sets of slots, in
    // lexicographic order; the three "cd" positions take the rest.
    let mut b = MultiBase::new();
    for _ in 0..2 {
        b.add_base(characters("ab")).unwrap();
    }
    for _ in 0..3 {
        b.add_base(characters("cd")).unwrap();
    }
    b.enable_shuffle();
    assert_eq!(length(&b), 320);
    assert_eq!(encode(&b, 0), "aaccc");
    assert_eq!(encode(&b, 4), "caacc");
    assert_eq!(encode(&b, 9), "cccaa");
    assert_eq!(encode(&b, 10), "aaccd");
    assert_all_unique(&b);
}
