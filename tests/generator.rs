use passacre::error::PassacreErrorKind;
use passacre::generator::{
    Algorithm, Kdf, PassacreGenerator, SkeinPrng, State, NULL_ROUND_BYTES, SCRYPT_BUFFER_SIZE,
};

fn absorbed_secret(g: &mut PassacreGenerator) -> Vec<u8> {
    g.absorb_username_password_site(b"user", b"pass", b"example.com", None).unwrap()
}

#[test]
fn algorithm_of_c_uint() {
    assert_eq!(Algorithm::of_c_uint(0).unwrap(), Algorithm::Keccak);
    assert_eq!(Algorithm::of_c_uint(1).unwrap(), Algorithm::Skein);
    assert_eq!(Algorithm::of_c_uint(2).unwrap_err().kind, PassacreErrorKind::UserError);
}

#[test]
fn secret_without_kdf_is_delimited() {
    let mut g = PassacreGenerator::new(Algorithm::Keccak);
    assert_eq!(absorbed_secret(&mut g), b"user:pass:example.com".to_vec());
    assert_eq!(g.state(), State::AbsorbedPassword);
}

#[test]
fn empty_username_is_not_delimited() {
    let mut g = PassacreGenerator::new(Algorithm::Skein);
    let bytes = g.absorb_username_password_site(b"", b"pass", b"site", None).unwrap();
    assert_eq!(bytes, b"pass:site".to_vec());
}

#[test]
fn identical_inputs_absorb_identical_bytes() {
    let mut a = PassacreGenerator::new(Algorithm::Keccak);
    let mut b = PassacreGenerator::new(Algorithm::Keccak);
    assert_eq!(absorbed_secret(&mut a), absorbed_secret(&mut b));
}

#[test]
fn kdf_secret_replaces_username_and_password() {
    let mut g = PassacreGenerator::new(Algorithm::Skein);
    g.use_scrypt(16, 1, 1, Some(vec![0u8; SCRYPT_BUFFER_SIZE])).unwrap();
    assert_eq!(g.kdf(), Some(Kdf::Scrypt { n: 16, r: 1, p: 1 }));
    assert_eq!(g.persistence_buffer().unwrap(), &vec![b'x'; SCRYPT_BUFFER_SIZE]);
    let stretched = [7u8; SCRYPT_BUFFER_SIZE];
    let bytes = g.absorb_username_password_site(b"user", b"pass", b"site", Some(&stretched)).unwrap();
    let mut expected = stretched.to_vec();
    expected.extend_from_slice(b":site");
    assert_eq!(bytes, expected);
    assert_eq!(g.persistence_buffer().unwrap(), &stretched.to_vec());
}

#[test]
fn kdf_without_buffer_keeps_none() {
    let mut g = PassacreGenerator::new(Algorithm::Keccak);
    g.use_scrypt(16, 1, 1, None).unwrap();
    assert!(g.persistence_buffer().is_none());
    let stretched = [1u8; SCRYPT_BUFFER_SIZE];
    g.absorb_username_password_site(b"u", b"p", b"s", Some(&stretched)).unwrap();
    assert!(g.persistence_buffer().is_none());
}

#[test]
fn stretched_secret_must_match_kdf_choice() {
    let mut g = PassacreGenerator::new(Algorithm::Keccak);
    let short = [1u8; 3];
    assert_eq!(
        g.absorb_username_password_site(b"u", b"p", b"s", Some(&short)).unwrap_err().kind,
        PassacreErrorKind::UserError
    );
    g.use_scrypt(16, 1, 1, None).unwrap();
    assert_eq!(
        g.absorb_username_password_site(b"u", b"p", b"s", None).unwrap_err().kind,
        PassacreErrorKind::UserError
    );
    assert_eq!(
        g.absorb_username_password_site(b"u", b"p", b"s", Some(&short)).unwrap_err().kind,
        PassacreErrorKind::UserError
    );
    assert_eq!(g.state(), State::KdfSelected);
}

#[test]
fn squeeze_before_secret_fails() {
    let mut g = PassacreGenerator::new(Algorithm::Keccak);
    assert_eq!(g.squeeze().unwrap_err().kind, PassacreErrorKind::UserError);
    assert_eq!(g.state(), State::Initialized);
}

#[test]
fn select_kdf_twice_fails() {
    let mut g = PassacreGenerator::new(Algorithm::Keccak);
    g.use_scrypt(16, 1, 1, None).unwrap();
    assert_eq!(g.use_scrypt(32, 1, 1, None).unwrap_err().kind, PassacreErrorKind::UserError);
    assert_eq!(g.kdf(), Some(Kdf::Scrypt { n: 16, r: 1, p: 1 }));
}

#[test]
fn select_kdf_after_secret_fails() {
    let mut g = PassacreGenerator::new(Algorithm::Keccak);
    absorbed_secret(&mut g);
    assert_eq!(g.use_scrypt(16, 1, 1, None).unwrap_err().kind, PassacreErrorKind::UserError);
}

#[test]
fn null_rounds_need_secret_and_repeat() {
    let mut g = PassacreGenerator::new(Algorithm::Keccak);
    assert_eq!(g.absorb_null_rounds(1).unwrap_err().kind, PassacreErrorKind::UserError);
    absorbed_secret(&mut g);
    g.absorb_null_rounds(2).unwrap();
    g.absorb_null_rounds(0).unwrap();
    assert_eq!(g.state(), State::AbsorbedNulls);
    assert_eq!(NULL_ROUND_BYTES, 1024);
}

#[test]
fn squeeze_finalizes_once() {
    let mut g = PassacreGenerator::new(Algorithm::Skein);
    absorbed_secret(&mut g);
    assert!(g.squeeze().unwrap());
    assert!(!g.squeeze().unwrap());
    assert_eq!(g.state(), State::Squeezing);
    assert_eq!(g.absorb_null_rounds(1).unwrap_err().kind, PassacreErrorKind::UserError);
    assert_eq!(
        g.absorb_username_password_site(b"u", b"p", b"s", None).unwrap_err().kind,
        PassacreErrorKind::UserError
    );
}

fn block(start: u8) -> Vec<u8> {
    (0..64u8).map(|i| start.wrapping_add(i)).collect()
}

#[test]
fn skein_stream_reverses_each_output() {
    let mut prng = SkeinPrng::new();
    assert_eq!(prng.blocks_needed(3), 1);
    let out = prng.squeeze(3, &vec![block(0)]);
    assert_eq!(out, vec![2, 1, 0]);
    assert_eq!(prng.blocks_needed(61), 0);
    assert_eq!(prng.blocks_needed(62), 1);
    let out = prng.squeeze(4, &vec![]);
    assert_eq!(out, vec![6, 5, 4, 3]);
}

#[test]
fn skein_stream_spans_blocks() {
    let mut prng = SkeinPrng::new();
    prng.squeeze(60, &vec![block(0)]);
    assert_eq!(prng.blocks_needed(70), 2);
    let out = prng.squeeze(70, &vec![block(100), block(200)]);
    let mut expected: Vec<u8> = (60..64u8).collect();
    expected.extend((0..64u8).map(|i| 100u8.wrapping_add(i)));
    expected.extend((0..2u8).map(|i| 200u8.wrapping_add(i)));
    expected.reverse();
    assert_eq!(out, expected);
    assert_eq!(prng.squeeze(0, &vec![]), Vec::<u8>::new());
}
