use passacre::derivation::{DerivationParameters, KdfChoice};
use passacre::error::PassacreErrorKind;
use passacre::generator::{Algorithm, Kdf};

#[test]
fn null_rounds_add_the_increment() {
    let p = DerivationParameters { method: Algorithm::Keccak, kdf: KdfChoice::Nulls(3), increment: 2 };
    assert_eq!(p.null_rounds().unwrap(), 5);
    assert_eq!(p.kdf(), None);
}

#[test]
fn scrypt_keeps_the_increment_alone() {
    let p = DerivationParameters { method: Algorithm::Skein, kdf: KdfChoice::Scrypt { n: 16, r: 8, p: 1 }, increment: 4 };
    assert_eq!(p.null_rounds().unwrap(), 4);
    assert_eq!(p.kdf(), Some(Kdf::Scrypt { n: 16, r: 8, p: 1 }));
}

#[test]
fn null_rounds_overflow_is_an_error() {
    let p = DerivationParameters { method: Algorithm::Keccak, kdf: KdfChoice::Nulls(u64::MAX), increment: 1 };
    assert_eq!(p.null_rounds().unwrap_err().kind, PassacreErrorKind::UserError);
}
