use passacre::error::{error_text, Nonequal, PassacreError, PassacreErrorKind};

#[test]
fn codes_round_trip() {
    for code in -9..=-1 {
        let e = PassacreError::of_c_int(code).unwrap();
        assert_eq!(e.to_c_int(), code);
    }
    assert!(PassacreError::of_c_int(0).is_none());
    assert!(PassacreError::of_c_int(-10).is_none());
}

#[test]
fn kinds_have_codes_and_text() {
    let e = PassacreErrorKind::DomainError.to_error();
    assert_eq!(e.to_c_int(), -7);
    assert_eq!(e.to_string(), "domain error");
    assert_eq!(PassacreErrorKind::Panic.to_error().to_string(), "panic");
    assert_eq!(PassacreErrorKind::UserError.to_error().to_c_int(), -5);
    assert_eq!(PassacreError::of_c_int(-9).unwrap().kind, PassacreErrorKind::MutexError);
    assert_eq!(PassacreError::of_c_int(-2).unwrap().to_string(), "keccak error");
}

#[test]
fn nonequal_never_equal() {
    assert!(Nonequal(1) != Nonequal(1));
}

#[test]
fn error_text_for_codes() {
    assert_eq!(error_text(-1), "unknown panic");
    assert_eq!(error_text(-5), "user error");
    assert_eq!(error_text(-9), "mutex error");
    assert_eq!(error_text(0), "unknown error");
    assert_eq!(error_text(3), "unknown error");
}
