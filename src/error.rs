//! The closed vocabulary of errors, with its integer codes for foreign callers.

use vstd::prelude::*;

verus! {

#[derive(Clone, Copy, Debug, PartialEq, Eq, Structural)]
pub enum PassacreErrorKind {
    Panic,
    KeccakError,
    SkeinError,
    ScryptError,
    UserError,
    InternalError,
    DomainError,
    AllocatorError,
    MutexError,
}

impl PassacreErrorKind {
    pub fn to_error(self) -> (r: PassacreError)
        ensures
            r.kind == self,
            r.context is None,
    {
        PassacreError { kind: self, context: None }
    }
}

#[derive(Debug, PartialEq)]
pub struct PassacreError {
    pub kind: PassacreErrorKind,
    pub context: Option<String>,
}

/// The integer code of each kind: -1 through -9, in declaration order.
pub open spec fn kind_code(k: PassacreErrorKind) -> int {
    match k {
        PassacreErrorKind::Panic => -1,
        PassacreErrorKind::KeccakError => -2,
        PassacreErrorKind::SkeinError => -3,
        PassacreErrorKind::ScryptError => -4,
        PassacreErrorKind::UserError => -5,
        PassacreErrorKind::InternalError => -6,
        PassacreErrorKind::DomainError => -7,
        PassacreErrorKind::AllocatorError => -8,
        PassacreErrorKind::MutexError => -9,
    }
}

/// The short description of each kind.
pub open spec fn kind_text(k: PassacreErrorKind) -> Seq<char> {
    match k {
        PassacreErrorKind::Panic => "panic"@,
        PassacreErrorKind::KeccakError => "keccak error"@,
        PassacreErrorKind::SkeinError => "skein error"@,
        PassacreErrorKind::ScryptError => "scrypt error"@,
        PassacreErrorKind::UserError => "user error"@,
        PassacreErrorKind::InternalError => "internal error"@,
        PassacreErrorKind::DomainError => "domain error"@,
        PassacreErrorKind::AllocatorError => "allocator error"@,
        PassacreErrorKind::MutexError => "mutex error"@,
    }
}

impl PassacreError {
    pub fn of_c_int(which: i32) -> (r: Option<PassacreError>)
        ensures
            -9 <= which <= -1 <==> r is Some,
            r matches Some(e) ==> kind_code(e.kind) == which && e.context is None,
    {
        let kind = match which {
            -1 => PassacreErrorKind::Panic,
            -2 => PassacreErrorKind::KeccakError,
            -3 => PassacreErrorKind::SkeinError,
            -4 => PassacreErrorKind::ScryptError,
            -5 => PassacreErrorKind::UserError,
            -6 => PassacreErrorKind::InternalError,
            -7 => PassacreErrorKind::DomainError,
            -8 => PassacreErrorKind::AllocatorError,
            -9 => PassacreErrorKind::MutexError,
            _ => {
                return None;
            },
        };
        Some(kind.to_error())
    }

    pub fn to_c_int(&self) -> (r: i32)
        ensures
            r == kind_code(self.kind),
    {
        match self.kind {
            PassacreErrorKind::Panic => -1,
            PassacreErrorKind::KeccakError => -2,
            PassacreErrorKind::SkeinError => -3,
            PassacreErrorKind::ScryptError => -4,
            PassacreErrorKind::UserError => -5,
            PassacreErrorKind::InternalError => -6,
            PassacreErrorKind::DomainError => -7,
            PassacreErrorKind::AllocatorError => -8,
            PassacreErrorKind::MutexError => -9,
        }
    }

    pub fn to_string(&self) -> (r: &'static str)
        ensures
            r@ == kind_text(self.kind),
    {
        match self.kind {
            PassacreErrorKind::Panic => "panic",
            PassacreErrorKind::KeccakError => "keccak error",
            PassacreErrorKind::SkeinError => "skein error",
            PassacreErrorKind::ScryptError => "scrypt error",
            PassacreErrorKind::UserError => "user error",
            PassacreErrorKind::InternalError => "internal error",
            PassacreErrorKind::DomainError => "domain error",
            PassacreErrorKind::AllocatorError => "allocator error",
            PassacreErrorKind::MutexError => "mutex error",
        }
    }
}

/// The text reported for an integer error code: a panic's own message is
/// kept elsewhere, so it reads as unknown here.
pub open spec fn code_text(which: i32) -> Seq<char> {
    if which == -1 {
        "unknown panic"@
    } else if -9 <= which <= -2 {
        kind_text(kind_of_code(which as int))
    } else {
        "unknown error"@
    }
}

pub open spec fn kind_of_code(which: int) -> PassacreErrorKind {
    if which == -1 {
        PassacreErrorKind::Panic
    } else if which == -2 {
        PassacreErrorKind::KeccakError
    } else if which == -3 {
        PassacreErrorKind::SkeinError
    } else if which == -4 {
        PassacreErrorKind::ScryptError
    } else if which == -5 {
        PassacreErrorKind::UserError
    } else if which == -6 {
        PassacreErrorKind::InternalError
    } else if which == -7 {
        PassacreErrorKind::DomainError
    } else if which == -8 {
        PassacreErrorKind::AllocatorError
    } else {
        PassacreErrorKind::MutexError
    }
}

/// The text for an integer error code, as the C interface reports it.
pub fn error_text(which: i32) -> (r: &'static str)
    ensures
        r@ == code_text(which),
{
    match PassacreError::of_c_int(which) {
        Some(e) => {
            if e.kind == PassacreErrorKind::Panic {
                "unknown panic"
            } else {
                e.to_string()
            }
        },
        None => "unknown error",
    }
}

/// A wrapper whose values never compare equal, so that an error carrying an
/// incomparable payload can still sit in a comparable type.
#[derive(Debug)]
pub struct Nonequal<T>(pub T);

impl<T> PartialEq for Nonequal<T> {
    fn eq(&self, o: &Self) -> (r: bool) {
        false
    }
}

impl<T> vstd::std_specs::cmp::PartialEqSpecImpl for Nonequal<T> {
    open spec fn obeys_eq_spec() -> bool {
        false
    }

    open spec fn eq_spec(&self, o: &Self) -> bool {
        false
    }
}

} // verus!
