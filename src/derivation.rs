//! The parameters of one derivation, as a request carries them.

use crate::error::{PassacreError, PassacreErrorKind};
use crate::generator::{Algorithm, Kdf};
use vstd::prelude::*;

verus! {

/// How the password is stretched: by extra padding rounds, or by scrypt.
#[derive(Clone, Copy, Debug, PartialEq, Eq, Structural)]
pub enum KdfChoice {
    Nulls(u64),
    Scrypt { n: u64, r: u32, p: u32 },
}

#[derive(Clone, Copy, Debug, PartialEq, Eq, Structural)]
pub struct DerivationParameters {
    pub method: Algorithm,
    pub kdf: KdfChoice,
    /// Padding rounds added to rotate the derived secret.
    pub increment: u64,
}

pub struct UserInput {
    pub username: String,
    pub password: String,
    pub sitename: String,
}

impl DerivationParameters {
    /// The padding rounds to absorb: the increment, plus the rounds chosen in
    /// place of a KDF. `UserError` where the sum does not fit in a `u64`.
    pub fn null_rounds(&self) -> (r: Result<u64, PassacreError>)
        ensures
            match self.kdf {
                KdfChoice::Nulls(i) => if self.increment + i <= u64::MAX {
                    r == Ok::<u64, PassacreError>((self.increment + i) as u64)
                } else {
                    r matches Err(e) && e.kind == PassacreErrorKind::UserError
                },
                KdfChoice::Scrypt { .. } => r == Ok::<u64, PassacreError>(self.increment),
            },
    {
        match self.kdf {
            KdfChoice::Nulls(i) => match self.increment.checked_add(i) {
                Some(total) => Ok(total),
                None => Err(PassacreErrorKind::UserError.to_error()),
            },
            KdfChoice::Scrypt { .. } => Ok(self.increment),
        }
    }

    /// The KDF to select before absorbing, if any.
    pub fn kdf(&self) -> (r: Option<Kdf>)
        ensures
            match self.kdf {
                KdfChoice::Nulls(_) => r is None,
                KdfChoice::Scrypt { n, r: rr, p } => r == Some(Kdf::Scrypt { n, r: rr, p }),
            },
    {
        match self.kdf {
            KdfChoice::Nulls(_) => None,
            KdfChoice::Scrypt { n, r, p } => Some(Kdf::Scrypt { n, r, p }),
        }
    }
}

} // verus!
