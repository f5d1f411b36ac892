//! Deterministic derivation of site passwords from a master secret: a keyed
//! generator state machine feeding a mixed-radix, multi-alphabet encoder.

pub mod bignum;
pub mod derivation;
pub mod error;
pub mod generator;
pub mod multibase;
pub mod schema;
pub mod util;
