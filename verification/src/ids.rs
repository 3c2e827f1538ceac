//! Identifier and display-color generation.
//!
//! Identifiers are plain `u64` values drawn from a freshly generated random
//! UUID; collisions are treated as negligible by the callers, whose
//! contracts therefore never claim freshness, only what holds of every
//! outcome.

use vstd::prelude::*;

verus! {

/// Relies on `uuid::Uuid::new_v4` and `Uuid::as_u64_pair`: a fresh random
/// identifier, reduced to its low 64 bits. Nothing can be promised of a
/// random value.
#[verifier::external_body]
pub fn fresh_id() -> u64 {
    uuid::Uuid::new_v4().as_u64_pair().1
}

/// Relies on `rand::random`: a uniformly sampled display color. Nothing can
/// be promised of a random value.
#[verifier::external_body]
pub fn random_color() -> (u8, u8, u8) {
    (rand::random::<u8>(), rand::random::<u8>(), rand::random::<u8>())
}

/// The preferred way to mint a value of a key type out of thin air.
pub trait PreferVariant: Sized {
    fn get_prefer() -> Self;
}

impl PreferVariant for u64 {
    fn get_prefer() -> u64 {
        fresh_id()
    }
}

} // verus!
