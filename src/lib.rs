//! Triptych-style linkable ring signatures over the Ristretto group.
use vstd::prelude::*;

pub mod point;
pub mod scalar;
pub mod series;
pub mod signature;
pub mod util;

verus! {

/// Failures surfaced by signing and verification.
#[derive(Copy, PartialEq, Eq, Clone, Debug, Structural)]
pub enum Errors {
    /// One of the verification equations does not hold, or the signature
    /// does not have the shape the ring calls for.
    TriptychError,
    /// No ring member is the public key of the signing key.
    SignerNotInRing,
    /// The ring is empty or its length is not a power of two.
    RingSizeInvalid,
    /// The signing key is zero, so no key image can be derived from it.
    ArithmeticDegenerate,
}

} // verus!
