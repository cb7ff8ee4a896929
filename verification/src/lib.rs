//! A converter and verifier for Groth16 artifacts on the BN254 curve pair:
//! decimal-coordinate verification keys are parsed into typed curve points,
//! serialized to the canonical compressed byte format, and used to check
//! proofs against public inputs through the pairing boundary.

pub mod codec;
pub mod curve;
pub mod field;
pub mod fp;
pub mod groth16;
pub mod vk;

use vstd::prelude::*;

verus! {

/// The kinds of failure a conversion, decode or verification step can report.
#[derive(Clone, Copy, Debug, PartialEq, Eq, Structural)]
pub enum CodecError {
    /// A decimal string is not a valid base-10 literal for the field,
    /// or names a value at or above the field's modulus.
    InvalidFieldEncoding,
    /// Projective coordinates with a zero z, or an affine pair that does
    /// not satisfy the curve equation.
    PointAtInfinityOrInvalid,
    /// A byte string of the wrong length, or one whose unflagged part
    /// does not name a field element.
    MalformedEncoding,
    /// A reserved or inconsistent combination of the flag bits in an
    /// encoded point.
    InvalidCompressionFlag,
    /// The public-input vector's length plus one differs from the length
    /// of the verifying key's `gamma_abc_g1` sequence.
    PublicInputCountMismatch,
}

} // verus!
