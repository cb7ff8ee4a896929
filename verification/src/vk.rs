//! The verifying key, the proof, and the structural assembler.
use vstd::prelude::*;

verus! {

use crate::CodecError;
use crate::curve::{G1Point, G2Point, g1_wf, g2_wf};

/// A Groth16 verifying key over the fixed curve pair.
#[derive(Clone, Debug, PartialEq, Eq)]
pub struct VerifyingKey {
    pub alpha_g1: G1Point,
    pub beta_g2: G2Point,
    pub gamma_g2: G2Point,
    pub delta_g2: G2Point,
    pub gamma_abc_g1: Vec<G1Point>,
}

/// A Groth16 proof.
#[derive(Clone, Copy, Debug, PartialEq, Eq, Structural)]
pub struct Proof {
    pub a: G1Point,
    pub b: G2Point,
    pub c: G1Point,
}

/// A well-formed verifying key: every point well formed, and at least one
/// element in `gamma_abc_g1` (the constant term).
pub open spec fn vk_wf(v: VerifyingKey) -> bool {
    g1_wf(v.alpha_g1) && g2_wf(v.beta_g2) && g2_wf(v.gamma_g2) && g2_wf(v.delta_g2)
        && v.gamma_abc_g1@.len() >= 1 && v.gamma_abc_g1@.len() <= 0xffffffffffffffff && (forall|
        k: int,
    | 0 <= k < v.gamma_abc_g1@.len() ==> g1_wf(#[trigger] v.gamma_abc_g1@[k]))
}

/// A well-formed proof: three well-formed points.
pub open spec fn proof_wf(p: Proof) -> bool {
    g1_wf(p.a) && g2_wf(p.b) && g1_wf(p.c)
}

/// Field-wise equality of verifying keys.
pub open spec fn vk_matches(a: VerifyingKey, b: VerifyingKey) -> bool {
    a.alpha_g1 == b.alpha_g1 && a.beta_g2 == b.beta_g2 && a.gamma_g2 == b.gamma_g2 && a.delta_g2
        == b.delta_g2 && a.gamma_abc_g1@ == b.gamma_abc_g1@
}

/// Compose points into a verifying key.
///
/// Pure structural composition; fails exactly when the `gamma_abc_g1`
/// sequence is empty.
pub fn assemble(
    alpha: G1Point,
    beta: G2Point,
    gamma: G2Point,
    delta: G2Point,
    ic: Vec<G1Point>,
) -> (r: Result<VerifyingKey, CodecError>)
    requires
        g1_wf(alpha),
        g2_wf(beta),
        g2_wf(gamma),
        g2_wf(delta),
        forall|k: int| 0 <= k < ic@.len() ==> g1_wf(#[trigger] ic@[k]),
    ensures
        match r {
            Ok(v) => ic@.len() >= 1 && vk_wf(v) && v.alpha_g1 == alpha && v.beta_g2 == beta
                && v.gamma_g2 == gamma && v.delta_g2 == delta && v.gamma_abc_g1@ == ic@,
            Err(e) => e == CodecError::MalformedEncoding && ic@.len() == 0,
        },
{
    if ic.len() == 0 {
        return Err(CodecError::MalformedEncoding);
    }
    Ok(VerifyingKey { alpha_g1: alpha, beta_g2: beta, gamma_g2: gamma, delta_g2: delta, gamma_abc_g1: ic })
}

} // verus!
