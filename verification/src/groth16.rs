//! The Groth16 verifier: preparing a verifying key and checking a proof
//! against public inputs.  The pairing evaluation itself is the trusted
//! curve-arithmetic boundary; the structural precondition on the number of
//! public inputs is checked, exactly, before it runs.
use vstd::prelude::*;

use ark_serialize::CanonicalDeserialize;

verus! {

use crate::CodecError;
use crate::codec::{encode_proof, encode_vk, proof_bytes, vk_bytes};
use crate::field::{Fr, fr_val, fr_wf};
use crate::vk::{Proof, VerifyingKey, proof_wf, vk_wf};

/// A verifying key wrapped for repeated verification.  The pairing-ready
/// precomputation happens inside the trusted boundary on each call; this
/// value is the pure, recomputable form.
#[derive(Clone, Debug)]
pub struct PreparedVerifyingKey {
    pub vk: VerifyingKey,
}

/// What the Groth16 pairing equation says of an encoded verifying key, an
/// encoded proof and a vector of public-input values.
pub uninterp spec fn groth16_accepts(vkb: Seq<u8>, prb: Seq<u8>, inputs: Seq<int>) -> bool;

/// Relies on `ark_groth16`'s `prepare_verifying_key` and `verify_proof`:
/// deserializes the canonical encodings, precomputes the pairing form of
/// the key, and evaluates the pairing equation.  The outcome is a function
/// of the two encodings and the input values alone.  The key bytes must be
/// the canonical encoding of a well-formed key: `verify_proof` indexes the
/// first `gamma_abc_g1` element unchecked, so a key with an empty sequence
/// (which a well-formed key never is) would panic; on canonical encodings
/// deserialization succeeds and the call returns a boolean for any input
/// count.
#[verifier::external_body]
fn groth16_verify_raw(vkb: &Vec<u8>, prb: &Vec<u8>, inputs: &Vec<Fr>) -> (r: Option<bool>)
    requires
        forall|k: int| 0 <= k < inputs@.len() ==> fr_wf(#[trigger] inputs@[k]),
        exists|v: VerifyingKey| vk_wf(v) && vk_bytes(v) == vkb@,
    ensures
        r matches Some(x) ==> x == groth16_accepts(
            vkb@,
            prb@,
            inputs@.map_values(|f: Fr| fr_val(f)),
        ),
        r is Some <== exists|p: Proof| proof_wf(p) && proof_bytes(p) == prb@,
{
    let vk = ark_groth16::VerifyingKey::<ark_bn254::Bn254>::deserialize_compressed_unchecked(&vkb[..]).ok()?;
    let pr = ark_groth16::Proof::<ark_bn254::Bn254>::deserialize_compressed_unchecked(&prb[..]).ok()?;
    let ins: Vec<ark_bn254::Fr> = inputs.iter().map(|f| ark_ff::PrimeField::from_bigint(ark_ff::BigInt([f.rep.l0, f.rep.l1, f.rep.l2, f.rep.l3])).unwrap()).collect();
    let pvk = ark_groth16::prepare_verifying_key(&vk);
    ark_groth16::Groth16::<ark_bn254::Bn254>::verify_proof(&pvk, &pr, &ins).ok()
}

/// Wrap a verifying key for verification.  Pure and recomputable.
pub fn prepare(vk: VerifyingKey) -> (r: PreparedVerifyingKey)
    ensures
        r.vk == vk,
{
    PreparedVerifyingKey { vk }
}

/// Check a proof against public inputs.
///
/// Fails with `PublicInputCountMismatch` exactly when the input count plus
/// one differs from the length of the key's `gamma_abc_g1`; otherwise the
/// boolean states whether the pairing equation holds.  A `false` result
/// means "proof rejected", never "error".
pub fn verify(pvk: &PreparedVerifyingKey, inputs: &Vec<Fr>, prf: &Proof) -> (r: Result<
    bool,
    CodecError,
>)
    requires
        vk_wf(pvk.vk),
        proof_wf(*prf),
        forall|k: int| 0 <= k < inputs@.len() ==> fr_wf(#[trigger] inputs@[k]),
    ensures
        r == Err::<bool, CodecError>(CodecError::PublicInputCountMismatch) <==> inputs@.len() + 1
            != pvk.vk.gamma_abc_g1@.len(),
        inputs@.len() + 1 == pvk.vk.gamma_abc_g1@.len() ==> (r matches Ok(x) && x
            == groth16_accepts(
            vk_bytes(pvk.vk),
            proof_bytes(*prf),
            inputs@.map_values(|f: Fr| fr_val(f)),
        )),
        r matches Err(e) ==> e == CodecError::PublicInputCountMismatch,
{
    if inputs.len() != pvk.vk.gamma_abc_g1.len() - 1 {
        return Err(CodecError::PublicInputCountMismatch);
    }
    let vkb = encode_vk(&pvk.vk);
    let prb = encode_proof(prf);
    proof {
        assert(vk_wf(pvk.vk) && vk_bytes(pvk.vk) == vkb@ && proof_wf(*prf) && proof_bytes(*prf)
            == prb@);
    }
    match groth16_verify_raw(&vkb, &prb, inputs) {
        Some(x) => Ok(x),
        None => {
            proof {
                assert(false);
            }
            Err(CodecError::PublicInputCountMismatch)
        },
    }
}

} // verus!
