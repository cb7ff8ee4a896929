use ark_bn254::{Bn254, Fr as ArkFr};
use ark_ff::{Field, PrimeField};
use ark_relations::gr1cs::{
    ConstraintSynthesizer, ConstraintSystemRef, LinearCombination, SynthesisError,
};
use ark_serialize::CanonicalSerialize;

use groth16_core::codec::{decode_proof, decode_vk, encode_proof, encode_vk};
use groth16_core::field::Fr;
use groth16_core::fp::U256;
use groth16_core::groth16::{prepare, verify};
use groth16_core::vk::{Proof, VerifyingKey};
use groth16_core::CodecError;

struct MulCircuit {
    a: Option<ArkFr>,
    b: Option<ArkFr>,
}

impl ConstraintSynthesizer<ArkFr> for MulCircuit {
    fn generate_constraints(self, cs: ConstraintSystemRef<ArkFr>) -> Result<(), SynthesisError> {
        let a = cs.new_witness_variable(|| self.a.ok_or(SynthesisError::AssignmentMissing))?;
        let b = cs.new_witness_variable(|| self.b.ok_or(SynthesisError::AssignmentMissing))?;
        let c = cs.new_input_variable(|| {
            let mut v = self.a.ok_or(SynthesisError::AssignmentMissing)?;
            v *= self.b.ok_or(SynthesisError::AssignmentMissing)?;
            Ok(v)
        })?;
        cs.enforce_r1cs_constraint(
            || LinearCombination::from(a),
            || LinearCombination::from(b),
            || LinearCombination::from(c),
        )?;
        Ok(())
    }
}

fn fr_from_ark(v: ArkFr) -> Fr {
    let l = v.into_bigint().0;
    Fr {
        rep: U256 {
            l0: l[0],
            l1: l[1],
            l2: l[2],
            l3: l[3],
        },
    }
}

fn setup_example() -> (VerifyingKey, Proof, Fr, Vec<u8>, Vec<u8>) {
    let mut rng = ark_std::test_rng();
    let pk = ark_groth16::Groth16::<Bn254>::generate_random_parameters_with_reduction(
        MulCircuit { a: None, b: None },
        &mut rng,
    )
    .unwrap();
    let a = ArkFr::from(3u64);
    let b = ArkFr::from(5u64);
    let c = a * b;
    let proof = ark_groth16::Groth16::<Bn254>::create_random_proof_with_reduction(
        MulCircuit {
            a: Some(a),
            b: Some(b),
        },
        &pk,
        &mut rng,
    )
    .unwrap();
    let mut vk_bytes = Vec::new();
    pk.vk.serialize_compressed(&mut vk_bytes).unwrap();
    let mut proof_bytes = Vec::new();
    proof.serialize_compressed(&mut proof_bytes).unwrap();
    let vk = decode_vk(&vk_bytes).unwrap();
    let prf = decode_proof(&proof_bytes).unwrap();
    (vk, prf, fr_from_ark(c), vk_bytes, proof_bytes)
}

#[test]
fn codec_matches_external_encoding() {
    let (vk, prf, _c, vk_bytes, proof_bytes) = setup_example();
    assert_eq!(encode_vk(&vk), vk_bytes);
    assert_eq!(encode_proof(&prf), proof_bytes);
}

#[test]
fn end_to_end_accepts_valid_proof() {
    let (vk, prf, c, _vk_bytes, _proof_bytes) = setup_example();
    let pvk = prepare(vk);
    let r = verify(&pvk, &vec![c], &prf).unwrap();
    assert!(r);
}

#[test]
fn end_to_end_rejects_wrong_input() {
    let (vk, prf, _c, _vk_bytes, _proof_bytes) = setup_example();
    let pvk = prepare(vk);
    let wrong = fr_from_ark(ArkFr::from(16u64));
    let r = verify(&pvk, &vec![wrong], &prf).unwrap();
    assert!(!r);
}

#[test]
fn input_count_mismatch_is_an_error() {
    let (vk, prf, c, _vk_bytes, _proof_bytes) = setup_example();
    let pvk = prepare(vk);
    assert_eq!(
        verify(&pvk, &vec![], &prf).unwrap_err(),
        CodecError::PublicInputCountMismatch
    );
    assert_eq!(
        verify(&pvk, &vec![c, c], &prf).unwrap_err(),
        CodecError::PublicInputCountMismatch
    );
}

#[test]
fn flipped_proof_bytes_never_verify() {
    let (vk, _prf, c, _vk_bytes, proof_bytes) = setup_example();
    let pvk = prepare(vk);
    for &pos in &[0usize, 1, 16, 31, 32, 63, 64, 95, 96, 120, 127] {
        let mut mutated = proof_bytes.clone();
        mutated[pos] ^= 1;
        match decode_proof(&mutated) {
            Err(_) => {}
            Ok(bad) => {
                let r = verify(&pvk, &vec![c], &bad).unwrap();
                assert!(!r, "flipped byte {} still verified", pos);
            }
        }
    }
}
