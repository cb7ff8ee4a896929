use groth16_core::codec::{
    decode_base_field, decode_g1, decode_proof, decode_scalar, decode_vk, encode_base_field,
    encode_g1, encode_proof, encode_scalar, encode_vk,
};
use groth16_core::curve::{build_g1, build_g2};
use groth16_core::field::{parse_base_field, parse_scalar_field, Fq2};
use groth16_core::CodecError;

const Q_DEC: &str = "21888242871839275222246405745257275088696311157297823662689037894645226208583";
const Q_MINUS_ONE: &str =
    "21888242871839275222246405745257275088696311157297823662689037894645226208582";
const R_DEC: &str = "21888242871839275222246405745257275088548364400416034343698204186575808495617";

#[test]
fn parse_zero_is_identity() {
    let f = parse_base_field("0").unwrap();
    assert_eq!(f.rep.l0, 0);
    assert_eq!(f.rep.l1, 0);
    assert_eq!(f.rep.l2, 0);
    assert_eq!(f.rep.l3, 0);
}

#[test]
fn parse_modulus_rejected() {
    assert_eq!(
        parse_base_field(Q_DEC).unwrap_err(),
        CodecError::InvalidFieldEncoding
    );
    assert_eq!(
        parse_scalar_field(R_DEC).unwrap_err(),
        CodecError::InvalidFieldEncoding
    );
}

#[test]
fn parse_modulus_minus_one_round_trips() {
    let f = parse_base_field(Q_MINUS_ONE).unwrap();
    let bytes = encode_base_field(&f);
    let f2 = decode_base_field(&bytes).unwrap();
    assert_eq!(f, f2);
}

#[test]
fn parse_rejects_garbage() {
    assert!(parse_base_field("").is_err());
    assert!(parse_base_field("12a").is_err());
    assert!(parse_base_field("-1").is_err());
    assert!(parse_scalar_field("0x10").is_err());
}

#[test]
fn scalar_round_trips() {
    let f = parse_scalar_field("480569387602499969934763244407234404933182764834").unwrap();
    let bytes = encode_scalar(&f);
    assert_eq!(bytes.len(), 32);
    let f2 = decode_scalar(&bytes).unwrap();
    assert_eq!(f, f2);
}

#[test]
fn build_g1_generator() {
    let x = parse_base_field("1").unwrap();
    let y = parse_base_field("2").unwrap();
    let z = parse_base_field("1").unwrap();
    let p = build_g1(&x, &y, &z).unwrap();
    assert!(!p.infinity);
}

#[test]
fn build_g1_off_curve_fails() {
    let x = parse_base_field("1").unwrap();
    let y = parse_base_field("1").unwrap();
    let z = parse_base_field("1").unwrap();
    assert_eq!(
        build_g1(&x, &y, &z).unwrap_err(),
        CodecError::PointAtInfinityOrInvalid
    );
}

#[test]
fn build_g1_zero_z_fails() {
    let x = parse_base_field("1").unwrap();
    let y = parse_base_field("2").unwrap();
    let z = parse_base_field("0").unwrap();
    assert_eq!(
        build_g1(&x, &y, &z).unwrap_err(),
        CodecError::PointAtInfinityOrInvalid
    );
}

#[test]
fn build_g2_off_curve_fails() {
    let one = parse_base_field("1").unwrap();
    let zero = parse_base_field("0").unwrap();
    let x = Fq2 { c0: one, c1: zero };
    let y = Fq2 { c0: one, c1: zero };
    let z = Fq2 { c0: one, c1: zero };
    assert_eq!(
        build_g2(&x, &y, &z).unwrap_err(),
        CodecError::PointAtInfinityOrInvalid
    );
    let zz = Fq2 { c0: zero, c1: zero };
    assert_eq!(
        build_g2(&x, &y, &zz).unwrap_err(),
        CodecError::PointAtInfinityOrInvalid
    );
}

#[test]
fn g1_point_round_trips() {
    let x = parse_base_field("1").unwrap();
    let y = parse_base_field("2").unwrap();
    let z = parse_base_field("1").unwrap();
    let p = build_g1(&x, &y, &z).unwrap();
    let bytes = encode_g1(&p);
    assert_eq!(bytes.len(), 32);
    let p2 = decode_g1(&bytes).unwrap();
    assert_eq!(p, p2);
}

#[test]
fn g1_infinity_round_trips() {
    let mut bytes = vec![0u8; 32];
    bytes[31] = 0x40;
    let p = decode_g1(&bytes).unwrap();
    assert!(p.infinity);
    assert_eq!(encode_g1(&p), bytes);
}

#[test]
fn g1_decode_rejects_bad_flags() {
    let mut bytes = vec![0u8; 32];
    bytes[31] = 0xC0;
    assert_eq!(
        decode_g1(&bytes).unwrap_err(),
        CodecError::InvalidCompressionFlag
    );
    let short = vec![0u8; 31];
    assert_eq!(decode_g1(&short).unwrap_err(), CodecError::MalformedEncoding);
}

#[test]
fn g1_decode_rejects_overrange_x() {
    // The base-field modulus itself, little-endian: not a residue.
    let q = parse_base_field(Q_MINUS_ONE).unwrap();
    let mut bytes = encode_base_field(&q);
    // bump to exactly the modulus
    bytes[0] = bytes[0].wrapping_add(1);
    assert_eq!(decode_g1(&bytes).unwrap_err(), CodecError::MalformedEncoding);
}

#[test]
fn proof_and_vk_errors_on_truncation() {
    let short = vec![0u8; 127];
    assert_eq!(
        decode_proof(&short).unwrap_err(),
        CodecError::MalformedEncoding
    );
    let tiny = vec![0u8; 100];
    assert_eq!(decode_vk(&tiny).unwrap_err(), CodecError::MalformedEncoding);
}

#[test]
fn proof_of_infinities_round_trips() {
    let mut bytes = vec![0u8; 128];
    bytes[31] = 0x40;
    bytes[95] = 0x40;
    bytes[127] = 0x40;
    let p = decode_proof(&bytes).unwrap();
    assert!(p.a.infinity && p.b.infinity && p.c.infinity);
    assert_eq!(encode_proof(&p), bytes);
}

#[test]
fn vk_encode_decode_round_trips() {
    // A key of points at infinity exercises the framing: 4 points, count, one item.
    let mut bytes = vec![0u8; 264];
    bytes[31] = 0x40;
    bytes[95] = 0x40;
    bytes[159] = 0x40;
    bytes[223] = 0x40;
    bytes[224] = 1;
    bytes[263] = 0x40;
    let vk = decode_vk(&bytes).unwrap();
    assert_eq!(vk.gamma_abc_g1.len(), 1);
    assert_eq!(encode_vk(&vk), bytes);
}

#[test]
fn vk_rejects_count_mismatch() {
    let mut bytes = vec![0u8; 264];
    bytes[31] = 0x40;
    bytes[95] = 0x40;
    bytes[159] = 0x40;
    bytes[223] = 0x40;
    bytes[224] = 2;
    bytes[263] = 0x40;
    assert_eq!(decode_vk(&bytes).unwrap_err(), CodecError::MalformedEncoding);
}
