//! Field elements of the BN254 base field and scalar field, the quadratic
//! extension of the base field, and the decimal-string decoder.
//!
//! Residues are held as 256-bit limb vectors that are always below the
//! modulus.  Addition, subtraction, negation, the sign test and decimal
//! parsing are verified; multiplication, inversion and square roots go
//! through the trusted arkworks boundary.
use vstd::prelude::*;

use ark_bn254::Fq as ArkFq;
use ark_bn254::Fq2 as ArkFq2;
use ark_ff::BigInt;
use ark_ff::Field;
use ark_ff::PrimeField;

verus! {

use crate::CodecError;
use crate::fp::{U256, u256_add, u256_lt, u256_mul10_add, u256_sub, u256_val, lemma_u256_val_bounds, lemma_u256_val_injective};
use vstd::arithmetic::div_mod::{lemma_mod_multiples_vanish, lemma_small_mod};

/// The BN254 base-field modulus.
pub open spec fn q_int() -> int {
    21888242871839275222246405745257275088696311157297823662689037894645226208583int
}

/// The BN254 scalar-field modulus.
pub open spec fn r_int() -> int {
    21888242871839275222246405745257275088548364400416034343698204186575808495617int
}

/// Half of the base-field modulus, rounded down: the largest residue that
/// still counts as "positive" in the canonical point encoding.
pub open spec fn half_q() -> int {
    10944121435919637611123202872628637544348155578648911831344518947322613104291int
}

/// A base-field residue.
#[derive(Clone, Copy, Debug, PartialEq, Eq, Structural)]
pub struct Fq {
    pub rep: U256,
}

/// A scalar-field residue.
#[derive(Clone, Copy, Debug, PartialEq, Eq, Structural)]
pub struct Fr {
    pub rep: U256,
}

/// An element of the quadratic extension of the base field, `c0 + c1 * u`.
#[derive(Clone, Copy, Debug, PartialEq, Eq, Structural)]
pub struct Fq2 {
    pub c0: Fq,
    pub c1: Fq,
}

pub open spec fn fq_val(x: Fq) -> int {
    u256_val(x.rep)
}

pub open spec fn fq_wf(x: Fq) -> bool {
    0 <= fq_val(x) < q_int()
}

pub open spec fn fr_val(x: Fr) -> int {
    u256_val(x.rep)
}

pub open spec fn fr_wf(x: Fr) -> bool {
    0 <= fr_val(x) < r_int()
}

pub open spec fn fq2_wf(x: Fq2) -> bool {
    fq_wf(x.c0) && fq_wf(x.c1)
}

/// Multiplication in the base field.
pub open spec fn mmul(a: int, b: int) -> int {
    (a * b) % q_int()
}

/// Addition in the base field.
pub open spec fn madd(a: int, b: int) -> int {
    (a + b) % q_int()
}

/// Subtraction in the base field.
pub open spec fn msub(a: int, b: int) -> int {
    (a - b) % q_int()
}

/// Negation in the base field.
pub open spec fn mneg(a: int) -> int {
    (0 - a) % q_int()
}

/// First component of a product in the extension field (`u^2 == -1`).
pub open spec fn f2mul_c0(a0: int, a1: int, b0: int, b1: int) -> int {
    msub(mmul(a0, b0), mmul(a1, b1))
}

/// Second component of a product in the extension field.
pub open spec fn f2mul_c1(a0: int, a1: int, b0: int, b1: int) -> int {
    madd(mmul(a0, b1), mmul(a1, b0))
}

/// The canonical sign of an extension element: compares against its negation
/// in the lexicographic order that puts `c1` first.
pub open spec fn fq2_is_neg_spec(y: Fq2) -> bool {
    fq_val(y.c1) > half_q() || (fq_val(y.c1) == 0 && fq_val(y.c0) > half_q())
}

pub fn fq_modulus() -> (r: U256)
    ensures
        u256_val(r) == q_int(),
{
    U256 {
        l0: 0x3c208c16d87cfd47,
        l1: 0x97816a916871ca8d,
        l2: 0xb85045b68181585d,
        l3: 0x30644e72e131a029,
    }
}

pub fn fr_modulus() -> (r: U256)
    ensures
        u256_val(r) == r_int(),
{
    U256 {
        l0: 0x43e1f593f0000001,
        l1: 0x2833e84879b97091,
        l2: 0xb85045b68181585d,
        l3: 0x30644e72e131a029,
    }
}

fn fq_half_modulus() -> (r: U256)
    ensures
        u256_val(r) == half_q(),
{
    U256 {
        l0: 0x9e10460b6c3e7ea3,
        l1: 0xcbc0b548b438e546,
        l2: 0xdc2822db40c0ac2e,
        l3: 0x183227397098d014,
    }
}

pub fn fq_zero() -> (r: Fq)
    ensures
        fq_val(r) == 0,
        fq_wf(r),
{
    Fq { rep: U256 { l0: 0, l1: 0, l2: 0, l3: 0 } }
}

pub fn fq_from_u64(v: u64) -> (r: Fq)
    ensures
        fq_val(r) == v,
        fq_wf(r),
{
    Fq { rep: U256 { l0: v, l1: 0, l2: 0, l3: 0 } }
}

pub fn fq2_zero() -> (r: Fq2)
    ensures
        fq_val(r.c0) == 0 && fq_val(r.c1) == 0,
        fq2_wf(r),
{
    Fq2 { c0: fq_zero(), c1: fq_zero() }
}

/// Addition of two residues, reduced.
pub fn fq_add(a: &Fq, b: &Fq) -> (r: Fq)
    requires
        fq_wf(*a),
        fq_wf(*b),
    ensures
        fq_wf(r),
        fq_val(r) == madd(fq_val(*a), fq_val(*b)),
{
    let (s, c) = u256_add(&a.rep, &b.rep);
    proof {
        lemma_u256_val_bounds(s);
        assert(c == 0);
    }
    let q = fq_modulus();
    let r = if u256_lt(&s, &q) {
        proof {
            lemma_small_mod((fq_val(*a) + fq_val(*b)) as nat, q_int() as nat);
        }
        Fq { rep: s }
    } else {
        proof {
            lemma_mod_multiples_vanish(1, fq_val(*a) + fq_val(*b) - q_int(), q_int());
            lemma_small_mod((fq_val(*a) + fq_val(*b) - q_int()) as nat, q_int() as nat);
        }
        Fq { rep: u256_sub(&s, &q) }
    };
    r
}

/// Subtraction of two residues, reduced.
pub fn fq_sub(a: &Fq, b: &Fq) -> (r: Fq)
    requires
        fq_wf(*a),
        fq_wf(*b),
    ensures
        fq_wf(r),
        fq_val(r) == msub(fq_val(*a), fq_val(*b)),
{
    if u256_lt(&a.rep, &b.rep) {
        let q = fq_modulus();
        let t = u256_sub(&q, &b.rep);
        let (s, c) = u256_add(&a.rep, &t);
        proof {
            lemma_u256_val_bounds(s);
            assert(c == 0);
            lemma_mod_multiples_vanish(1, fq_val(*a) - fq_val(*b), q_int());
            lemma_small_mod((fq_val(*a) + q_int() - fq_val(*b)) as nat, q_int() as nat);
        }
        Fq { rep: s }
    } else {
        proof {
            lemma_small_mod((fq_val(*a) - fq_val(*b)) as nat, q_int() as nat);
        }
        Fq { rep: u256_sub(&a.rep, &b.rep) }
    }
}

/// Negation of a residue.
pub fn fq_neg(a: &Fq) -> (r: Fq)
    requires
        fq_wf(*a),
    ensures
        fq_wf(r),
        fq_val(r) == mneg(fq_val(*a)),
{
    let z = fq_zero();
    fq_sub(&z, a)
}

/// Whether a residue is "negative": strictly above half the modulus.
pub fn fq_is_neg(a: &Fq) -> (r: bool)
    requires
        fq_wf(*a),
    ensures
        r == (fq_val(*a) > half_q()),
{
    let h = fq_half_modulus();
    u256_lt(&h, &a.rep)
}

pub fn fq2_add(a: &Fq2, b: &Fq2) -> (r: Fq2)
    requires
        fq2_wf(*a),
        fq2_wf(*b),
    ensures
        fq2_wf(r),
        fq_val(r.c0) == madd(fq_val(a.c0), fq_val(b.c0)),
        fq_val(r.c1) == madd(fq_val(a.c1), fq_val(b.c1)),
{
    Fq2 { c0: fq_add(&a.c0, &b.c0), c1: fq_add(&a.c1, &b.c1) }
}

pub fn fq2_neg(a: &Fq2) -> (r: Fq2)
    requires
        fq2_wf(*a),
    ensures
        fq2_wf(r),
        fq_val(r.c0) == mneg(fq_val(a.c0)),
        fq_val(r.c1) == mneg(fq_val(a.c1)),
{
    Fq2 { c0: fq_neg(&a.c0), c1: fq_neg(&a.c1) }
}

/// Whether an extension element is "negative": strictly greater than its
/// negation, comparing `c1` first and then `c0`.
pub fn fq2_is_neg(a: &Fq2) -> (r: bool)
    requires
        fq2_wf(*a),
    ensures
        r == fq2_is_neg_spec(*a),
{
    if fq_is_neg(&a.c1) {
        true
    } else {
        let z = fq_zero();
        if a.c1 == z {
            fq_is_neg(&a.c0)
        } else {
            proof {
                if fq_val(a.c1) == 0 {
                    lemma_u256_val_injective(a.c1.rep, z.rep);
                }
            }
            false
        }
    }
}

/// Relies on `ark_ff`'s Montgomery multiplication for the BN254 base field:
/// the product of two residues, reduced by the base-field modulus.
#[verifier::external_body]
pub fn fq_mul(a: &Fq, b: &Fq) -> (r: Fq)
    requires
        fq_wf(*a),
        fq_wf(*b),
    ensures
        fq_wf(r),
        fq_val(r) == mmul(fq_val(*a), fq_val(*b)),
{
    let x = ArkFq::from_bigint(BigInt([a.rep.l0, a.rep.l1, a.rep.l2, a.rep.l3])).unwrap();
    let y = ArkFq::from_bigint(BigInt([b.rep.l0, b.rep.l1, b.rep.l2, b.rep.l3])).unwrap();
    let z = (x * y).into_bigint().0;
    Fq { rep: U256 { l0: z[0], l1: z[1], l2: z[2], l3: z[3] } }
}

/// Relies on `ark_ff`'s `Field::inverse` for the BN254 base field: the
/// multiplicative inverse of a nonzero residue, and `None` exactly on zero.
#[verifier::external_body]
pub fn fq_inv(a: &Fq) -> (r: Option<Fq>)
    requires
        fq_wf(*a),
    ensures
        r is Some <==> fq_val(*a) != 0,
        r matches Some(i) ==> fq_wf(i) && mmul(fq_val(*a), fq_val(i)) == 1,
{
    let x = ArkFq::from_bigint(BigInt([a.rep.l0, a.rep.l1, a.rep.l2, a.rep.l3])).unwrap();
    match x.inverse() {
        None => None,
        Some(i) => {
            let z = i.into_bigint().0;
            Some(Fq { rep: U256 { l0: z[0], l1: z[1], l2: z[2], l3: z[3] } })
        },
    }
}

/// Relies on `ark_ff`'s `Field::sqrt` for the BN254 base field: a square
/// root whenever one exists, `None` otherwise.  The modulus is prime, so a
/// residue with a root `s` has exactly the roots `s` and `q - s`.
#[verifier::external_body]
pub fn fq_sqrt(a: &Fq) -> (r: Option<Fq>)
    requires
        fq_wf(*a),
    ensures
        match r {
            Some(s) => fq_wf(s) && mmul(fq_val(s), fq_val(s)) == fq_val(*a) && (forall|w: int|
                0 <= w < q_int() && mmul(w, w) == fq_val(*a) ==> w == fq_val(s) || w == q_int()
                    - fq_val(s)),
            None => forall|w: int| 0 <= w < q_int() ==> mmul(w, w) != fq_val(*a),
        },
{
    let x = ArkFq::from_bigint(BigInt([a.rep.l0, a.rep.l1, a.rep.l2, a.rep.l3])).unwrap();
    match x.sqrt() {
        None => None,
        Some(s) => {
            let z = s.into_bigint().0;
            Some(Fq { rep: U256 { l0: z[0], l1: z[1], l2: z[2], l3: z[3] } })
        },
    }
}

/// Relies on `ark_ff`'s `Field::sqrt` for the BN254 quadratic extension: a
/// square root whenever one exists, `None` otherwise.  The extension is a
/// field, so an element with a root `s` has exactly the roots `s` and `-s`.
#[verifier::external_body]
pub fn fq2_sqrt(a: &Fq2) -> (r: Option<Fq2>)
    requires
        fq2_wf(*a),
    ensures
        match r {
            Some(s) => fq2_wf(s) && f2mul_c0(fq_val(s.c0), fq_val(s.c1), fq_val(s.c0), fq_val(s.c1))
                == fq_val(a.c0) && f2mul_c1(fq_val(s.c0), fq_val(s.c1), fq_val(s.c0), fq_val(s.c1))
                == fq_val(a.c1) && (forall|w0: int, w1: int|
                0 <= w0 < q_int() && 0 <= w1 < q_int() && f2mul_c0(w0, w1, w0, w1) == fq_val(a.c0)
                    && f2mul_c1(w0, w1, w0, w1) == fq_val(a.c1) ==> (w0 == fq_val(s.c0) && w1
                    == fq_val(s.c1)) || (w0 == mneg(fq_val(s.c0)) && w1 == mneg(fq_val(s.c1)))),
            None => forall|w0: int, w1: int|
                0 <= w0 < q_int() && 0 <= w1 < q_int() ==> !(f2mul_c0(w0, w1, w0, w1) == fq_val(
                    a.c0,
                ) && f2mul_c1(w0, w1, w0, w1) == fq_val(a.c1)),
        },
{
    let p = &a.c0.rep;
    let q = &a.c1.rep;
    let c0 = ArkFq::from_bigint(BigInt([p.l0, p.l1, p.l2, p.l3])).unwrap();
    let c1 = ArkFq::from_bigint(BigInt([q.l0, q.l1, q.l2, q.l3])).unwrap();
    let s = ArkFq2::new(c0, c1).sqrt()?;
    Some(Fq2 { c0: fq_from_limbs(s.c0.into_bigint().0), c1: fq_from_limbs(s.c1.into_bigint().0) })
}

/// Pack four little-endian limbs into a base-field element.
pub(crate) fn fq_from_limbs(z: [u64; 4]) -> (r: Fq)
    ensures
        r.rep == (U256 { l0: z[0], l1: z[1], l2: z[2], l3: z[3] }),
{
    Fq { rep: U256 { l0: z[0], l1: z[1], l2: z[2], l3: z[3] } }
}

/// Relies on `ark_ff`'s `Field::inverse` for the BN254 quadratic extension:
/// the multiplicative inverse of a nonzero element, and `None` exactly on
/// zero.
#[verifier::external_body]
pub fn fq2_inv(a: &Fq2) -> (r: Option<Fq2>)
    requires
        fq2_wf(*a),
    ensures
        r is Some <==> !(fq_val(a.c0) == 0 && fq_val(a.c1) == 0),
        r matches Some(i) ==> fq2_wf(i) && f2mul_c0(fq_val(a.c0), fq_val(a.c1), fq_val(i.c0), fq_val(i.c1))
            == 1 && f2mul_c1(fq_val(a.c0), fq_val(a.c1), fq_val(i.c0), fq_val(i.c1)) == 0,
{
    let p = &a.c0.rep;
    let q = &a.c1.rep;
    let c0 = ArkFq::from_bigint(BigInt([p.l0, p.l1, p.l2, p.l3])).unwrap();
    let c1 = ArkFq::from_bigint(BigInt([q.l0, q.l1, q.l2, q.l3])).unwrap();
    let i = ArkFq2::new(c0, c1).inverse()?;
    Some(Fq2 { c0: fq_from_limbs(i.c0.into_bigint().0), c1: fq_from_limbs(i.c1.into_bigint().0) })
}

/// The product of two extension elements.
pub fn fq2_mul(a: &Fq2, b: &Fq2) -> (r: Fq2)
    requires
        fq2_wf(*a),
        fq2_wf(*b),
    ensures
        fq2_wf(r),
        fq_val(r.c0) == f2mul_c0(fq_val(a.c0), fq_val(a.c1), fq_val(b.c0), fq_val(b.c1)),
        fq_val(r.c1) == f2mul_c1(fq_val(a.c0), fq_val(a.c1), fq_val(b.c0), fq_val(b.c1)),
{
    let t0 = fq_mul(&a.c0, &b.c0);
    let t1 = fq_mul(&a.c1, &b.c1);
    let t2 = fq_mul(&a.c0, &b.c1);
    let t3 = fq_mul(&a.c1, &b.c0);
    Fq2 { c0: fq_sub(&t0, &t1), c1: fq_add(&t2, &t3) }
}

/// Whether a character is a decimal digit.
pub open spec fn is_dec_digit(c: char) -> bool {
    48 <= (c as u32) <= 57
}

/// The digit a character denotes.
pub open spec fn digit_val(c: char) -> int {
    (c as u32) - 48
}

/// A non-empty string of decimal digits.
pub open spec fn is_dec_string(s: Seq<char>) -> bool {
    s.len() >= 1 && forall|i: int| 0 <= i < s.len() ==> is_dec_digit(#[trigger] s[i])
}

/// The integer a digit string denotes.
pub open spec fn dec_value(s: Seq<char>) -> int
    decreases s.len(),
{
    if s.len() == 0 {
        0
    } else {
        dec_value(s.drop_last()) * 10 + digit_val(s.last())
    }
}

proof fn lemma_dec_value_nonneg(s: Seq<char>)
    requires
        forall|i: int| 0 <= i < s.len() ==> is_dec_digit(#[trigger] s[i]),
    ensures
        dec_value(s) >= 0,
    decreases s.len(),
{
    if s.len() > 0 {
        lemma_dec_value_nonneg(s.drop_last());
    }
}

/// A digit string denotes at least as much as any of its prefixes.
proof fn lemma_dec_value_monotone(s: Seq<char>, i: int)
    requires
        0 <= i <= s.len(),
        forall|k: int| 0 <= k < s.len() ==> is_dec_digit(#[trigger] s[k]),
    ensures
        dec_value(s.subrange(0, i)) <= dec_value(s),
    decreases s.len() - i,
{
    if i == s.len() {
        assert(s.subrange(0, i) =~= s);
    } else {
        let p = s.subrange(0, i);
        let p1 = s.subrange(0, i + 1);
        assert(p1.drop_last() =~= p);
        lemma_dec_value_nonneg(p);
        lemma_dec_value_monotone(s, i + 1);
    }
}

/// Parse a decimal string into a 256-bit value.
///
/// Returns `None` exactly when the string is not a non-empty digit string or
/// denotes a value that does not fit in 256 bits.
pub fn parse_decimal(s: &str) -> (r: Option<U256>)
    ensures
        r matches Some(u) ==> is_dec_string(s@) && u256_val(u) == dec_value(s@),
        r is None ==> !is_dec_string(s@) || dec_value(s@)
            >= 0x10000000000000000000000000000000000000000000000000000000000000000,
{
    let n = s.unicode_len();
    if n == 0 {
        return None;
    }
    let mut acc = U256 { l0: 0, l1: 0, l2: 0, l3: 0 };
    let mut i: usize = 0;
    while i < n
        invariant
            0 <= i <= n,
            n == s@.len(),
            forall|k: int| 0 <= k < i ==> is_dec_digit(#[trigger] s@[k]),
            u256_val(acc) == dec_value(s@.subrange(0, i as int)),
        decreases n - i,
    {
        let c = s.get_char(i);
        let v = c as u32;
        if v < 48 || v > 57 {
            return None;
        }
        let d: u64 = (v - 48) as u64;
        let (next, ov) = u256_mul10_add(&acc, d);
        proof {
            let p = s@.subrange(0, i as int);
            let p1 = s@.subrange(0, i as int + 1);
            assert(p1.drop_last() =~= p);
            assert(p1.last() == s@[i as int]);
        }
        if ov != 0 {
            proof {
                lemma_u256_val_bounds(next);
                if is_dec_string(s@) {
                    lemma_dec_value_monotone(s@, i as int + 1);
                }
            }
            return None;
        }
        acc = next;
        i = i + 1;
    }
    proof {
        assert(s@.subrange(0, n as int) =~= s@);
    }
    Some(acc)
}

/// Parse a decimal string into a base-field residue, rejecting any value at
/// or above the modulus.
pub fn parse_base_field(s: &str) -> (r: Result<Fq, CodecError>)
    ensures
        r matches Ok(f) ==> fq_wf(f) && is_dec_string(s@) && fq_val(f) == dec_value(s@),
        r matches Err(e) ==> e == CodecError::InvalidFieldEncoding && (!is_dec_string(s@)
            || dec_value(s@) >= q_int()),
{
    match parse_decimal(s) {
        None => Err(CodecError::InvalidFieldEncoding),
        Some(u) => {
            let q = fq_modulus();
            if u256_lt(&u, &q) {
                Ok(Fq { rep: u })
            } else {
                Err(CodecError::InvalidFieldEncoding)
            }
        },
    }
}

/// Parse a decimal string into a scalar-field residue, rejecting any value
/// at or above the modulus.
pub fn parse_scalar_field(s: &str) -> (r: Result<Fr, CodecError>)
    ensures
        r matches Ok(f) ==> fr_wf(f) && is_dec_string(s@) && fr_val(f) == dec_value(s@),
        r matches Err(e) ==> e == CodecError::InvalidFieldEncoding && (!is_dec_string(s@)
            || dec_value(s@) >= r_int()),
{
    match parse_decimal(s) {
        None => Err(CodecError::InvalidFieldEncoding),
        Some(u) => {
            let m = fr_modulus();
            if u256_lt(&u, &m) {
                Ok(Fr { rep: u })
            } else {
                Err(CodecError::InvalidFieldEncoding)
            }
        },
    }
}

} // verus!
