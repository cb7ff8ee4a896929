//! Affine points of the two BN254 curve groups, the curve-equation checks,
//! and the builder that normalizes projective coordinates to affine form.
use vstd::prelude::*;

verus! {

use crate::CodecError;
use crate::field::{
    Fq, Fq2, f2mul_c0, f2mul_c1, fq2_is_neg, fq2_mul, fq2_wf, fq_add, fq_from_u64, fq_mul,
    fq_inv, fq_val, fq_wf, fq_zero, madd, mmul, q_int,
};
use crate::fp::{U256, lemma_u256_val_injective};
use vstd::arithmetic::div_mod::{
    lemma_fundamental_div_mod, lemma_mod_multiples_vanish, lemma_small_mod,
};

/// An affine point of the first curve group, or the point at infinity.
#[derive(Clone, Copy, Debug, PartialEq, Eq, Structural)]
pub struct G1Point {
    pub x: Fq,
    pub y: Fq,
    pub infinity: bool,
}

/// An affine point of the second curve group, or the point at infinity.
#[derive(Clone, Copy, Debug, PartialEq, Eq, Structural)]
pub struct G2Point {
    pub x: Fq2,
    pub y: Fq2,
    pub infinity: bool,
}

/// The first curve's equation, `y^2 == x^3 + 3`, over reduced residues.
pub open spec fn g1_on_curve(x: int, y: int) -> bool {
    mmul(y, y) == madd(mmul(mmul(x, x), x), 3)
}

/// First component of the second curve's constant term, `3 / (9 + u)`.
pub open spec fn b2_c0() -> int {
    19485874751759354771024239261021720505790618469301721065564631296452457478373int
}

/// Second component of the second curve's constant term.
pub open spec fn b2_c1() -> int {
    266929791119991161246907387137283842545076965332900288569378510910307636690int
}

/// The second curve's equation, `y^2 == x^3 + b`, over the extension field.
pub open spec fn g2_on_curve(x0: int, x1: int, y0: int, y1: int) -> bool {
    let s0 = f2mul_c0(x0, x1, x0, x1);
    let s1 = f2mul_c1(x0, x1, x0, x1);
    madd(f2mul_c0(s0, s1, x0, x1), b2_c0()) == f2mul_c0(y0, y1, y0, y1) && madd(
        f2mul_c1(s0, s1, x0, x1),
        b2_c1(),
    ) == f2mul_c1(y0, y1, y0, y1)
}

/// A well-formed first-group point: the zero pair at infinity, otherwise a
/// reduced pair on the curve.
pub open spec fn g1_wf(p: G1Point) -> bool {
    if p.infinity {
        fq_val(p.x) == 0 && fq_val(p.y) == 0
    } else {
        fq_wf(p.x) && fq_wf(p.y) && g1_on_curve(fq_val(p.x), fq_val(p.y))
    }
}

/// A well-formed second-group point.
pub open spec fn g2_wf(p: G2Point) -> bool {
    if p.infinity {
        fq_val(p.x.c0) == 0 && fq_val(p.x.c1) == 0 && fq_val(p.y.c0) == 0 && fq_val(p.y.c1) == 0
    } else {
        fq2_wf(p.x) && fq2_wf(p.y) && g2_on_curve(
            fq_val(p.x.c0),
            fq_val(p.x.c1),
            fq_val(p.y.c0),
            fq_val(p.y.c1),
        )
    }
}

/// The right-hand side of the first curve's equation, `x^3 + 3`.
pub fn g1_rhs(x: &Fq) -> (r: Fq)
    requires
        fq_wf(*x),
    ensures
        fq_wf(r),
        fq_val(r) == madd(mmul(mmul(fq_val(*x), fq_val(*x)), fq_val(*x)), 3),
{
    let x2 = fq_mul(x, x);
    let x3 = fq_mul(&x2, x);
    let three = fq_from_u64(3);
    fq_add(&x3, &three)
}

/// The constant term of the second curve's equation.
pub fn g2_b_coeff() -> (r: Fq2)
    ensures
        fq2_wf(r),
        fq_val(r.c0) == b2_c0(),
        fq_val(r.c1) == b2_c1(),
{
    Fq2 {
        c0: Fq {
            rep: U256 {
                l0: 0x3267e6dc24a138e5,
                l1: 0xb5b4c5e559dbefa3,
                l2: 0x81be18991be06ac3,
                l3: 0x2b149d40ceb8aaae,
            },
        },
        c1: Fq {
            rep: U256 {
                l0: 0xe4a2bd0685c315d2,
                l1: 0xa74fa084e52d1852,
                l2: 0xcd2cafadeed8fdf4,
                l3: 0x009713b03af0fed4,
            },
        },
    }
}

/// The right-hand side of the second curve's equation, `x^3 + b`.
pub fn g2_rhs(x: &Fq2) -> (r: Fq2)
    requires
        fq2_wf(*x),
    ensures
        fq2_wf(r),
        ({
            let s0 = f2mul_c0(fq_val(x.c0), fq_val(x.c1), fq_val(x.c0), fq_val(x.c1));
            let s1 = f2mul_c1(fq_val(x.c0), fq_val(x.c1), fq_val(x.c0), fq_val(x.c1));
            fq_val(r.c0) == madd(f2mul_c0(s0, s1, fq_val(x.c0), fq_val(x.c1)), b2_c0()) && fq_val(
                r.c1,
            ) == madd(f2mul_c1(s0, s1, fq_val(x.c0), fq_val(x.c1)), b2_c1())
        }),
{
    let s = fq2_mul(x, x);
    let c = fq2_mul(&s, x);
    let b = g2_b_coeff();
    crate::field::fq2_add(&c, &b)
}

/// Whether two residues are equal, decided on the limbs.
pub fn fq_eq(a: &Fq, b: &Fq) -> (r: bool)
    ensures
        r == (fq_val(*a) == fq_val(*b)),
{
    proof {
        if fq_val(*a) == fq_val(*b) {
            lemma_u256_val_injective(a.rep, b.rep);
        }
    }
    a.rep == b.rep
}

/// Whether a reduced pair satisfies the first curve's equation.
pub fn g1_check_on_curve(x: &Fq, y: &Fq) -> (r: bool)
    requires
        fq_wf(*x),
        fq_wf(*y),
    ensures
        r == g1_on_curve(fq_val(*x), fq_val(*y)),
{
    let rhs = g1_rhs(x);
    let lhs = fq_mul(y, y);
    fq_eq(&lhs, &rhs)
}

/// Whether a reduced pair satisfies the second curve's equation.
pub fn g2_check_on_curve(x: &Fq2, y: &Fq2) -> (r: bool)
    requires
        fq2_wf(*x),
        fq2_wf(*y),
    ensures
        r == g2_on_curve(fq_val(x.c0), fq_val(x.c1), fq_val(y.c0), fq_val(y.c1)),
{
    let rhs = g2_rhs(x);
    let lhs = fq2_mul(y, y);
    let e0 = fq_eq(&lhs.c0, &rhs.c0);
    let e1 = fq_eq(&lhs.c1, &rhs.c1);
    e0 && e1
}

/// Two values congruent under the modulus differ by a multiple of it.
proof fn lemma_cong_to_multiple(x: int, y: int)
    requires
        x % q_int() == y % q_int(),
    ensures
        x - y == q_int() * ((x - y) / q_int()),
{
    lemma_fundamental_div_mod(x, q_int());
    lemma_fundamental_div_mod(y, q_int());
    lemma_fundamental_div_mod(x - y, q_int());
    lemma_mod_multiples_vanish(x / q_int() - y / q_int(), 0, q_int());
    lemma_small_mod(0, q_int() as nat);
    assert(x - y == q_int() * (x / q_int() - y / q_int()));
}

/// A multiple of the modulus strictly between its negation and itself is zero.
proof fn lemma_small_multiple_zero(d: int)
    requires
        d == q_int() * (d / q_int()),
        -q_int() < d < q_int(),
    ensures
        d == 0,
{
    let k = d / q_int();
    if k >= 1 {
        assert(q_int() * k >= q_int());
    }
    if k <= -1 {
        assert(q_int() * k <= -q_int());
    }
}

/// Cancellation in the base field: multiplying by an invertible value is
/// injective on reduced residues.
proof fn lemma_g1_cancel(a: int, b: int, z: int, w: int)
    requires
        0 <= a < q_int(),
        0 <= b < q_int(),
        0 <= z < q_int(),
        0 <= w < q_int(),
        mmul(a, z) == mmul(b, z),
        mmul(z, w) == 1,
    ensures
        a == b,
{
    lemma_cong_to_multiple(a * z, b * z);
    lemma_small_mod(1, q_int() as nat);
    lemma_cong_to_multiple(z * w, 1);
    let m = q_int();
    let k1 = (a * z - b * z) / q_int();
    let k2 = (z * w - 1) / q_int();
    assert(a - b == m * (k1 * w - (a - b) * k2)) by (nonlinear_arith)
        requires
            a * z - b * z == m * k1,
            z * w - 1 == m * k2,
    ;
    assert(a - b == q_int() * (k1 * w - (a - b) * k2));
    lemma_fundamental_div_mod_match(a - b, k1 * w - (a - b) * k2);
    lemma_small_multiple_zero(a - b);
}

/// If `d == q * k` then `k` is in fact `d / q`.
proof fn lemma_fundamental_div_mod_match(d: int, k: int)
    requires
        d == q_int() * k,
    ensures
        d == q_int() * (d / q_int()),
{
    vstd::arithmetic::div_mod::lemma_fundamental_div_mod_converse(d, q_int(), k, 0);
}

/// Build an affine first-group point from projective coordinates.
///
/// Fails exactly when `z` is zero or the normalized pair is off the curve.
pub fn build_g1(x: &Fq, y: &Fq, z: &Fq) -> (r: Result<G1Point, CodecError>)
    requires
        fq_wf(*x),
        fq_wf(*y),
        fq_wf(*z),
    ensures
        match r {
            Ok(p) => !p.infinity && g1_wf(p) && fq_val(*z) != 0 && mmul(fq_val(p.x), fq_val(*z))
                == fq_val(*x) && mmul(fq_val(p.y), fq_val(*z)) == fq_val(*y),
            Err(e) => e == CodecError::PointAtInfinityOrInvalid && (fq_val(*z) == 0 || forall|
                xa: int,
                ya: int,
            |
                0 <= xa < q_int() && 0 <= ya < q_int() && mmul(xa, fq_val(*z)) == fq_val(*x)
                    && mmul(ya, fq_val(*z)) == fq_val(*y) ==> !g1_on_curve(xa, ya)),
        },
{
    let zero = fq_zero();
    if fq_eq(z, &zero) {
        return Err(CodecError::PointAtInfinityOrInvalid);
    }
    let zi = match fq_inv(z) {
        Some(i) => i,
        None => {
            return Err(CodecError::PointAtInfinityOrInvalid);
        },
    };
    let xa = fq_mul(x, &zi);
    let ya = fq_mul(y, &zi);
    proof {
        lemma_g1_roundtrip(fq_val(*x), fq_val(*z), fq_val(zi));
        lemma_g1_roundtrip(fq_val(*y), fq_val(*z), fq_val(zi));
    }
    if g1_check_on_curve(&xa, &ya) {
        Ok(G1Point { x: xa, y: ya, infinity: false })
    } else {
        proof {
            assert forall|xc: int, yc: int|
                0 <= xc < q_int() && 0 <= yc < q_int() && mmul(xc, fq_val(*z)) == fq_val(*x)
                    && mmul(yc, fq_val(*z)) == fq_val(*y) implies !g1_on_curve(xc, yc) by {
                lemma_g1_cancel(xc, fq_val(xa), fq_val(*z), fq_val(zi));
                lemma_g1_cancel(yc, fq_val(ya), fq_val(*z), fq_val(zi));
            }
        }
        Err(CodecError::PointAtInfinityOrInvalid)
    }
}

/// Multiplying a value by an inverse and back returns the value.
proof fn lemma_g1_roundtrip(v: int, z: int, w: int)
    requires
        0 <= v < q_int(),
        0 <= z < q_int(),
        0 <= w < q_int(),
        mmul(z, w) == 1,
    ensures
        mmul(mmul(v, w), z) == v,
{
    lemma_small_mod(1, q_int() as nat);
    lemma_cong_to_multiple(z * w, 1);
    let k2 = (z * w - 1) / q_int();
    let m = q_int();
    let p = mmul(v, w);
    lemma_fundamental_div_mod(v * w, q_int());
    let k1 = (v * w) / q_int();
    assert(p * z == m * (v * k2 - k1 * z) + v) by (nonlinear_arith)
        requires
            p == v * w - m * k1,
            z * w - 1 == m * k2,
    ;
    assert(p * z == q_int() * (v * k2 - k1 * z) + v);
    lemma_mod_multiples_vanish(v * k2 - k1 * z, v, q_int());
    lemma_small_mod(v as nat, q_int() as nat);
}

/// Build an affine second-group point from projective coordinates.
///
/// Fails exactly when `z` is zero or the pair obtained by dividing through
/// `z` is off the curve; the witness in the contract is an inverse of `z`.
pub fn build_g2(x: &Fq2, y: &Fq2, z: &Fq2) -> (r: Result<G2Point, CodecError>)
    requires
        fq2_wf(*x),
        fq2_wf(*y),
        fq2_wf(*z),
    ensures
        match r {
            Ok(p) => !p.infinity && g2_wf(p) && !(fq_val(z.c0) == 0 && fq_val(z.c1) == 0)
                && (exists|w0: int, w1: int|
                0 <= w0 < q_int() && 0 <= w1 < q_int() && #[trigger] f2mul_c0(
                    fq_val(z.c0),
                    fq_val(z.c1),
                    w0,
                    w1,
                ) == 1 && f2mul_c1(fq_val(z.c0), fq_val(z.c1), w0, w1) == 0 && fq_val(p.x.c0)
                    == f2mul_c0(fq_val(x.c0), fq_val(x.c1), w0, w1) && fq_val(p.x.c1) == f2mul_c1(
                    fq_val(x.c0),
                    fq_val(x.c1),
                    w0,
                    w1,
                ) && fq_val(p.y.c0) == f2mul_c0(fq_val(y.c0), fq_val(y.c1), w0, w1) && fq_val(
                    p.y.c1,
                ) == f2mul_c1(fq_val(y.c0), fq_val(y.c1), w0, w1)),
            Err(e) => e == CodecError::PointAtInfinityOrInvalid && ((fq_val(z.c0) == 0 && fq_val(
                z.c1,
            ) == 0) || (exists|w0: int, w1: int|
                0 <= w0 < q_int() && 0 <= w1 < q_int() && #[trigger] f2mul_c0(
                    fq_val(z.c0),
                    fq_val(z.c1),
                    w0,
                    w1,
                ) == 1 && f2mul_c1(fq_val(z.c0), fq_val(z.c1), w0, w1) == 0 && !g2_on_curve(
                    f2mul_c0(fq_val(x.c0), fq_val(x.c1), w0, w1),
                    f2mul_c1(fq_val(x.c0), fq_val(x.c1), w0, w1),
                    f2mul_c0(fq_val(y.c0), fq_val(y.c1), w0, w1),
                    f2mul_c1(fq_val(y.c0), fq_val(y.c1), w0, w1),
                ))),
        },
{
    let zero = fq_zero();
    if fq_eq(&z.c0, &zero) && fq_eq(&z.c1, &zero) {
        return Err(CodecError::PointAtInfinityOrInvalid);
    }
    let zi = match crate::field::fq2_inv(z) {
        Some(i) => i,
        None => {
            proof {
                assert(false);
            }
            return Err(CodecError::PointAtInfinityOrInvalid);
        },
    };
    let xa = fq2_mul(x, &zi);
    let ya = fq2_mul(y, &zi);
    if g2_check_on_curve(&xa, &ya) {
        let p = G2Point { x: xa, y: ya, infinity: false };
        proof {
            assert(f2mul_c0(fq_val(z.c0), fq_val(z.c1), fq_val(zi.c0), fq_val(zi.c1)) == 1);
        }
        Ok(p)
    } else {
        proof {
            assert(f2mul_c0(fq_val(z.c0), fq_val(z.c1), fq_val(zi.c0), fq_val(zi.c1)) == 1);
        }
        Err(CodecError::PointAtInfinityOrInvalid)
    }
}

} // verus!
