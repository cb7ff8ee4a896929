//! The canonical compact binary codec: compressed points, the verifying
//! key, the proof, and scalar elements, all little-endian and
//! byte-compatible with the interchange format the external verifier reads.
//!
//! A point serializes to the bytes of its `x` coordinate with two flag bits
//! in the top of the last byte: bit 6 marks the point at infinity, bit 7 a
//! "negative" `y` (strictly above half the modulus).  Decoding recomputes
//! `y` from the curve equation and the flag.
use vstd::prelude::*;

verus! {

use crate::CodecError;
use crate::curve::{G1Point, G2Point, g1_rhs, g1_wf, g2_rhs, g2_wf};
use crate::field::{
    Fq, Fq2, Fr, f2mul_c0, f2mul_c1, fq2_is_neg, fq2_is_neg_spec, fq2_neg, fq2_sqrt, fq2_wf, fq_is_neg, fq_modulus,
    fq_neg, fq_sqrt, fq_val, fq_wf, fq_zero, fr_modulus, fr_val, fr_wf, half_q, madd, mmul, mneg,
    q_int, r_int,
};
use crate::fp::{
    U256, lemma_u256_le_bytes_injective, lemma_u256_val_injective, u256_from_le_bytes, u256_le_bytes,
    u256_lt, u256_to_le_bytes, u256_val, u64_byte,
};
use vstd::arithmetic::div_mod::{
    lemma_fundamental_div_mod, lemma_fundamental_div_mod_converse, lemma_mod_multiples_vanish,
    lemma_small_mod,
};

/// The all-zero limb vector.
pub open spec fn z256() -> U256 {
    U256 { l0: 0u64, l1: 0u64, l2: 0u64, l3: 0u64 }
}

/// The `x`-coordinate bytes a first-group point serializes: zero for the
/// point at infinity.
pub open spec fn g1_x_bytes(p: G1Point) -> Seq<u8> {
    if p.infinity {
        u256_le_bytes(z256())
    } else {
        u256_le_bytes(p.x.rep)
    }
}

/// The flag bits of a first-group point.
pub open spec fn g1_flag(p: G1Point) -> u8 {
    if p.infinity {
        0x40u8
    } else if fq_val(p.y) > half_q() {
        0x80u8
    } else {
        0u8
    }
}

/// The 32-byte compressed form of a first-group point.
#[verifier::opaque]
pub open spec fn g1_bytes(p: G1Point) -> Seq<u8> {
    Seq::new(
        32,
        |i: int|
            if i == 31 {
                (g1_x_bytes(p)[31] + g1_flag(p)) as u8
            } else {
                g1_x_bytes(p)[i]
            },
    )
}

/// The bytes of the zero vector are all zero.
proof fn lemma_z256_bytes()
    ensures
        forall|i: int| 0 <= i < 32 ==> u256_le_bytes(z256())[i] == 0,
{
    assert forall|i: int| 0 <= i < 32 implies u256_le_bytes(z256())[i] == 0 by {
        assert(u256_le_bytes(z256())[i] == u64_byte(0u64, i % 8));
    }
}

/// The top byte of a residue's serialization leaves the two flag bits clear.
proof fn lemma_top_byte(x: U256)
    requires
        u256_val(x) < q_int(),
        0 <= u256_val(x),
    ensures
        u256_le_bytes(x)[31] < 0x40,
        u256_le_bytes(x)[31] == u64_byte(x.l3, 7),
{
    assert(u256_le_bytes(x)[31] == u64_byte(x.l3, 7));
    assert(x.l3 <= 0x30644e72e131a029);
    lemma_fundamental_div_mod(x.l3 as int, 0x100000000000000);
    assert((x.l3 as int) / 0x100000000000000 < 0x40);
    lemma_small_mod(((x.l3 as int) / 0x100000000000000) as nat, 256);
}

/// Facts about the negated square root used when decompressing a point.
proof fn lemma_neg_root(r: int)
    requires
        0 <= r < q_int(),
    ensures
        mneg(r) == (if r == 0 {
            0int
        } else {
            q_int() - r
        }),
        mmul(mneg(r), mneg(r)) == mmul(r, r),
        r != 0 ==> ((r > half_q()) != (mneg(r) > half_q())),
        0 <= mneg(r) < q_int(),
{
    if r == 0 {
        lemma_small_mod(0, q_int() as nat);
    } else {
        lemma_fundamental_div_mod_converse(0 - r, q_int(), -1, q_int() - r);
    }
    let m = q_int();
    let nr = mneg(r);
    assert(nr * nr == m * (m - 2 * r) + r * r || r == 0) by (nonlinear_arith)
        requires
            (r != 0 && nr == m - r) || (r == 0 && nr == 0),
    ;
    if r != 0 {
        lemma_mod_multiples_vanish(m - 2 * r, r * r, m);
    }
}

/// Two distinct square roots of one value have opposite signs.
proof fn lemma_root_signs(w: int, r: int)
    requires
        0 <= r < q_int(),
        0 <= w < q_int(),
        w == r || w == mneg(r),
        mmul(w, w) == mmul(r, r),
    ensures
        r != 0 ==> (w == r <==> (w > half_q()) == (r > half_q())),
        r == 0 ==> w == 0,
{
    lemma_neg_root(r);
}

/// Whether some well-formed first-group point has this encoding.
pub open spec fn g1_valid(b: Seq<u8>) -> bool {
    exists|p: G1Point| g1_wf(p) && g1_bytes(p) == b
}

/// Whether some well-formed second-group point has this encoding.
pub open spec fn g2_valid(b: Seq<u8>) -> bool {
    exists|p: G2Point| g2_wf(p) && g2_bytes(p) == b
}

/// The coordinate bytes of a first-group encoding with the flags cleared.
pub open spec fn g1_masked_bytes(b: Seq<u8>) -> Seq<u8> {
    b.subrange(0, 31).push((b[31] % 0x40) as u8)
}

/// The right-hand side of the first curve's equation on a residue.
pub open spec fn rhs1(x: int) -> int {
    madd(mmul(mmul(x, x), x), 3)
}

/// Which error a malformed first-group encoding reports: truncation and
/// out-of-range coordinates are `MalformedEncoding`, reserved or
/// inconsistent flag bits `InvalidCompressionFlag`, and a coordinate with
/// no matching curve point `PointAtInfinityOrInvalid`.
pub open spec fn g1_err_of(b: Seq<u8>) -> CodecError {
    if b.len() != 32 {
        CodecError::MalformedEncoding
    } else if b[31] / 0x40 == 3 || b[31] / 0x40 == 1 {
        CodecError::InvalidCompressionFlag
    } else if exists|x: U256| u256_le_bytes(x) == g1_masked_bytes(b) && u256_val(x) >= q_int() {
        CodecError::MalformedEncoding
    } else if exists|x: U256|
        u256_le_bytes(x) == g1_masked_bytes(b) && u256_val(x) < q_int() && !(exists|w: int|
            0 <= w < q_int() && mmul(w, w) == rhs1(u256_val(x))) {
        CodecError::PointAtInfinityOrInvalid
    } else {
        CodecError::InvalidCompressionFlag
    }
}

/// Encode a first-group point to its 32-byte compressed form.
pub fn encode_g1(p: &G1Point) -> (r: Vec<u8>)
    requires
        g1_wf(*p),
    ensures
        r@ == g1_bytes(*p),
{
    proof {
        reveal(g1_bytes);
    }
    let xb = if p.infinity {
        let z = U256 { l0: 0, l1: 0, l2: 0, l3: 0 };
        u256_to_le_bytes(&z)
    } else {
        u256_to_le_bytes(&p.x.rep)
    };
    let flag: u8 = if p.infinity {
        0x40
    } else if fq_is_neg(&p.y) {
        0x80
    } else {
        0
    };
    proof {
        if p.infinity {
            lemma_z256_bytes();
        } else {
            lemma_top_byte(p.x.rep);
        }
    }
    let mut v: Vec<u8> = Vec::new();
    let mut i: usize = 0;
    while i < 31
        invariant
            0 <= i <= 31,
            xb@ == g1_x_bytes(*p),
            xb@.len() == 32,
            v@ == xb@.subrange(0, i as int),
        decreases 31 - i,
    {
        v.push(xb[i]);
        proof {
            assert(v@ =~= xb@.subrange(0, i as int + 1));
        }
        i = i + 1;
    }
    let last = xb[31];
    v.push(last + flag);
    proof {
        assert(v@ =~= g1_bytes(*p));
    }
    v
}

/// Decode a 32-byte compressed first-group point.
///
/// Succeeds exactly on the canonical encodings of well-formed points, and
/// then returns the one point so encoded.
pub fn decode_g1(b: &Vec<u8>) -> (r: Result<G1Point, CodecError>)
    ensures
        r matches Ok(p) ==> g1_wf(p) && g1_bytes(p) == b@,
        forall|p: G1Point| g1_wf(p) && g1_bytes(p) == b@ ==> r == Ok::<G1Point, CodecError>(p),
        r matches Err(e) ==> e == g1_err_of(b@),
{
    proof {
        reveal(g1_bytes);
    }
    if b.len() != 32 {
        return Err(CodecError::MalformedEncoding);
    }
    let hi = b[31];
    let f = hi / 0x40;
    proof {
        assert forall|p: G1Point| g1_wf(p) implies g1_bytes(p)[31] == add_flag_byte(p) by {
            if p.infinity {
                lemma_z256_bytes();
            } else {
                lemma_top_byte(p.x.rep);
            }
        }
    }
    if f == 3 {
        proof {
            lemma_no_flag3(b@);
        }
        return Err(CodecError::InvalidCompressionFlag);
    }
    if f == 1 {
        let mut ok = hi == 0x40;
        let mut i: usize = 0;
        while i < 31
            invariant
                0 <= i <= 31,
                b@.len() == 32,
                ok == (hi == 0x40 && forall|k: int| 0 <= k < i ==> b@[k] == 0),
            decreases 31 - i,
        {
            if b[i] != 0 {
                ok = false;
            }
            i = i + 1;
        }
        if ok {
            let p = G1Point { x: fq_zero(), y: fq_zero(), infinity: true };
            proof {
                lemma_z256_bytes();
                assert(g1_bytes(p) =~= b@);
                assert forall|p2: G1Point| g1_wf(p2) && g1_bytes(p2) == b@ implies p2 == p by {
                    lemma_decode_unique_infinity(p2, b@);
                }
            }
            return Ok(p);
        } else {
            proof {
                assert forall|p2: G1Point| g1_wf(p2) implies g1_bytes(p2) != b@ by {
                    if g1_bytes(p2) == b@ {
                        lemma_decode_unique_infinity(p2, b@);
                        lemma_z256_bytes();
                    }
                }
            }
            return Err(CodecError::InvalidCompressionFlag);
        }
    }
    let neg = f == 2;
    let mut xv: Vec<u8> = Vec::new();
    let mut i: usize = 0;
    while i < 31
        invariant
            0 <= i <= 31,
            b@.len() == 32,
            xv@ == b@.subrange(0, i as int),
        decreases 31 - i,
    {
        xv.push(b[i]);
        proof {
            assert(xv@ =~= b@.subrange(0, i as int + 1));
        }
        i = i + 1;
    }
    xv.push(hi % 0x40);
    let x = u256_from_le_bytes(&xv);
    proof {
        assert(xv@ =~= g1_masked_bytes(b@));
        assert forall|x2: U256| u256_le_bytes(x2) == g1_masked_bytes(b@) implies x2 == x by {
            lemma_u256_le_bytes_injective(x2, x);
        }
        lemma_flag_byte_split(hi, f);
        assert forall|p2: G1Point| g1_wf(p2) && g1_bytes(p2) == b@ implies !p2.infinity
            && p2.x.rep == x && (fq_val(p2.y) > half_q()) == neg by {
            lemma_decode_unique_x(p2, b@, x, hi, f);
        }
    }
    let q = fq_modulus();
    if !u256_lt(&x, &q) {
        return Err(CodecError::MalformedEncoding);
    }
    let fx = Fq { rep: x };
    let rhs = g1_rhs(&fx);
    let root = match fq_sqrt(&rhs) {
        None => {
            return Err(CodecError::PointAtInfinityOrInvalid);
        },
        Some(s) => s,
    };
    let y = if fq_is_neg(&root) == neg {
        root
    } else {
        proof {
            lemma_neg_root(fq_val(root));
        }
        fq_neg(&root)
    };
    if fq_is_neg(&y) != neg {
        proof {
            lemma_neg_root(fq_val(root));
            assert forall|p2: G1Point| g1_wf(p2) implies g1_bytes(p2) != b@ by {
                if g1_bytes(p2) == b@ {
                    lemma_root_signs(fq_val(p2.y), fq_val(root));
                }
            }
        }
        return Err(CodecError::InvalidCompressionFlag);
    }
    let p = G1Point { x: fx, y, infinity: false };
    proof {
        lemma_neg_root(fq_val(root));
        assert(g1_wf(p));
        assert(g1_bytes(p) =~= b@);
        assert forall|p2: G1Point| g1_wf(p2) && g1_bytes(p2) == b@ implies p2 == p by {
            lemma_root_signs(fq_val(p2.y), fq_val(root));
            lemma_u256_val_injective(p2.y.rep, p.y.rep);
        }
    }
    Ok(p)
}

/// The last byte of a point's encoding: the top coordinate byte plus flag.
pub open spec fn add_flag_byte(p: G1Point) -> u8 {
    (g1_x_bytes(p)[31] + g1_flag(p)) as u8
}

/// No well-formed point encodes both flag bits set.
proof fn lemma_no_flag3(b: Seq<u8>)
    requires
        b.len() == 32,
        b[31] / 0x40 == 3,
        forall|p: G1Point| g1_wf(p) ==> #[trigger] g1_bytes(p)[31] == add_flag_byte(p),
    ensures
        forall|p: G1Point| g1_wf(p) ==> g1_bytes(p) != b,
{
    reveal(g1_bytes);
    assert forall|p: G1Point| g1_wf(p) implies g1_bytes(p) != b by {
        if g1_bytes(p) == b {
            if p.infinity {
                lemma_z256_bytes();
            } else {
                lemma_top_byte(p.x.rep);
            }
        }
    }
}

/// An encoding whose last byte is `0x40` comes only from the point at
/// infinity, whose encoding is zero everywhere else.
proof fn lemma_decode_unique_infinity(p: G1Point, b: Seq<u8>)
    requires
        g1_wf(p),
        g1_bytes(p) == b,
        b.len() == 32,
        b[31] / 0x40 == 1,
    ensures
        p.infinity,
        p.x == (Fq { rep: z256() }),
        p.y == (Fq { rep: z256() }),
        forall|k: int| 0 <= k < 31 ==> b[k] == 0,
        b[31] == 0x40,
{
    reveal(g1_bytes);
    if !p.infinity {
        lemma_top_byte(p.x.rep);
        assert(g1_bytes(p)[31] == add_flag_byte(p));
        assert(false);
    }
    lemma_z256_bytes();
    lemma_u256_val_injective(p.x.rep, z256());
    lemma_u256_val_injective(p.y.rep, z256());
    assert forall|k: int| 0 <= k < 31 implies b[k] == 0 by {
        assert(g1_bytes(p)[k] == u256_le_bytes(z256())[k]);
    }
}

/// Splitting the last byte by the flag quotient.
proof fn lemma_flag_byte_split(hi: u8, f: u8)
    requires
        f == hi / 0x40,
        f == 0 || f == 2,
    ensures
        f == 0 ==> hi % 0x40 == hi,
        f == 2 ==> hi % 0x40 == hi - 0x80 && 0x80 <= hi < 0xC0,
{
    lemma_fundamental_div_mod(hi as int, 0x40);
}

/// A finite point whose encoding matches the buffer has the masked
/// coordinate bytes and the sign the flag says.
proof fn lemma_decode_unique_x(p: G1Point, b: Seq<u8>, x: U256, hi: u8, f: u8)
    requires
        g1_wf(p),
        g1_bytes(p) == b,
        b.len() == 32,
        hi == b[31],
        f == hi / 0x40,
        f == 0 || f == 2,
        u256_le_bytes(x) == b.subrange(0, 31).push(hi % 0x40),
    ensures
        !p.infinity,
        p.x.rep == x,
        (fq_val(p.y) > half_q()) == (f == 2),
{
    reveal(g1_bytes);
    if p.infinity {
        assert(g1_bytes(p)[31] == add_flag_byte(p));
        lemma_z256_bytes();
        assert(hi == 0x40);
        assert(false);
    }
    lemma_top_byte(p.x.rep);
    assert(g1_bytes(p)[31] == add_flag_byte(p));
    lemma_flag_byte_split(hi, f);
    assert forall|k: int| 0 <= k < 32 implies u256_le_bytes(p.x.rep)[k] == u256_le_bytes(x)[k] by {
        if k < 31 {
            assert(g1_bytes(p)[k] == u256_le_bytes(p.x.rep)[k]);
            assert(u256_le_bytes(x)[k] == b[k]);
        } else {
            assert(u256_le_bytes(x)[31] == hi % 0x40);
        }
    }
    assert(u256_le_bytes(p.x.rep) =~= u256_le_bytes(x));
    lemma_u256_le_bytes_injective(p.x.rep, x);
}

/// The low-coordinate bytes a second-group point serializes.
pub open spec fn g2_x0_bytes(p: G2Point) -> Seq<u8> {
    if p.infinity {
        u256_le_bytes(z256())
    } else {
        u256_le_bytes(p.x.c0.rep)
    }
}

/// The high-coordinate bytes a second-group point serializes.
pub open spec fn g2_x1_bytes(p: G2Point) -> Seq<u8> {
    if p.infinity {
        u256_le_bytes(z256())
    } else {
        u256_le_bytes(p.x.c1.rep)
    }
}

/// The flag bits of a second-group point.
pub open spec fn g2_flag(p: G2Point) -> u8 {
    if p.infinity {
        0x40u8
    } else if fq2_is_neg_spec(p.y) {
        0x80u8
    } else {
        0u8
    }
}

/// The 64-byte compressed form of a second-group point: `c0` bytes, then
/// `c1` bytes with the flags in the last byte.
#[verifier::opaque]
pub open spec fn g2_bytes(p: G2Point) -> Seq<u8> {
    Seq::new(
        64,
        |i: int|
            if i < 32 {
                g2_x0_bytes(p)[i]
            } else if i == 63 {
                (g2_x1_bytes(p)[31] + g2_flag(p)) as u8
            } else {
                g2_x1_bytes(p)[i - 32]
            },
    )
}

/// Negation preserves products of residues.
proof fn lemma_mneg_mul(a: int, b: int)
    requires
        0 <= a < q_int(),
        0 <= b < q_int(),
    ensures
        mmul(mneg(a), mneg(b)) == mmul(a, b),
        0 <= mneg(a) < q_int(),
{
    lemma_neg_root(a);
    lemma_neg_root(b);
    let m = q_int();
    let na = mneg(a);
    let nb = mneg(b);
    if a == 0 || b == 0 {
        assert(na * nb == m * (m - a - b) + a * b || na * nb == a * b) by (nonlinear_arith)
            requires
                (a == 0 && na == 0) || (a != 0 && na == m - a),
                (b == 0 && nb == 0) || (b != 0 && nb == m - b),
        ;
        if na * nb == m * (m - a - b) + a * b {
            lemma_mod_multiples_vanish(m - a - b, a * b, m);
        }
    } else {
        assert(na * nb == m * (m - a - b) + a * b) by (nonlinear_arith)
            requires
                na == m - a,
                nb == m - b,
        ;
        lemma_mod_multiples_vanish(m - a - b, a * b, m);
    }
}

/// The negation of an extension element squares to the same value, and has
/// the opposite sign when the element is nonzero.
proof fn lemma_fq2_neg_root(s0: int, s1: int)
    requires
        0 <= s0 < q_int(),
        0 <= s1 < q_int(),
    ensures
        crate::field::f2mul_c0(mneg(s0), mneg(s1), mneg(s0), mneg(s1)) == crate::field::f2mul_c0(
            s0,
            s1,
            s0,
            s1,
        ),
        crate::field::f2mul_c1(mneg(s0), mneg(s1), mneg(s0), mneg(s1)) == crate::field::f2mul_c1(
            s0,
            s1,
            s0,
            s1,
        ),
        0 <= mneg(s0) < q_int(),
        0 <= mneg(s1) < q_int(),
{
    lemma_mneg_mul(s0, s0);
    lemma_mneg_mul(s1, s1);
    lemma_mneg_mul(s0, s1);
    lemma_mneg_mul(s1, s0);
}

/// The low-coordinate bytes of a second-group encoding.
pub open spec fn g2_masked0_bytes(b: Seq<u8>) -> Seq<u8> {
    b.subrange(0, 32)
}

/// The high-coordinate bytes of a second-group encoding with the flags
/// cleared.
pub open spec fn g2_masked1_bytes(b: Seq<u8>) -> Seq<u8> {
    b.subrange(32, 63).push((b[63] % 0x40) as u8)
}

/// Which error a malformed second-group encoding reports, with the same
/// taxonomy as the first group.
pub open spec fn g2_err_of(b: Seq<u8>) -> CodecError {
    if b.len() != 64 {
        CodecError::MalformedEncoding
    } else if b[63] / 0x40 == 3 || b[63] / 0x40 == 1 {
        CodecError::InvalidCompressionFlag
    } else if exists|x: U256|
        (u256_le_bytes(x) == g2_masked0_bytes(b) || u256_le_bytes(x) == g2_masked1_bytes(b))
            && u256_val(x) >= q_int() {
        CodecError::MalformedEncoding
    } else if exists|x0: U256, x1: U256|
        u256_le_bytes(x0) == g2_masked0_bytes(b) && u256_le_bytes(x1) == g2_masked1_bytes(b)
            && u256_val(x0) < q_int() && u256_val(x1) < q_int() && !(exists|w0: int, w1: int|
            0 <= w0 < q_int() && 0 <= w1 < q_int() && f2mul_c0(w0, w1, w0, w1) == rhs2_c0(
                u256_val(x0),
                u256_val(x1),
            ) && f2mul_c1(w0, w1, w0, w1) == rhs2_c1(u256_val(x0), u256_val(x1))) {
        CodecError::PointAtInfinityOrInvalid
    } else {
        CodecError::InvalidCompressionFlag
    }
}

/// First component of the second curve's right-hand side on a pair.
pub open spec fn rhs2_c0(x0: int, x1: int) -> int {
    madd(
        f2mul_c0(f2mul_c0(x0, x1, x0, x1), f2mul_c1(x0, x1, x0, x1), x0, x1),
        crate::curve::b2_c0(),
    )
}

/// Second component of the second curve's right-hand side on a pair.
pub open spec fn rhs2_c1(x0: int, x1: int) -> int {
    madd(
        f2mul_c1(f2mul_c0(x0, x1, x0, x1), f2mul_c1(x0, x1, x0, x1), x0, x1),
        crate::curve::b2_c1(),
    )
}

/// Encode a second-group point to its 64-byte compressed form.
pub fn encode_g2(p: &G2Point) -> (r: Vec<u8>)
    requires
        g2_wf(*p),
    ensures
        r@ == g2_bytes(*p),
{
    proof {
        reveal(g2_bytes);
    }
    let (xb0, xb1) = if p.infinity {
        let z = U256 { l0: 0, l1: 0, l2: 0, l3: 0 };
        (u256_to_le_bytes(&z), u256_to_le_bytes(&z))
    } else {
        (u256_to_le_bytes(&p.x.c0.rep), u256_to_le_bytes(&p.x.c1.rep))
    };
    let flag: u8 = if p.infinity {
        0x40
    } else if fq2_is_neg(&p.y) {
        0x80
    } else {
        0
    };
    proof {
        if p.infinity {
            lemma_z256_bytes();
        } else {
            lemma_top_byte(p.x.c1.rep);
        }
    }
    let mut v: Vec<u8> = Vec::new();
    let mut i: usize = 0;
    while i < 32
        invariant
            0 <= i <= 32,
            xb0@ == g2_x0_bytes(*p),
            xb0@.len() == 32,
            v@ == xb0@.subrange(0, i as int),
        decreases 32 - i,
    {
        v.push(xb0[i]);
        proof {
            assert(v@ =~= xb0@.subrange(0, i as int + 1));
        }
        i = i + 1;
    }
    let mut j: usize = 0;
    while j < 31
        invariant
            0 <= j <= 31,
            xb0@ == g2_x0_bytes(*p),
            xb1@ == g2_x1_bytes(*p),
            xb1@.len() == 32,
            v@ == g2_x0_bytes(*p) + xb1@.subrange(0, j as int),
        decreases 31 - j,
    {
        v.push(xb1[j]);
        proof {
            assert(v@ =~= g2_x0_bytes(*p) + xb1@.subrange(0, j as int + 1));
        }
        j = j + 1;
    }
    let last = xb1[31];
    v.push(last + flag);
    proof {
        assert(v@ =~= g2_bytes(*p));
    }
    v
}

/// The last byte of a second-group encoding.
pub open spec fn g2_flag_byte(p: G2Point) -> u8 {
    (g2_x1_bytes(p)[31] + g2_flag(p)) as u8
}

/// A finite second-group point whose encoding matches the buffer has the
/// masked coordinate bytes and the sign the flag says.
proof fn lemma_g2_decode_unique_x(p: G2Point, b: Seq<u8>, x0: U256, x1: U256, hi: u8, f: u8)
    requires
        g2_wf(p),
        g2_bytes(p) == b,
        b.len() == 64,
        hi == b[63],
        f == hi / 0x40,
        f == 0 || f == 2,
        u256_le_bytes(x0) == b.subrange(0, 32),
        u256_le_bytes(x1) == b.subrange(32, 63).push(hi % 0x40),
    ensures
        !p.infinity,
        p.x.c0.rep == x0,
        p.x.c1.rep == x1,
        fq2_is_neg_spec(p.y) == (f == 2),
{
    reveal(g2_bytes);
    if p.infinity {
        assert(g2_bytes(p)[63] == g2_flag_byte(p));
        lemma_z256_bytes();
        assert(hi == 0x40);
        assert(false);
    }
    lemma_top_byte(p.x.c1.rep);
    assert(g2_bytes(p)[63] == g2_flag_byte(p));
    lemma_flag_byte_split(hi, f);
    assert forall|k: int| 0 <= k < 32 implies u256_le_bytes(p.x.c0.rep)[k] == u256_le_bytes(x0)[k]
        by {
        assert(g2_bytes(p)[k] == u256_le_bytes(p.x.c0.rep)[k]);
        assert(u256_le_bytes(x0)[k] == b[k]);
    }
    assert(u256_le_bytes(p.x.c0.rep) =~= u256_le_bytes(x0));
    lemma_u256_le_bytes_injective(p.x.c0.rep, x0);
    assert forall|k: int| 0 <= k < 32 implies u256_le_bytes(p.x.c1.rep)[k] == u256_le_bytes(x1)[k]
        by {
        if k < 31 {
            assert(g2_bytes(p)[32 + k] == u256_le_bytes(p.x.c1.rep)[k]);
            assert(u256_le_bytes(x1)[k] == b[32 + k]);
        } else {
            assert(u256_le_bytes(x1)[31] == hi % 0x40);
        }
    }
    assert(u256_le_bytes(p.x.c1.rep) =~= u256_le_bytes(x1));
    lemma_u256_le_bytes_injective(p.x.c1.rep, x1);
}

/// An encoding whose last byte is `0x40` comes only from the second-group
/// point at infinity.
proof fn lemma_g2_decode_unique_infinity(p: G2Point, b: Seq<u8>)
    requires
        g2_wf(p),
        g2_bytes(p) == b,
        b.len() == 64,
        b[63] / 0x40 == 1,
    ensures
        p.infinity,
        forall|k: int| 0 <= k < 63 ==> b[k] == 0,
        b[63] == 0x40,
        p.x.c0 == (Fq { rep: z256() }),
        p.x.c1 == (Fq { rep: z256() }),
        p.y.c0 == (Fq { rep: z256() }),
        p.y.c1 == (Fq { rep: z256() }),
{
    reveal(g2_bytes);
    if !p.infinity {
        lemma_top_byte(p.x.c1.rep);
        assert(g2_bytes(p)[63] == g2_flag_byte(p));
        assert(false);
    }
    lemma_z256_bytes();
    lemma_u256_val_injective(p.x.c0.rep, z256());
    lemma_u256_val_injective(p.x.c1.rep, z256());
    lemma_u256_val_injective(p.y.c0.rep, z256());
    lemma_u256_val_injective(p.y.c1.rep, z256());
    assert forall|k: int| 0 <= k < 63 implies b[k] == 0 by {
        if k < 32 {
            assert(g2_bytes(p)[k] == u256_le_bytes(z256())[k]);
        } else {
            assert(g2_bytes(p)[k] == u256_le_bytes(z256())[k - 32]);
        }
    }
}

/// Decode a 64-byte compressed second-group point.
///
/// Succeeds exactly on the canonical encodings of well-formed points, and
/// then returns the one point so encoded.
pub fn decode_g2(b: &Vec<u8>) -> (r: Result<G2Point, CodecError>)
    ensures
        r matches Ok(p) ==> g2_wf(p) && g2_bytes(p) == b@,
        forall|p: G2Point| g2_wf(p) && g2_bytes(p) == b@ ==> r == Ok::<G2Point, CodecError>(p),
        r matches Err(e) ==> e == g2_err_of(b@),
{
    proof {
        reveal(g2_bytes);
    }
    if b.len() != 64 {
        return Err(CodecError::MalformedEncoding);
    }
    let hi = b[63];
    let f = hi / 0x40;
    proof {
        assert forall|p: G2Point| g2_wf(p) implies g2_bytes(p)[63] == g2_flag_byte(p) by {
            if p.infinity {
                lemma_z256_bytes();
            } else {
                lemma_top_byte(p.x.c1.rep);
            }
        }
    }
    if f == 3 {
        proof {
            assert forall|p: G2Point| g2_wf(p) implies g2_bytes(p) != b@ by {
                if g2_bytes(p) == b@ {
                    if p.infinity {
                        lemma_z256_bytes();
                    } else {
                        lemma_top_byte(p.x.c1.rep);
                    }
                }
            }
        }
        return Err(CodecError::InvalidCompressionFlag);
    }
    if f == 1 {
        let mut ok = hi == 0x40;
        let mut i: usize = 0;
        while i < 63
            invariant
                0 <= i <= 63,
                b@.len() == 64,
                ok == (hi == 0x40 && forall|k: int| 0 <= k < i ==> b@[k] == 0),
            decreases 63 - i,
        {
            if b[i] != 0 {
                ok = false;
            }
            i = i + 1;
        }
        if ok {
            let p = G2Point {
                x: crate::field::fq2_zero(),
                y: crate::field::fq2_zero(),
                infinity: true,
            };
            proof {
                lemma_z256_bytes();
                assert(g2_bytes(p) =~= b@);
                assert forall|p2: G2Point| g2_wf(p2) && g2_bytes(p2) == b@ implies p2 == p by {
                    lemma_g2_decode_unique_infinity(p2, b@);
                }
            }
            return Ok(p);
        } else {
            proof {
                assert forall|p2: G2Point| g2_wf(p2) implies g2_bytes(p2) != b@ by {
                    if g2_bytes(p2) == b@ {
                        lemma_g2_decode_unique_infinity(p2, b@);
                    }
                }
            }
            return Err(CodecError::InvalidCompressionFlag);
        }
    }
    let neg = f == 2;
    let mut xv0: Vec<u8> = Vec::new();
    let mut i: usize = 0;
    while i < 32
        invariant
            0 <= i <= 32,
            b@.len() == 64,
            xv0@ == b@.subrange(0, i as int),
        decreases 32 - i,
    {
        xv0.push(b[i]);
        proof {
            assert(xv0@ =~= b@.subrange(0, i as int + 1));
        }
        i = i + 1;
    }
    let mut xv1: Vec<u8> = Vec::new();
    let mut j: usize = 32;
    while j < 63
        invariant
            32 <= j <= 63,
            b@.len() == 64,
            xv1@ == b@.subrange(32, j as int),
        decreases 63 - j,
    {
        xv1.push(b[j]);
        proof {
            assert(xv1@ =~= b@.subrange(32, j as int + 1));
        }
        j = j + 1;
    }
    xv1.push(hi % 0x40);
    let x0 = u256_from_le_bytes(&xv0);
    let x1 = u256_from_le_bytes(&xv1);
    proof {
        assert(xv0@ =~= g2_masked0_bytes(b@));
        assert(xv1@ =~= g2_masked1_bytes(b@));
        assert forall|x2: U256| u256_le_bytes(x2) == g2_masked0_bytes(b@) implies x2 == x0 by {
            lemma_u256_le_bytes_injective(x2, x0);
        }
        assert forall|x2: U256| u256_le_bytes(x2) == g2_masked1_bytes(b@) implies x2 == x1 by {
            lemma_u256_le_bytes_injective(x2, x1);
        }
        lemma_flag_byte_split(hi, f);
        assert(xv1@ =~= b@.subrange(32, 63).push(hi % 0x40));
        assert forall|p2: G2Point| g2_wf(p2) && g2_bytes(p2) == b@ implies !p2.infinity
            && p2.x.c0.rep == x0 && p2.x.c1.rep == x1 && fq2_is_neg_spec(p2.y) == neg by {
            lemma_g2_decode_unique_x(p2, b@, x0, x1, hi, f);
        }
    }
    let q = fq_modulus();
    if !u256_lt(&x0, &q) || !u256_lt(&x1, &q) {
        return Err(CodecError::MalformedEncoding);
    }
    let fx = Fq2 { c0: Fq { rep: x0 }, c1: Fq { rep: x1 } };
    let rhs = g2_rhs(&fx);
    let root = match fq2_sqrt(&rhs) {
        None => {
            return Err(CodecError::PointAtInfinityOrInvalid);
        },
        Some(s) => s,
    };
    let y = if fq2_is_neg(&root) == neg {
        root
    } else {
        proof {
            lemma_fq2_neg_root(fq_val(root.c0), fq_val(root.c1));
            lemma_neg_root(fq_val(root.c0));
            lemma_neg_root(fq_val(root.c1));
        }
        fq2_neg(&root)
    };
    if fq2_is_neg(&y) != neg {
        proof {
            lemma_fq2_neg_root(fq_val(root.c0), fq_val(root.c1));
            lemma_neg_root(fq_val(root.c0));
            lemma_neg_root(fq_val(root.c1));
            assert forall|p2: G2Point| g2_wf(p2) implies g2_bytes(p2) != b@ by {
                if g2_bytes(p2) == b@ {
                    lemma_neg_root(fq_val(p2.y.c0));
                    lemma_neg_root(fq_val(p2.y.c1));
                }
            }
        }
        return Err(CodecError::InvalidCompressionFlag);
    }
    let p = G2Point { x: fx, y, infinity: false };
    proof {
        lemma_fq2_neg_root(fq_val(root.c0), fq_val(root.c1));
        lemma_neg_root(fq_val(root.c0));
        lemma_neg_root(fq_val(root.c1));
        assert(g2_wf(p));
        assert(g2_bytes(p) =~= b@);
        assert forall|p2: G2Point| g2_wf(p2) && g2_bytes(p2) == b@ implies p2 == p by {
            lemma_neg_root(fq_val(p2.y.c0));
            lemma_neg_root(fq_val(p2.y.c1));
            lemma_u256_val_injective(p2.y.c0.rep, p.y.c0.rep);
            lemma_u256_val_injective(p2.y.c1.rep, p.y.c1.rep);
        }
    }
    Ok(p)
}

use crate::vk::{Proof, VerifyingKey, proof_wf, vk_matches, vk_wf};

/// Append a copy of a byte vector.
fn push_all(dst: &mut Vec<u8>, src: &Vec<u8>)
    ensures
        final(dst)@ == old(dst)@ + src@,
{
    let mut i: usize = 0;
    while i < src.len()
        invariant
            0 <= i <= src@.len(),
            dst@ == old(dst)@ + src@.subrange(0, i as int),
        decreases src@.len() - i,
    {
        dst.push(src[i]);
        proof {
            assert(dst@ =~= old(dst)@ + src@.subrange(0, i as int + 1));
        }
        i = i + 1;
    }
    proof {
        assert(dst@ =~= old(dst)@ + src@);
    }
}

/// Copy a slice of a byte vector.
fn copy_seg(b: &Vec<u8>, off: usize, len: usize) -> (r: Vec<u8>)
    requires
        off + len <= b@.len(),
    ensures
        r@ == b@.subrange(off as int, off as int + len as int),
{
    let bn = b.len();
    let mut v: Vec<u8> = Vec::new();
    let mut i: usize = 0;
    while i < len
        invariant
            0 <= i <= len,
            off + len <= b@.len(),
            bn == b@.len(),
            v@ == b@.subrange(off as int, off as int + i as int),
        decreases len - i,
    {
        v.push(b[off + i]);
        proof {
            assert(v@ =~= b@.subrange(off as int, off as int + i as int + 1));
        }
        i = i + 1;
    }
    v
}

/// The 32-byte form of a scalar-field element.
pub open spec fn scalar_bytes(f: Fr) -> Seq<u8> {
    u256_le_bytes(f.rep)
}

/// Encode a scalar-field element.
pub fn encode_scalar(f: &Fr) -> (r: Vec<u8>)
    requires
        fr_wf(*f),
    ensures
        r@ == scalar_bytes(*f),
{
    u256_to_le_bytes(&f.rep)
}

/// Decode a scalar-field element; succeeds exactly on 32-byte encodings of
/// reduced values.
pub fn decode_scalar(b: &Vec<u8>) -> (r: Result<Fr, CodecError>)
    ensures
        r matches Ok(f) ==> fr_wf(f) && scalar_bytes(f) == b@,
        forall|f: Fr| fr_wf(f) && scalar_bytes(f) == b@ ==> r == Ok::<Fr, CodecError>(f),
        r matches Err(e) ==> e == CodecError::MalformedEncoding,
{
    if b.len() != 32 {
        return Err(CodecError::MalformedEncoding);
    }
    let x = u256_from_le_bytes(b);
    let m = fr_modulus();
    if u256_lt(&x, &m) {
        let f = Fr { rep: x };
        proof {
            assert forall|f2: Fr| fr_wf(f2) && scalar_bytes(f2) == b@ implies f2 == f by {
                lemma_u256_le_bytes_injective(f2.rep, x);
            }
        }
        Ok(f)
    } else {
        proof {
            assert forall|f2: Fr| fr_wf(f2) implies scalar_bytes(f2) != b@ by {
                if scalar_bytes(f2) == b@ {
                    lemma_u256_le_bytes_injective(f2.rep, x);
                }
            }
        }
        Err(CodecError::MalformedEncoding)
    }
}

/// The 32-byte form of a base-field element.
pub open spec fn base_field_bytes(f: Fq) -> Seq<u8> {
    u256_le_bytes(f.rep)
}

/// Encode a base-field element.
pub fn encode_base_field(f: &Fq) -> (r: Vec<u8>)
    requires
        fq_wf(*f),
    ensures
        r@ == base_field_bytes(*f),
{
    u256_to_le_bytes(&f.rep)
}

/// Decode a base-field element; succeeds exactly on 32-byte encodings of
/// reduced values.
pub fn decode_base_field(b: &Vec<u8>) -> (r: Result<Fq, CodecError>)
    ensures
        r matches Ok(f) ==> fq_wf(f) && base_field_bytes(f) == b@,
        forall|f: Fq| fq_wf(f) && base_field_bytes(f) == b@ ==> r == Ok::<Fq, CodecError>(f),
        r matches Err(e) ==> e == CodecError::MalformedEncoding,
{
    if b.len() != 32 {
        return Err(CodecError::MalformedEncoding);
    }
    let x = u256_from_le_bytes(b);
    let q = fq_modulus();
    if u256_lt(&x, &q) {
        let f = Fq { rep: x };
        proof {
            assert forall|f2: Fq| fq_wf(f2) && base_field_bytes(f2) == b@ implies f2 == f by {
                lemma_u256_le_bytes_injective(f2.rep, x);
            }
        }
        Ok(f)
    } else {
        proof {
            assert forall|f2: Fq| fq_wf(f2) implies base_field_bytes(f2) != b@ by {
                if base_field_bytes(f2) == b@ {
                    lemma_u256_le_bytes_injective(f2.rep, x);
                }
            }
        }
        Err(CodecError::MalformedEncoding)
    }
}

/// The 128-byte form of a proof: `a`, then `b`, then `c`.
pub open spec fn proof_bytes(p: Proof) -> Seq<u8> {
    g1_bytes(p.a) + g2_bytes(p.b) + g1_bytes(p.c)
}

/// Encode a proof.
pub fn encode_proof(p: &Proof) -> (r: Vec<u8>)
    requires
        proof_wf(*p),
    ensures
        r@ == proof_bytes(*p),
{
    proof {
        reveal(g1_bytes);
        reveal(g2_bytes);
    }
    let mut v = encode_g1(&p.a);
    let vb = encode_g2(&p.b);
    let vc = encode_g1(&p.c);
    push_all(&mut v, &vb);
    push_all(&mut v, &vc);
    proof {
        assert(v@ =~= proof_bytes(*p));
    }
    v
}

/// Which error a malformed proof encoding reports: the first failing
/// segment's, in `a`, `b`, `c` order.
pub open spec fn proof_err_of(b: Seq<u8>) -> CodecError {
    if b.len() != 128 {
        CodecError::MalformedEncoding
    } else if !g1_valid(b.subrange(0, 32)) {
        g1_err_of(b.subrange(0, 32))
    } else if !g2_valid(b.subrange(32, 96)) {
        g2_err_of(b.subrange(32, 96))
    } else {
        g1_err_of(b.subrange(96, 128))
    }
}

/// Decode a 128-byte proof.
///
/// Succeeds exactly on the canonical encodings of well-formed proofs, and
/// then returns the one proof so encoded.
pub fn decode_proof(b: &Vec<u8>) -> (r: Result<Proof, CodecError>)
    ensures
        r matches Ok(p) ==> proof_wf(p) && proof_bytes(p) == b@,
        forall|p: Proof| proof_wf(p) && proof_bytes(p) == b@ ==> r == Ok::<Proof, CodecError>(p),
        r matches Err(e) ==> e == proof_err_of(b@),
{
    proof {
        reveal(g1_bytes);
        reveal(g2_bytes);
    }
    if b.len() != 128 {
        proof {
            assert forall|p: Proof| proof_wf(p) implies proof_bytes(p) != b@ by {
                assert(proof_bytes(p).len() == 128);
            }
        }
        return Err(CodecError::MalformedEncoding);
    }
    let sa = copy_seg(b, 0, 32);
    let sb = copy_seg(b, 32, 64);
    let sc = copy_seg(b, 96, 32);
    proof {
        assert forall|p: Proof| proof_wf(p) && proof_bytes(p) == b@ implies g1_bytes(p.a) == sa@
            && g2_bytes(p.b) == sb@ && g1_bytes(p.c) == sc@ by {
            assert(g1_bytes(p.a) =~= b@.subrange(0, 32));
            assert(g2_bytes(p.b) =~= b@.subrange(32, 96));
            assert(g1_bytes(p.c) =~= b@.subrange(96, 128));
        }
    }
    let a = match decode_g1(&sa) {
        Ok(p) => p,
        Err(e) => {
            return Err(e);
        },
    };
    let bb = match decode_g2(&sb) {
        Ok(p) => p,
        Err(e) => {
            return Err(e);
        },
    };
    let c = match decode_g1(&sc) {
        Ok(p) => p,
        Err(e) => {
            return Err(e);
        },
    };
    let p = Proof { a, b: bb, c };
    proof {
        assert(proof_bytes(p) =~= b@);
    }
    Ok(p)
}

/// The concatenated encodings of a point sequence.
pub open spec fn ic_bytes(s: Seq<G1Point>) -> Seq<u8>
    decreases s.len(),
{
    if s.len() == 0 {
        Seq::empty()
    } else {
        ic_bytes(s.drop_last()) + g1_bytes(s.last())
    }
}

/// Length and per-item slices of a point sequence's encoding.
proof fn lemma_ic_bytes_split(s: Seq<G1Point>, k: int)
    requires
        0 <= k < s.len(),
    ensures
        ic_bytes(s).len() == 32 * s.len(),
        ic_bytes(s).subrange(32 * k, 32 * k + 32) == g1_bytes(s[k]),
    decreases s.len(),
{
    reveal(g1_bytes);
    lemma_ic_bytes_len(s);
    if k == s.len() - 1 {
        lemma_ic_bytes_len(s.drop_last());
        assert(ic_bytes(s).subrange(32 * k, 32 * k + 32) =~= g1_bytes(s.last()));
    } else {
        lemma_ic_bytes_split(s.drop_last(), k);
        lemma_ic_bytes_len(s.drop_last());
        assert(s.drop_last()[k] == s[k]);
        assert(ic_bytes(s).subrange(32 * k, 32 * k + 32) =~= ic_bytes(s.drop_last()).subrange(
            32 * k,
            32 * k + 32,
        ));
    }
}

proof fn lemma_ic_bytes_len(s: Seq<G1Point>)
    ensures
        ic_bytes(s).len() == 32 * s.len(),
    decreases s.len(),
{
    reveal(g1_bytes);
    if s.len() > 0 {
        lemma_ic_bytes_len(s.drop_last());
    }
}

/// The canonical byte form of a verifying key: the four fixed points, the
/// length of `gamma_abc_g1` as eight little-endian bytes, then its points.
#[verifier::opaque]
pub open spec fn vk_bytes(v: VerifyingKey) -> Seq<u8> {
    g1_bytes(v.alpha_g1) + g2_bytes(v.beta_g2) + g2_bytes(v.gamma_g2) + g2_bytes(v.delta_g2)
        + crate::fp::u64_le_bytes(v.gamma_abc_g1@.len() as u64) + ic_bytes(v.gamma_abc_g1@)
}

/// Encode a verifying key.
pub fn encode_vk(v: &VerifyingKey) -> (r: Vec<u8>)
    requires
        vk_wf(*v),
    ensures
        r@ == vk_bytes(*v),
{
    proof {
        reveal(g1_bytes);
        reveal(g2_bytes);
    }
    let mut out = encode_g1(&v.alpha_g1);
    let b1 = encode_g2(&v.beta_g2);
    let b2 = encode_g2(&v.gamma_g2);
    let b3 = encode_g2(&v.delta_g2);
    push_all(&mut out, &b1);
    push_all(&mut out, &b2);
    push_all(&mut out, &b3);
    let n = v.gamma_abc_g1.len();
    crate::fp::push_u64_le(&mut out, n as u64);
    let ghost head = out@;
    let mut k: usize = 0;
    while k < n
        invariant
            0 <= k <= n,
            n == v.gamma_abc_g1@.len(),
            vk_wf(*v),
            out@ == head + ic_bytes(v.gamma_abc_g1@.subrange(0, k as int)),
        decreases n - k,
    {
        let pb = encode_g1(&v.gamma_abc_g1[k]);
        push_all(&mut out, &pb);
        proof {
            reveal(g1_bytes);
            let s1 = v.gamma_abc_g1@.subrange(0, k as int + 1);
            assert(s1.drop_last() =~= v.gamma_abc_g1@.subrange(0, k as int));
            assert(out@ =~= head + ic_bytes(s1));
        }
        k = k + 1;
    }
    proof {
        reveal(vk_bytes);
        assert(v.gamma_abc_g1@.subrange(0, n as int) =~= v.gamma_abc_g1@);
        assert(out@ =~= vk_bytes(*v));
    }
    out
}

/// What a well-formed key's encoding looks like, segment by segment.
proof fn lemma_vk_seg_extract(v2: VerifyingKey, b: Seq<u8>)
    requires
        vk_wf(v2),
        vk_bytes(v2) == b,
    ensures
        b.len() == 232 + 32 * v2.gamma_abc_g1@.len(),
        g1_bytes(v2.alpha_g1) == b.subrange(0, 32),
        g2_bytes(v2.beta_g2) == b.subrange(32, 96),
        g2_bytes(v2.gamma_g2) == b.subrange(96, 160),
        g2_bytes(v2.delta_g2) == b.subrange(160, 224),
        crate::fp::u64_le_bytes(v2.gamma_abc_g1@.len() as u64) == b.subrange(224, 232),
        forall|j: int|
            0 <= j < v2.gamma_abc_g1@.len() ==> g1_bytes(#[trigger] v2.gamma_abc_g1@[j])
                == b.subrange(232 + 32 * j, 232 + 32 * j + 32),
{
    reveal(g1_bytes);
    reveal(g2_bytes);
    reveal(vk_bytes);
    lemma_ic_bytes_len(v2.gamma_abc_g1@);
    assert(g1_bytes(v2.alpha_g1) =~= b.subrange(0, 32));
    assert(g2_bytes(v2.beta_g2) =~= b.subrange(32, 96));
    assert(g2_bytes(v2.gamma_g2) =~= b.subrange(96, 160));
    assert(g2_bytes(v2.delta_g2) =~= b.subrange(160, 224));
    assert(crate::fp::u64_le_bytes(v2.gamma_abc_g1@.len() as u64) =~= b.subrange(224, 232));
    assert forall|j: int| 0 <= j < v2.gamma_abc_g1@.len() implies g1_bytes(
        #[trigger] v2.gamma_abc_g1@[j],
    ) == b.subrange(232 + 32 * j, 232 + 32 * j + 32) by {
        lemma_ic_bytes_split(v2.gamma_abc_g1@, j);
        assert(ic_bytes(v2.gamma_abc_g1@) =~= b.subrange(232, b.len() as int));
        assert(g1_bytes(v2.gamma_abc_g1@[j]) =~= b.subrange(232 + 32 * j, 232 + 32 * j + 32));
    }
}

/// The error of the first invalid trailing point segment at or after `j`.
pub open spec fn vk_ic_err(b: Seq<u8>, j: int) -> CodecError
    decreases (b.len() - 232) / 32 - j,
{
    if j < 0 || j >= (b.len() - 232) / 32 {
        CodecError::MalformedEncoding
    } else if !g1_valid(b.subrange(232 + 32 * j, 232 + 32 * j + 32)) {
        g1_err_of(b.subrange(232 + 32 * j, 232 + 32 * j + 32))
    } else {
        vk_ic_err(b, j + 1)
    }
}

/// Which error a malformed verifying-key encoding reports: framing, then
/// each head point, then the count field, then the trailing points, in the
/// order they are read.
pub open spec fn vk_err_of(b: Seq<u8>) -> CodecError {
    if b.len() < 264 || (b.len() - 232) % 32 != 0 {
        CodecError::MalformedEncoding
    } else if !g1_valid(b.subrange(0, 32)) {
        g1_err_of(b.subrange(0, 32))
    } else if !g2_valid(b.subrange(32, 96)) {
        g2_err_of(b.subrange(32, 96))
    } else if !g2_valid(b.subrange(96, 160)) {
        g2_err_of(b.subrange(96, 160))
    } else if !g2_valid(b.subrange(160, 224)) {
        g2_err_of(b.subrange(160, 224))
    } else if exists|c: u64|
        crate::fp::u64_le_bytes(c) == b.subrange(224, 232) && c != (b.len() - 232) / 32 {
        CodecError::MalformedEncoding
    } else {
        vk_ic_err(b, 0)
    }
}

/// Skipping valid leading segments does not change the reported error.
proof fn lemma_vk_ic_err_skip(b: Seq<u8>, j: int, k: int)
    requires
        0 <= j <= k < (b.len() - 232) / 32,
        forall|i: int| j <= i < k ==> g1_valid(#[trigger] b.subrange(232 + 32 * i, 232 + 32 * i + 32)),
        !g1_valid(b.subrange(232 + 32 * k, 232 + 32 * k + 32)),
    ensures
        vk_ic_err(b, j) == g1_err_of(b.subrange(232 + 32 * k, 232 + 32 * k + 32)),
    decreases k - j,
{
    if j < k {
        lemma_vk_ic_err_skip(b, j + 1, k);
    }
}

/// Decode the `gamma_abc_g1` items that follow the fixed head.
#[verifier::rlimit(100)]
fn decode_ic(b: &Vec<u8>, n: usize) -> (r: Result<Vec<G1Point>, CodecError>)
    requires
        b@.len() == 232 + 32 * n,
    ensures
        r matches Ok(v) ==> v@.len() == n && (forall|j: int|
            0 <= j < n ==> g1_wf(#[trigger] v@[j])) && ic_bytes(v@) == b@.subrange(
            232,
            b@.len() as int,
        ) && (forall|j: int, p2: G1Point|
            0 <= j < n && g1_wf(p2) && g1_bytes(p2) == b@.subrange(
                232 + 32 * j,
                232 + 32 * j + 32,
            ) ==> p2 == v@[j]),
        r matches Err(e) ==> e == vk_ic_err(b@, 0) && (
        exists|j: int|
            #![trigger b@.subrange(232 + 32 * j, 232 + 32 * j + 32)]
            0 <= j < n && (forall|p: G1Point|
                !(g1_wf(p) && #[trigger] g1_bytes(p) == b@.subrange(
                    232 + 32 * j,
                    232 + 32 * j + 32,
                )))),
{
    proof {
        reveal(g1_bytes);
    }
    let bn = b.len();
    let mut ic: Vec<G1Point> = Vec::new();
    let mut k: usize = 0;
    while k < n
        invariant
            0 <= k <= n,
            bn == b@.len(),
            b@.len() == 232 + 32 * n,
            ic@.len() == k,
            forall|j: int| 0 <= j < k ==> g1_wf(#[trigger] ic@[j]),
            forall|j: int|
                0 <= j < k ==> g1_bytes(#[trigger] ic@[j]) == b@.subrange(
                    232 + 32 * j,
                    232 + 32 * j + 32,
                ),
            ic_bytes(ic@) == b@.subrange(232, 232 + 32 * k as int),
            forall|j: int, p2: G1Point|
                0 <= j < k && g1_wf(p2) && g1_bytes(p2) == b@.subrange(
                    232 + 32 * j,
                    232 + 32 * j + 32,
                ) ==> p2 == ic@[j],
        decreases n - k,
    {
        let sp = copy_seg(b, 232 + 32 * k, 32);
        let p = match decode_g1(&sp) {
            Ok(p) => p,
            Err(e) => {
                proof {
                    assert(forall|p: G1Point|
                        !(g1_wf(p) && #[trigger] g1_bytes(p) == b@.subrange(
                            232 + 32 * k as int,
                            232 + 32 * k as int + 32,
                        )));
                    lemma_fundamental_div_mod_converse(32 * n as int, 32, n as int, 0);
                    assert forall|i: int| 0 <= i < k implies g1_valid(
                        #[trigger] b@.subrange(232 + 32 * i, 232 + 32 * i + 32),
                    ) by {
                        assert(g1_wf(ic@[i]) && g1_bytes(ic@[i]) == b@.subrange(
                            232 + 32 * i,
                            232 + 32 * i + 32,
                        ));
                    }
                    lemma_vk_ic_err_skip(b@, 0, k as int);
                }
                return Err(e);
            },
        };
        let ghost old_ic = ic@;
        ic.push(p);
        proof {
            reveal(g1_bytes);
            assert(ic@.drop_last() =~= old_ic);
            assert(ic_bytes(ic@) =~= b@.subrange(232, 232 + 32 * (k as int + 1)));
        }
        k = k + 1;
    }
    Ok(ic)
}

/// A key whose segments match a buffer encodes to that buffer.
proof fn lemma_vk_sound(v: VerifyingKey, b: Seq<u8>)
    requires
        b.len() == 232 + 32 * v.gamma_abc_g1@.len(),
        g1_bytes(v.alpha_g1) == b.subrange(0, 32),
        g2_bytes(v.beta_g2) == b.subrange(32, 96),
        g2_bytes(v.gamma_g2) == b.subrange(96, 160),
        g2_bytes(v.delta_g2) == b.subrange(160, 224),
        crate::fp::u64_le_bytes(v.gamma_abc_g1@.len() as u64) == b.subrange(224, 232),
        ic_bytes(v.gamma_abc_g1@) == b.subrange(232, b.len() as int),
    ensures
        vk_bytes(v) == b,
{
    reveal(g1_bytes);
    reveal(g2_bytes);
    reveal(vk_bytes);
    lemma_ic_bytes_len(v.gamma_abc_g1@);
    assert(vk_bytes(v) =~= b);
}

/// Decode the four fixed points at the head of a verifying key encoding.
#[verifier::rlimit(100)]
fn decode_vk_head(sa: &Vec<u8>, sb: &Vec<u8>, sg: &Vec<u8>, sd: &Vec<u8>) -> (r: Result<
    (G1Point, G2Point, G2Point, G2Point),
    CodecError,
>)
    ensures
        r matches Ok(t) ==> g1_wf(t.0) && g1_bytes(t.0) == sa@ && g2_wf(t.1) && g2_bytes(t.1)
            == sb@ && g2_wf(t.2) && g2_bytes(t.2) == sg@ && g2_wf(t.3) && g2_bytes(t.3) == sd@,
        r matches Ok(t) ==> (forall|p: G1Point| g1_wf(p) && g1_bytes(p) == sa@ ==> p == t.0) && (
        forall|p: G2Point| g2_wf(p) && g2_bytes(p) == sb@ ==> p == t.1) && (forall|p: G2Point|
            g2_wf(p) && g2_bytes(p) == sg@ ==> p == t.2) && (forall|p: G2Point|
            g2_wf(p) && g2_bytes(p) == sd@ ==> p == t.3),
        r matches Err(e) ==> ((forall|p: G1Point| !(g1_wf(p) && g1_bytes(p) == sa@)) || (forall|
        p: G2Point|
            !(g2_wf(p) && g2_bytes(p) == sb@)) || (forall|p: G2Point|
            !(g2_wf(p) && g2_bytes(p) == sg@)) || (forall|p: G2Point|
            !(g2_wf(p) && g2_bytes(p) == sd@))) && e == (if !g1_valid(sa@) {
            g1_err_of(sa@)
        } else if !g2_valid(sb@) {
            g2_err_of(sb@)
        } else if !g2_valid(sg@) {
            g2_err_of(sg@)
        } else {
            g2_err_of(sd@)
        }),
{
    let alpha = match decode_g1(sa) {
        Ok(p) => p,
        Err(e) => {
            return Err(e);
        },
    };
    let beta = match decode_g2(sb) {
        Ok(p) => p,
        Err(e) => {
            return Err(e);
        },
    };
    let gamma = match decode_g2(sg) {
        Ok(p) => p,
        Err(e) => {
            return Err(e);
        },
    };
    let delta = match decode_g2(sd) {
        Ok(p) => p,
        Err(e) => {
            return Err(e);
        },
    };
    Ok((alpha, beta, gamma, delta))
}

/// A decoded key whose components are the unique points of each segment is
/// matched by every well-formed key that encodes to the buffer.
#[verifier::rlimit(100)]
proof fn lemma_vk_unique(v: VerifyingKey, b: Seq<u8>)
    requires
        b.len() == 232 + 32 * v.gamma_abc_g1@.len(),
        v.gamma_abc_g1@.len() >= 1,
        forall|p: G1Point| g1_wf(p) && g1_bytes(p) == b.subrange(0, 32) ==> p == v.alpha_g1,
        forall|p: G2Point| g2_wf(p) && g2_bytes(p) == b.subrange(32, 96) ==> p == v.beta_g2,
        forall|p: G2Point| g2_wf(p) && g2_bytes(p) == b.subrange(96, 160) ==> p == v.gamma_g2,
        forall|p: G2Point| g2_wf(p) && g2_bytes(p) == b.subrange(160, 224) ==> p == v.delta_g2,
        forall|j: int, p2: G1Point|
            0 <= j < v.gamma_abc_g1@.len() && g1_wf(p2) && g1_bytes(p2) == b.subrange(
                232 + 32 * j,
                232 + 32 * j + 32,
            ) ==> p2 == v.gamma_abc_g1@[j],
    ensures
        forall|v2: VerifyingKey| vk_wf(v2) && vk_bytes(v2) == b ==> vk_matches(v, v2),
{
    assert forall|v2: VerifyingKey| vk_wf(v2) && vk_bytes(v2) == b implies vk_matches(v, v2) by {
        lemma_vk_seg_extract(v2, b);
        assert forall|j: int|
            0 <= j < v.gamma_abc_g1@.len() implies v2.gamma_abc_g1@[j] == v.gamma_abc_g1@[j] by {
            assert(g1_bytes(v2.gamma_abc_g1@[j]) == b.subrange(232 + 32 * j, 232 + 32 * j + 32));
            assert(g1_wf(v2.gamma_abc_g1@[j]));
        }
        assert(v2.gamma_abc_g1@ =~= v.gamma_abc_g1@);
    }
}

/// No well-formed key encodes to a buffer whose length does not fit the
/// frame: four points, eight count bytes, and a positive multiple of 32.
proof fn lemma_vk_none_bad_len(b: Seq<u8>)
    requires
        b.len() < 264 || (b.len() - 232) % 32 != 0,
    ensures
        forall|v2: VerifyingKey| !(vk_wf(v2) && vk_bytes(v2) == b),
{
    assert forall|v2: VerifyingKey| !(vk_wf(v2) && vk_bytes(v2) == b) by {
        if vk_wf(v2) && vk_bytes(v2) == b {
            lemma_vk_seg_extract(v2, b);
            lemma_mod_multiples_vanish(v2.gamma_abc_g1@.len() as int, 0, 32);
            lemma_small_mod(0, 32);
        }
    }
}

/// No well-formed key encodes to a buffer one of whose head segments holds
/// no valid point.
proof fn lemma_vk_none_head(b: Seq<u8>, sa: Seq<u8>, sb: Seq<u8>, sg: Seq<u8>, sd: Seq<u8>)
    requires
        sa == b.subrange(0, 32),
        sb == b.subrange(32, 96),
        sg == b.subrange(96, 160),
        sd == b.subrange(160, 224),
        (forall|p: G1Point| !(g1_wf(p) && g1_bytes(p) == sa)) || (forall|p: G2Point|
            !(g2_wf(p) && g2_bytes(p) == sb)) || (forall|p: G2Point|
            !(g2_wf(p) && g2_bytes(p) == sg)) || (forall|p: G2Point|
            !(g2_wf(p) && g2_bytes(p) == sd)),
    ensures
        forall|v2: VerifyingKey| !(vk_wf(v2) && vk_bytes(v2) == b),
{
    assert forall|v2: VerifyingKey| !(vk_wf(v2) && vk_bytes(v2) == b) by {
        if vk_wf(v2) && vk_bytes(v2) == b {
            lemma_vk_seg_extract(v2, b);
            assert(g1_bytes(v2.alpha_g1) == sa);
            assert(g2_bytes(v2.beta_g2) == sb);
            assert(g2_bytes(v2.gamma_g2) == sg);
            assert(g2_bytes(v2.delta_g2) == sd);
        }
    }
}

/// No well-formed key encodes to a buffer whose count field disagrees with
/// the number of trailing point segments.
proof fn lemma_vk_none_cnt(b: Seq<u8>, cnt: u64, n: int)
    requires
        0 <= n,
        b.len() == 232 + 32 * n,
        crate::fp::u64_le_bytes(cnt) == b.subrange(224, 232),
        cnt != n,
    ensures
        forall|v2: VerifyingKey| !(vk_wf(v2) && vk_bytes(v2) == b),
{
    assert forall|v2: VerifyingKey| !(vk_wf(v2) && vk_bytes(v2) == b) by {
        if vk_wf(v2) && vk_bytes(v2) == b {
            lemma_vk_seg_extract(v2, b);
            assert(v2.gamma_abc_g1@.len() == n);
            crate::fp::lemma_u64_le_bytes_injective(v2.gamma_abc_g1@.len() as u64, cnt);
        }
    }
}

/// No well-formed key encodes to a buffer one of whose trailing segments
/// holds no valid point.
proof fn lemma_vk_none_ic(b: Seq<u8>, n: int)
    requires
        0 <= n,
        b.len() == 232 + 32 * n,
        exists|j: int|
            #![trigger b.subrange(232 + 32 * j, 232 + 32 * j + 32)]
            0 <= j < n && (forall|p: G1Point|
                !(g1_wf(p) && #[trigger] g1_bytes(p) == b.subrange(
                    232 + 32 * j,
                    232 + 32 * j + 32,
                ))),
    ensures
        forall|v2: VerifyingKey| !(vk_wf(v2) && vk_bytes(v2) == b),
{
    let j = choose|j: int|
        #![trigger b.subrange(232 + 32 * j, 232 + 32 * j + 32)]
        0 <= j < n && (forall|p: G1Point|
            !(g1_wf(p) && #[trigger] g1_bytes(p) == b.subrange(232 + 32 * j, 232 + 32 * j + 32)));
    assert forall|v2: VerifyingKey| !(vk_wf(v2) && vk_bytes(v2) == b) by {
        if vk_wf(v2) && vk_bytes(v2) == b {
            lemma_vk_seg_extract(v2, b);
            assert(v2.gamma_abc_g1@.len() == n);
            assert(g1_bytes(v2.gamma_abc_g1@[j]) == b.subrange(232 + 32 * j, 232 + 32 * j + 32));
            assert(g1_wf(v2.gamma_abc_g1@[j]));
            assert(false);
        }
    }
}

/// Assemble the verified facts about each decoded segment into the whole
/// key's contract: its bytes are the buffer, and any well-formed key that
/// encodes to the buffer matches it.
proof fn lemma_vk_finish(v: VerifyingKey, b: Seq<u8>, n: int)
    requires
        v.gamma_abc_g1@.len() == n,
        1 <= n <= 0xffffffffffffffff,
        b.len() == 232 + 32 * n,
        g1_wf(v.alpha_g1),
        g2_wf(v.beta_g2),
        g2_wf(v.gamma_g2),
        g2_wf(v.delta_g2),
        forall|k: int| 0 <= k < n ==> g1_wf(#[trigger] v.gamma_abc_g1@[k]),
        g1_bytes(v.alpha_g1) == b.subrange(0, 32),
        g2_bytes(v.beta_g2) == b.subrange(32, 96),
        g2_bytes(v.gamma_g2) == b.subrange(96, 160),
        g2_bytes(v.delta_g2) == b.subrange(160, 224),
        crate::fp::u64_le_bytes(n as u64) == b.subrange(224, 232),
        ic_bytes(v.gamma_abc_g1@) == b.subrange(232, b.len() as int),
        forall|p: G1Point| g1_wf(p) && g1_bytes(p) == b.subrange(0, 32) ==> p == v.alpha_g1,
        forall|p: G2Point| g2_wf(p) && g2_bytes(p) == b.subrange(32, 96) ==> p == v.beta_g2,
        forall|p: G2Point| g2_wf(p) && g2_bytes(p) == b.subrange(96, 160) ==> p == v.gamma_g2,
        forall|p: G2Point| g2_wf(p) && g2_bytes(p) == b.subrange(160, 224) ==> p == v.delta_g2,
        forall|j: int, p2: G1Point|
            0 <= j < n && g1_wf(p2) && g1_bytes(p2) == b.subrange(
                232 + 32 * j,
                232 + 32 * j + 32,
            ) ==> p2 == v.gamma_abc_g1@[j],
    ensures
        vk_wf(v),
        vk_bytes(v) == b,
        forall|v2: VerifyingKey| vk_wf(v2) && vk_bytes(v2) == b ==> vk_matches(v, v2),
{
    lemma_vk_sound(v, b);
    lemma_vk_unique(v, b);
}

/// Decode a verifying key.
///
/// Succeeds exactly on the canonical encodings of well-formed keys, and
/// then returns a key equal to the one encoded.
#[verifier::rlimit(100)]
pub fn decode_vk(b: &Vec<u8>) -> (r: Result<VerifyingKey, CodecError>)
    ensures
        r matches Ok(v) ==> vk_wf(v) && vk_bytes(v) == b@ && (forall|v2: VerifyingKey|
            vk_wf(v2) && vk_bytes(v2) == b@ ==> vk_matches(v, v2)),
        forall|v2: VerifyingKey| vk_wf(v2) && vk_bytes(v2) == b@ ==> r is Ok,
        r matches Err(e) ==> e == vk_err_of(b@),
{
    let bn = b.len();
    if bn < 264 || (bn - 232) % 32 != 0 {
        proof {
            lemma_vk_none_bad_len(b@);
        }
        return Err(CodecError::MalformedEncoding);
    }
    let n: usize = (bn - 232) / 32;
    proof {
        lemma_fundamental_div_mod(bn as int - 232, 32);
        assert(bn == 232 + 32 * n);
    }
    let sa = copy_seg(b, 0, 32);
    let sb = copy_seg(b, 32, 64);
    let sg = copy_seg(b, 96, 64);
    let sd = copy_seg(b, 160, 64);
    let scnt = copy_seg(b, 224, 8);
    let (alpha, beta, gamma, delta) = match decode_vk_head(&sa, &sb, &sg, &sd) {
        Ok(t) => t,
        Err(e) => {
            proof {
                lemma_vk_none_head(b@, sa@, sb@, sg@, sd@);
            }
            return Err(e);
        },
    };
    let cnt = crate::fp::u64_from_le_bytes(&scnt, 0);
    proof {
        assert(scnt@.subrange(0, 8) =~= scnt@);
        assert(crate::fp::u64_le_bytes(cnt) == b@.subrange(224, 232));
    }
    if cnt != n as u64 {
        proof {
            lemma_vk_none_cnt(b@, cnt, n as int);
            assert(g1_valid(b@.subrange(0, 32)));
            assert(g2_valid(b@.subrange(32, 96)));
            assert(g2_valid(b@.subrange(96, 160)));
            assert(g2_valid(b@.subrange(160, 224)));
        }
        return Err(CodecError::MalformedEncoding);
    }
    let r = decode_vk_rest(b, n, alpha, beta, gamma, delta);
    proof {
        if r is Err {
            assert(g1_valid(b@.subrange(0, 32)));
            assert(g2_valid(b@.subrange(32, 96)));
            assert(g2_valid(b@.subrange(96, 160)));
            assert(g2_valid(b@.subrange(160, 224)));
            assert forall|c: u64|
                crate::fp::u64_le_bytes(c) == b@.subrange(224, 232) implies c == (b@.len() - 232)
                / 32 by {
                crate::fp::lemma_u64_le_bytes_injective(c, cnt);
            }
        }
    }
    r
}

/// Decode the trailing `gamma_abc_g1` items and assemble the key, given the
/// already-decoded head.
#[verifier::rlimit(100)]
fn decode_vk_rest(
    b: &Vec<u8>,
    n: usize,
    alpha: G1Point,
    beta: G2Point,
    gamma: G2Point,
    delta: G2Point,
) -> (r: Result<VerifyingKey, CodecError>)
    requires
        1 <= n,
        b@.len() == 232 + 32 * n,
        g1_wf(alpha),
        g2_wf(beta),
        g2_wf(gamma),
        g2_wf(delta),
        g1_bytes(alpha) == b@.subrange(0, 32),
        g2_bytes(beta) == b@.subrange(32, 96),
        g2_bytes(gamma) == b@.subrange(96, 160),
        g2_bytes(delta) == b@.subrange(160, 224),
        crate::fp::u64_le_bytes(n as u64) == b@.subrange(224, 232),
        forall|p: G1Point| g1_wf(p) && g1_bytes(p) == b@.subrange(0, 32) ==> p == alpha,
        forall|p: G2Point| g2_wf(p) && g2_bytes(p) == b@.subrange(32, 96) ==> p == beta,
        forall|p: G2Point| g2_wf(p) && g2_bytes(p) == b@.subrange(96, 160) ==> p == gamma,
        forall|p: G2Point| g2_wf(p) && g2_bytes(p) == b@.subrange(160, 224) ==> p == delta,
    ensures
        r matches Ok(v) ==> vk_wf(v) && vk_bytes(v) == b@ && (forall|v2: VerifyingKey|
            vk_wf(v2) && vk_bytes(v2) == b@ ==> vk_matches(v, v2)),
        forall|v2: VerifyingKey| vk_wf(v2) && vk_bytes(v2) == b@ ==> r is Ok,
        r matches Err(e) ==> e == vk_ic_err(b@, 0),
{
    let ic = match decode_ic(b, n) {
        Ok(v) => v,
        Err(e) => {
            proof {
                lemma_vk_none_ic(b@, n as int);
            }
            return Err(e);
        },
    };
    let v = VerifyingKey { alpha_g1: alpha, beta_g2: beta, gamma_g2: gamma, delta_g2: delta, gamma_abc_g1: ic };
    proof {
        assert(v.gamma_abc_g1@.len() == n);
        lemma_vk_finish(v, b@, n as int);
    }
    Ok(v)
}

} // verus!
