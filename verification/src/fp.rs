//! Fixed-width 256-bit little-endian limb vectors: the representation that
//! base-field and scalar-field residues are stored in, together with the
//! verified arithmetic (compare, add, subtract, multiply-by-ten) and the
//! byte-level little-endian codec that the canonical encoding is built on.
use vstd::prelude::*;

verus! {

use vstd::arithmetic::div_mod::{
    lemma_fundamental_div_mod, lemma_fundamental_div_mod_converse, lemma_small_mod,
};

/// A 256-bit unsigned integer as four 64-bit little-endian limbs.
#[derive(Clone, Copy, Debug, PartialEq, Eq, Structural)]
pub struct U256 {
    pub l0: u64,
    pub l1: u64,
    pub l2: u64,
    pub l3: u64,
}

/// The integer a limb vector denotes.
pub open spec fn u256_val(x: U256) -> int {
    x.l0 + x.l1 * 0x10000000000000000 + x.l2 * 0x100000000000000000000000000000000
        + x.l3 * 0x1000000000000000000000000000000000000000000000000
}

/// Lexicographic order on limbs, most significant first.
pub open spec fn u256_lex_lt(a: U256, b: U256) -> bool {
    a.l3 < b.l3 || (a.l3 == b.l3 && (a.l2 < b.l2 || (a.l2 == b.l2 && (a.l1 < b.l1 || (a.l1
        == b.l1 && a.l0 < b.l0)))))
}

pub proof fn lemma_u256_val_bounds(x: U256)
    ensures
        0 <= u256_val(x) < 0x10000000000000000000000000000000000000000000000000000000000000000,
{
}

/// The limb order agrees with the integer order.
pub proof fn lemma_u256_order(a: U256, b: U256)
    ensures
        u256_val(a) < u256_val(b) <==> u256_lex_lt(a, b),
{
}

/// A value is denoted by exactly one limb vector.
pub proof fn lemma_u256_val_injective(a: U256, b: U256)
    requires
        u256_val(a) == u256_val(b),
    ensures
        a == b,
{
    lemma_u256_order(a, b);
    lemma_u256_order(b, a);
}

pub fn u256_new(l0: u64, l1: u64, l2: u64, l3: u64) -> (r: U256)
    ensures
        r == (U256 { l0, l1, l2, l3 }),
{
    U256 { l0, l1, l2, l3 }
}

/// Compare two limb vectors as integers.
pub fn u256_lt(a: &U256, b: &U256) -> (r: bool)
    ensures
        r == (u256_val(*a) < u256_val(*b)),
{
    proof {
        lemma_u256_order(*a, *b);
    }
    if a.l3 != b.l3 {
        a.l3 < b.l3
    } else if a.l2 != b.l2 {
        a.l2 < b.l2
    } else if a.l1 != b.l1 {
        a.l1 < b.l1
    } else {
        a.l0 < b.l0
    }
}

/// One addition step on a limb: digit plus digit plus carry.
fn add_limb(a: u64, b: u64, c: u64) -> (r: (u64, u64))
    requires
        c <= 1,
    ensures
        r.0 + r.1 * 0x10000000000000000 == a + b + c,
        r.1 <= 1,
{
    let t: u128 = a as u128 + b as u128 + c as u128;
    let lo: u64 = (t % 0x10000000000000000) as u64;
    let hi: u64 = (t / 0x10000000000000000) as u64;
    proof {
        lemma_fundamental_div_mod(t as int, 0x10000000000000000);
    }
    (lo, hi)
}

/// 256-bit addition; the second component is the outgoing carry.
pub fn u256_add(a: &U256, b: &U256) -> (r: (U256, u64))
    ensures
        u256_val(r.0) + r.1 * 0x10000000000000000000000000000000000000000000000000000000000000000
            == u256_val(*a) + u256_val(*b),
        r.1 <= 1,
{
    let (s0, c0) = add_limb(a.l0, b.l0, 0);
    let (s1, c1) = add_limb(a.l1, b.l1, c0);
    let (s2, c2) = add_limb(a.l2, b.l2, c1);
    let (s3, c3) = add_limb(a.l3, b.l3, c2);
    (U256 { l0: s0, l1: s1, l2: s2, l3: s3 }, c3)
}

/// One subtraction step on a limb: digit minus digit minus borrow.
fn sub_limb(a: u64, b: u64, br: u64) -> (r: (u64, u64))
    requires
        br <= 1,
    ensures
        r.0 == a - b - br + r.1 * 0x10000000000000000,
        r.1 <= 1,
{
    let t: u128 = a as u128 + 0x10000000000000000u128 - b as u128 - br as u128;
    let lo: u64 = (t % 0x10000000000000000) as u64;
    proof {
        lemma_fundamental_div_mod(t as int, 0x10000000000000000);
    }
    if t >= 0x10000000000000000u128 {
        (lo, 0)
    } else {
        (lo, 1)
    }
}

/// 256-bit subtraction of a smaller value from a larger one.
pub fn u256_sub(a: &U256, b: &U256) -> (r: U256)
    requires
        u256_val(*b) <= u256_val(*a),
    ensures
        u256_val(r) == u256_val(*a) - u256_val(*b),
{
    let (d0, b0) = sub_limb(a.l0, b.l0, 0);
    let (d1, b1) = sub_limb(a.l1, b.l1, b0);
    let (d2, b2) = sub_limb(a.l2, b.l2, b1);
    let (d3, b3) = sub_limb(a.l3, b.l3, b2);
    let r = U256 { l0: d0, l1: d1, l2: d2, l3: d3 };
    proof {
        lemma_u256_val_bounds(r);
        assert(u256_val(r) == u256_val(*a) - u256_val(*b) + b3
            * 0x10000000000000000000000000000000000000000000000000000000000000000);
    }
    r
}

/// One step of multiplying a limb by ten with an incoming carry.
fn mul10_limb(a: u64, c: u64) -> (r: (u64, u64))
    requires
        c <= 9,
    ensures
        r.0 + r.1 * 0x10000000000000000 == a * 10 + c,
        r.1 <= 9,
{
    let t: u128 = a as u128 * 10 + c as u128;
    let lo: u64 = (t % 0x10000000000000000) as u64;
    let hi: u64 = (t / 0x10000000000000000) as u64;
    proof {
        lemma_fundamental_div_mod(t as int, 0x10000000000000000);
    }
    (lo, hi)
}

/// Multiply by ten and add one decimal digit; the second component is the
/// overflow out of 256 bits.
pub fn u256_mul10_add(a: &U256, d: u64) -> (r: (U256, u64))
    requires
        d <= 9,
    ensures
        u256_val(r.0) + r.1 * 0x10000000000000000000000000000000000000000000000000000000000000000
            == u256_val(*a) * 10 + d,
        r.1 <= 9,
{
    let (m0, c0) = mul10_limb(a.l0, d);
    let (m1, c1) = mul10_limb(a.l1, c0);
    let (m2, c2) = mul10_limb(a.l2, c1);
    let (m3, c3) = mul10_limb(a.l3, c2);
    (U256 { l0: m0, l1: m1, l2: m2, l3: m3 }, c3)
}

/// Powers of 256 up to the seventh, for picking one byte out of a limb.
pub open spec fn p8(j: int) -> int {
    if j <= 0 {
        1
    } else if j == 1 {
        0x100
    } else if j == 2 {
        0x10000
    } else if j == 3 {
        0x1000000
    } else if j == 4 {
        0x100000000
    } else if j == 5 {
        0x10000000000
    } else if j == 6 {
        0x1000000000000
    } else {
        0x100000000000000
    }
}

/// Byte `j` (little-endian) of a 64-bit limb.
pub open spec fn u64_byte(l: u64, j: int) -> u8 {
    (((l as int) / p8(j)) % 256) as u8
}

/// The limb a vector index belongs to.
pub open spec fn u256_limb(x: U256, i: int) -> u64 {
    if i == 0 {
        x.l0
    } else if i == 1 {
        x.l1
    } else if i == 2 {
        x.l2
    } else {
        x.l3
    }
}

/// The canonical 32-byte little-endian form of a 256-bit value.
pub open spec fn u256_le_bytes(x: U256) -> Seq<u8> {
    Seq::new(32, |i: int| u64_byte(u256_limb(x, i / 8), i % 8))
}

/// The 8-byte little-endian form of a 64-bit value.
pub open spec fn u64_le_bytes(l: u64) -> Seq<u8> {
    Seq::new(8, |j: int| u64_byte(l, j))
}

/// A limb equals the recombination of its eight extracted bytes.
pub proof fn lemma_u64_byte_recompose(l: u64)
    ensures
        l == u64_byte(l, 0) + u64_byte(l, 1) * 0x100 + u64_byte(l, 2) * 0x10000 + u64_byte(l, 3)
            * 0x1000000 + u64_byte(l, 4) * 0x100000000 + u64_byte(l, 5) * 0x10000000000 + u64_byte(
            l,
            6,
        ) * 0x1000000000000 + u64_byte(l, 7) * 0x100000000000000,
{
    let n = l as int;
    lemma_fundamental_div_mod(n, 0x100);
    lemma_fundamental_div_mod(n / 0x100, 0x100);
    lemma_fundamental_div_mod(n / 0x10000, 0x100);
    lemma_fundamental_div_mod(n / 0x1000000, 0x100);
    lemma_fundamental_div_mod(n / 0x100000000, 0x100);
    lemma_fundamental_div_mod(n / 0x10000000000, 0x100);
    lemma_fundamental_div_mod(n / 0x1000000000000, 0x100);
    lemma_fundamental_div_mod(n / 0x100000000000000, 0x100);
    lemma_div_chain(n);
    lemma_small_mod((n / 0x100000000000000) as nat, 0x100);
}

/// Dividing step by step by 256 equals dividing by the power directly.
proof fn lemma_div_chain(n: int)
    requires
        0 <= n,
    ensures
        (n / 0x100) / 0x100 == n / 0x10000,
        (n / 0x10000) / 0x100 == n / 0x1000000,
        (n / 0x1000000) / 0x100 == n / 0x100000000,
        (n / 0x100000000) / 0x100 == n / 0x10000000000,
        (n / 0x10000000000) / 0x100 == n / 0x1000000000000,
        (n / 0x1000000000000) / 0x100 == n / 0x100000000000000,
        n / 0x100000000000000 < 0x100 <== n < 0x10000000000000000,
{
    vstd::arithmetic::div_mod::lemma_div_denominator(n, 0x100, 0x100);
    vstd::arithmetic::div_mod::lemma_div_denominator(n, 0x10000, 0x100);
    vstd::arithmetic::div_mod::lemma_div_denominator(n, 0x1000000, 0x100);
    vstd::arithmetic::div_mod::lemma_div_denominator(n, 0x100000000, 0x100);
    vstd::arithmetic::div_mod::lemma_div_denominator(n, 0x10000000000, 0x100);
    vstd::arithmetic::div_mod::lemma_div_denominator(n, 0x1000000000000, 0x100);
    if n < 0x10000000000000000 {
        lemma_fundamental_div_mod(n, 0x100000000000000);
    }
}

/// A limb built from eight bytes has exactly those bytes.
pub proof fn lemma_u64_byte_decomp(l: u64, b0: u8, b1: u8, b2: u8, b3: u8, b4: u8, b5: u8, b6: u8, b7: u8)
    requires
        l == b0 + b1 * 0x100 + b2 * 0x10000 + b3 * 0x1000000 + b4 * 0x100000000 + b5
            * 0x10000000000 + b6 * 0x1000000000000 + b7 * 0x100000000000000,
    ensures
        u64_byte(l, 0) == b0,
        u64_byte(l, 1) == b1,
        u64_byte(l, 2) == b2,
        u64_byte(l, 3) == b3,
        u64_byte(l, 4) == b4,
        u64_byte(l, 5) == b5,
        u64_byte(l, 6) == b6,
        u64_byte(l, 7) == b7,
{
    let n = l as int;
    lemma_byte_at(n, 0x100, b0 as int, b1 as int, b2 + b3 * 0x100 + b4 * 0x10000 + b5 * 0x1000000
        + b6 * 0x100000000 + b7 * 0x10000000000);
    lemma_byte_at(n, 0x10000, b0 + b1 * 0x100, b2 as int, b3 + b4 * 0x100 + b5 * 0x10000 + b6
        * 0x1000000 + b7 * 0x100000000);
    lemma_byte_at(n, 0x1000000, b0 + b1 * 0x100 + b2 * 0x10000, b3 as int, b4 + b5 * 0x100 + b6
        * 0x10000 + b7 * 0x1000000);
    lemma_byte_at(n, 0x100000000, b0 + b1 * 0x100 + b2 * 0x10000 + b3 * 0x1000000, b4 as int, b5
        + b6 * 0x100 + b7 * 0x10000);
    lemma_byte_at(n, 0x10000000000, b0 + b1 * 0x100 + b2 * 0x10000 + b3 * 0x1000000 + b4
        * 0x100000000, b5 as int, b6 + b7 * 0x100);
    lemma_byte_at(n, 0x1000000000000, b0 + b1 * 0x100 + b2 * 0x10000 + b3 * 0x1000000 + b4
        * 0x100000000 + b5 * 0x10000000000, b6 as int, b7 as int);
    lemma_byte_at(n, 0x100000000000000, b0 + b1 * 0x100 + b2 * 0x10000 + b3 * 0x1000000 + b4
        * 0x100000000 + b5 * 0x10000000000 + b6 * 0x1000000000000, b7 as int, 0);
    lemma_fundamental_div_mod_converse(n, 0x100, b1 + b2 * 0x100 + b3 * 0x10000 + b4 * 0x1000000
        + b5 * 0x100000000 + b6 * 0x10000000000 + b7 * 0x1000000000000, b0 as int);
    lemma_small_mod((b0 as nat), 0x100);
}

/// Two limbs with the same little-endian bytes are equal.
pub proof fn lemma_u64_le_bytes_injective(a: u64, b: u64)
    requires
        u64_le_bytes(a) == u64_le_bytes(b),
    ensures
        a == b,
{
    lemma_u64_byte_recompose(a);
    lemma_u64_byte_recompose(b);
    assert forall|j: int| 0 <= j < 8 implies u64_byte(a, j) == u64_byte(b, j) by {
        assert(u64_le_bytes(a)[j] == u64_byte(a, j));
        assert(u64_le_bytes(b)[j] == u64_byte(b, j));
    }
}

/// Two limb vectors with the same little-endian bytes are equal.
pub proof fn lemma_u256_le_bytes_injective(a: U256, b: U256)
    requires
        u256_le_bytes(a) == u256_le_bytes(b),
    ensures
        a == b,
{
    lemma_limb_bytes_eq(a, b, 0);
    lemma_limb_bytes_eq(a, b, 1);
    lemma_limb_bytes_eq(a, b, 2);
    lemma_limb_bytes_eq(a, b, 3);
    lemma_u64_le_bytes_injective(a.l0, b.l0);
    lemma_u64_le_bytes_injective(a.l1, b.l1);
    lemma_u64_le_bytes_injective(a.l2, b.l2);
    lemma_u64_le_bytes_injective(a.l3, b.l3);
}

/// One limb's bytes agree when the whole vectors' bytes agree.
proof fn lemma_limb_bytes_eq(a: U256, b: U256, k: int)
    requires
        0 <= k < 4,
        u256_le_bytes(a) == u256_le_bytes(b),
    ensures
        u64_le_bytes(u256_limb(a, k)) == u64_le_bytes(u256_limb(b, k)),
{
    assert forall|j: int| 0 <= j < 8 implies u64_le_bytes(u256_limb(a, k))[j] == u64_le_bytes(
        u256_limb(b, k),
    )[j] by {
        lemma_fundamental_div_mod_converse(8 * k + j, 8, k, j);
        assert((8 * k + j) / 8 == k && (8 * k + j) % 8 == j);
        assert(u256_le_bytes(a)[8 * k + j] == u64_byte(u256_limb(a, k), j));
        assert(u256_le_bytes(b)[8 * k + j] == u64_byte(u256_limb(b, k), j));
        assert(u64_le_bytes(u256_limb(a, k))[j] == u64_byte(u256_limb(a, k), j));
        assert(u64_le_bytes(u256_limb(b, k))[j] == u64_byte(u256_limb(b, k), j));
    }
    assert(u64_le_bytes(u256_limb(a, k)) =~= u64_le_bytes(u256_limb(b, k)));
}

/// Append the eight little-endian bytes of a limb.
pub fn push_u64_le(v: &mut Vec<u8>, l: u64)
    ensures
        final(v)@ == old(v)@ + u64_le_bytes(l),
{
    v.push((l % 0x100) as u8);
    v.push(((l / 0x100) % 0x100) as u8);
    v.push(((l / 0x10000) % 0x100) as u8);
    v.push(((l / 0x1000000) % 0x100) as u8);
    v.push(((l / 0x100000000) % 0x100) as u8);
    v.push(((l / 0x10000000000) % 0x100) as u8);
    v.push(((l / 0x1000000000000) % 0x100) as u8);
    v.push(((l / 0x100000000000000) % 0x100) as u8);
    proof {
        assert(v@ =~= old(v)@ + u64_le_bytes(l));
    }
}

/// The 32 little-endian bytes of a 256-bit value.
pub fn u256_to_le_bytes(x: &U256) -> (r: Vec<u8>)
    ensures
        r@ == u256_le_bytes(*x),
        r@.len() == 32,
{
    let mut v: Vec<u8> = Vec::new();
    push_u64_le(&mut v, x.l0);
    push_u64_le(&mut v, x.l1);
    push_u64_le(&mut v, x.l2);
    push_u64_le(&mut v, x.l3);
    proof {
        assert forall|i: int| 0 <= i < 32 implies v@[i] == u256_le_bytes(*x)[i] by {
            lemma_fundamental_div_mod(i, 8);
        }
        assert(v@ =~= u256_le_bytes(*x));
    }
    v
}

/// Read one limb out of eight little-endian bytes.
pub fn u64_from_le_bytes(b: &Vec<u8>, off: usize) -> (r: u64)
    requires
        off + 8 <= b@.len(),
    ensures
        u64_le_bytes(r) == b@.subrange(off as int, off as int + 8),
{
    let n = b.len();
    let r: u64 = b[off] as u64 + (b[off + 1] as u64) * 0x100 + (b[off + 2] as u64) * 0x10000 + (b[off
        + 3] as u64) * 0x1000000 + (b[off + 4] as u64) * 0x100000000 + (b[off + 5] as u64)
        * 0x10000000000 + (b[off + 6] as u64) * 0x1000000000000 + (b[off + 7] as u64)
        * 0x100000000000000;
    proof {
        lemma_u64_byte_decomp(
            r,
            b@[off as int],
            b@[off as int + 1],
            b@[off as int + 2],
            b@[off as int + 3],
            b@[off as int + 4],
            b@[off as int + 5],
            b@[off as int + 6],
            b@[off as int + 7],
        );
        assert(u64_le_bytes(r) =~= b@.subrange(off as int, off as int + 8));
    }
    r
}

/// Read a 256-bit value out of 32 little-endian bytes.
pub fn u256_from_le_bytes(b: &Vec<u8>) -> (r: U256)
    requires
        b@.len() == 32,
    ensures
        u256_le_bytes(r) == b@,
{
    let l0 = u64_from_le_bytes(b, 0);
    let l1 = u64_from_le_bytes(b, 8);
    let l2 = u64_from_le_bytes(b, 16);
    let l3 = u64_from_le_bytes(b, 24);
    let r = U256 { l0, l1, l2, l3 };
    proof {
        assert forall|i: int| 0 <= i < 32 implies u256_le_bytes(r)[i] == b@[i] by {
            lemma_fundamental_div_mod(i, 8);
            assert(u64_le_bytes(u256_limb(r, i / 8))[i % 8] == b@[i]);
        }
        assert(u256_le_bytes(r) =~= b@);
    }
    r
}

/// If `n == low + p * (b + 256 * rest)` with `low < p` and `b < 256`, then
/// byte extraction at `p` returns `b`.
proof fn lemma_byte_at(n: int, p: int, low: int, b: int, rest: int)
    requires
        0 < p,
        0 <= low < p,
        0 <= b < 256,
        0 <= rest,
        n == low + p * (b + rest * 0x100),
    ensures
        (n / p) % 256 == b,
{
    assert(n == (b + rest * 0x100) * p + low) by (nonlinear_arith)
        requires
            n == low + p * (b + rest * 0x100),
    ;
    lemma_fundamental_div_mod_converse(n, p, b + rest * 0x100, low);
    lemma_fundamental_div_mod_converse(b + rest * 0x100, 0x100, rest, b);
}

} // verus!
