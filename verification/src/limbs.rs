//! Four-limb little-endian 256-bit integers and the carry facts that the
//! multi-precision arithmetic of this crate rests on.
use vstd::prelude::*;
use vstd::arithmetic::div_mod::lemma_fundamental_div_mod_converse;
use vstd::arithmetic::mul::{lemma_mul_is_distributive_add, lemma_mul_is_associative, lemma_mul_is_commutative};

verus! {

/// 2^64
#[verifier::inline]
pub open spec fn b64() -> nat {
    0x1_0000_0000_0000_0000nat
}

/// 2^128
#[verifier::inline]
pub open spec fn b128() -> nat {
    0x1_0000_0000_0000_0000_0000_0000_0000_0000nat
}

/// 2^192
#[verifier::inline]
pub open spec fn b192() -> nat {
    0x1_0000_0000_0000_0000_0000_0000_0000_0000_0000_0000_0000_0000nat
}

/// 2^255
#[verifier::inline]
pub open spec fn b255() -> nat {
    0x8000_0000_0000_0000_0000_0000_0000_0000_0000_0000_0000_0000_0000_0000_0000_0000nat
}

/// 2^256
#[verifier::inline]
pub open spec fn b256() -> nat {
    0x1_0000_0000_0000_0000_0000_0000_0000_0000_0000_0000_0000_0000_0000_0000_0000_0000nat
}

/// The integer that four little-endian 64-bit limbs stand for.
pub open spec fn limbs_val(l: [u64; 4]) -> nat {
    l[0] as nat + l[1] as nat * b64() + l[2] as nat * b128() + l[3] as nat * b192()
}

/// Splitting a 128-bit intermediate into its low limb and its carry.
pub proof fn lemma_split_u128(x: u128)
    ensures
        x as nat == (x as u64) as nat + (x >> 64) as nat * b64(),
        (x >> 64) <= u64::MAX as u128,
{
    assert(x == ((x as u64) as u128) + (x >> 64) * 0x1_0000_0000_0000_0000u128) by (bit_vector);
    assert((x >> 64) <= 0xffff_ffff_ffff_ffffu128) by (bit_vector);
}


/// A value that fits four limbs is below 2^256.
pub proof fn lemma_limbs_bound(l: [u64; 4])
    ensures
        limbs_val(l) < b256(),
        limbs_val(l) >= l[3] as nat * b192(),
{
}

/// Limbs are determined by the value they stand for.
pub proof fn lemma_limbs_injective(a: [u64; 4], b: [u64; 4])
    requires
        limbs_val(a) == limbs_val(b),
    ensures
        a == b,
{
    if a[3] > b[3] {
        lemma_limbs_order(a, b, 3);
    } else if a[3] < b[3] {
        lemma_limbs_order(b, a, 3);
    } else if a[2] > b[2] {
        lemma_limbs_order(a, b, 2);
    } else if a[2] < b[2] {
        lemma_limbs_order(b, a, 2);
    } else if a[1] > b[1] {
        lemma_limbs_order(a, b, 1);
    } else if a[1] < b[1] {
        lemma_limbs_order(b, a, 1);
    }
    assert(a[0] == b[0]);
    assert(a =~= b);
}

/// Comparing limbs from the most significant one down decides the order of
/// the values: at the first limb (from the top) where they differ.
pub proof fn lemma_limbs_order(a: [u64; 4], b: [u64; 4], i: int)
    requires
        0 <= i < 4,
        forall|k: int| i < k < 4 ==> a[k] == b[k],
        a[i] > b[i],
    ensures
        limbs_val(a) > limbs_val(b),
{
}

/// Limbs that agree everywhere stand for the same value.
pub proof fn lemma_limbs_eq(a: [u64; 4], b: [u64; 4])
    requires
        forall|k: int| 0 <= k < 4 ==> a[k] == b[k],
    ensures
        limbs_val(a) == limbs_val(b),
        a == b,
{
    assert(a =~= b);
}


/// The eight little-endian bytes of a 64-bit word.
pub open spec fn u64_le(x: u64) -> Seq<u8> {
    seq![
        (x & 0xff) as u8,
        ((x >> 8) & 0xff) as u8,
        ((x >> 16) & 0xff) as u8,
        ((x >> 24) & 0xff) as u8,
        ((x >> 32) & 0xff) as u8,
        ((x >> 40) & 0xff) as u8,
        ((x >> 48) & 0xff) as u8,
        ((x >> 56) & 0xff) as u8,
    ]
}

/// The 64-bit word that eight little-endian bytes stand for.
pub open spec fn u64_of_le(s: Seq<u8>) -> u64 {
    (s[0] as u64) | (s[1] as u64) << 8 | (s[2] as u64) << 16 | (s[3] as u64) << 24 | (s[4] as u64)
        << 32 | (s[5] as u64) << 40 | (s[6] as u64) << 48 | (s[7] as u64) << 56
}

/// The 32 little-endian bytes of four limbs, lowest limb first.
pub open spec fn limbs_le(l: [u64; 4]) -> Seq<u8> {
    u64_le(l[0]) + u64_le(l[1]) + u64_le(l[2]) + u64_le(l[3])
}

/// The four limbs read from 32 little-endian bytes starting at `off`.
pub open spec fn limbs_of_le(s: Seq<u8>, off: int) -> [u64; 4] {
    [
        u64_of_le(s.subrange(off, off + 8)),
        u64_of_le(s.subrange(off + 8, off + 16)),
        u64_of_le(s.subrange(off + 16, off + 24)),
        u64_of_le(s.subrange(off + 24, off + 32)),
    ]
}

/// Reading back the bytes of a word gives the word.
pub proof fn lemma_u64_le_roundtrip(x: u64)
    ensures
        u64_le(x).len() == 8,
        u64_of_le(u64_le(x)) == x,
{
    let s = u64_le(x);
    assert(s[0] == (x & 0xff) as u8);
    assert(x == ((x & 0xff) as u8 as u64) | ((((x >> 8) & 0xff) as u8) as u64) << 8 | ((((x >> 16)
        & 0xff) as u8) as u64) << 16 | ((((x >> 24) & 0xff) as u8) as u64) << 24 | ((((x >> 32)
        & 0xff) as u8) as u64) << 32 | ((((x >> 40) & 0xff) as u8) as u64) << 40 | ((((x >> 48)
        & 0xff) as u8) as u64) << 48 | ((((x >> 56) & 0xff) as u8) as u64) << 56) by (bit_vector);
}

/// Reading back the bytes of four limbs gives the limbs.
pub proof fn lemma_limbs_le_roundtrip(l: [u64; 4])
    ensures
        limbs_le(l).len() == 32,
        limbs_of_le(limbs_le(l), 0) == l,
{
    lemma_u64_le_roundtrip(l[0]);
    lemma_u64_le_roundtrip(l[1]);
    lemma_u64_le_roundtrip(l[2]);
    lemma_u64_le_roundtrip(l[3]);
    let s = limbs_le(l);
    assert(s.subrange(0, 8) =~= u64_le(l[0]));
    assert(s.subrange(8, 16) =~= u64_le(l[1]));
    assert(s.subrange(16, 24) =~= u64_le(l[2]));
    assert(s.subrange(24, 32) =~= u64_le(l[3]));
    assert(limbs_of_le(s, 0) =~= l);
}

/// Reads eight little-endian bytes of `s` starting at `off` as one word.
pub fn read_u64_le(s: &[u8], off: usize) -> (r: u64)
    requires
        off + 8 <= s@.len(),
    ensures
        r == u64_of_le(s@.subrange(off as int, off + 8)),
{
    let ghost w = s@.subrange(off as int, off + 8);
    assert(w[0] == s@[off as int] && w[1] == s@[off + 1] && w[2] == s@[off + 2] && w[3] == s@[off
        + 3] && w[4] == s@[off + 4] && w[5] == s@[off + 5] && w[6] == s@[off + 6] && w[7]
        == s@[off + 7]);
    (s[off] as u64) | (s[off + 1] as u64) << 8 | (s[off + 2] as u64) << 16 | (s[off + 3] as u64)
        << 24 | (s[off + 4] as u64) << 32 | (s[off + 5] as u64) << 40 | (s[off + 6] as u64) << 48
        | (s[off + 7] as u64) << 56
}

/// The 32 little-endian bytes of four limbs.
pub fn limbs_to_le(l: &[u64; 4]) -> (r: [u8; 32])
    ensures
        r@ == limbs_le(*l),
{
    let mut out = [0u8; 32];
    let mut i: usize = 0;
    while i < 4
        invariant
            0 <= i <= 4,
            forall|k: int| 0 <= k < 8 * i ==> out@[k] == limbs_le(*l)[k],
        decreases 4 - i,
    {
        let x = l[i];
        let b = 8 * i;
        out[b] = (x & 0xff) as u8;
        out[b + 1] = ((x >> 8) & 0xff) as u8;
        out[b + 2] = ((x >> 16) & 0xff) as u8;
        out[b + 3] = ((x >> 24) & 0xff) as u8;
        out[b + 4] = ((x >> 32) & 0xff) as u8;
        out[b + 5] = ((x >> 40) & 0xff) as u8;
        out[b + 6] = ((x >> 48) & 0xff) as u8;
        out[b + 7] = ((x >> 56) & 0xff) as u8;
        proof {
            let w = u64_le(x);
            assert forall|k: int| 0 <= k < 8 * i + 8 implies out@[k] == limbs_le(*l)[k] by {
                if k >= 8 * i {
                    assert(limbs_le(*l)[k] == w[k - 8 * i]);
                }
            }
        }
        i += 1;
    }
    assert(out@ =~= limbs_le(*l));
    out
}


/// One step of a limb-wise subtraction with borrow.
pub proof fn lemma_sub_step(a: u64, b: u64, borrow: u128, diff: u128)
    requires
        borrow <= 1,
        diff == (a as u128).wrapping_sub(b as u128).wrapping_sub(borrow),
    ensures
        (diff as u64) as int == a - b - borrow + (if a - b - borrow < 0 { b64() as int } else { 0 }),
        ((diff >> 64) > 0) == (a - b - borrow < 0),
{
    lemma_split_u128(diff);
}

/// Limb-wise subtraction with borrow: the difference modulo 2^256 and the
/// final borrow, which is set exactly when `a < b`.
pub fn sub_borrow(a: &[u64; 4], b: &[u64; 4]) -> (r: ([u64; 4], u128))
    ensures
        limbs_val(r.0) == limbs_val(*a) - limbs_val(*b) + r.1 * b256(),
        r.1 == (if limbs_val(*a) < limbs_val(*b) { 1u128 } else { 0u128 }),
{
    let mut res = [0u64; 4];
    let mut borrow = 0u128;
    let mut i: usize = 0;
    while i < 4
        invariant
            0 <= i <= 4,
            borrow <= 1,
            limbs_val(res) == partial_val(*a, i as int) - partial_val(*b, i as int) + (if borrow
                == 1 {
                place(i as int)
            } else {
                0
            }),
            forall|k: int| i <= k < 4 ==> res[k] == 0,
        decreases 4 - i,
    {
        let diff = (a[i] as u128).wrapping_sub(b[i] as u128).wrapping_sub(borrow);
        proof {
            lemma_sub_step(a[i as int], b[i as int], borrow, diff);
        }
        let ghost bin = borrow;
        let ghost rin = res;
        res[i] = diff as u64;
        borrow = if diff >> 64 > 0 { 1 } else { 0 };
        proof {
            assert(res[i as int] - (if borrow == 1 { b64() as int } else { 0 }) == a[i as int]
                - b[i as int] - bin);
            if i == 0 {} else if i == 1 {} else if i == 2 {} else {}
        }
        i += 1;
    }
    proof {
        lemma_limbs_bound(*a);
        lemma_limbs_bound(*b);
        lemma_limbs_bound(res);
    }
    (res, borrow)
}

/// Limb-wise addition, dropping the carry out of the top limb.
pub fn add_wrapping(a: &[u64; 4], b: &[u64; 4]) -> (r: [u64; 4])
    ensures
        limbs_val(r) == (if limbs_val(*a) + limbs_val(*b) >= b256() {
            limbs_val(*a) + limbs_val(*b) - b256()
        } else {
            limbs_val(*a) + limbs_val(*b) + 0int
        }),
{
    let mut res = [0u64; 4];
    let mut carry = 0u128;
    let mut i: usize = 0;
    while i < 4
        invariant
            0 <= i <= 4,
            carry <= 1,
            limbs_val(res) + (if carry == 1 {
                place(i as int)
            } else {
                0
            }) == partial_val(*a, i as int) + partial_val(*b, i as int),
            forall|k: int| i <= k < 4 ==> res[k] == 0,
        decreases 4 - i,
    {
        let sum = (a[i] as u128) + (b[i] as u128) + carry;
        proof {
            lemma_split_u128(sum);
        }
        let ghost cin = carry;
        let ghost rin = res;
        res[i] = sum as u64;
        carry = sum >> 64;
        proof {
            assert(res[i as int] + (if carry == 1 { b64() as int } else { 0 }) == a[i as int]
                + b[i as int] + cin);
            if i == 0 {} else if i == 1 {} else if i == 2 {} else {}
        }
        i += 1;
    }
    proof {
        lemma_limbs_bound(res);
    }
    res
}

/// The weight of limb `i`.
pub open spec fn place(i: int) -> nat {
    if i <= 0 {
        1
    } else if i == 1 {
        b64()
    } else if i == 2 {
        b128()
    } else if i == 3 {
        b192()
    } else {
        b256()
    }
}

/// The value of the lowest `i` limbs.
pub open spec fn partial_val(l: [u64; 4], i: int) -> nat {
    if i <= 0 {
        0
    } else if i == 1 {
        l[0] as nat
    } else if i == 2 {
        l[0] as nat + l[1] as nat * b64()
    } else if i == 3 {
        l[0] as nat + l[1] as nat * b64() + l[2] as nat * b128()
    } else {
        limbs_val(l)
    }
}


/// 2^320
#[verifier::inline]
pub open spec fn b320() -> nat {
    0x1_0000_0000_0000_0000_0000_0000_0000_0000_0000_0000_0000_0000_0000_0000_0000_0000_0000_0000_0000_0000nat
}

/// 2^384
#[verifier::inline]
pub open spec fn b384() -> nat {
    0x1_0000_0000_0000_0000_0000_0000_0000_0000_0000_0000_0000_0000_0000_0000_0000_0000_0000_0000_0000_0000_0000_0000_0000_0000nat
}

/// 2^448
#[verifier::inline]
pub open spec fn b448() -> nat {
    0x1_0000_0000_0000_0000_0000_0000_0000_0000_0000_0000_0000_0000_0000_0000_0000_0000_0000_0000_0000_0000_0000_0000_0000_0000_0000_0000_0000_0000nat
}

/// The integer that eight little-endian 64-bit limbs stand for.
pub open spec fn limbs8_val(l: [u64; 8]) -> nat {
    l[0] as nat + l[1] as nat * b64() + l[2] as nat * b128() + l[3] as nat * b192() + l[4] as nat
        * b256() + l[5] as nat * b320() + l[6] as nat * b384() + l[7] as nat * b448()
}

/// Multiply-accumulate of one limb into four: `acc + ai * b`, the low four
/// limbs and the limb that carries out.
pub fn mac_row(ai: u64, b: &[u64; 4], acc: &[u64; 4]) -> (r: ([u64; 4], u64))
    ensures
        limbs_val(r.0) + r.1 as nat * b256() == limbs_val(*acc) + ai as nat * limbs_val(*b),
{
    let mut out = [0u64; 4];
    let mut carry = 0u128;
    proof {
        lemma_mul_bound(ai, b[0]);
        lemma_mul_bound(ai, b[1]);
        lemma_mul_bound(ai, b[2]);
        lemma_mul_bound(ai, b[3]);
    }
    let product = (ai as u128) * (b[0] as u128) + (acc[0] as u128) + carry;
    proof {
        lemma_split_u128(product);
    }
    out[0] = product as u64;
    carry = product >> 64;
    let product = (ai as u128) * (b[1] as u128) + (acc[1] as u128) + carry;
    proof {
        lemma_split_u128(product);
    }
    out[1] = product as u64;
    carry = product >> 64;
    let product = (ai as u128) * (b[2] as u128) + (acc[2] as u128) + carry;
    proof {
        lemma_split_u128(product);
    }
    out[2] = product as u64;
    carry = product >> 64;
    let product = (ai as u128) * (b[3] as u128) + (acc[3] as u128) + carry;
    proof {
        lemma_split_u128(product);
    }
    out[3] = product as u64;
    carry = product >> 64;
    proof {
        lemma_row_distrib(ai as int, b[0] as int, b[1] as int, b[2] as int, b[3] as int);
        assert(limbs_val(out) + carry * b256() == limbs_val(*acc) + ai * b[0] + (ai * b[1]) * b64()
            + (ai * b[2]) * b128() + (ai * b[3]) * b192());
    }
    (out, carry as u64)
}

/// A product of two limbs plus two more limbs fits 128 bits.
pub proof fn lemma_mul_bound(x: u64, y: u64)
    ensures
        (x as nat) * (y as nat) <= 0xffff_ffff_ffff_fffe_0000_0000_0000_0001nat,
        (x as nat) * (y as nat) + 2 * 0xffff_ffff_ffff_ffffnat <= u128::MAX,
{
    assert((x as nat) * (y as nat) <= 0xffff_ffff_ffff_ffffnat * 0xffff_ffff_ffff_ffffnat)
        by (nonlinear_arith)
        requires
            x <= 0xffff_ffff_ffff_ffffnat,
            y <= 0xffff_ffff_ffff_ffffnat,
    ;
}

proof fn lemma_row_distrib(a: int, b0: int, b1: int, b2: int, b3: int)
    ensures
        a * (b0 + b1 * b64() + b2 * b128() + b3 * b192()) == a * b0 + (a * b1) * b64() + (a * b2)
            * b128() + (a * b3) * b192(),
{
    let x = b64() as int;
    let y = b128() as int;
    let z = b192() as int;
    lemma_mul_is_distributive_add(a, b0 + b1 * x + b2 * y, b3 * z);
    lemma_mul_is_distributive_add(a, b0 + b1 * x, b2 * y);
    lemma_mul_is_distributive_add(a, b0, b1 * x);
    lemma_mul_is_associative(a, b1, x);
    lemma_mul_is_associative(a, b2, y);
    lemma_mul_is_associative(a, b3, z);
}

/// Schoolbook product of two four-limb integers into eight limbs.
pub fn mul_wide(a: &[u64; 4], b: &[u64; 4]) -> (r: [u64; 8])
    ensures
        limbs8_val(r) == limbs_val(*a) * limbs_val(*b),
{
    let (w0, c0) = mac_row(a[0], b, &[0u64, 0, 0, 0]);
    let (w1, c1) = mac_row(a[1], b, &[w0[1], w0[2], w0[3], c0]);
    let (w2, c2) = mac_row(a[2], b, &[w1[1], w1[2], w1[3], c1]);
    let (w3, c3) = mac_row(a[3], b, &[w2[1], w2[2], w2[3], c2]);
    let prod = [w0[0], w1[0], w2[0], w3[0], w3[1], w3[2], w3[3], c3];
    proof {
        let bv = limbs_val(*b) as int;
        let v0 = limbs_val(w0) + c0 * b256();
        let v1 = limbs_val(w1) + c1 * b256();
        let v2 = limbs_val(w2) + c2 * b256();
        let v3 = limbs_val(w3) + c3 * b256();
        assert(limbs_val([0u64, 0, 0, 0]) == 0);
        assert(v0 == a[0] * bv);
        assert(v1 == limbs_val([w0[1], w0[2], w0[3], c0]) + a[1] * bv);
        assert(v2 == limbs_val([w1[1], w1[2], w1[3], c1]) + a[2] * bv);
        assert(v3 == limbs_val([w2[1], w2[2], w2[3], c2]) + a[3] * bv);
        assert(prod[3] == w3[0] && prod[4] == w3[1] && prod[5] == w3[2] && prod[6] == w3[3]
            && prod[7] == c3 && prod[0] == w0[0] && prod[1] == w1[0] && prod[2] == w2[0]);
        assert(v3 * b192() == w3[0] * b192() + w3[1] * b256() + w3[2] * b320() + w3[3] * b384() + c3 * b448());
        assert(limbs8_val(prod) == w0[0] + w1[0] * b64() + w2[0] * b128() + v3 * b192());
        assert(limbs8_val(prod) == v0 + (a[1] * bv) * b64() + (a[2] * bv) * b128() + (a[3] * bv)
            * b192());
        lemma_row_distrib(bv, a[0] as int, a[1] as int, a[2] as int, a[3] as int);
        lemma_mul_is_commutative(limbs_val(*a) as int, bv);
        lemma_mul_is_commutative(a[0] as int, bv);
        lemma_mul_is_commutative(a[1] as int, bv);
        lemma_mul_is_commutative(a[2] as int, bv);
        lemma_mul_is_commutative(a[3] as int, bv);
    }
    prod
}


/// The low bit of four limbs is the parity of their value.
pub proof fn lemma_low_bit(l: [u64; 4])
    ensures
        ((l[0] & 1) == 1) == (limbs_val(l) % 2 == 1),
{
    let x = l[0];
    assert((x & 1u64) == x % 2) by (bit_vector);
    assert(limbs_val(l) % 2 == l[0] % 2);
}

/// The top bit of a limb and the rest of it.
pub proof fn lemma_top_bit(x: u64)
    ensures
        x as nat == (x & 0x7fff_ffff_ffff_ffff) as nat + (x >> 63) as nat * 0x8000_0000_0000_0000,
        (x >> 63) <= 1,
        (x & 0x7fff_ffff_ffff_ffff) < 0x8000_0000_0000_0000,
{
    assert(x == (x & 0x7fff_ffff_ffff_ffffu64) + (x >> 63u64) * 0x8000_0000_0000_0000u64)
        by (bit_vector);
    assert((x >> 63u64) <= 1u64) by (bit_vector);
    assert((x & 0x7fff_ffff_ffff_ffffu64) < 0x8000_0000_0000_0000u64) by (bit_vector);
}

/// Shifting a limb right by one, filling in the low bit of the next limb.
pub proof fn lemma_shr1_limb(x: u64, y: u64)
    ensures
        ((x >> 1) | (y << 63)) as nat == (x >> 1) as nat + (y & 1) as nat * 0x8000_0000_0000_0000,
        x as nat == 2 * (x >> 1) as nat + (x & 1) as nat,
        (x & 1) <= 1,
{
    assert(((x >> 1u64) | (y << 63u64)) == (x >> 1u64) + (y & 1u64) * 0x8000_0000_0000_0000u64)
        by (bit_vector);
    assert(x == 2 * (x >> 1u64) + (x & 1u64)) by (bit_vector);
    assert((x & 1u64) <= 1u64) by (bit_vector);
}

/// Compares two limb arrays from the most significant limb down.
pub fn limbs_ge(a: &[u64; 4], b: &[u64; 4]) -> (r: bool)
    ensures
        r == (limbs_val(*a) >= limbs_val(*b)),
{
    let mut i: usize = 4;
    while i > 0
        invariant
            0 <= i <= 4,
            forall|k: int| i <= k < 4 ==> a[k] == b[k],
        decreases i,
    {
        i -= 1;
        if a[i] > b[i] {
            proof {
                lemma_limbs_order(*a, *b, i as int);
            }
            return true;
        } else if a[i] < b[i] {
            proof {
                lemma_limbs_order(*b, *a, i as int);
            }
            return false;
        }
    }
    proof {
        lemma_limbs_eq(*a, *b);
    }
    true
}

/// Halves four limbs, shifting each right by one bit and carrying the low bit
/// of each limb into the top bit of the one below.
pub fn limbs_shr1(a: &[u64; 4]) -> (r: [u64; 4])
ensures
    limbs_val(r) == limbs_val(*a) / 2,
{
    let mut res = [0u64; 4];
    let mut carry = 0u64;
    proof {
        assert((0u64 << 63u64) == 0u64) by (bit_vector);
    }
    let mut i: usize = 4;
    while i > 0
        invariant
            0 <= i <= 4,
            i < 4 ==> carry == a[i as int] << 63,
            i == 4 ==> carry == 0u64 << 63,
            forall|k: int| 0 <= k < i ==> res[k] == 0,
            forall|k: int| i <= k < 4 ==> res[k] == ((a[k] >> 1) | (if k == 3 {
                0u64
            } else {
                a[k + 1]
            }) << 63),
        decreases i,
    {
        i -= 1;
        res[i] = (a[i] >> 1) | carry;
        carry = a[i] << 63;
    }
    proof {
        lemma_shr1_limb(a[3], 0);
        lemma_shr1_limb(a[2], a[3]);
        lemma_shr1_limb(a[1], a[2]);
        lemma_shr1_limb(a[0], a[1]);
        lemma_shr1_limb(a[3], a[3]);
        lemma_shr1_limb(a[2], a[2]);
        lemma_shr1_limb(a[1], a[1]);
        lemma_shr1_limb(a[0], a[0]);
        assert((0u64 & 1u64) == 0u64) by (bit_vector);
        assert(limbs_val(res) * 2 + (a[0] & 1) as nat == limbs_val(*a));
        lemma_fundamental_div_mod_converse(
            limbs_val(*a) as int,
            2,
            limbs_val(res) as int,
            (a[0] & 1) as int,
        );
    }
    res
}


/// The four limbs of a value below 2^256.
pub open spec fn nat_limbs(n: nat) -> [u64; 4] {
    [
        (n % b64()) as u64,
        ((n / b64()) % b64()) as u64,
        ((n / b128()) % b64()) as u64,
        ((n / b192()) % b64()) as u64,
    ]
}

/// The 32 little-endian bytes of a value below 2^256.
#[verifier::opaque]
pub open spec fn num_le(n: nat) -> Seq<u8> {
    limbs_le(nat_limbs(n))
}

/// Limbs are recovered from the value they stand for.
pub proof fn lemma_nat_limbs(l: [u64; 4])
    ensures
        nat_limbs(limbs_val(l)) == l,
{
    let v = limbs_val(l) as int;
    let x = b64() as int;
    let r1 = l[1] + l[2] * x + l[3] * b128();
    let r2 = l[2] + l[3] * x;
    lemma_fundamental_div_mod_converse(v, x, r1, l[0] as int);
    lemma_fundamental_div_mod_converse(r1, x, r2, l[1] as int);
    lemma_fundamental_div_mod_converse(r2, x, l[3] as int, l[2] as int);
    lemma_fundamental_div_mod_converse(v, b128() as int, r2, l[0] + l[1] * x);
    lemma_fundamental_div_mod_converse(v, b192() as int, l[3] as int, l[0] + l[1] * x + l[2] * b128());
    lemma_fundamental_div_mod_converse(l[3] as int, x, 0, l[3] as int);
    assert(nat_limbs(limbs_val(l)) =~= l);
}


/// Writing back the word that eight bytes stand for gives the bytes.
pub proof fn lemma_u64_of_le_roundtrip(s: Seq<u8>)
    requires
        s.len() == 8,
    ensures
        u64_le(u64_of_le(s)) == s,
{
    let x = u64_of_le(s);
    let s0 = s[0] as u64;
    let s1 = s[1] as u64;
    let s2 = s[2] as u64;
    let s3 = s[3] as u64;
    let s4 = s[4] as u64;
    let s5 = s[5] as u64;
    let s6 = s[6] as u64;
    let s7 = s[7] as u64;
    assert(((x == s0 | s1 << 8 | s2 << 16 | s3 << 24 | s4 << 32 | s5 << 40 | s6 << 48 | s7 << 56)
        && (s0 < 256) && (s1 < 256) && (s2 < 256) && (s3 < 256) && (s4 < 256) && (s5 < 256) && (s6
        < 256) && (s7 < 256)) ==> s0 == (x & 0xff) && s1 == ((x >> 8) & 0xff) && s2 == ((x >> 8 * 2)
        & 0xff) && s3 == ((x >> 24) & 0xff) && s4 == ((x >> 32) & 0xff) && s5 == ((x >> 40) & 0xff)
        && s6 == ((x >> 48) & 0xff) && s7 == ((x >> 56) & 0xff)) by (bit_vector);
    assert(u64_le(x) =~= s);
}

/// Four limbs read at `off` are the limbs whose bytes stand there.
pub proof fn lemma_limbs_at(s: Seq<u8>, off: int, l: [u64; 4])
    requires
        0 <= off,
        off + 32 <= s.len(),
        s.subrange(off, off + 32) == limbs_le(l),
    ensures
        limbs_of_le(s, off) == l,
{
    lemma_limbs_le_roundtrip(l);
    let t = s.subrange(off, off + 32);
    assert(s.subrange(off, off + 8) =~= t.subrange(0, 8));
    assert(s.subrange(off + 8, off + 16) =~= t.subrange(8, 16));
    assert(s.subrange(off + 16, off + 24) =~= t.subrange(16, 24));
    assert(s.subrange(off + 24, off + 32) =~= t.subrange(24, 32));
    assert(limbs_of_le(s, off) =~= limbs_of_le(t, 0));
}

/// The bytes of the limbs read at `off` are the bytes that stand there.
pub proof fn lemma_le_of_limbs_at(s: Seq<u8>, off: int)
    requires
        0 <= off,
        off + 32 <= s.len(),
    ensures
        limbs_le(limbs_of_le(s, off)) == s.subrange(off, off + 32),
{
    lemma_u64_of_le_roundtrip(s.subrange(off, off + 8));
    lemma_u64_of_le_roundtrip(s.subrange(off + 8, off + 16));
    lemma_u64_of_le_roundtrip(s.subrange(off + 16, off + 24));
    lemma_u64_of_le_roundtrip(s.subrange(off + 24, off + 32));
    assert(limbs_le(limbs_of_le(s, off)) =~= s.subrange(off, off + 32));
}


/// The 32-byte encodings of a sequence of values, one after another.
pub open spec fn cat_le(vs: Seq<nat>) -> Seq<u8>
    decreases vs.len(),
{
    if vs.len() == 0 {
        Seq::empty()
    } else {
        cat_le(vs.drop_last()) + num_le(vs.last())
    }
}

pub proof fn lemma_num_le_len(n: nat)
    ensures
        num_le(n).len() == 32,
{
    reveal(num_le);
}

pub proof fn lemma_cat_le_push(vs: Seq<nat>, v: nat)
    ensures
        cat_le(vs.push(v)) == cat_le(vs) + num_le(v),
{
    assert(vs.push(v).drop_last() =~= vs);
}

pub proof fn lemma_cat_le_len(vs: Seq<nat>)
    ensures
        cat_le(vs).len() == 32 * vs.len(),
    decreases vs.len(),
{
    if vs.len() > 0 {
        lemma_cat_le_len(vs.drop_last());
        lemma_num_le_len(vs.last());
    }
}

/// Piece `k` of the concatenation is the encoding of value `k`.
pub proof fn lemma_cat_le_piece(vs: Seq<nat>, k: int)
    requires
        0 <= k < vs.len(),
    ensures
        cat_le(vs).subrange(32 * k, 32 * k + 32) == num_le(vs[k]),
    decreases vs.len(),
{
    let n = vs.len() as int;
    let pre = cat_le(vs.drop_last());
    lemma_cat_le_len(vs.drop_last());
    lemma_num_le_len(vs.last());
    if k == n - 1 {
        assert(cat_le(vs).subrange(32 * k, 32 * k + 32) =~= num_le(vs.last()));
    } else {
        lemma_cat_le_piece(vs.drop_last(), k);
        assert(cat_le(vs).subrange(32 * k, 32 * k + 32) =~= pre.subrange(32 * k, 32 * k + 32));
    }
}

/// Bytes made of the encodings of the values, piece by piece, are their
/// concatenation.
pub proof fn lemma_cat_le_unique(s: Seq<u8>, vs: Seq<nat>)
    requires
        s.len() == 32 * vs.len(),
        forall|k: int| 0 <= k < vs.len() ==> #[trigger] s.subrange(32 * k, 32 * k + 32) == num_le(
            vs[k],
        ),
    ensures
        s == cat_le(vs),
    decreases vs.len(),
{
    let n = vs.len() as int;
    if n == 0 {
        assert(s =~= cat_le(vs));
    } else {
        let t = s.subrange(0, 32 * (n - 1));
        assert forall|k: int| 0 <= k < vs.drop_last().len() implies #[trigger] t.subrange(
            32 * k,
            32 * k + 32,
        ) == num_le(vs.drop_last()[k]) by {
            assert(t.subrange(32 * k, 32 * k + 32) =~= s.subrange(32 * k, 32 * k + 32));
        }
        lemma_cat_le_unique(t, vs.drop_last());
        assert(s.subrange(32 * (n - 1), 32 * (n - 1) + 32) == num_le(vs[n - 1]));
        assert(s =~= t + s.subrange(32 * (n - 1), 32 * (n - 1) + 32));
    }
}

} // verus!
