//! Arithmetic modulo the group order
//! l = 2^252 + 27742317777372353535851937790883648493 on four 64-bit limbs.
use vstd::prelude::*;
use vstd::arithmetic::div_mod::{lemma_fundamental_div_mod_converse, lemma_small_mod, lemma_add_mod_noop, lemma_mul_mod_noop_right, lemma_mul_mod_noop_left, lemma_mod_bound, lemma_mod_twice, lemma_mod_add_multiples_vanish, lemma_sub_mod_noop, lemma_mod_self_0};
use vstd::arithmetic::power::{pow, lemma_pow0};
use vstd::arithmetic::power2::{pow2, lemma_pow2_unfold, lemma2_to64};
use crate::modarith::lemma_pow_step;
use crate::limbs::{b64, b128, b192, b256, b320, b384, b448, limbs_val, limbs8_val, lemma_split_u128, lemma_limbs_eq, lemma_limbs_injective, lemma_limbs_bound, limbs_le, limbs_to_le, sub_borrow, add_wrapping, mul_wide, lemma_low_bit, lemma_top_bit, limbs_ge, limbs_shr1};

verus! {

/// The order l of the Ed25519 base point.
#[verifier::inline]
pub open spec fn l_order() -> nat {
    0x1000_0000_0000_0000_0000_0000_0000_0000_14de_f9de_a2f7_9cd6_5812_631a_5cf5_d3ednat
}

/// A 256-bit integer in four little-endian limbs, read modulo l. As with the
/// field elements, every operation says what it does with any limbs.
#[derive(Clone, Copy, Debug, Eq, PartialEq)]
pub struct Sc(pub [u64; 4]);

impl View for Sc {
    type V = nat;

    open spec fn view(&self) -> nat {
        limbs_val(self.0)
    }
}

/// What `Sc::sub` computes: the difference, corrected by one addition of l
/// modulo 2^256 where the subtraction borrowed.
pub open spec fn sc_sub_raw(a: nat, b: nat) -> nat {
    if a >= b {
        (a - b) as nat
    } else if a + l_order() >= b {
        (a + l_order() - b) as nat
    } else {
        (a + l_order() + b256() - b) as nat
    }
}

/// What `Sc::add` computes: the sum modulo 2^256, less l where the sum
/// overflowed or reached l.
pub open spec fn sc_add_raw(a: nat, b: nat) -> nat {
    if a + b >= b256() {
        let o = (a + b - b256()) as nat;
        if o >= l_order() {
            (o - l_order()) as nat
        } else {
            o
        }
    } else if a + b >= l_order() {
        (a + b - l_order()) as nat
    } else {
        a + b
    }
}

/// Addition modulo l on values.
pub open spec fn sadd(a: nat, b: nat) -> nat {
    (a + b) % l_order()
}

/// Subtraction modulo l on values below l.
pub open spec fn ssub(a: nat, b: nat) -> nat {
    ((a + l_order()) - b) as nat % l_order()
}

/// Multiplication modulo l on values.
pub open spec fn smul(a: nat, b: nat) -> nat {
    (a * b) % l_order()
}

/// Inversion as the code computes it: the power l - 2.
pub open spec fn sinv(a: nat) -> nat {
    spow(a, (l_order() - 2) as nat)
}

/// Exponentiation modulo l on values.
pub open spec fn spow(a: nat, e: nat) -> nat {
    (pow(a as int, e) % (l_order() as int)) as nat
}

/// The value of bits `i..512` of an eight-limb integer.
pub open spec fn prod_top(prod: [u64; 8], i: nat) -> nat
    decreases 512 - i,
{
    if i >= 512 {
        0
    } else {
        2 * prod_top(prod, i + 1) + prod_bit(prod, i)
    }
}

/// Bit `i` of an eight-limb integer.
pub open spec fn prod_bit(prod: [u64; 8], i: nat) -> nat {
    ((prod[(i / 64) as int] >> ((i % 64) as u64)) & 1) as nat
}

/// Within limb `q`, the bits from `s` up are the limb shifted right by `s`,
/// followed by the limbs above.
proof fn lemma_prod_top_limb(prod: [u64; 8], q: nat, s: nat)
    requires
        q < 8,
        s <= 64,
    ensures
        prod_top(prod, 64 * q + s) == (if s < 64 { (prod[q as int] >> (s as u64)) as nat } else { 0 })
            + pow2((64 - s) as nat) * prod_top(prod, 64 * q + 64),
    decreases 64 - s,
{
    lemma2_to64();
    if s < 64 {
        lemma_prod_top_limb(prod, q, s + 1);
        let i: nat = 64 * q + s;
        let t = prod_top(prod, 64 * q + 64);
        lemma_fundamental_div_mod_converse(i as int, 64, q as int, s as int);
        assert(prod_bit(prod, i) == ((prod[q as int] >> (s as u64)) & 1) as nat);
        assert(prod_top(prod, i) == 2 * prod_top(prod, i + 1) + prod_bit(prod, i));
        let x = prod[q as int];
        let sh = s as u64;
        lemma_pow2_unfold((64 - s) as nat);
        let pw = pow2((63 - s) as nat);
        assert(pow2((64 - s) as nat) == 2 * pw);
        if s < 63 {
            let sh1 = (s + 1) as u64;
            assert((x >> sh) == 2 * (x >> sh1) + ((x >> sh) & 1)) by (bit_vector)
                requires
                    sh < 63,
                    sh1 == sh + 1,
            ;
            assert(prod_top(prod, i + 1) == (x >> sh1) as nat + pw * t);
            assert(prod_top(prod, i) == (x >> sh) as nat + (2 * pw) * t) by (nonlinear_arith)
                requires
                    prod_top(prod, i) == 2 * prod_top(prod, i + 1) + ((x >> sh) & 1) as nat,
                    prod_top(prod, i + 1) == (x >> sh1) as nat + pw * t,
                    (x >> sh) as nat == 2 * (x >> sh1) as nat + ((x >> sh) & 1) as nat,
            ;
            assert(prod_top(prod, i) == (x >> sh) as nat + pow2((64 - s) as nat) * t);
        } else {
            assert((x >> 63u64) == ((x >> 63u64) & 1)) by (bit_vector);
            assert(pw == 1);
            assert(prod_top(prod, i + 1) == t);
            assert(prod_top(prod, i) == (x >> sh) as nat + pow2((64 - s) as nat) * t);
        }
        assert(prod_top(prod, 64 * q + s) == (prod[q as int] >> (s as u64)) as nat + pow2((64 - s) as nat) * t);
    } else {
        assert(pow2(0) == 1);
        let t = prod_top(prod, 64 * q + 64);
        assert(pow2(0) * t == t) by (nonlinear_arith)
            requires
                pow2(0) == 1,
        ;
        assert(prod_top(prod, 64 * q + s) == pow2((64 - s) as nat) * prod_top(prod, 64 * q + 64));
    }
}

/// Limb `q` and the limbs above it.
proof fn lemma_prod_top_step(prod: [u64; 8], q: nat)
    requires
        q < 8,
    ensures
        prod_top(prod, 64 * q) == prod[q as int] as nat + b64() * prod_top(prod, 64 * q + 64),
{
    lemma_prod_top_limb(prod, q, 0);
    let x = prod[q as int];
    assert((x >> 0u64) == x) by (bit_vector);
    vstd::arithmetic::power2::lemma2_to64_rest();
}

/// The bits of the whole product make up its value.
proof fn lemma_prod_top_all(prod: [u64; 8])
    ensures
        prod_top(prod, 0) == limbs8_val(prod),
{
    lemma_prod_top_step(prod, 0);
    lemma_prod_top_step(prod, 1);
    lemma_prod_top_step(prod, 2);
    lemma_prod_top_step(prod, 3);
    lemma_prod_top_step(prod, 4);
    lemma_prod_top_step(prod, 5);
    lemma_prod_top_step(prod, 6);
    lemma_prod_top_step(prod, 7);
    assert(prod_top(prod, 512) == 0);
}

/// Doubling four limbs: the limbs shifted left by one bit, and the bit that
/// leaves the top limb.
fn shl1_limbs(r: &[u64; 4]) -> (out: ([u64; 4], u64))
    ensures
        limbs_val(out.0) + out.1 as nat * b256() == 2 * limbs_val(*r),
        out.1 == r[3] >> 63,
        out.0[0] & 1 == 0,
{
    let mut res = *r;
    let mut carry_r = 0u64;
    let next_carry = res[0] >> 63;
    res[0] = (res[0] << 1) | carry_r;
    carry_r = next_carry;
    let next_carry = res[1] >> 63;
    res[1] = (res[1] << 1) | carry_r;
    carry_r = next_carry;
    let next_carry = res[2] >> 63;
    res[2] = (res[2] << 1) | carry_r;
    carry_r = next_carry;
    let next_carry = res[3] >> 63;
    res[3] = (res[3] << 1) | carry_r;
    carry_r = next_carry;
    proof {
        lemma_top_bit(r[0]);
        lemma_top_bit(r[1]);
        lemma_top_bit(r[2]);
        lemma_top_bit(r[3]);
        lemma_shl1_limb(r[0], 0);
        lemma_shl1_limb(r[1], r[0] >> 63);
        lemma_shl1_limb(r[2], r[1] >> 63);
        lemma_shl1_limb(r[3], r[2] >> 63);
        let x = r[0];
        assert((((x << 1u64) | 0u64) & 1u64) == 0u64) by (bit_vector);
    }
    (res, carry_r)
}

/// Shifting a limb left by one and filling in a bit from below.
proof fn lemma_shl1_limb(x: u64, c: u64)
    requires
        c <= 1,
    ensures
        ((x << 1) | c) as nat == 2 * (x & 0x7fff_ffff_ffff_ffff) as nat + c as nat,
{
    assert(((x << 1u64) | c) == 2 * (x & 0x7fff_ffff_ffff_ffffu64) + c) by (bit_vector)
        requires
            c <= 1u64,
    ;
}

/// `x % l` from a witness `x == q * l + r` with `0 <= r < l`.
pub proof fn lemma_mod_l_witness(x: int, q: int, r: int)
    requires
        0 <= r < l_order(),
        x == q * l_order() + r,
    ensures
        x % (l_order() as int) == r,
{
    lemma_fundamental_div_mod_converse(x, l_order() as int, q, r);
}

impl Sc {
    /// The group order l as limbs.
    pub fn order() -> (r: Sc)
        ensures
            r@ == l_order(),
    {
        Sc([0x5812631a5cf5d3ed, 0x14def9dea2f79cd6, 0x0, 0x1000000000000000])
    }

    /// 2^256 - l as limbs.
    pub fn diff() -> (r: Sc)
        ensures
            r@ == b256() - l_order(),
    {
        Sc([0xa7ed9ce5a30a2c13, 0xeb2106215d086329, 0xffffffffffffffff, 0xefffffffffffffff])
    }

    pub fn zero() -> (r: Self)
        ensures
            r@ == 0,
            r.0 == [0u64, 0, 0, 0],
    {
        Sc([0;4])
    }

    pub fn one() -> (r: Self)
        ensures
            r@ == 1,
            r.0 == [1u64, 0, 0, 0],
    {
        Sc([1, 0, 0, 0])
    }

    pub fn from_u64(val: u64) -> (r: Self)
        ensures
            r@ == val,
            r.0 == [val, 0, 0, 0],
    {
        Sc([val, 0, 0, 0])
    }

    pub fn is_zero(&self) -> (r: bool)
        ensures
            r == (self@ == 0),
    {
        self.0[0] == 0 && self.0[1] == 0 && self.0[2] == 0 && self.0[3] == 0
    }

    /// Limb-wise equality, which is equality of values.
    pub fn eq_sc(&self, other: &Self) -> (r: bool)
        ensures
            r == (self@ == other@),
            r == (self.0 == other.0),
    {
        let r = self.0[0] == other.0[0] && self.0[1] == other.0[1] && self.0[2] == other.0[2]
            && self.0[3] == other.0[3];
        proof {
            if r {
                lemma_limbs_eq(self.0, other.0);
            }
            if self@ == other@ {
                lemma_limbs_injective(self.0, other.0);
            }
        }
        r
    }

    pub fn ge(&self, other: &Self) -> (r: bool)
        ensures
            r == (self@ >= other@),
    {
        limbs_ge(&self.0, &other.0)
    }

    pub fn sub(self, other: Self) -> (r: Self)
        ensures
            r@ == sc_sub_raw(self@, other@),
            self@ < l_order() && other@ < l_order() ==> r@ == ssub(self@, other@) && r@ < l_order(),
    {
        let (mut res, borrow) = sub_borrow(&self.0, &other.0);
        if borrow > 0 {
            res = add_wrapping(&res, &Self::order().0);
        }
        proof {
            lemma_limbs_bound(self.0);
            lemma_limbs_bound(other.0);
        }
        let r = Sc(res);
        proof {
            if self@ < l_order() && other@ < l_order() {
                if self@ >= other@ {
                    lemma_mod_l_witness(self@ + l_order() - other@, 1, self@ - other@);
                } else {
                    lemma_mod_l_witness(self@ + l_order() - other@, 0, self@ + l_order() - other@);
                }
            }
        }
        r
    }

    pub fn add(self, other: Self) -> (r: Self)
        ensures
            r@ == sc_add_raw(self@, other@),
            self@ < l_order() && other@ < l_order() ==> r@ == sadd(self@, other@) && r@ < l_order(),
    {
        let mut res = [0u64; 4];
        let mut carry = 0u128;
        let sum = (self.0[0] as u128) + (other.0[0] as u128) + carry;
        proof {
            lemma_split_u128(sum);
        }
        res[0] = sum as u64;
        carry = sum >> 64;
        let sum = (self.0[1] as u128) + (other.0[1] as u128) + carry;
        proof {
            lemma_split_u128(sum);
        }
        res[1] = sum as u64;
        carry = sum >> 64;
        let sum = (self.0[2] as u128) + (other.0[2] as u128) + carry;
        proof {
            lemma_split_u128(sum);
        }
        res[2] = sum as u64;
        carry = sum >> 64;
        let sum = (self.0[3] as u128) + (other.0[3] as u128) + carry;
        proof {
            lemma_split_u128(sum);
        }
        res[3] = sum as u64;
        carry = sum >> 64;
        proof {
            lemma_limbs_bound(self.0);
            lemma_limbs_bound(other.0);
            lemma_limbs_bound(res);
            assert(limbs_val(res) + carry * b256() == self@ + other@);
        }
        let mut out = Sc(res);
        let ghost o = limbs_val(res);
        if carry > 0 || out.ge(&Self::order()) {
            out = out.sub(Self::order());
            proof {
                if o >= l_order() {
                    assert(out@ == o - l_order());
                } else {
                    assert(out@ == o);
                }
            }
        }
        proof {
            if self@ < l_order() && other@ < l_order() {
                assert(carry == 0);
                if self@ + other@ >= l_order() {
                    assert(out@ == self@ + other@ - l_order());
                    lemma_mod_l_witness((self@ + other@) as int, 1, out@ as int);
                } else {
                    assert(out@ == self@ + other@);
                    lemma_mod_l_witness((self@ + other@) as int, 0, out@ as int);
                }
            }
        }
        out
    }

    pub fn neg(self) -> (r: Self)
        ensures
            r@ == sc_sub_raw(0, self@),
            self@ < l_order() ==> r@ == ssub(0, self@) && r@ < l_order(),
    {
        Self::zero().sub(self)
    }

    pub fn mul(self, other: Self) -> (r: Self)
        ensures
            r@ == smul(self@, other@),
            r@ < l_order(),
    {
        let prod = mul_wide(&self.0, &other.0);
        let mut r = [0u64; 4];
        let mut i: usize = 512;
        while i > 0
            invariant
                0 <= i <= 512,
                limbs_val(r) < l_order(),
                limbs_val(r) == prod_top(prod, i as nat) % l_order(),
            decreases i,
        {
            i -= 1;
            let ghost r_old = limbs_val(r);
            let (shifted, carry_r) = shl1_limbs(&r);
            r = shifted;
            let limb_idx = i / 64;
            let bit_idx = i % 64;
            let bit = (prod[limb_idx] >> (bit_idx as u64)) & 1;
            proof {
                lemma_limbs_bound(r);
                assert(carry_r == 0);
                let x = r[0];
                let y = prod[limb_idx as int] >> (bit_idx as u64);
                assert((y & 1u64) <= 1u64) by (bit_vector);
                assert((x | (y & 1u64)) == x + (y & 1u64)) by (bit_vector)
                    requires
                        (x & 1u64) == 0u64,
                ;
            }
            r[0] |= bit;
            let mut r_sc = Sc(r);
            proof {
                assert(r_sc@ == 2 * r_old + bit);
                assert(bit == prod_bit(prod, i as nat));
                assert(prod_top(prod, i as nat) == 2 * prod_top(prod, (i + 1) as nat) + bit);
                let t = prod_top(prod, (i + 1) as nat) as int;
                lemma_mul_mod_noop_right(2, t, l_order() as int);
                lemma_add_mod_noop(2 * t, bit as int, l_order() as int);
                lemma_mod_bound(2 * t, l_order() as int);
                lemma_small_mod(bit as nat, l_order());
                lemma_add_mod_noop(2 * (t % (l_order() as int)), bit as int, l_order() as int);
            }
            if carry_r > 0 {
                r_sc = r_sc.add(Self::diff());
            } else if r_sc.ge(&Self::order()) {
                r_sc = r_sc.sub(Self::order());
                proof {
                    lemma_mod_l_witness(2 * r_old + bit, 1, r_sc@ as int);
                }
            } else {
                proof {
                    lemma_mod_l_witness(2 * r_old + bit, 0, r_sc@ as int);
                }
            }
            r = r_sc.0;
        }
        proof {
            lemma_prod_top_all(prod);
        }
        Sc(r)
    }

    pub fn pow(self, exp: Self) -> (r: Self)
        ensures
            r@ == spow(self@, exp@),
            r@ < l_order(),
    {
        let mut res = Self::one();
        let mut base = self;
        let mut e = exp;
        while !e.is_zero()
            invariant
                res@ < l_order(),
                (res@ * pow(base@ as int, e@)) % (l_order() as int) == pow(self@ as int, exp@) % (
                l_order() as int),
            decreases e@,
        {
            proof {
                lemma_low_bit(e.0);
                lemma_pow_step(res@ as int, base@ as int, e@, l_order() as int);
            }
            if e.0[0] & 1 == 1 {
                res = res.mul(base);
            }
            base = base.mul(base);
            e = e.shr1();
        }
        proof {
            lemma_pow0(base@ as int);
            lemma_small_mod(res@, l_order());
        }
        res
    }

    pub fn shr1(self) -> (r: Self)
        ensures
            r@ == self@ / 2,
    {
        Sc(limbs_shr1(&self.0))
    }

    pub fn invert(self) -> (r: Self)
        ensures
            r@ == sinv(self@),
            r@ < l_order(),
    {
        let lm2 = Self::order().sub(Self::from_u64(2));
        self.pow(lm2)
    }

    pub fn to_bytes(&self) -> (r: [u8; 32])
        ensures
            r@ == limbs_le(self.0),
    {
        limbs_to_le(&self.0)
    }
}


/// Addition modulo l is commutative.
pub proof fn lemma_sadd_commutes(a: nat, b: nat)
    ensures
        sadd(a, b) == sadd(b, a),
{
}

/// Multiplication modulo l is commutative.
pub proof fn lemma_smul_commutes(a: nat, b: nat)
    ensures
        smul(a, b) == smul(b, a),
{
    assert(a * b == b * a) by (nonlinear_arith);
}

/// Multiplication modulo l is associative.
pub proof fn lemma_smul_associates(a: nat, b: nat, c: nat)
    ensures
        smul(smul(a, b), c) == smul(a, smul(b, c)),
{
    let m = l_order() as int;
    lemma_mul_mod_noop_left((a * b) as int, c as int, m);
    lemma_mul_mod_noop_right(a as int, (b * c) as int, m);
    assert((a * b) * c == a * (b * c)) by (nonlinear_arith);
}

/// Multiplication modulo l distributes over addition.
pub proof fn lemma_smul_distributes(a: nat, b: nat, c: nat)
    ensures
        smul(a, sadd(b, c)) == sadd(smul(a, b), smul(a, c)),
{
    let m = l_order() as int;
    lemma_mul_mod_noop_right(a as int, (b + c) as int, m);
    assert(a * (b + c) == a * b + a * c) by (nonlinear_arith);
    lemma_add_mod_noop((a * b) as int, (a * c) as int, m);
}

/// One is neutral for multiplication and zero for addition, on reduced
/// scalars.
pub proof fn lemma_sc_neutral(a: nat)
    requires
        a < l_order(),
    ensures
        smul(a, 1) == a,
        sadd(a, 0) == a,
{
    lemma_small_mod(a, l_order());
}

/// Subtracting `b` and adding it back gives the scalar back, and so does
/// adding and subtracting, on reduced scalars.
pub proof fn lemma_ssub_sadd_inverse(a: nat, b: nat)
    requires
        a < l_order(),
        b < l_order(),
    ensures
        sadd(ssub(a, b), b) == a,
        ssub(sadd(a, b), b) == a,
{
    let m = l_order() as int;
    lemma_add_mod_noop((a + m - b) as int, b as int, m);
    lemma_mod_twice((a + m - b) as int, m);
    assert((a + m - b) + b == a + m);
    lemma_mod_add_multiples_vanish(a as int, m);
    lemma_small_mod(a, l_order());
    lemma_mod_bound((a + b) as int, m);
    lemma_sub_mod_noop((a + b) as int + m, b as int, m);
    lemma_mod_add_multiples_vanish((a + b) as int, m);
    lemma_mod_twice((a + b) as int, m);
    lemma_small_mod(b, l_order());
}

/// Negation undoes itself, and a scalar plus its negation is zero, on
/// reduced scalars.
pub proof fn lemma_sc_negation(a: nat)
    requires
        a < l_order(),
    ensures
        ssub(0, ssub(0, a)) == a,
        sadd(a, ssub(0, a)) == 0,
{
    let m = l_order() as int;
    if a == 0 {
        lemma_mod_self_0(m);
        lemma_small_mod(0, l_order());
    } else {
        lemma_small_mod((m - a) as nat, l_order());
        lemma_small_mod(a, l_order());
        lemma_mod_self_0(m);
    }
}

} // verus!
