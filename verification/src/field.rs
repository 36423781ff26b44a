//! Arithmetic modulo p = 2^255 - 19 on four 64-bit limbs.
use vstd::prelude::*;
use vstd::arithmetic::div_mod::*;
use vstd::arithmetic::power::{pow, lemma_pow0};
use crate::modarith::lemma_pow_step;
use crate::limbs::{b64, b128, b192, b255, b256, limbs_val, lemma_split_u128, lemma_limbs_eq, lemma_limbs_injective, lemma_limbs_order, lemma_limbs_bound, limbs_le, limbs_to_le, sub_borrow, add_wrapping, limbs8_val, mul_wide, lemma_low_bit, lemma_top_bit, limbs_ge, limbs_shr1};

verus! {

/// The Curve25519 prime 2^255 - 19.
#[verifier::inline]
pub open spec fn p() -> nat {
    0x7fff_ffff_ffff_ffff_ffff_ffff_ffff_ffff_ffff_ffff_ffff_ffff_ffff_ffff_ffff_ffednat
}

/// A 256-bit integer in four little-endian limbs, read modulo p. Values are
/// not required to be below p; every operation says what it does with the
/// limbs it gets.
#[derive(Clone, Copy, Debug, Eq, PartialEq)]
pub struct Fe(pub [u64; 4]);

impl View for Fe {
    type V = nat;

    open spec fn view(&self) -> nat {
        limbs_val(self.0)
    }
}

/// What `Fe::sub` computes: the difference, corrected by one addition of p
/// modulo 2^256 where the subtraction borrowed.
pub open spec fn fe_sub_raw(a: nat, b: nat) -> nat {
    if a >= b {
        (a - b) as nat
    } else if a + p() >= b {
        (a + p() - b) as nat
    } else {
        (a + p() + b256() - b) as nat
    }
}

/// Field addition on values.
pub open spec fn fadd(a: nat, b: nat) -> nat {
    (a + b) % p()
}

/// Field subtraction on values below p.
pub open spec fn fsub(a: nat, b: nat) -> nat {
    ((a + p()) - b) as nat % p()
}

/// Exponentiation modulo p on values.
pub open spec fn fpow(a: nat, e: nat) -> nat {
    (pow(a as int, e) % (p() as int)) as nat
}

/// Field multiplication on values.
pub open spec fn fmul(a: nat, b: nat) -> nat {
    (a * b) % p()
}

/// `x` equals `q * p + r` with `0 <= r < p`: then `r` is `x % p`.
pub proof fn lemma_mod_p_witness(x: int, q: int, r: int)
    requires
        0 <= r < p(),
        x == q * p() + r,
    ensures
        x % (p() as int) == r,
{
    lemma_fundamental_div_mod_converse(x, p() as int, q, r);
}

/// Folds the bits of `res + carry * 2^256` from bit 255 up back into the low
/// bits, using 2^255 = p + 19: the value drops by a multiple of p.
fn fold_high(res: [u64; 4], carry: u128) -> (out: [u64; 4])
    requires
        carry < 64,
    ensures
        limbs_val(out) + ((res[3] >> 63) as nat + 2 * carry) * p() == limbs_val(res) + carry
            * b256(),
        limbs_val(out) < b255() + 19 * ((res[3] >> 63) as nat + 2 * carry),
{
    let mut res = res;
    let ghost r_in = res;
    proof {
        lemma_top_bit(res[3]);
        assert((carry << 1u128) as u64 == 2 * carry) by (bit_vector)
            requires
                carry < 64u128,
        ;
    }
    let h = (res[3] >> 63) + (carry << 1) as u64;
    res[3] &= 0x7fffffffffffffff;
    let ghost low = res;
    let mut carry2 = (h as u128) * 19;
    let sum = (res[0] as u128) + carry2;
    proof {
        lemma_split_u128(sum);
    }
    res[0] = sum as u64;
    carry2 = sum >> 64;
    let sum = (res[1] as u128) + carry2;
    proof {
        lemma_split_u128(sum);
    }
    res[1] = sum as u64;
    carry2 = sum >> 64;
    let sum = (res[2] as u128) + carry2;
    proof {
        lemma_split_u128(sum);
    }
    res[2] = sum as u64;
    carry2 = sum >> 64;
    let sum = (res[3] as u128) + carry2;
    proof {
        lemma_split_u128(sum);
        lemma_limbs_bound(res);
    }
    res[3] = sum as u64;
    proof {
        lemma_limbs_bound(res);
        assert(limbs_val(res) + (sum >> 64) as nat * b256() == limbs_val(low) + 19 * h);
        assert(limbs_val(low) < b255());
        assert((sum >> 64) == 0);
    }
    res
}


/// The limb of `x:y >> 63` built from two adjacent limbs.
pub proof fn lemma_shift63_pair(x: u64, y: u64)
    ensures
        ((x >> 63) | (y << 1)) as nat == (x >> 63) as nat + 2 * (y & 0x7fff_ffff_ffff_ffff) as nat,
{
    assert(((x >> 63u64) | (y << 1u64)) == (x >> 63u64) + 2 * (y & 0x7fff_ffff_ffff_ffffu64))
        by (bit_vector);
}

/// Splits a product of eight limbs at bit 255 and adds nineteen times the
/// high part to the low part: the result stands for a value congruent to the
/// product modulo p, given as four limbs plus a small top carry.
fn reduce_wide(prod: &[u64; 8]) -> (r: ([u64; 4], u128))
    ensures
        r.1 < 64,
        (limbs_val(r.0) + r.1 * b256()) as int == limbs8_val(*prod) as int - (limbs8_val(*prod)
            as int / b255() as int) * p(),
{
    let mut l = [0u64; 4];
    l[0] = prod[0];
    l[1] = prod[1];
    l[2] = prod[2];
    l[3] = prod[3] & 0x7fffffffffffffff;

    let mut h = [0u64; 5];
    h[0] = (prod[3] >> 63) | (prod[4] << 1);
    h[1] = (prod[4] >> 63) | (prod[5] << 1);
    h[2] = (prod[5] >> 63) | (prod[6] << 1);
    h[3] = (prod[6] >> 63) | (prod[7] << 1);
    h[4] = prod[7] >> 63;
    proof {
        lemma_shift63_pair(prod[3], prod[4]);
        lemma_shift63_pair(prod[4], prod[5]);
        lemma_shift63_pair(prod[5], prod[6]);
        lemma_shift63_pair(prod[6], prod[7]);
        lemma_top_bit(prod[3]);
        lemma_top_bit(prod[4]);
        lemma_top_bit(prod[5]);
        lemma_top_bit(prod[6]);
        lemma_top_bit(prod[7]);
    }
    let ghost hv: nat = h[0] as nat + h[1] as nat * b64() + h[2] as nat * b128() + h[3] as nat
        * b192() + h[4] as nat * b256();
    proof {
        assert(limbs8_val(*prod) == limbs_val(l) + hv * b255());
        lemma_limbs_bound(l);
        assert(limbs_val(l) < b255());
        lemma_fundamental_div_mod_converse(
            limbs8_val(*prod) as int,
            b255() as int,
            hv as int,
            limbs_val(l) as int,
        );
    }

    let mut carry_mul = 0u128;
    let mut res = l;
    let term = (h[0] as u128) * 19 + carry_mul + (res[0] as u128);
    proof {
        lemma_split_u128(term);
    }
    res[0] = term as u64;
    carry_mul = term >> 64;
    let term = (h[1] as u128) * 19 + carry_mul + (res[1] as u128);
    proof {
        lemma_split_u128(term);
    }
    res[1] = term as u64;
    carry_mul = term >> 64;
    let term = (h[2] as u128) * 19 + carry_mul + (res[2] as u128);
    proof {
        lemma_split_u128(term);
    }
    res[2] = term as u64;
    carry_mul = term >> 64;
    let term = (h[3] as u128) * 19 + carry_mul + (res[3] as u128);
    proof {
        lemma_split_u128(term);
    }
    res[3] = term as u64;
    carry_mul = term >> 64;
    let carry_mul2 = (h[4] as u128) * 19 + carry_mul;
    proof {
        assert(limbs_val(res) + carry_mul2 * b256() == limbs_val(l) + 19 * hv);
    }
    (res, carry_mul2)
}

impl Fe {
    /// The modulus p as limbs.
    pub fn modulus() -> (r: Fe)
        ensures
            r@ == p(),
    {
        Fe([0xffffffffffffffed, 0xffffffffffffffff, 0xffffffffffffffff, 0x7fffffffffffffff])
    }

    pub fn zero() -> (r: Self)
        ensures
            r@ == 0,
            r.0 == [0u64, 0, 0, 0],
    {
        Fe([0;4])
    }

    pub fn one() -> (r: Self)
        ensures
            r@ == 1,
            r.0 == [1u64, 0, 0, 0],
    {
        Fe([1, 0, 0, 0])
    }

    pub fn from_u64(val: u64) -> (r: Self)
        ensures
            r@ == val,
            r.0 == [val, 0, 0, 0],
    {
        Fe([val, 0, 0, 0])
    }

    pub fn is_zero(&self) -> (r: bool)
        ensures
            r == (self@ == 0),
    {
        self.0[0] == 0 && self.0[1] == 0 && self.0[2] == 0 && self.0[3] == 0
    }

    /// Limb-wise equality, which is equality of values.
    pub fn eq_fe(&self, other: &Self) -> (r: bool)
        ensures
            r == (self@ == other@),
            r == (self.0 == other.0),
    {
        let r = self.0[0] == other.0[0] && self.0[1] == other.0[1] && self.0[2] == other.0[2]
            && self.0[3] == other.0[3];
        proof {
            if r {
                lemma_limbs_eq(self.0, other.0);
            }
            if self@ == other@ {
                lemma_limbs_injective(self.0, other.0);
            }
        }
        r
    }

    pub fn ge(&self, other: &Self) -> (r: bool)
        ensures
            r == (self@ >= other@),
    {
        limbs_ge(&self.0, &other.0)
    }

    pub fn sub(self, other: Self) -> (r: Self)
        ensures
            r@ == fe_sub_raw(self@, other@),
            self@ < p() && other@ < p() ==> r@ == fsub(self@, other@) && r@ < p(),
    {
        let (mut res, borrow) = sub_borrow(&self.0, &other.0);
        if borrow > 0 {
            res = add_wrapping(&res, &Self::modulus().0);
        }
        proof {
            lemma_limbs_bound(self.0);
            lemma_limbs_bound(other.0);
        }
        let r = Fe(res);
        proof {
            if self@ < p() && other@ < p() {
                if self@ >= other@ {
                    lemma_mod_p_witness(self@ + p() - other@, 1, self@ - other@);
                } else {
                    lemma_mod_p_witness(self@ + p() - other@, 0, self@ + p() - other@);
                }
            }
        }
        r
    }

    pub fn add(self, other: Self) -> (r: Self)
        ensures
            r@ == fadd(self@, other@),
            r@ < p(),
    {
        let mut res = [0u64; 4];
        let mut carry = 0u128;
        let sum = (self.0[0] as u128) + (other.0[0] as u128) + carry;
        proof {
            lemma_split_u128(sum);
        }
        res[0] = sum as u64;
        carry = sum >> 64;
        let sum = (self.0[1] as u128) + (other.0[1] as u128) + carry;
        proof {
            lemma_split_u128(sum);
        }
        res[1] = sum as u64;
        carry = sum >> 64;
        let sum = (self.0[2] as u128) + (other.0[2] as u128) + carry;
        proof {
            lemma_split_u128(sum);
        }
        res[2] = sum as u64;
        carry = sum >> 64;
        let sum = (self.0[3] as u128) + (other.0[3] as u128) + carry;
        proof {
            lemma_split_u128(sum);
        }
        res[3] = sum as u64;
        carry = sum >> 64;
        proof {
            lemma_limbs_bound(self.0);
            lemma_limbs_bound(other.0);
            lemma_limbs_bound(res);
            assert(limbs_val(res) + carry * b256() == self@ + other@);
            assert(carry <= 1);
            lemma_top_bit(res[3]);
        }
        let mut out = Fe(fold_high(res, carry));
        let ghost h: int = (res[3] >> 63) as nat + 2 * carry;
        if out.ge(&Self::modulus()) {
            out = out.sub(Self::modulus());
            proof {
                lemma_mod_p_witness((self@ + other@) as int, h + 1, out@ as int);
            }
        } else {
            proof {
                lemma_mod_p_witness((self@ + other@) as int, h, out@ as int);
            }
        }
        out
    }

    pub fn neg(self) -> (r: Self)
        ensures
            r@ == fe_sub_raw(0, self@),
            self@ < p() ==> r@ == fsub(0, self@) && r@ < p(),
    {
        Self::zero().sub(self)
    }

    pub fn shr1(self) -> (r: Self)
        ensures
            r@ == self@ / 2,
    {
        Fe(limbs_shr1(&self.0))
    }

    pub fn to_bytes(&self) -> (r: [u8; 32])
        ensures
            r@ == limbs_le(self.0),
    {
        limbs_to_le(&self.0)
    }

    pub fn mul(self, other: Self) -> (r: Self)
        ensures
            r@ == fmul(self@, other@),
            r@ < p(),
    {
        let prod = mul_wide(&self.0, &other.0);
        let (res, carry_mul2) = reduce_wide(&prod);
        proof {
            lemma_top_bit(res[3]);
            lemma_limbs_bound(res);
        }
        let mut out = Fe(fold_high(res, carry_mul2));
        let ghost prodv: int = limbs8_val(prod) as int;
        let ghost mut k: int = prodv / b255() as int + (res[3] >> 63) as int + 2 * carry_mul2;
        while out.ge(&Self::modulus())
            invariant
                out@ + k * p() == prodv,
                out@ < b255() + 19 * 64 * 3,
            decreases out@,
        {
            out = out.sub(Self::modulus());
            proof {
                k = k + 1;
            }
        }
        proof {
            lemma_mod_p_witness(prodv, k, out@ as int);
        }
        out
    }

    pub fn pow(self, exp: Self) -> (r: Self)
        ensures
            r@ == fpow(self@, exp@),
            r@ < p(),
    {
        let mut res = Self::one();
        let mut base = self;
        let mut e = exp;
        while !e.is_zero()
            invariant
                res@ < p(),
                (res@ * pow(base@ as int, e@)) % (p() as int) == pow(self@ as int, exp@) % (p() as int),
            decreases e@,
        {
            proof {
                lemma_low_bit(e.0);
                lemma_pow_step(res@ as int, base@ as int, e@, p() as int);
            }
            if e.0[0] & 1 == 1 {
                res = res.mul(base);
            }
            base = base.mul(base);
            e = e.shr1();
        }
        proof {
            lemma_pow0(base@ as int);
            lemma_small_mod(res@, p());
        }
        res
    }

    pub fn invert(self) -> (r: Self)
        ensures
            r@ == fpow(self@, (p() - 2) as nat),
            r@ < p(),
    {
        let pm2 = Fe([0xffffffffffffffeb, 0xffffffffffffffff, 0xffffffffffffffff, 0x7fffffffffffffff]);
        self.pow(pm2)
    }
}


/// Addition is commutative: `a.add(b)` and `b.add(a)` have one value.
pub proof fn lemma_fadd_commutes(a: nat, b: nat)
    ensures
        fadd(a, b) == fadd(b, a),
{
}

/// Multiplication is commutative.
pub proof fn lemma_fmul_commutes(a: nat, b: nat)
    ensures
        fmul(a, b) == fmul(b, a),
{
    assert(a * b == b * a) by (nonlinear_arith);
}

/// Multiplication is associative.
pub proof fn lemma_fmul_associates(a: nat, b: nat, c: nat)
    ensures
        fmul(fmul(a, b), c) == fmul(a, fmul(b, c)),
{
    let m = p() as int;
    lemma_mul_mod_noop_left((a * b) as int, c as int, m);
    lemma_mul_mod_noop_right(a as int, (b * c) as int, m);
    assert((a * b) * c == a * (b * c)) by (nonlinear_arith);
}

/// Multiplication distributes over addition.
pub proof fn lemma_fmul_distributes(a: nat, b: nat, c: nat)
    ensures
        fmul(a, fadd(b, c)) == fadd(fmul(a, b), fmul(a, c)),
{
    let m = p() as int;
    lemma_mul_mod_noop_right(a as int, (b + c) as int, m);
    assert(a * (b + c) == a * b + a * c) by (nonlinear_arith);
    lemma_add_mod_noop((a * b) as int, (a * c) as int, m);
}

/// One is neutral for multiplication and zero for addition, on reduced
/// values.
pub proof fn lemma_fe_neutral(a: nat)
    requires
        a < p(),
    ensures
        fmul(a, 1) == a,
        fadd(a, 0) == a,
{
    lemma_small_mod(a, p());
}

/// Subtracting `b` and adding it back gives the value back, and so does
/// adding and subtracting, on reduced values.
pub proof fn lemma_fsub_fadd_inverse(a: nat, b: nat)
    requires
        a < p(),
        b < p(),
    ensures
        fadd(fsub(a, b), b) == a,
        fsub(fadd(a, b), b) == a,
{
    let m = p() as int;
    lemma_add_mod_noop((a + m - b) as int, b as int, m);
    lemma_mod_twice((a + m - b) as int, m);
    assert((a + m - b) + b == a + m);
    lemma_mod_add_multiples_vanish(a as int, m);
    lemma_small_mod(a, p());
    lemma_mod_bound((a + b) as int, m);
    lemma_sub_mod_noop((a + b) as int + m, b as int, m);
    lemma_mod_add_multiples_vanish((a + b) as int, m);
    lemma_mod_twice((a + b) as int, m);
    lemma_small_mod(b, p());
}

/// Negation undoes itself, and a value plus its negation is zero, on reduced
/// values.
pub proof fn lemma_fe_negation(a: nat)
    requires
        a < p(),
    ensures
        fsub(0, fsub(0, a)) == a,
        fadd(a, fsub(0, a)) == 0,
{
    let m = p() as int;
    if a == 0 {
        lemma_mod_self_0(m);
        lemma_small_mod(0, p());
    } else {
        lemma_small_mod((m - a) as nat, p());
        lemma_small_mod(a, p());
        lemma_mod_self_0(m);
    }
}


/// Congruence modulo p.
#[verifier::opaque]
pub open spec fn eqp(a: int, b: int) -> bool {
    a % (p() as int) == b % (p() as int)
}

pub proof fn lemma_eqp_refl(a: int)
    ensures
        eqp(a, a),
{
    reveal(eqp);
}

pub proof fn lemma_eqp_symm(a: int, b: int)
    requires
        eqp(a, b),
    ensures
        eqp(b, a),
{
    reveal(eqp);
}

pub proof fn lemma_eqp_trans(a: int, b: int, c: int)
    requires
        eqp(a, b),
        eqp(b, c),
    ensures
        eqp(a, c),
{
    reveal(eqp);
}

pub proof fn lemma_eqp_add(a: int, b: int, c: int, d: int)
    requires
        eqp(a, c),
        eqp(b, d),
    ensures
        eqp(a + b, c + d),
{
    reveal(eqp);
    lemma_add_mod_noop(a, b, p() as int);
    lemma_add_mod_noop(c, d, p() as int);
}

pub proof fn lemma_eqp_sub(a: int, b: int, c: int, d: int)
    requires
        eqp(a, c),
        eqp(b, d),
    ensures
        eqp(a - b, c - d),
{
    reveal(eqp);
    lemma_sub_mod_noop(a, b, p() as int);
    lemma_sub_mod_noop(c, d, p() as int);
}

pub proof fn lemma_eqp_mul(a: int, b: int, c: int, d: int)
    requires
        eqp(a, c),
        eqp(b, d),
    ensures
        eqp(a * b, c * d),
{
    reveal(eqp);
    lemma_mul_mod_noop(a, b, p() as int);
    lemma_mul_mod_noop(c, d, p() as int);
}

/// A value reduced modulo p is congruent to the value.
pub proof fn lemma_eqp_mod(a: int)
    ensures
        eqp(a % (p() as int), a),
{
    reveal(eqp);
    lemma_mod_twice(a, p() as int);
}

/// The difference that `Fe::sub` computes on reduced values is congruent to
/// the integer difference.
pub proof fn lemma_eqp_sub_raw(a: nat, b: nat)
    requires
        b < p(),
    ensures
        eqp(fe_sub_raw(a, b) as int, a - b),
{
    reveal(eqp);
    if a < b {
        lemma_mod_add_multiples_vanish(a - b, p() as int);
    }
}

/// Two reduced values are congruent exactly when equal.
pub proof fn lemma_eqp_reduced(a: nat, b: nat)
    requires
        a < p(),
        b < p(),
    ensures
        eqp(a as int, b as int) == (a == b),
{
    reveal(eqp);
    lemma_small_mod(a, p());
    lemma_small_mod(b, p());
}

/// Congruence is divisibility of the difference.
pub proof fn lemma_eqp_diff(a: int, b: int)
    ensures
        eqp(a, b) == ((a - b) % (p() as int) == 0),
{
    reveal(eqp);
    let m = p() as int;
    lemma_sub_mod_noop(a, b, m);
    let t = a % m - b % m;
    if t < 0 {
        lemma_mod_add_multiples_vanish(t, m);
        lemma_small_mod((t + m) as nat, p());
    } else {
        lemma_small_mod(t as nat, p());
    }
}

} // verus!
