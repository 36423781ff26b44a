//! Facts about modular exponentiation shared by the field and the scalars.
use vstd::prelude::*;
use vstd::arithmetic::power::{pow, lemma_pow_adds, lemma_pow_multiplies, lemma_pow_mod_noop, lemma_square_is_pow2, lemma_pow0, lemma_pow1};
use vstd::arithmetic::div_mod::{lemma_mul_mod_noop_left, lemma_mul_mod_noop_right, lemma_small_mod, lemma_fundamental_div_mod};
use vstd::arithmetic::mul::{lemma_mul_is_associative, lemma_mul_is_commutative};

verus! {

/// One step of right-to-left square-and-multiply keeps
/// `res * base^e (mod m)` unchanged.
pub proof fn lemma_pow_step(res: int, base: int, e: nat, m: int)
    requires
        m > 0,
    ensures
        ((if e % 2 == 1 { (res * base) % m } else { res }) * pow((base * base) % m, e / 2)) % m
            == (res * pow(base, e)) % m,
{
    let h = e / 2;
    let bit: nat = e % 2;
    assert(e == 2 * h + bit);
    let bb = base * base;
    lemma_square_is_pow2(base);
    lemma_pow_multiplies(base, 2, h);
    lemma_pow_adds(base, 2 * h, bit);
    assert(pow(base, e) == pow(bb, h) * pow(base, bit));
    let q = pow(bb, h);
    lemma_pow_mod_noop(bb, h, m);
    let q2 = pow(bb % m, h);
    assert(q2 % m == q % m);
    if bit == 1 {
        lemma_pow1(base);
        let r2 = (res * base) % m;
        // (r2 * q2) % m == ((res*base) * q2) % m == ((res*base) * q) % m
        lemma_mul_mod_noop_left(res * base, q2, m);
        lemma_mul_mod_noop_right(res * base, q2, m);
        lemma_mul_mod_noop_right(res * base, q, m);
        lemma_mul_is_associative(res, base, q);
        lemma_mul_is_commutative(base, q);
        lemma_mul_is_associative(res, q, base);
    } else {
        lemma_pow0(base);
        lemma_mul_mod_noop_right(res, q2, m);
        lemma_mul_mod_noop_right(res, q, m);
    }
}

} // verus!
