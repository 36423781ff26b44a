//! The exponent equations behind the verifier's first check: a proof made
//! by the prover for a value below 2^8 carries evaluations tx and taux that
//! satisfy them, modulo l, whatever the challenges.
use vstd::prelude::*;
use vstd::arithmetic::div_mod::{lemma_add_mod_noop, lemma_sub_mod_noop, lemma_mul_mod_noop, lemma_mod_twice, lemma_mod_add_multiples_vanish, lemma_small_mod};
use crate::scalar::{l_order, sadd, ssub, smul};
use crate::verify::{spow_n, pow2_nat, sum_pows, delta_spec, padd, pmul, h_spec, ch_y, ch_z, ch_x};
use crate::curve::g_spec;
use crate::transcript::{lemma_hash_scalar_below_order, transcript_z, prng_draw};
use crate::bulletproof::Bulletproof;
use crate::prove::{a_l, a_r, s_l, s_r, pr_y, pr_z, pr_x, t_acc, tx_acc, l_vec, r_vec, pr_taux, prover_output, lemma_prover_verifier_challenges, lemma_prover_output_evaluations};

verus! {

/// Congruence modulo l.
#[verifier::opaque]
pub open spec fn eqm(a: int, b: int) -> bool {
    a % (l_order() as int) == b % (l_order() as int)
}

pub(crate) proof fn lemma_eqm_refl(a: int)
    ensures
        eqm(a, a),
{
    reveal(eqm);
}

pub(crate) proof fn lemma_eqm_symm(a: int, b: int)
    requires
        eqm(a, b),
    ensures
        eqm(b, a),
{
    reveal(eqm);
}

pub(crate) proof fn lemma_eqm_trans(a: int, b: int, c: int)
    requires
        eqm(a, b),
        eqm(b, c),
    ensures
        eqm(a, c),
{
    reveal(eqm);
}

pub(crate) proof fn lemma_eqm_add(a: int, b: int, c: int, d: int)
    requires
        eqm(a, c),
        eqm(b, d),
    ensures
        eqm(a + b, c + d),
{
    reveal(eqm);
    let m = l_order() as int;
    lemma_add_mod_noop(a, b, m);
    lemma_add_mod_noop(c, d, m);
}

pub(crate) proof fn lemma_eqm_mul(a: int, b: int, c: int, d: int)
    requires
        eqm(a, c),
        eqm(b, d),
    ensures
        eqm(a * b, c * d),
{
    reveal(eqm);
    let m = l_order() as int;
    lemma_mul_mod_noop(a, b, m);
    lemma_mul_mod_noop(c, d, m);
}

/// `sadd` of congruent arguments is congruent to the sum.
pub(crate) proof fn lemma_sadd_cong(a: nat, b: nat, c: int, d: int)
    requires
        eqm(a as int, c),
        eqm(b as int, d),
    ensures
        eqm(sadd(a, b) as int, c + d),
{
    reveal(eqm);
    let m = l_order() as int;
    lemma_mod_twice((a + b) as int, m);
    lemma_add_mod_noop(a as int, b as int, m);
    lemma_add_mod_noop(c, d, m);
}

/// `smul` of congruent arguments is congruent to the product.
pub(crate) proof fn lemma_smul_cong(a: nat, b: nat, c: int, d: int)
    requires
        eqm(a as int, c),
        eqm(b as int, d),
    ensures
        eqm(smul(a, b) as int, c * d),
{
    reveal(eqm);
    let m = l_order() as int;
    lemma_mod_twice((a * b) as int, m);
    lemma_mul_mod_noop(a as int, b as int, m);
    lemma_mul_mod_noop(c, d, m);
}

/// `ssub` of congruent arguments is congruent to the difference.
pub(crate) proof fn lemma_ssub_cong(a: nat, b: nat, c: int, d: int)
    requires
        b <= a + l_order(),
        eqm(a as int, c),
        eqm(b as int, d),
    ensures
        eqm(ssub(a, b) as int, c - d),
{
    reveal(eqm);
    let m = l_order() as int;
    lemma_mod_twice(a + m - b, m);
    lemma_mod_add_multiples_vanish(a - b, m);
    lemma_sub_mod_noop(a as int, b as int, m);
    lemma_sub_mod_noop(c, d, m);
}

/// Two reduced scalars that are congruent are equal.
pub(crate) proof fn lemma_eqm_reduced(a: nat, b: nat)
    requires
        a < l_order(),
        b < l_order(),
        eqm(a as int, b as int),
    ensures
        a == b,
{
    reveal(eqm);
    lemma_small_mod(a, l_order());
    lemma_small_mod(b, l_order());
}

/// The constant coefficient that term `i` contributes to t(X), once the bit
/// `a` has been used: (z - z^2) y^i + z^2 2^i a - z^3 2^i.
pub open spec fn t0_term(a: nat, z: nat, yi: nat, p2: nat) -> int {
    (z - z * z) * yi + (z * z) * (p2 * a) - (z * z * z) * p2
}

/// (A + SL X)(Y (B + SR X) + P), ordered by powers of X.
proof fn lemma_expand_product(A: int, SL: int, X: int, Y: int, B: int, SR: int, P: int)
    ensures
        (A + SL * X) * (Y * (B + SR * X) + P) == A * (Y * B + P) + X * (A * (Y * SR) + SL * (Y * B + P))
            + X * X * (SL * (Y * SR)),
{
    let R = Y * (B + SR * X) + P;
    assert(Y * (B + SR * X) == Y * B + (Y * SR) * X) by (nonlinear_arith);
    assert((A + SL * X) * R == A * R + (SL * X) * R) by (nonlinear_arith);
    assert(A * R == A * (Y * B + P) + X * (A * (Y * SR))) by (nonlinear_arith)
        requires
            R == Y * B + (Y * SR) * X + P,
    ;
    assert((SL * X) * R == X * (SL * (Y * B + P)) + X * X * (SL * (Y * SR))) by (nonlinear_arith)
        requires
            R == Y * B + (Y * SR) * X + P,
    ;
    assert(X * (A * (Y * SR) + SL * (Y * B + P)) == X * (A * (Y * SR)) + X * (SL * (Y * B + P)))
        by (nonlinear_arith);
}

/// With a bit `a`, the product l_i(x) r_i(x) is congruent to the constant
/// coefficient, plus x times the linear one and x^2 times the quadratic one,
/// as the prover computes them.
proof fn lemma_term(a: nat, z: nat, x: nat, yi: nat, sl: nat, sr: nat, p2: nat)
    requires
        a <= 1,
        z < l_order(),
    ensures
        ({
            let z2 = smul(z, z);
            let ar = ssub(a, 1);
            let l0 = ssub(a, z);
            let r0 = sadd(smul(yi, sadd(ar, z)), smul(z2, p2));
            let r1 = smul(yi, sr);
            let lv = sadd(ssub(a, z), smul(sl, x));
            let rv = sadd(smul(yi, sadd(sadd(ar, z), smul(sr, x))), smul(z2, p2));
            eqm((lv * rv) as int, t0_term(a, z, yi, p2) + x * (l0 * r1 + sl * r0) + x * x * (sl * r1))
        }),
{
    let z2 = smul(z, z);
    let ar = ssub(a, 1);
    let l0 = ssub(a, z);
    let b1 = sadd(ar, z);
    let zp = smul(z2, p2);
    let r0 = sadd(smul(yi, b1), zp);
    let r1 = smul(yi, sr);
    let sx = smul(sl, x);
    let lv = sadd(l0, sx);
    let rx = smul(sr, x);
    let b2 = sadd(b1, rx);
    let rv = sadd(smul(yi, b2), zp);

    let A: int = a - z;
    let B: int = a - 1 + z;
    let Y: int = yi as int;
    let X: int = x as int;
    let SL: int = sl as int;
    let SR: int = sr as int;
    let zz: int = z as int;
    let P: int = (zz * zz) * p2;

    lemma_eqm_refl(a as int);
    lemma_eqm_refl(1);
    lemma_eqm_refl(zz);
    lemma_eqm_refl(Y);
    lemma_eqm_refl(X);
    lemma_eqm_refl(SL);
    lemma_eqm_refl(SR);
    lemma_eqm_refl(p2 as int);
    lemma_ssub_cong(a, z, a as int, zz);
    lemma_ssub_cong(a, 1, a as int, 1);
    lemma_sadd_cong(ar, z, a - 1, zz);
    lemma_smul_cong(z, z, zz, zz);
    lemma_smul_cong(z2, p2, zz * zz, p2 as int);
    lemma_smul_cong(yi, b1, Y, B);
    lemma_sadd_cong(smul(yi, b1), zp, Y * B, P);
    lemma_smul_cong(yi, sr, Y, SR);
    lemma_smul_cong(sl, x, SL, X);
    lemma_sadd_cong(l0, sx, A, SL * X);
    lemma_smul_cong(sr, x, SR, X);
    lemma_sadd_cong(b1, rx, B, SR * X);
    lemma_smul_cong(yi, b2, Y, B + SR * X);
    lemma_sadd_cong(smul(yi, b2), zp, Y * (B + SR * X), P);

    let c1: int = A * (Y * SR) + SL * (Y * B + P);
    let c2: int = SL * (Y * SR);
    lemma_eqm_mul(lv as int, rv as int, A + SL * X, Y * (B + SR * X) + P);
    lemma_expand_product(A, SL, X, Y, B, SR, P);

    let aa: int = a as int;
    assert(aa * aa == aa) by {
        if a == 0 {
        } else {
            assert(a == 1);
        }
    }
    assert(A * (Y * B + P) == (zz - zz * zz) * Y + (zz * zz) * (p2 * aa) - (zz * zz * zz) * p2)
        by (nonlinear_arith)
        requires
            aa * aa == aa,
            A == aa - zz,
            B == aa - 1 + zz,
            P == (zz * zz) * p2,
    ;
    let t0 = t0_term(a, z, yi, p2);
    assert(eqm((lv * rv) as int, t0 + X * c1 + X * X * c2));

    lemma_eqm_mul(l0 as int, r1 as int, A, Y * SR);
    lemma_eqm_mul(SL, r0 as int, SL, Y * B + P);
    lemma_eqm_add((l0 * r1) as int, (sl * r0) as int, A * (Y * SR), SL * (Y * B + P));
    lemma_eqm_mul(X, (l0 * r1 + sl * r0) as int, X, c1);
    lemma_eqm_mul(SL, r1 as int, SL, Y * SR);
    lemma_eqm_refl(X * X);
    lemma_eqm_mul(X * X, (sl * r1) as int, X * X, c2);
    lemma_eqm_refl(t0);
    lemma_eqm_add(t0, X * (l0 * r1 + sl * r0), t0, X * c1);
    lemma_eqm_add(t0 + X * (l0 * r1 + sl * r0), X * X * (sl * r1), t0 + X * c1, X * X * c2);
    lemma_eqm_symm(t0 + X * (l0 * r1 + sl * r0) + X * X * (sl * r1), t0 + X * c1 + X * X * c2);
    lemma_eqm_trans(
        (lv * rv) as int,
        t0 + X * c1 + X * X * c2,
        t0 + X * (l0 * r1 + sl * r0) + X * X * (sl * r1),
    );
}


/// A bit of the value is 0 or 1.
proof fn lemma_bit_le_one(v: u32, i: int)
    ensures
        a_l(v, i) <= 1,
{
    let s = i as u32;
    assert((v >> s) & 1u32 <= 1u32) by (bit_vector);
}

/// The constant coefficient of t(X) over the first `n` terms, as an integer.
pub open spec fn t0_sum(v: u32, y: nat, z: nat, n: nat) -> int
    decreases n,
{
    if n == 0 {
        0
    } else {
        let i = (n - 1) as int;
        t0_sum(v, y, z, (n - 1) as nat) + t0_term(a_l(v, i), z, spow_n(y, i as nat), pow2_nat(i))
    }
}

/// The prover's tx over the first `n` terms is congruent to the constant
/// coefficient plus x t1 plus x^2 t2 over the same terms.
proof fn lemma_tx_expansion(v: u32, r: nat, seed: Seq<u8>, n: nat)
    requires
        pr_z(v, r, seed) < l_order(),
    ensures
        eqm(
            tx_acc(v, r, seed, n) as int,
            t0_sum(v, pr_y(v, r, seed), pr_z(v, r, seed), n) + pr_x(v, r, seed) * t_acc(v, r, seed, n).0
                + pr_x(v, r, seed) * pr_x(v, r, seed) * t_acc(v, r, seed, n).1,
        ),
    decreases n,
{
    let y = pr_y(v, r, seed);
    let z = pr_z(v, r, seed);
    let x = pr_x(v, r, seed);
    let X: int = x as int;
    if n == 0 {
        lemma_eqm_refl(0);
        assert(X * 0 + X * X * 0 == 0) by (nonlinear_arith);
    } else {
        let m = (n - 1) as nat;
        let i = m as int;
        lemma_tx_expansion(v, r, seed, m);
        let a = a_l(v, i);
        lemma_bit_le_one(v, i);
        let yp = spow_n(y, i as nat);
        let p2 = pow2_nat(i);
        let sl = s_l(seed, i);
        let sr = s_r(seed, i);
        lemma_term(a, z, x, yp, sl, sr, p2);
        let l0 = ssub(a, z);
        let r0 = sadd(smul(yp, sadd(a_r(v, i), z)), smul(smul(z, z), p2));
        let r1 = smul(yp, sr);
        let lv = l_vec(v, r, seed, i);
        let rv = r_vec(v, r, seed, i);
        let t0 = t0_term(a, z, yp, p2);
        let c1: int = (l0 * r1 + sl * r0) as int;
        let c2: int = (sl * r1) as int;
        let prev = t_acc(v, r, seed, m);
        let cur = t_acc(v, r, seed, n);
        let ep: int = t0_sum(v, y, z, m) + X * prev.0 + X * X * prev.1;

        lemma_eqm_refl(lv as int);
        lemma_eqm_refl(rv as int);
        lemma_smul_cong(lv, rv, lv as int, rv as int);
        lemma_eqm_trans(smul(lv, rv) as int, (lv * rv) as int, t0 + X * c1 + X * X * c2);
        lemma_sadd_cong(tx_acc(v, r, seed, m), smul(lv, rv), ep, t0 + X * c1 + X * X * c2);

        lemma_eqm_refl(l0 as int);
        lemma_eqm_refl(r1 as int);
        lemma_eqm_refl(sl as int);
        lemma_eqm_refl(r0 as int);
        lemma_smul_cong(l0, r1, l0 as int, r1 as int);
        lemma_smul_cong(sl, r0, sl as int, r0 as int);
        lemma_smul_cong(sl, r1, sl as int, r1 as int);
        lemma_sadd_cong(smul(l0, r1), smul(sl, r0), (l0 * r1) as int, (sl * r0) as int);
        lemma_eqm_refl(prev.0 as int);
        lemma_eqm_refl(prev.1 as int);
        lemma_sadd_cong(prev.0, sadd(smul(l0, r1), smul(sl, r0)), prev.0 as int, c1);
        lemma_sadd_cong(prev.1, smul(sl, r1), prev.1 as int, c2);
        lemma_eqm_refl(X);
        lemma_eqm_refl(X * X);
        lemma_eqm_mul(X, cur.0 as int, X, prev.0 + c1);
        lemma_eqm_mul(X * X, cur.1 as int, X * X, prev.1 + c2);
        assert(X * (prev.0 + c1) == X * prev.0 + X * c1) by (nonlinear_arith);
        assert(X * X * (prev.1 + c2) == X * X * prev.1 + X * X * c2) by (nonlinear_arith);
        let s0 = t0_sum(v, y, z, n);
        lemma_eqm_refl(s0);
        lemma_eqm_add(s0, X * cur.0, s0, X * prev.0 + X * c1);
        lemma_eqm_add(s0 + X * cur.0, X * X * cur.1, s0 + X * prev.0 + X * c1, X * X * prev.1 + X * X * c2);
        assert(s0 + X * prev.0 + X * c1 + (X * X * prev.1 + X * X * c2) == ep + (t0 + X * c1 + X * X * c2));
        lemma_eqm_symm(s0 + X * cur.0 + X * X * cur.1, ep + (t0 + X * c1 + X * X * c2));
        lemma_eqm_trans(
            tx_acc(v, r, seed, n) as int,
            ep + (t0 + X * c1 + X * X * c2),
            s0 + X * cur.0 + X * X * cur.1,
        );
    }
}


/// 1 + y + ... + y^(n-1), each power as the verifier computes it, summed as
/// integers.
pub open spec fn powers_sum(y: nat, n: nat) -> int
    decreases n,
{
    if n == 0 {
        0
    } else {
        powers_sum(y, (n - 1) as nat) + spow_n(y, (n - 1) as nat)
    }
}

/// The first `n` bits of the value, weighted by powers of two.
pub open spec fn bits_sum(v: u32, n: nat) -> int
    decreases n,
{
    if n == 0 {
        0
    } else {
        let i = (n - 1) as int;
        bits_sum(v, (n - 1) as nat) + pow2_nat(i) * a_l(v, i)
    }
}

/// 1 + 2 + ... + 2^(n-1).
pub open spec fn twos_sum(n: nat) -> int
    decreases n,
{
    if n == 0 {
        0
    } else {
        twos_sum((n - 1) as nat) + pow2_nat((n - 1) as int)
    }
}

proof fn lemma_t0_sum_split(v: u32, y: nat, z: nat, n: nat)
    ensures
        t0_sum(v, y, z, n) == (z - z * z) * powers_sum(y, n) + (z * z) * bits_sum(v, n) - (z * z * z)
            * twos_sum(n),
    decreases n,
{
    if n > 0 {
        let m = (n - 1) as nat;
        let i = m as int;
        lemma_t0_sum_split(v, y, z, m);
        let zz: int = z as int;
        let c: int = zz - zz * zz;
        let q: int = zz * zz;
        let k: int = zz * zz * zz;
        let yp: int = spow_n(y, m) as int;
        let p2: int = pow2_nat(i) as int;
        let a: int = a_l(v, i) as int;
        assert(c * (powers_sum(y, m) + yp) == c * powers_sum(y, m) + c * yp) by (nonlinear_arith);
        assert(q * (bits_sum(v, m) + p2 * a) == q * bits_sum(v, m) + q * (p2 * a)) by (nonlinear_arith);
        assert(k * (twos_sum(m) + p2) == k * twos_sum(m) + k * p2) by (nonlinear_arith);
    }
}

/// The eight bits of a value below 2^8, weighted by powers of two, give the
/// value back.
proof fn lemma_bits_sum(v: u32)
    requires
        v < 256,
    ensures
        bits_sum(v, 8) == v,
        twos_sum(8) == 255,
{
    reveal_with_fuel(bits_sum, 9);
    reveal_with_fuel(twos_sum, 9);
    reveal_with_fuel(pow2_nat, 9);
    assert(v == (v & 1u32) + 2 * ((v >> 1u32) & 1u32) + 4 * ((v >> 2u32) & 1u32) + 8 * ((v >> 3u32)
        & 1u32) + 16 * ((v >> 4u32) & 1u32) + 32 * ((v >> 5u32) & 1u32) + 64 * ((v >> 6u32) & 1u32)
        + 128 * ((v >> 7u32) & 1u32)) by (bit_vector)
        requires
            v < 256,
    ;
    assert(v >> 0u32 == v) by (bit_vector);
    assert(pow2_nat(0) == 1 && pow2_nat(1) == 2 && pow2_nat(2) == 4 && pow2_nat(3) == 8);
    assert(pow2_nat(4) == 16 && pow2_nat(5) == 32 && pow2_nat(6) == 64 && pow2_nat(7) == 128);
    assert(a_l(v, 0) == (v >> 0u32) & 1u32);
    assert(a_l(v, 1) == (v >> 1u32) & 1u32);
    assert(a_l(v, 2) == (v >> 2u32) & 1u32);
    assert(a_l(v, 3) == (v >> 3u32) & 1u32);
    assert(a_l(v, 4) == (v >> 4u32) & 1u32);
    assert(a_l(v, 5) == (v >> 5u32) & 1u32);
    assert(a_l(v, 6) == (v >> 6u32) & 1u32);
    assert(a_l(v, 7) == (v >> 7u32) & 1u32);
    assert(bits_sum(v, 8) == a_l(v, 0) + 2 * a_l(v, 1) + 4 * a_l(v, 2) + 8 * a_l(v, 3) + 16 * a_l(v, 4)
        + 32 * a_l(v, 5) + 64 * a_l(v, 6) + 128 * a_l(v, 7));
}

/// The verifier's sum of powers of y is congruent to the integer sum.
proof fn lemma_sum_pows(y: nat, n: nat)
    ensures
        eqm(sum_pows(y, n) as int, powers_sum(y, n)),
    decreases n,
{
    if n == 0 {
        lemma_eqm_refl(0);
    } else {
        let m = (n - 1) as nat;
        lemma_sum_pows(y, m);
        lemma_eqm_refl(spow_n(y, m) as int);
        lemma_sadd_cong(sum_pows(y, m), spow_n(y, m), powers_sum(y, m), spow_n(y, m) as int);
    }
}

/// z^2 v + delta(y, z) + t1 x + t2 x^2 modulo l: the exponent of G that
/// the right side of the verifier's first check comes to when the
/// commitment is v G + r H, T1 = t1 G + tau1 H and T2 = t2 G + tau2 H.
pub open spec fn g_exponent(v: nat, y: nat, z: nat, x: nat, t1: nat, t2: nat) -> nat {
    sadd(sadd(sadd(smul(smul(z, z), v), delta_spec(y, z)), smul(t1, x)), smul(t2, smul(x, x)))
}

/// z^2 r + tau1 x + tau2 x^2 modulo l: the exponent of H on that right side.
pub open spec fn h_exponent(r: nat, z: nat, x: nat, tau1: nat, tau2: nat) -> nat {
    sadd(sadd(smul(smul(z, z), r), smul(tau1, x)), smul(tau2, smul(x, x)))
}

proof fn lemma_tx_exponent(v: u32, r: nat, seed: Seq<u8>)
    requires
        v < 256,
    ensures
        tx_acc(v, r, seed, 8) == g_exponent(
            v as nat,
            pr_y(v, r, seed),
            pr_z(v, r, seed),
            pr_x(v, r, seed),
            t_acc(v, r, seed, 8).0,
            t_acc(v, r, seed, 8).1,
        ),
{
    let y = pr_y(v, r, seed);
    let z = pr_z(v, r, seed);
    let x = pr_x(v, r, seed);
    let t = t_acc(v, r, seed, 8);
    lemma_hash_scalar_below_order(transcript_z(y));
    lemma_tx_expansion(v, r, seed, 8);
    lemma_t0_sum_split(v, y, z, 8);
    lemma_bits_sum(v);
    lemma_sum_pows(y, 8);

    let zz: int = z as int;
    let X: int = x as int;
    let sy = powers_sum(y, 8);
    let z2 = smul(z, z);
    let z3 = smul(z2, z);
    lemma_eqm_refl(zz);
    lemma_eqm_refl(X);
    lemma_eqm_refl(v as int);
    lemma_eqm_refl(255);
    lemma_eqm_refl(t.0 as int);
    lemma_eqm_refl(t.1 as int);
    lemma_smul_cong(z, z, zz, zz);
    lemma_smul_cong(z2, z, zz * zz, zz);
    lemma_ssub_cong(z, z2, zz, zz * zz);
    lemma_smul_cong(ssub(z, z2), sum_pows(y, 8), zz - zz * zz, sy);
    lemma_smul_cong(z3, 255, zz * zz * zz, 255);
    let d: int = (zz - zz * zz) * sy - (zz * zz * zz) * 255;
    lemma_ssub_cong(smul(ssub(z, z2), sum_pows(y, 8)), smul(z3, 255), (zz - zz * zz) * sy, (zz * zz * zz)
        * 255);
    assert(eqm(delta_spec(y, z) as int, d));
    lemma_smul_cong(z2, v as nat, zz * zz, v as int);
    lemma_sadd_cong(smul(z2, v as nat), delta_spec(y, z), (zz * zz) * v, d);
    lemma_smul_cong(t.0, x, t.0 as int, X);
    lemma_sadd_cong(sadd(smul(z2, v as nat), delta_spec(y, z)), smul(t.0, x), (zz * zz) * v + d, t.0 * X);
    lemma_smul_cong(x, x, X, X);
    lemma_smul_cong(t.1, smul(x, x), t.1 as int, X * X);
    let g = g_exponent(v as nat, y, z, x, t.0, t.1);
    lemma_sadd_cong(
        sadd(sadd(smul(z2, v as nat), delta_spec(y, z)), smul(t.0, x)),
        smul(t.1, smul(x, x)),
        (zz * zz) * v + d + t.0 * X,
        t.1 * (X * X),
    );
    assert(t.0 * X == X * t.0) by (nonlinear_arith);
    assert(t.1 * (X * X) == X * X * t.1) by (nonlinear_arith);
    let tx = tx_acc(v, r, seed, 8);
    lemma_eqm_symm(g as int, (zz * zz) * v + d + t.0 * X + t.1 * (X * X));
    lemma_eqm_trans(
        tx as int,
        t0_sum(v, y, z, 8) + X * t.0 + X * X * t.1,
        g as int,
    );
    vstd::arithmetic::div_mod::lemma_mod_bound(
        (tx_acc(v, r, seed, 7) + smul(l_vec(v, r, seed, 7), r_vec(v, r, seed, 7))) as int,
        l_order() as int,
    );
    vstd::arithmetic::div_mod::lemma_mod_bound(
        (sadd(sadd(smul(z2, v as nat), delta_spec(y, z)), smul(t.0, x)) + smul(t.1, smul(x, x))) as int,
        l_order() as int,
    );
    lemma_eqm_reduced(tx, g);
}

#[verifier::rlimit(100)]
proof fn lemma_taux_exponent(v: u32, r: nat, seed: Seq<u8>)
    ensures
        pr_taux(v, r, seed) == h_exponent(
            r,
            pr_z(v, r, seed),
            pr_x(v, r, seed),
            prng_draw(seed, 18),
            prng_draw(seed, 19),
        ),
{
    let z = pr_z(v, r, seed);
    let x = pr_x(v, r, seed);
    let t1 = prng_draw(seed, 18);
    let t2 = prng_draw(seed, 19);
    let a = smul(smul(z, z), r);
    let b = smul(t1, x);
    let c = smul(t2, smul(x, x));
    lemma_eqm_refl(a as int);
    lemma_eqm_refl(b as int);
    lemma_eqm_refl(c as int);
    lemma_sadd_cong(c, b, c as int, b as int);
    lemma_sadd_cong(sadd(c, b), a, (c + b) as int, a as int);
    lemma_sadd_cong(a, b, a as int, b as int);
    lemma_sadd_cong(sadd(a, b), c, (a + b) as int, c as int);
    lemma_eqm_symm(sadd(sadd(a, b), c) as int, (a + b + c) as int);
    lemma_eqm_trans(sadd(sadd(c, b), a) as int, (a + b + c) as int, sadd(sadd(a, b), c) as int);
    vstd::arithmetic::div_mod::lemma_mod_bound((sadd(c, b) + a) as int, l_order() as int);
    vstd::arithmetic::div_mod::lemma_mod_bound((sadd(a, b) + c) as int, l_order() as int);
    lemma_eqm_reduced(sadd(sadd(c, b), a), sadd(sadd(a, b), c));
}

/// A proof that the prover made for a value below 2^8 satisfies the exponent
/// equations of the verifier's first check: T1 = t1 G + tau1 H and
/// T2 = t2 G + tau2 H for the prover's t1, t2, tau1 and tau2, with
/// tx = z^2 v + delta(y, z) + t1 x + t2 x^2 and taux = z^2 r + tau1 x +
/// tau2 x^2 modulo l, where y, z and x are the challenges the verifier
/// derives for the commitment v G + r H.
pub proof fn lemma_poly_check_exponents(bp: Bulletproof, v: u32, r: nat, seed: Seq<u8>)
    requires
        prover_output(bp, v, r, seed),
        v < 256,
    ensures
        ({
            let cv = padd(pmul(g_spec(), v as nat), pmul(h_spec(), r));
            let t = t_acc(v, r, seed, 8);
            let tau1 = prng_draw(seed, 18);
            let tau2 = prng_draw(seed, 19);
            &&& bp.T1@ == padd(pmul(g_spec(), t.0), pmul(h_spec(), tau1))
            &&& bp.T2@ == padd(pmul(g_spec(), t.1), pmul(h_spec(), tau2))
            &&& bp.tx@ == g_exponent(v as nat, ch_y(cv, bp), ch_z(cv, bp), ch_x(bp), t.0, t.1)
            &&& bp.taux@ == h_exponent(r, ch_z(cv, bp), ch_x(bp), tau1, tau2)
        }),
{
    lemma_prover_verifier_challenges(bp, v, r, seed);
    lemma_prover_output_evaluations(bp, v, r, seed);
    lemma_tx_exponent(v, r, seed);
    lemma_taux_exponent(v, r, seed);
}


} // verus!
