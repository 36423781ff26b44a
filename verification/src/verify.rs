//! The range-proof verifier: the Fiat-Shamir challenges, the check of the
//! polynomial commitment and the check of the inner-product argument.
use vstd::prelude::*;
use soroban_sdk::Env;
use crate::scalar::{Sc, l_order, sadd, ssub, smul, sinv, sc_sub_raw};
use crate::curve::{Pt, pt_add_spec, pt_mul_spec, identity_pt, g_spec, d_spec, gen_point, get_generators, get_vector_generators};
use crate::transcript::{hash_scalar_spec, transcript_y, transcript_z, transcript_x, transcript_w, transcript_ip, hash_fs_y_z, hash_fs_x, hash_fs_w, hash_fs_challenge_ip};
use crate::bulletproof::Bulletproof;

verus! {

/// Point addition on the Ed25519 curve constant.
pub open spec fn padd(a: (nat, nat), b: (nat, nat)) -> (nat, nat) {
    pt_add_spec(a, b, d_spec())
}

/// Scalar multiplication on the Ed25519 curve constant.
pub open spec fn pmul(a: (nat, nat), s: nat) -> (nat, nat) {
    pt_mul_spec(a, s, d_spec())
}

/// The blinding generator H.
pub open spec fn h_spec() -> (nat, nat) {
    gen_point(0)
}

/// The vector generator `gs[i]`.
pub open spec fn gvec(i: int) -> (nat, nat) {
    gen_point(1 + i)
}

/// The vector generator `hs[i]`.
pub open spec fn hvec(i: int) -> (nat, nat) {
    gen_point(9 + i)
}

/// `y^n` modulo l, by repeated multiplication from 1.
pub open spec fn spow_n(y: nat, n: nat) -> nat
    decreases n,
{
    if n == 0 {
        1
    } else {
        smul(spow_n(y, (n - 1) as nat), y)
    }
}

/// `1 + y + ... + y^(n-1)` modulo l.
pub open spec fn sum_pows(y: nat, n: nat) -> nat
    decreases n,
{
    if n == 0 {
        0
    } else {
        sadd(sum_pows(y, (n - 1) as nat), spow_n(y, (n - 1) as nat))
    }
}

/// The challenge y of a proof for the commitment `V`.
pub open spec fn ch_y(V: (nat, nat), bp: Bulletproof) -> nat {
    hash_scalar_spec(transcript_y(V, bp.A@, bp.S@))
}

/// The challenge z.
pub open spec fn ch_z(V: (nat, nat), bp: Bulletproof) -> nat {
    hash_scalar_spec(transcript_z(ch_y(V, bp)))
}

/// The challenge x.
pub open spec fn ch_x(bp: Bulletproof) -> nat {
    hash_scalar_spec(transcript_x(bp.T1@, bp.T2@))
}

/// The challenge w.
pub open spec fn ch_w(bp: Bulletproof) -> nat {
    hash_scalar_spec(transcript_w(bp.tx@, bp.taux@, bp.mu@))
}

/// The challenge of inner-product round `r`.
pub open spec fn ch_u(bp: Bulletproof, r: int) -> nat {
    hash_scalar_spec(transcript_ip(r as u8, bp.L[r]@, bp.R[r]@))
}

/// delta(y, z) = (z - z^2) (1 + y + ... + y^7) - z^3 (1 + 2 + ... + 2^7).
pub open spec fn delta_spec(y: nat, z: nat) -> nat {
    let z2 = smul(z, z);
    let z3 = smul(z2, z);
    ssub(smul(ssub(z, z2), sum_pows(y, 8)), smul(z3, 255))
}

/// The left side of the polynomial check: tx G + taux H.
pub open spec fn poly_lhs(bp: Bulletproof) -> (nat, nat) {
    padd(pmul(g_spec(), bp.tx@), pmul(h_spec(), bp.taux@))
}

/// The right side of the polynomial check:
/// z^2 V + delta G + x T1 + x^2 T2.
pub open spec fn poly_rhs(V: (nat, nat), bp: Bulletproof) -> (nat, nat) {
    let y = ch_y(V, bp);
    let z = ch_z(V, bp);
    let x = ch_x(bp);
    padd(
        padd(padd(pmul(V, smul(z, z)), pmul(g_spec(), delta_spec(y, z))), pmul(bp.T1@, x)),
        pmul(bp.T2@, smul(x, x)),
    )
}

/// The exponent of `hs[i]` in P: z + z^2 2^i y^-i.
pub open spec fn h_exp(y: nat, z: nat, i: int) -> nat {
    sadd(z, smul(smul(smul(z, z), pow2_nat(i)), spow_n(sinv(y), i as nat)))
}

/// 2^i for small i.
pub open spec fn pow2_nat(i: int) -> nat
    decreases i,
{
    if i <= 0 {
        1
    } else {
        2 * pow2_nat(i - 1)
    }
}

/// P after the first `n` generator terms:
/// A + x S - mu H + sum over i < n of (-z gs[i] + h_exp(i) hs[i]).
pub open spec fn p_acc(V: (nat, nat), bp: Bulletproof, n: nat) -> (nat, nat)
    decreases n,
{
    let y = ch_y(V, bp);
    let z = ch_z(V, bp);
    let x = ch_x(bp);
    if n == 0 {
        padd(padd(bp.A@, pmul(bp.S@, x)), pmul(h_spec(), sc_sub_raw(0, bp.mu@)))
    } else {
        let i = (n - 1) as int;
        padd(
            padd(p_acc(V, bp, (n - 1) as nat), pmul(gvec(i), ssub(0, z))),
            pmul(hvec(i), h_exp(y, z, i)),
        )
    }
}

/// P' after the first `r` inner-product rounds:
/// P + tx Q + sum over rounds of (u^2 L + u^-2 R), with Q = w G.
pub open spec fn pprime_acc(V: (nat, nat), bp: Bulletproof, r: nat) -> (nat, nat)
    decreases r,
{
    if r == 0 {
        padd(p_acc(V, bp, 8), pmul(pmul(g_spec(), ch_w(bp)), bp.tx@))
    } else {
        let k = (r - 1) as int;
        let u = ch_u(bp, k);
        let ui = sinv(u);
        padd(padd(pprime_acc(V, bp, (r - 1) as nat), pmul(bp.L[k]@, smul(u, u))), pmul(bp.R[k]@, smul(ui, ui)))
    }
}

/// Whether bit `2 - r` of `i` is set: the side that generator `i` takes in
/// round `r` of the inner-product argument.
pub open spec fn round_bit(i: int, r: int) -> bool {
    ((i as usize >> ((2 - r) as usize)) & 1usize) == 1usize
}

/// The coefficient of `gs[i]` after `n` rounds: the product of `u` for a set
/// bit and `u^-1` for a clear one (`inverse` swaps the two).
pub open spec fn s_coeff(bp: Bulletproof, i: int, n: nat, inverse: bool) -> nat
    decreases n,
{
    if n == 0 {
        1
    } else {
        let r = (n - 1) as int;
        let u = ch_u(bp, r);
        let f = if round_bit(i, r) != inverse { u } else { sinv(u) };
        smul(s_coeff(bp, i, (n - 1) as nat, inverse), f)
    }
}

/// The folded generator: the sum over `i < n` of `s_i gens[i]`.
pub open spec fn g_final(bp: Bulletproof, n: nat) -> (nat, nat)
    decreases n,
{
    if n == 0 {
        identity_pt()
    } else {
        let i = (n - 1) as int;
        padd(g_final(bp, (n - 1) as nat), pmul(gvec(i), s_coeff(bp, i, 3, false)))
    }
}

/// The folded generator of the h side, with `hs[i] y^-i` and the inverted
/// coefficients.
pub open spec fn h_final(V: (nat, nat), bp: Bulletproof, n: nat) -> (nat, nat)
    decreases n,
{
    if n == 0 {
        identity_pt()
    } else {
        let i = (n - 1) as int;
        let yi = sinv(ch_y(V, bp));
        padd(
            h_final(V, bp, (n - 1) as nat),
            pmul(pmul(hvec(i), spow_n(yi, i as nat)), s_coeff(bp, i, 3, true)),
        )
    }
}

/// The opening that the inner-product argument claims:
/// a G' + b H' + (a b) Q.
pub open spec fn ip_expected(V: (nat, nat), bp: Bulletproof) -> (nat, nat) {
    padd(
        padd(pmul(g_final(bp, 8), bp.a@), pmul(h_final(V, bp, 8), bp.b@)),
        pmul(pmul(g_spec(), ch_w(bp)), smul(bp.a@, bp.b@)),
    )
}

/// What the verifier accepts: the polynomial check and the inner-product
/// check both hold.
pub open spec fn verify_spec(V: (nat, nat), bp: Bulletproof) -> bool {
    poly_lhs(bp) == poly_rhs(V, bp) && pprime_acc(V, bp, 3) == ip_expected(V, bp)
}


/// `1 << i` for the bit positions of a byte.
pub proof fn lemma_shift_pow2(i: u64)
    requires
        i < 8,
    ensures
        (1u64 << i) as nat == pow2_nat(i as int),
        pow2_nat(i as int) <= 128,
{
    reveal_with_fuel(pow2_nat, 9);
    if i == 0 {
        assert(1u64 << 0u64 == 1u64) by (bit_vector);
    } else if i == 1 {
        assert(1u64 << 1u64 == 2u64) by (bit_vector);
    } else if i == 2 {
        assert(1u64 << 2u64 == 4u64) by (bit_vector);
    } else if i == 3 {
        assert(1u64 << 3u64 == 8u64) by (bit_vector);
    } else if i == 4 {
        assert(1u64 << 4u64 == 16u64) by (bit_vector);
    } else if i == 5 {
        assert(1u64 << 5u64 == 32u64) by (bit_vector);
    } else if i == 6 {
        assert(1u64 << 6u64 == 64u64) by (bit_vector);
    } else {
        assert(1u64 << 7u64 == 128u64) by (bit_vector);
    }
}

/// Checks a range proof against the commitment `V`: the polynomial check
/// `tx G + taux H == z^2 V + delta G + x T1 + x^2 T2`, then the inner-product
/// check `P' == a G' + b H' + (a b) Q`.
pub fn verify_range_proof(env: &Env, V: Pt, proof: &Bulletproof) -> (r: bool)
    ensures
        r == verify_spec(V@, *proof),
{
    let (g_pt, h_pt, d) = get_generators();
    let (gs, hs) = get_vector_generators(d);

    let (y, z) = hash_fs_y_z(env, &V, &proof.A, &proof.S);
    let x = hash_fs_x(env, &proof.T1, &proof.T2);
    let z2 = z.mul(z);
    let z3 = z2.mul(z);
    let x2 = x.mul(x);

    let mut sum_y = Sc::zero();
    let mut sum_two = Sc::zero();
    let mut y_pow = Sc::one();
    let mut i: usize = 0;
    while i < 8
        invariant
            0 <= i <= 8,
            y@ < l_order(),
            sum_y@ == sum_pows(y@, i as nat),
            sum_y@ < l_order(),
            y_pow@ == spow_n(y@, i as nat),
            y_pow@ < l_order(),
            sum_two@ + 1 == pow2_nat(i as int),
        decreases 8 - i,
    {
        proof {
            lemma_shift_pow2(i as u64);
            reveal_with_fuel(pow2_nat, 2);
        }
        sum_y = sum_y.add(y_pow);
        sum_two = sum_two.add(Sc::from_u64(1 << i));
        y_pow = y_pow.mul(y);
        i += 1;
    }
    proof {
        reveal_with_fuel(pow2_nat, 9);
    }
    let delta = z.sub(z2).mul(sum_y).sub(z3.mul(sum_two));

    let lhs1 = g_pt.mul(proof.tx, d).add(h_pt.mul(proof.taux, d), d);
    let rhs1 = V.mul(z2, d).add(g_pt.mul(delta, d), d).add(proof.T1.mul(x, d), d).add(
        proof.T2.mul(x2, d),
        d,
    );

    if !lhs1.eq_pt(&rhs1) {
        return false;
    }

    let w = hash_fs_w(env, &proof.tx, &proof.taux, &proof.mu);
    let Q = g_pt.mul(w, d);

    let mut P = proof.A.add(proof.S.mul(x, d), d).add(h_pt.mul(proof.mu.neg(), d), d);

    let y_inv = y.invert();
    let mut y_inv_pow = Sc::one();
    let mut i: usize = 0;
    while i < 8
        invariant
            0 <= i <= 8,
            d@ == d_spec(),
            y@ == ch_y(V@, *proof),
            z@ == ch_z(V@, *proof),
            z@ < l_order(),
            z2@ == smul(z@, z@),
            y_inv@ == sinv(y@),
            forall|k: int| 0 <= k < 8 ==> (#[trigger] gs[k])@ == gvec(k),
            forall|k: int| 0 <= k < 8 ==> (#[trigger] hs[k])@ == hvec(k),
            P@ == p_acc(V@, *proof, i as nat),
            y_inv_pow@ == spow_n(y_inv@, i as nat),
            y_inv_pow@ < l_order(),
        decreases 8 - i,
    {
        proof {
            lemma_shift_pow2(i as u64);
        }
        P = P.add(gs[i].mul(z.neg(), d), d);
        let term = z.add(z2.mul(Sc::from_u64(1 << i)).mul(y_inv_pow));
        P = P.add(hs[i].mul(term, d), d);
        y_inv_pow = y_inv_pow.mul(y_inv);
        i += 1;
    }

    let mut P_prime = P.add(Q.mul(proof.tx, d), d);

    let gs_ip = gs;
    let mut hs_ip = hs;
    let mut y_inv_pow = Sc::one();
    let mut i: usize = 0;
    while i < 8
        invariant
            0 <= i <= 8,
            d@ == d_spec(),
            y_inv@ == sinv(ch_y(V@, *proof)),
            forall|k: int| 0 <= k < i ==> (#[trigger] hs_ip[k])@ == pmul(hvec(k), spow_n(y_inv@, k as nat)),
            forall|k: int| i <= k < 8 ==> (#[trigger] hs_ip[k])@ == hvec(k),
            y_inv_pow@ == spow_n(y_inv@, i as nat),
        decreases 8 - i,
    {
        hs_ip[i] = hs_ip[i].mul(y_inv_pow, d);
        y_inv_pow = y_inv_pow.mul(y_inv);
        i += 1;
    }

    let mut challenges = [Sc::zero(); 3];
    let mut u_inv_sq = [Sc::zero(); 3];
    let mut u_sq = [Sc::zero(); 3];
    let mut round: usize = 0;
    while round < 3
        invariant
            0 <= round <= 3,
            d@ == d_spec(),
            P_prime@ == pprime_acc(V@, *proof, round as nat),
            forall|k: int| 0 <= k < round ==> (#[trigger] challenges[k])@ == ch_u(*proof, k),
        decreases 3 - round,
    {
        let u = hash_fs_challenge_ip(env, round, &proof.L[round], &proof.R[round]);
        challenges[round] = u;
        let u_inv = u.invert();
        u_sq[round] = u.mul(u);
        u_inv_sq[round] = u_inv.mul(u_inv);

        P_prime = P_prime.add(proof.L[round].mul(u_sq[round], d), d).add(
            proof.R[round].mul(u_inv_sq[round], d),
            d,
        );
        round += 1;
    }

    let mut gs_final = Pt::identity();
    let mut hs_final = Pt::identity();
    let mut i: usize = 0;
    while i < 8
        invariant
            0 <= i <= 8,
            d@ == d_spec(),
            forall|k: int| 0 <= k < 3 ==> (#[trigger] challenges[k])@ == ch_u(*proof, k),
            forall|k: int| 0 <= k < 8 ==> (#[trigger] gs_ip[k])@ == gvec(k),
            forall|k: int| 0 <= k < 8 ==> (#[trigger] hs_ip[k])@ == pmul(hvec(k), spow_n(sinv(ch_y(V@, *proof)), k as nat)),
            gs_final@ == g_final(*proof, i as nat),
            hs_final@ == h_final(V@, *proof, i as nat),
        decreases 8 - i,
    {
        let mut s = Sc::one();
        let mut s_prime = Sc::one();
        let mut round: usize = 0;
        while round < 3
            invariant
                0 <= round <= 3,
                0 <= i < 8,
                forall|k: int| 0 <= k < 3 ==> (#[trigger] challenges[k])@ == ch_u(*proof, k),
                s@ == s_coeff(*proof, i as int, round as nat, false),
                s_prime@ == s_coeff(*proof, i as int, round as nat, true),
            decreases 3 - round,
        {
            let bit = (i >> (2 - round)) & 1;
            if bit == 1 {
                s = s.mul(challenges[round]);
                s_prime = s_prime.mul(challenges[round].invert());
            } else {
                s = s.mul(challenges[round].invert());
                s_prime = s_prime.mul(challenges[round]);
            }
            round += 1;
        }
        gs_final = gs_final.add(gs_ip[i].mul(s, d), d);
        hs_final = hs_final.add(hs_ip[i].mul(s_prime, d), d);
        i += 1;
    }

    let ab = proof.a.mul(proof.b);
    let expected = gs_final.mul(proof.a, d).add(hs_final.mul(proof.b, d), d).add(
        Q.mul(ab, d),
        d,
    );

    P_prime.eq_pt(&expected)
}

} // verus!
