//! The inner-product argument's folding, at the level of scalars: each round
//! turns <l, r> into <l', r'> plus the cross terms weighted by the squared
//! challenge and its inverse, so that the final scalars a and b of a proof
//! the prover made satisfy the exponent equation on Q of the verifier's
//! second check, for challenges that have inverses.
use vstd::prelude::*;
use crate::scalar::{sadd, smul, sinv};
use crate::prove::{IpState, fold_state, cl_acc, cr_acc, ip_init, ip_after, half_of, pr_u, tx_acc, l_vec, r_vec, prover_output, lemma_prover_verifier_challenges, lemma_prover_output_scalars, lemma_ip_after_next};
use crate::verify::ch_u;
use crate::bulletproof::Bulletproof;
use crate::poly::{eqm, lemma_eqm_refl, lemma_eqm_symm, lemma_eqm_trans, lemma_eqm_add, lemma_eqm_mul, lemma_sadd_cong, lemma_smul_cong, lemma_eqm_reduced};

verus! {

/// <l, r> over the first `n` entries of a state, as an integer.
pub open spec fn ip_sum(st: IpState, n: nat) -> int
    decreases n,
{
    if n == 0 {
        0
    } else {
        ip_sum(st, (n - 1) as nat) + st.0[n - 1] * st.1[n - 1]
    }
}

/// <l, r> over the `n` entries from `h` on.
pub open spec fn upper_sum(st: IpState, h: nat, n: nat) -> int
    decreases n,
{
    if n == 0 {
        0
    } else {
        upper_sum(st, h, (n - 1) as nat) + st.0[h + n - 1] * st.1[h + n - 1]
    }
}

proof fn lemma_ip_sum_split(st: IpState, h: nat, n: nat)
    ensures
        ip_sum(st, h + n) == ip_sum(st, h) + upper_sum(st, h, n),
    decreases n,
{
    if n > 0 {
        lemma_ip_sum_split(st, h, (n - 1) as nat);
        assert((h + n - 1) as nat == h + (n - 1) as nat);
    }
}

/// One folded entry: (l0 u + l1 u') (r0 u' + r1 u) with u u' = 1 is
/// l0 r0 + l1 r1 + u^2 l0 r1 + u'^2 l1 r0.
proof fn lemma_fold_term(l0: nat, l1: nat, r0: nat, r1: nat, u: nat, ui: nat)
    requires
        smul(u, ui) == 1,
    ensures
        eqm(
            (sadd(smul(l0, u), smul(l1, ui)) * sadd(smul(r0, ui), smul(r1, u))) as int,
            (l0 * r0 + l1 * r1 + smul(u, u) * (l0 * r1) + smul(ui, ui) * (l1 * r0)) as int,
        ),
{
    let (L0, L1, R0, R1, U, UI) = (l0 as int, l1 as int, r0 as int, r1 as int, u as int, ui as int);
    lemma_eqm_refl(L0);
    lemma_eqm_refl(L1);
    lemma_eqm_refl(R0);
    lemma_eqm_refl(R1);
    lemma_eqm_refl(U);
    lemma_eqm_refl(UI);
    lemma_smul_cong(l0, u, L0, U);
    lemma_smul_cong(l1, ui, L1, UI);
    lemma_sadd_cong(smul(l0, u), smul(l1, ui), L0 * U, L1 * UI);
    lemma_smul_cong(r0, ui, R0, UI);
    lemma_smul_cong(r1, u, R1, U);
    lemma_sadd_cong(smul(r0, ui), smul(r1, u), R0 * UI, R1 * U);
    let lf = sadd(smul(l0, u), smul(l1, ui));
    let rf = sadd(smul(r0, ui), smul(r1, u));
    lemma_eqm_mul(lf as int, rf as int, L0 * U + L1 * UI, R0 * UI + R1 * U);
    assert((L0 * U + L1 * UI) * (R0 * UI + R1 * U) == (L0 * U) * (R0 * UI) + (L0 * U) * (R1 * U) + (L1
        * UI) * (R0 * UI) + (L1 * UI) * (R1 * U)) by (nonlinear_arith);
    assert((L0 * U) * (R0 * UI) == (L0 * R0) * (U * UI)) by (nonlinear_arith);
    assert((L0 * U) * (R1 * U) == (U * U) * (L0 * R1)) by (nonlinear_arith);
    assert((L1 * UI) * (R0 * UI) == (UI * UI) * (L1 * R0)) by (nonlinear_arith);
    assert((L1 * UI) * (R1 * U) == (L1 * R1) * (U * UI)) by (nonlinear_arith);
    assert((L0 * R0 + L1 * R1) * (U * UI) == (L0 * R0) * (U * UI) + (L1 * R1) * (U * UI)) by (nonlinear_arith);
    lemma_smul_cong(u, ui, U, UI);
    lemma_eqm_refl(1);
    lemma_eqm_symm(smul(u, ui) as int, U * UI);
    lemma_eqm_refl(L0 * R0 + L1 * R1);
    lemma_eqm_mul(L0 * R0 + L1 * R1, U * UI, L0 * R0 + L1 * R1, 1);
    lemma_smul_cong(u, u, U, U);
    lemma_smul_cong(ui, ui, UI, UI);
    lemma_eqm_refl(L0 * R1);
    lemma_eqm_refl(L1 * R0);
    lemma_eqm_symm(smul(u, u) as int, U * U);
    lemma_eqm_symm(smul(ui, ui) as int, UI * UI);
    lemma_eqm_mul(U * U, L0 * R1, smul(u, u) as int, L0 * R1);
    lemma_eqm_mul(UI * UI, L1 * R0, smul(ui, ui) as int, L1 * R0);
    lemma_eqm_add((L0 * R0 + L1 * R1) * (U * UI), (U * U) * (L0 * R1), (L0 * R0 + L1 * R1) * 1, smul(u, u)
        * (L0 * R1));
    lemma_eqm_add(
        (L0 * R0 + L1 * R1) * (U * UI) + (U * U) * (L0 * R1),
        (UI * UI) * (L1 * R0),
        (L0 * R0 + L1 * R1) * 1 + smul(u, u) * (L0 * R1),
        smul(ui, ui) * (L1 * R0),
    );
    lemma_eqm_trans(
        (lf * rf) as int,
        (L0 * U + L1 * UI) * (R0 * UI + R1 * U),
        L0 * R0 + L1 * R1 + smul(u, u) * (L0 * R1) + smul(ui, ui) * (L1 * R0),
    );
}

/// Folding the first `n` entries of the lower half with an invertible
/// challenge: <l', r'> over them is <l, r> over them and their partners in
/// the upper half, plus u^2 times the running c_L and u^-2 times c_R.
proof fn lemma_fold_sum(st: IpState, u: nat, h: nat, n: nat)
    requires
        smul(u, sinv(u)) == 1,
        n <= h,
        h <= 4,
    ensures
        eqm(
            ip_sum(fold_state(st, u, h), n),
            ip_sum(st, n) + upper_sum(st, h, n) + smul(u, u) * cl_acc(st, h, n) + smul(sinv(u), sinv(u))
                * cr_acc(st, h, n),
        ),
    decreases n,
{
    let ui = sinv(u);
    let U2: int = smul(u, u) as int;
    let UI2: int = smul(ui, ui) as int;
    if n == 0 {
        lemma_eqm_refl(0);
        assert(U2 * 0 + UI2 * 0 == 0) by (nonlinear_arith);
    } else {
        let m = (n - 1) as nat;
        let i = m as int;
        lemma_fold_sum(st, u, h, m);
        let f = fold_state(st, u, h);
        let l0 = st.0[i];
        let l1 = st.0[h + i];
        let r0 = st.1[i];
        let r1 = st.1[h + i];
        assert(f.0[i] == sadd(smul(l0, u), smul(l1, ui)));
        assert(f.1[i] == sadd(smul(r0, ui), smul(r1, u)));
        lemma_fold_term(l0, l1, r0, r1, u, ui);
        let prev: int = ip_sum(st, m) + upper_sum(st, h, m) + U2 * cl_acc(st, h, m) + UI2 * cr_acc(st, h, m);
        let term: int = l0 * r0 + l1 * r1 + U2 * (l0 * r1) + UI2 * (l1 * r0);
        lemma_eqm_add(ip_sum(f, m), (f.0[i] * f.1[i]) as int, prev, term);

        let cl = cl_acc(st, h, m);
        let cr = cr_acc(st, h, m);
        lemma_eqm_refl(cl as int);
        lemma_eqm_refl(cr as int);
        lemma_eqm_refl(l0 as int);
        lemma_eqm_refl(r1 as int);
        lemma_eqm_refl(l1 as int);
        lemma_eqm_refl(r0 as int);
        lemma_smul_cong(l0, r1, l0 as int, r1 as int);
        lemma_smul_cong(l1, r0, l1 as int, r0 as int);
        lemma_sadd_cong(cl, smul(l0, r1), cl as int, (l0 * r1) as int);
        lemma_sadd_cong(cr, smul(l1, r0), cr as int, (l1 * r0) as int);
        lemma_eqm_refl(U2);
        lemma_eqm_refl(UI2);
        lemma_eqm_mul(U2, cl_acc(st, h, n) as int, U2, (cl + l0 * r1) as int);
        lemma_eqm_mul(UI2, cr_acc(st, h, n) as int, UI2, (cr + l1 * r0) as int);
        assert(U2 * (cl + l0 * r1) == U2 * cl + U2 * (l0 * r1)) by (nonlinear_arith);
        assert(UI2 * (cr + l1 * r0) == UI2 * cr + UI2 * (l1 * r0)) by (nonlinear_arith);
        let base: int = ip_sum(st, n) + upper_sum(st, h, n);
        lemma_eqm_refl(base);
        lemma_eqm_add(base, U2 * cl_acc(st, h, n), base, U2 * cl + U2 * (l0 * r1));
        lemma_eqm_add(
            base + U2 * cl_acc(st, h, n),
            UI2 * cr_acc(st, h, n),
            base + U2 * cl + U2 * (l0 * r1),
            UI2 * cr + UI2 * (l1 * r0),
        );
        assert(base + U2 * cl + U2 * (l0 * r1) + (UI2 * cr + UI2 * (l1 * r0)) == prev + term);
        lemma_eqm_symm(base + U2 * cl_acc(st, h, n) + UI2 * cr_acc(st, h, n), prev + term);
        lemma_eqm_trans(ip_sum(f, n), prev + term, base + U2 * cl_acc(st, h, n) + UI2 * cr_acc(st, h, n));
    }
}



/// The cross terms of one round with challenge `u` on half length `h`,
/// modulo l: u^2 c_L + u^-2 c_R.
pub open spec fn round_cross(st: IpState, u: nat, h: nat) -> nat {
    let ui = sinv(u);
    sadd(smul(smul(u, u), cl_acc(st, h, h)), smul(smul(ui, ui), cr_acc(st, h, h)))
}

/// The cross terms of the first `n` rounds, modulo l: the sum of
/// u_k^2 c_L,k + u_k^-2 c_R,k, where c_L,k and c_R,k are the cross inner
/// products that L_k and R_k carry on Q.
pub open spec fn cross_acc(v: u32, r: nat, seed: Seq<u8>, n: nat) -> nat
    decreases n,
{
    if n == 0 {
        0
    } else {
        let k = (n - 1) as nat;
        sadd(cross_acc(v, r, seed, k), round_cross(ip_after(v, r, seed, k), pr_u(v, r, seed, k), half_of(k)))
    }
}

/// One round with an invertible challenge adds its cross terms to the
/// congruence class of <l, r>.
proof fn lemma_round_step(st: IpState, u: nat, h: nat, base: int, prev: nat)
    requires
        smul(u, sinv(u)) == 1,
        h <= 4,
        eqm(ip_sum(st, h + h), base + prev),
    ensures
        eqm(ip_sum(fold_state(st, u, h), h), base + sadd(prev, round_cross(st, u, h))),
{
    let ui = sinv(u);
    lemma_fold_sum(st, u, h, h);
    lemma_ip_sum_split(st, h, h);
    let cl = cl_acc(st, h, h);
    let cr = cr_acc(st, h, h);
    let U2 = smul(u, u);
    let UI2 = smul(ui, ui);
    let c: int = (U2 * cl + UI2 * cr) as int;
    lemma_eqm_refl(c);
    lemma_eqm_add(ip_sum(st, h + h), c, base + prev, c);
    lemma_eqm_trans(ip_sum(fold_state(st, u, h), h), ip_sum(st, h + h) + c, base + prev + c);
    lemma_eqm_refl(U2 as int);
    lemma_eqm_refl(UI2 as int);
    lemma_eqm_refl(cl as int);
    lemma_eqm_refl(cr as int);
    lemma_eqm_refl(prev as int);
    lemma_smul_cong(U2, cl, U2 as int, cl as int);
    lemma_smul_cong(UI2, cr, UI2 as int, cr as int);
    lemma_sadd_cong(smul(U2, cl), smul(UI2, cr), (U2 * cl) as int, (UI2 * cr) as int);
    lemma_sadd_cong(prev, round_cross(st, u, h), prev as int, c);
    lemma_eqm_refl(base);
    lemma_eqm_add(base, sadd(prev, round_cross(st, u, h)) as int, base, prev + c);
    lemma_eqm_symm(base + sadd(prev, round_cross(st, u, h)), base + (prev + c));
    lemma_eqm_trans(ip_sum(fold_state(st, u, h), h), base + prev + c, base + sadd(prev, round_cross(st, u, h)));
}

/// Three foldings on half lengths 4, 2 and 1 with invertible challenges:
/// the last <l, r> is congruent to the first plus all the cross terms.
proof fn lemma_fold_chain(s0: IpState, s1: IpState, s2: IpState, s3: IpState, u0: nat, u1: nat, u2: nat, tx: nat)
    requires
        s1 == fold_state(s0, u0, 4),
        s2 == fold_state(s1, u1, 2),
        s3 == fold_state(s2, u2, 1),
        smul(u0, sinv(u0)) == 1,
        smul(u1, sinv(u1)) == 1,
        smul(u2, sinv(u2)) == 1,
        eqm(tx as int, ip_sum(s0, 8)),
    ensures
        eqm(
            ip_sum(s3, 1),
            (tx + sadd(sadd(sadd(0, round_cross(s0, u0, 4)), round_cross(s1, u1, 2)), round_cross(s2, u2, 1))) as int,
        ),
{
    lemma_eqm_symm(tx as int, ip_sum(s0, 8));
    assert(ip_sum(s0, 4 + 4) == ip_sum(s0, 8));
    lemma_round_step(s0, u0, 4, tx as int, 0);
    let c1 = sadd(0, round_cross(s0, u0, 4));
    lemma_round_step(s1, u1, 2, tx as int, c1);
    let c2 = sadd(c1, round_cross(s1, u1, 2));
    lemma_round_step(s2, u2, 1, tx as int, c2);
}

/// <l, r> over one entry.
proof fn lemma_ip_sum_one(st: IpState)
    ensures
        ip_sum(st, 1) == st.0[0] * st.1[0],
{
    reveal_with_fuel(ip_sum, 2);
}

/// The state after round `j + 1` is the state after round `j` folded with
/// the challenge of round `j`.
proof fn lemma_ip_after_step(v: u32, r: nat, seed: Seq<u8>, j: nat)
    ensures
        ip_after(v, r, seed, j + 1) == fold_state(ip_after(v, r, seed, j), pr_u(v, r, seed, j), half_of(j)),
        ip_after(v, r, seed, 0) == ip_init(v, r, seed),
{
    lemma_ip_after_next(v, r, seed, j);
}

/// The prover's tx over the first `n` terms is congruent to <l(x), r(x)>
/// over the same terms of the initial state.
#[verifier::rlimit(100)]
proof fn lemma_tx_inner(v: u32, r: nat, seed: Seq<u8>, n: nat)
    requires
        n <= 8,
    ensures
        eqm(tx_acc(v, r, seed, n) as int, ip_sum(ip_init(v, r, seed), n)),
    decreases n,
{
    if n == 0 {
        lemma_eqm_refl(0);
    } else {
        let m = (n - 1) as nat;
        let i = m as int;
        lemma_tx_inner(v, r, seed, m);
        let st = ip_init(v, r, seed);
        let lv = l_vec(v, r, seed, i);
        let rv = r_vec(v, r, seed, i);
        assert(st.0[i] == lv);
        assert(st.1[i] == rv);
        lemma_eqm_refl(lv as int);
        lemma_eqm_refl(rv as int);
        lemma_smul_cong(lv, rv, lv as int, rv as int);
        lemma_sadd_cong(tx_acc(v, r, seed, m), smul(lv, rv), ip_sum(st, m), (lv * rv) as int);
    }
}

/// With invertible round challenges, the product of the prover's final
/// scalars is congruent to tx plus the cross terms of the three rounds.
#[verifier::rlimit(100)]
proof fn lemma_prover_chain(v: u32, r: nat, seed: Seq<u8>)
    requires
        smul(pr_u(v, r, seed, 0), sinv(pr_u(v, r, seed, 0))) == 1,
        smul(pr_u(v, r, seed, 1), sinv(pr_u(v, r, seed, 1))) == 1,
        smul(pr_u(v, r, seed, 2), sinv(pr_u(v, r, seed, 2))) == 1,
    ensures
        eqm(
            (ip_after(v, r, seed, 3).0[0] * ip_after(v, r, seed, 3).1[0]) as int,
            (tx_acc(v, r, seed, 8) + cross_acc(v, r, seed, 3)) as int,
        ),
{
    let u0 = pr_u(v, r, seed, 0);
    let u1 = pr_u(v, r, seed, 1);
    let u2 = pr_u(v, r, seed, 2);
    let s0 = ip_after(v, r, seed, 0);
    let s1 = ip_after(v, r, seed, 1);
    let s2 = ip_after(v, r, seed, 2);
    let s3 = ip_after(v, r, seed, 3);
    lemma_ip_after_step(v, r, seed, 0);
    lemma_ip_after_step(v, r, seed, 1);
    lemma_ip_after_step(v, r, seed, 2);
    lemma_tx_inner(v, r, seed, 8);
    assert(s0 == ip_init(v, r, seed));
    lemma_fold_chain(s0, s1, s2, s3, u0, u1, u2, tx_acc(v, r, seed, 8));
    reveal_with_fuel(cross_acc, 4);
    lemma_ip_sum_one(s3);
}

/// The verifier's round challenges of a prover's proof are the prover's.
proof fn lemma_round_challenges(bp: Bulletproof, v: u32, r: nat, seed: Seq<u8>)
    requires
        prover_output(bp, v, r, seed),
        forall|k: int| 0 <= k < 3 ==> smul(#[trigger] ch_u(bp, k), sinv(ch_u(bp, k))) == 1,
    ensures
        smul(pr_u(v, r, seed, 0), sinv(pr_u(v, r, seed, 0))) == 1,
        smul(pr_u(v, r, seed, 1), sinv(pr_u(v, r, seed, 1))) == 1,
        smul(pr_u(v, r, seed, 2), sinv(pr_u(v, r, seed, 2))) == 1,
{
    lemma_prover_verifier_challenges(bp, v, r, seed);
    assert(ch_u(bp, 0) == pr_u(v, r, seed, 0));
    assert(ch_u(bp, 1) == pr_u(v, r, seed, 1));
    assert(ch_u(bp, 2) == pr_u(v, r, seed, 2));
}

/// Reduced forms of congruent values are equal.
proof fn lemma_reduce_both(a: nat, b: nat, p: int, tx: nat, c: nat)
    requires
        a * b == p,
        eqm(p, (tx + c) as int),
    ensures
        smul(a, b) == sadd(tx, c),
{
    lemma_eqm_refl(a as int);
    lemma_eqm_refl(b as int);
    lemma_smul_cong(a, b, a as int, b as int);
    lemma_eqm_trans(smul(a, b) as int, (a * b) as int, (tx + c) as int);
    lemma_eqm_refl(tx as int);
    lemma_eqm_refl(c as int);
    lemma_sadd_cong(tx, c, tx as int, c as int);
    lemma_eqm_symm(sadd(tx, c) as int, (tx + c) as int);
    lemma_eqm_trans(smul(a, b) as int, (tx + c) as int, sadd(tx, c) as int);
    vstd::arithmetic::div_mod::lemma_mod_bound((a * b) as int, crate::scalar::l_order() as int);
    vstd::arithmetic::div_mod::lemma_mod_bound((tx + c) as int, crate::scalar::l_order() as int);
    lemma_eqm_reduced(smul(a, b), sadd(tx, c));
}

/// In a proof that the prover made, with round challenges that have
/// inverses, the final scalars satisfy a b = tx + sum over the rounds of
/// (u_k^2 c_L,k + u_k^-2 c_R,k) modulo l: the exponent equation on Q of the
/// verifier's inner-product check, where L_k and R_k carry c_L,k Q and
/// c_R,k Q.
pub proof fn lemma_ip_q_exponent(bp: Bulletproof, v: u32, r: nat, seed: Seq<u8>)
    requires
        prover_output(bp, v, r, seed),
        forall|k: int| 0 <= k < 3 ==> smul(#[trigger] ch_u(bp, k), sinv(ch_u(bp, k))) == 1,
    ensures
        smul(bp.a@, bp.b@) == sadd(bp.tx@, cross_acc(v, r, seed, 3)),
{
    lemma_round_challenges(bp, v, r, seed);
    lemma_prover_output_scalars(bp, v, r, seed);
    lemma_prover_chain(v, r, seed);
    let s3 = ip_after(v, r, seed, 3);
    lemma_reduce_both(bp.a@, bp.b@, (s3.0[0] * s3.1[0]) as int, bp.tx@, cross_acc(v, r, seed, 3));
}

} // verus!
