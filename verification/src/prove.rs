//! The range-proof prover: bit commitments, the polynomial commitments and
//! the three rounds of the inner-product argument, with Fiat-Shamir
//! challenges and prover randomness drawn from a seeded generator.
use vstd::prelude::*;
use soroban_sdk::Env;
use crate::scalar::{Sc, l_order, sadd, ssub, smul, sinv};
use crate::field::Fe;
use crate::curve::{Pt, g_spec, get_generators, get_vector_generators, d_spec};
use crate::transcript::{hash_scalar_spec, transcript_y, transcript_z, transcript_x, transcript_w, transcript_ip, hash_fs_y_z, hash_fs_x, hash_fs_w, hash_fs_challenge_ip, SeededPrng, prng_draw, lemma_prng_state_step, prng_state};
use crate::bulletproof::Bulletproof;
use crate::verify::{padd, pmul, h_spec, gvec, hvec, spow_n, pow2_nat, lemma_shift_pow2, ch_y, ch_z, ch_x, ch_w, ch_u};

verus! {

/// Bit `i` of the value.
pub open spec fn a_l(v: u32, i: int) -> nat {
    ((v >> (i as u32)) & 1u32) as nat
}

/// Bit `i` of the value, less one.
pub open spec fn a_r(v: u32, i: int) -> nat {
    ssub(a_l(v, i), 1)
}

/// The blinding vectors drawn from the generator: `s_L[i]` is draw `1 + 2i`.
pub open spec fn s_l(seed: Seq<u8>, i: int) -> nat {
    prng_draw(seed, (1 + 2 * i) as nat)
}

/// `s_R[i]` is draw `2 + 2i`.
pub open spec fn s_r(seed: Seq<u8>, i: int) -> nat {
    prng_draw(seed, (2 + 2 * i) as nat)
}

/// The commitment to the bits after `n` terms: alpha H + sum of
/// `a_L[i] gs[i] + a_R[i] hs[i]`; alpha is draw 0.
pub open spec fn a_acc(v: u32, seed: Seq<u8>, n: nat) -> (nat, nat)
    decreases n,
{
    if n == 0 {
        pmul(h_spec(), prng_draw(seed, 0))
    } else {
        let i = (n - 1) as int;
        padd(padd(a_acc(v, seed, (n - 1) as nat), pmul(gvec(i), a_l(v, i))), pmul(hvec(i), a_r(v, i)))
    }
}

/// The commitment to the blinding vectors after `n` terms: beta H + sum of
/// `s_L[i] gs[i] + s_R[i] hs[i]`; beta is draw 17.
pub open spec fn s_acc(seed: Seq<u8>, n: nat) -> (nat, nat)
    decreases n,
{
    if n == 0 {
        pmul(h_spec(), prng_draw(seed, 17))
    } else {
        let i = (n - 1) as int;
        padd(padd(s_acc(seed, (n - 1) as nat), pmul(gvec(i), s_l(seed, i))), pmul(hvec(i), s_r(seed, i)))
    }
}

/// The Pedersen commitment v G + r H.
pub open spec fn commit_spec(v: u32, r: nat) -> (nat, nat) {
    padd(pmul(g_spec(), v as nat), pmul(h_spec(), r))
}

#[verifier::opaque]
pub open spec fn pr_y(v: u32, r: nat, seed: Seq<u8>) -> nat {
    hash_scalar_spec(transcript_y(commit_spec(v, r), a_acc(v, seed, 8), s_acc(seed, 8)))
}

pub open spec fn pr_z(v: u32, r: nat, seed: Seq<u8>) -> nat {
    hash_scalar_spec(transcript_z(pr_y(v, r, seed)))
}

/// The coefficients of t(X) = <l(X), r(X)> after `n` terms, as the pair
/// (t1, t2).
pub open spec fn t_acc(v: u32, r: nat, seed: Seq<u8>, n: nat) -> (nat, nat)
    decreases n,
{
    if n == 0 {
        (0, 0)
    } else {
        let i = (n - 1) as int;
        let y = pr_y(v, r, seed);
        let z = pr_z(v, r, seed);
        let yp = spow_n(y, i as nat);
        let l0 = ssub(a_l(v, i), z);
        let l1 = s_l(seed, i);
        let r0 = sadd(smul(yp, sadd(a_r(v, i), z)), smul(smul(z, z), pow2_nat(i)));
        let r1 = smul(yp, s_r(seed, i));
        let prev = t_acc(v, r, seed, (n - 1) as nat);
        (sadd(prev.0, sadd(smul(l0, r1), smul(l1, r0))), sadd(prev.1, smul(l1, r1)))
    }
}

/// T1 = t1 G + tau1 H, with tau1 draw 18.
pub open spec fn pr_t1(v: u32, r: nat, seed: Seq<u8>) -> (nat, nat) {
    padd(pmul(g_spec(), t_acc(v, r, seed, 8).0), pmul(h_spec(), prng_draw(seed, 18)))
}

/// T2 = t2 G + tau2 H, with tau2 draw 19.
pub open spec fn pr_t2(v: u32, r: nat, seed: Seq<u8>) -> (nat, nat) {
    padd(pmul(g_spec(), t_acc(v, r, seed, 8).1), pmul(h_spec(), prng_draw(seed, 19)))
}

pub open spec fn pr_x(v: u32, r: nat, seed: Seq<u8>) -> nat {
    hash_scalar_spec(transcript_x(pr_t1(v, r, seed), pr_t2(v, r, seed)))
}

/// l(x)[i] = a_L[i] - z + s_L[i] x.
pub open spec fn l_vec(v: u32, r: nat, seed: Seq<u8>, i: int) -> nat {
    sadd(ssub(a_l(v, i), pr_z(v, r, seed)), smul(s_l(seed, i), pr_x(v, r, seed)))
}

/// r(x)[i] = y^i (a_R[i] + z + s_R[i] x) + z^2 2^i.
pub open spec fn r_vec(v: u32, r: nat, seed: Seq<u8>, i: int) -> nat {
    let z = pr_z(v, r, seed);
    sadd(
        smul(
            spow_n(pr_y(v, r, seed), i as nat),
            sadd(sadd(a_r(v, i), z), smul(s_r(seed, i), pr_x(v, r, seed))),
        ),
        smul(smul(z, z), pow2_nat(i)),
    )
}

/// tx = <l(x), r(x)> after `n` terms.
pub open spec fn tx_acc(v: u32, r: nat, seed: Seq<u8>, n: nat) -> nat
    decreases n,
{
    if n == 0 {
        0
    } else {
        let i = (n - 1) as int;
        sadd(tx_acc(v, r, seed, (n - 1) as nat), smul(l_vec(v, r, seed, i), r_vec(v, r, seed, i)))
    }
}

/// taux = tau2 x^2 + tau1 x + z^2 r.
pub open spec fn pr_taux(v: u32, r: nat, seed: Seq<u8>) -> nat {
    let x = pr_x(v, r, seed);
    let z = pr_z(v, r, seed);
    sadd(sadd(smul(prng_draw(seed, 19), smul(x, x)), smul(prng_draw(seed, 18), x)), smul(smul(z, z), r))
}

/// mu = alpha + beta x.
pub open spec fn pr_mu(v: u32, r: nat, seed: Seq<u8>) -> nat {
    sadd(prng_draw(seed, 0), smul(prng_draw(seed, 17), pr_x(v, r, seed)))
}

/// Q = w G with w the challenge on tx, taux and mu.
#[verifier::opaque]
pub open spec fn pr_q(v: u32, r: nat, seed: Seq<u8>) -> (nat, nat) {
    pmul(g_spec(), hash_scalar_spec(transcript_w(tx_acc(v, r, seed, 8), pr_taux(v, r, seed), pr_mu(v, r, seed))))
}

/// The state of the inner-product argument: the vectors l and r and the
/// generators gs and hs, eight entries each.
pub type IpState = (Seq<nat>, Seq<nat>, Seq<(nat, nat)>, Seq<(nat, nat)>);

/// The state before the first round: l(x), r(x), gs and `hs[i] y^-i`.
pub open spec fn ip_init(v: u32, r: nat, seed: Seq<u8>) -> IpState {
    let yi = sinv(pr_y(v, r, seed));
    (
        Seq::new(8, |i: int| l_vec(v, r, seed, i)),
        Seq::new(8, |i: int| r_vec(v, r, seed, i)),
        Seq::new(8, |i: int| gvec(i)),
        Seq::new(8, |i: int| pmul(hvec(i), spow_n(yi, i as nat))),
    )
}

/// The half length of round `k`: 4, 2, then 1.
pub open spec fn half_of(k: nat) -> nat {
    if k == 0 {
        4
    } else if k == 1 {
        2
    } else {
        1
    }
}

/// c_L after `n` terms: sum of `l[i] r[half + i]`.
pub open spec fn cl_acc(st: IpState, half: nat, n: nat) -> nat
    decreases n,
{
    if n == 0 {
        0
    } else {
        let i = (n - 1) as int;
        sadd(cl_acc(st, half, (n - 1) as nat), smul(st.0[i], st.1[half + i]))
    }
}

/// c_R after `n` terms: sum of `l[half + i] r[i]`.
pub open spec fn cr_acc(st: IpState, half: nat, n: nat) -> nat
    decreases n,
{
    if n == 0 {
        0
    } else {
        let i = (n - 1) as int;
        sadd(cr_acc(st, half, (n - 1) as nat), smul(st.0[half + i], st.1[i]))
    }
}

/// L after `n` terms: c_L Q + sum of `l[i] gs[half + i] + r[half + i] hs[i]`.
#[verifier::opaque]
pub open spec fn lpt_acc(st: IpState, q: (nat, nat), half: nat, n: nat) -> (nat, nat)
    decreases n,
{
    if n == 0 {
        pmul(q, cl_acc(st, half, half))
    } else {
        let i = (n - 1) as int;
        padd(padd(lpt_acc(st, q, half, (n - 1) as nat), pmul(st.2[half + i], st.0[i])), pmul(st.3[i], st.1[half + i]))
    }
}

/// R after `n` terms: c_R Q + sum of `l[half + i] gs[i] + r[i] hs[half + i]`.
#[verifier::opaque]
pub open spec fn rpt_acc(st: IpState, q: (nat, nat), half: nat, n: nat) -> (nat, nat)
    decreases n,
{
    if n == 0 {
        pmul(q, cr_acc(st, half, half))
    } else {
        let i = (n - 1) as int;
        padd(padd(rpt_acc(st, q, half, (n - 1) as nat), pmul(st.2[i], st.0[half + i])), pmul(st.3[half + i], st.1[i]))
    }
}

/// One folding of the state with challenge `u`: the first `half` entries of
/// each vector combine entry `i` and entry `half + i`; the rest stay.
pub open spec fn fold_state(st: IpState, u: nat, half: nat) -> IpState {
    let ui = sinv(u);
    (
        Seq::new(8, |i: int| if i < half { sadd(smul(st.0[i], u), smul(st.0[half + i], ui)) } else { st.0[i] }),
        Seq::new(8, |i: int| if i < half { sadd(smul(st.1[i], ui), smul(st.1[half + i], u)) } else { st.1[i] }),
        Seq::new(8, |i: int| if i < half { padd(pmul(st.2[i], ui), pmul(st.2[half + i], u)) } else { st.2[i] }),
        Seq::new(8, |i: int| if i < half { padd(pmul(st.3[i], u), pmul(st.3[half + i], ui)) } else { st.3[i] }),
    )
}

/// L of round `k`.
#[verifier::opaque]
pub open spec fn pr_lpt(v: u32, r: nat, seed: Seq<u8>, k: nat) -> (nat, nat) {
    lpt_acc(ip_after(v, r, seed, k), pr_q(v, r, seed), half_of(k), half_of(k))
}

/// R of round `k`.
#[verifier::opaque]
pub open spec fn pr_rpt(v: u32, r: nat, seed: Seq<u8>, k: nat) -> (nat, nat) {
    rpt_acc(ip_after(v, r, seed, k), pr_q(v, r, seed), half_of(k), half_of(k))
}

/// The challenge of round `k`.
pub open spec fn pr_u(v: u32, r: nat, seed: Seq<u8>, k: nat) -> nat {
    hash_scalar_spec(transcript_ip(k as u8, pr_lpt(v, r, seed, k), pr_rpt(v, r, seed, k)))
}

/// The state after `k` rounds.
#[verifier::opaque]
pub open spec fn ip_after(v: u32, r: nat, seed: Seq<u8>, k: nat) -> IpState
    decreases k,
{
    if k == 0 {
        ip_init(v, r, seed)
    } else {
        let j = (k - 1) as nat;
        let st = ip_after(v, r, seed, j);
        let q = pr_q(v, r, seed);
        let h = half_of(j);
        let u = hash_scalar_spec(transcript_ip(j as u8, lpt_acc(st, q, h, h), rpt_acc(st, q, h, h)));
        fold_state(st, u, h)
    }
}


/// The proof that the prover makes for the value `v`, the blinding `r` and
/// the generator seed `seed`, field by field.
#[verifier::opaque]
pub open spec fn prover_output(bp: Bulletproof, v: u32, r: nat, seed: Seq<u8>) -> bool {
    &&& bp.A@ == a_acc(v, seed, 8)
    &&& bp.S@ == s_acc(seed, 8)
    &&& bp.T1@ == pr_t1(v, r, seed)
    &&& bp.T2@ == pr_t2(v, r, seed)
    &&& bp.tx@ == tx_acc(v, r, seed, 8)
    &&& bp.taux@ == pr_taux(v, r, seed)
    &&& bp.mu@ == pr_mu(v, r, seed)
    &&& forall|k: int| 0 <= k < 3 ==> (#[trigger] bp.L[k])@ == pr_lpt(v, r, seed, k as nat)
    &&& forall|k: int| 0 <= k < 3 ==> (#[trigger] bp.R[k])@ == pr_rpt(v, r, seed, k as nat)
    &&& bp.a@ == ip_after(v, r, seed, 3).0[0]
    &&& bp.b@ == ip_after(v, r, seed, 3).1[0]
}

/// The verifier, given the commitment v G + r H to the whole value v and a
/// proof that the prover made for v and r, derives the very Fiat-Shamir
/// challenges the prover used:
/// y, z, x, the point Q = w G and the three round challenges.
pub proof fn lemma_prover_verifier_challenges(bp: Bulletproof, v: u32, r: nat, seed: Seq<u8>)
    requires
        prover_output(bp, v, r, seed),
    ensures
        ch_y(padd(pmul(g_spec(), v as nat), pmul(h_spec(), r)), bp) == pr_y(v, r, seed),
        ch_z(padd(pmul(g_spec(), v as nat), pmul(h_spec(), r)), bp) == pr_z(v, r, seed),
        ch_x(bp) == pr_x(v, r, seed),
        pmul(g_spec(), ch_w(bp)) == pr_q(v, r, seed),
        forall|k: int| 0 <= k < 3 ==> #[trigger] ch_u(bp, k) == pr_u(v, r, seed, k as nat),
{
    reveal(prover_output);
    reveal(pr_q);
    reveal(pr_y);
    assert forall|k: int| 0 <= k < 3 implies #[trigger] ch_u(bp, k) == pr_u(v, r, seed, k as nat) by {
        assert(bp.L[k]@ == pr_lpt(v, r, seed, k as nat));
        assert(bp.R[k]@ == pr_rpt(v, r, seed, k as nat));
    }
}

/// The commitments and evaluations of a proof the prover made.
pub proof fn lemma_prover_output_evaluations(bp: Bulletproof, v: u32, r: nat, seed: Seq<u8>)
    requires
        prover_output(bp, v, r, seed),
    ensures
        bp.T1@ == pr_t1(v, r, seed),
        bp.T2@ == pr_t2(v, r, seed),
        bp.tx@ == tx_acc(v, r, seed, 8),
        bp.taux@ == pr_taux(v, r, seed),
{
    reveal(prover_output);
}

/// The final scalars of a proof the prover made.
pub proof fn lemma_prover_output_scalars(bp: Bulletproof, v: u32, r: nat, seed: Seq<u8>)
    requires
        prover_output(bp, v, r, seed),
    ensures
        bp.a@ == ip_after(v, r, seed, 3).0[0],
        bp.b@ == ip_after(v, r, seed, 3).1[0],
        bp.tx@ == tx_acc(v, r, seed, 8),
{
    reveal(prover_output);
}

/// Draws the next scalar, as draw `k` from `seed`.
fn draw(env: &Env, prng: &mut SeededPrng, Ghost(seed): Ghost<Seq<u8>>, Ghost(k): Ghost<nat>) -> (r: Sc)
    requires
        seed.len() == 32,
        old(prng)@ == prng_state(seed, k),
    ensures
        r@ == prng_draw(seed, k),
        r@ < l_order(),
        final(prng)@ == prng_state(seed, k + 1),
{
    let r = prng.next_scalar(env);
    proof {
        lemma_prng_state_step(seed, k);
    }
    r
}

/// The values of eight scalars.
pub open spec fn sc_vals(a: [Sc; 8]) -> Seq<nat> {
    a@.map_values(|s: Sc| s@)
}

/// The values of eight points.
pub open spec fn pt_vals(a: [Pt; 8]) -> Seq<(nat, nat)> {
    a@.map_values(|p: Pt| p@)
}

/// The state after round `k + 1` folds the state after round `k` with the
/// challenge on that round's L and R.
pub proof fn lemma_ip_after_next(v: u32, r: nat, seed: Seq<u8>, k: nat)
    ensures
        ip_after(v, r, seed, 0) == ip_init(v, r, seed),
        ip_after(v, r, seed, k + 1) == fold_state(
            ip_after(v, r, seed, k),
            hash_scalar_spec(transcript_ip(k as u8, pr_lpt(v, r, seed, k), pr_rpt(v, r, seed, k))),
            half_of(k),
        ),
{
    reveal(ip_after);
    reveal(pr_lpt);
    reveal(pr_rpt);
}

/// Round `k` of the prover's inner-product argument: when L and R are the
/// points the state after `k` rounds gives with Q, they are the round's
/// points, and folding that state with the challenge on them gives the state
/// after `k + 1` rounds.
#[verifier::rlimit(100)]
proof fn lemma_ip_round_state(v: u32, r: nat, seed: Seq<u8>, k: nat, lp: (nat, nat), rp: (nat, nat), q: (nat, nat))
    requires
        k < 3,
        q == pr_q(v, r, seed),
        lp == lpt_acc(ip_after(v, r, seed, k), q, half_of(k), half_of(k)),
        rp == rpt_acc(ip_after(v, r, seed, k), q, half_of(k), half_of(k)),
    ensures
        lp == pr_lpt(v, r, seed, k),
        rp == pr_rpt(v, r, seed, k),
        ip_after(v, r, seed, k + 1) == fold_state(
            ip_after(v, r, seed, k),
            hash_scalar_spec(transcript_ip((k % 256) as u8, lp, rp)),
            half_of(k),
        ),
{
    lemma_ip_after_next(v, r, seed, k);
    reveal(pr_lpt);
    reveal(pr_rpt);
    assert((k % 256) as u8 == k as u8);
}

/// One round of the inner-product argument on the state `st`, held in the
/// four arrays: the points L and R of the round, then the state folded with
/// the round's challenge.
#[verifier::rlimit(60)]
fn ip_round(
    env: &Env,
    round: usize,
    Q: Pt,
    d: Fe,
    l_in: [Sc; 8],
    r_in: [Sc; 8],
    g_in: [Pt; 8],
    h_in: [Pt; 8],
    half: usize,
    Ghost(st): Ghost<IpState>,
) -> (res: (Pt, Pt, [Sc; 8], [Sc; 8], [Pt; 8], [Pt; 8]))
    requires
        1 <= half <= 4,
        d@ == d_spec(),
        sc_vals(l_in) == st.0,
        sc_vals(r_in) == st.1,
        pt_vals(g_in) == st.2,
        pt_vals(h_in) == st.3,
    ensures
        res.0@ == lpt_acc(st, Q@, half as nat, half as nat),
        res.1@ == rpt_acc(st, Q@, half as nat, half as nat),
        ({
            let u = hash_scalar_spec(transcript_ip((round % 256) as u8, res.0@, res.1@));
            &&& sc_vals(res.2) == fold_state(st, u, half as nat).0
            &&& sc_vals(res.3) == fold_state(st, u, half as nat).1
            &&& pt_vals(res.4) == fold_state(st, u, half as nat).2
            &&& pt_vals(res.5) == fold_state(st, u, half as nat).3
        }),
{
    let mut il = l_in;
    let mut ir = r_in;
    let mut gi = g_in;
    let mut hi = h_in;
    let mut c_L = Sc::zero();
    let mut c_R = Sc::zero();
    let mut i: usize = 0;
    while i < half
        invariant
            0 <= i <= half,
            half <= 4,
            sc_vals(il) == st.0,
            sc_vals(ir) == st.1,
            c_L@ == cl_acc(st, half as nat, i as nat),
            c_R@ == cr_acc(st, half as nat, i as nat),
            c_L@ < l_order(),
            c_R@ < l_order(),
        decreases half - i,
    {
        proof {
            assert(sc_vals(il)[i as int] == il[i as int]@);
            assert(sc_vals(il)[half + i] == il[half + i]@);
            assert(sc_vals(ir)[i as int] == ir[i as int]@);
            assert(sc_vals(ir)[half + i] == ir[half + i]@);
        }
        c_L = c_L.add(il[i].mul(ir[half + i]));
        c_R = c_R.add(il[half + i].mul(ir[i]));
        i += 1;
    }

    proof {
        reveal_with_fuel(lpt_acc, 2);
        reveal_with_fuel(rpt_acc, 2);
    }
    let mut L_pt = Q.mul(c_L, d);
    let mut i: usize = 0;
    while i < half
        invariant
            0 <= i <= half,
            half <= 4,
            d@ == d_spec(),
            sc_vals(il) == st.0,
            sc_vals(ir) == st.1,
            pt_vals(gi) == st.2,
            pt_vals(hi) == st.3,
            L_pt@ == lpt_acc(st, Q@, half as nat, i as nat),
        decreases half - i,
    {
        proof {
            assert(sc_vals(il)[i as int] == il[i as int]@);
            assert(sc_vals(ir)[half + i] == ir[half + i]@);
            assert(pt_vals(gi)[half + i] == gi[half + i]@);
            assert(pt_vals(hi)[i as int] == hi[i as int]@);
        }
        proof {
            reveal_with_fuel(lpt_acc, 2);
        }
        L_pt = L_pt.add(gi[half + i].mul(il[i], d), d).add(hi[i].mul(ir[half + i], d), d);
        i += 1;
    }

    let mut R_pt = Q.mul(c_R, d);
    let mut i: usize = 0;
    while i < half
        invariant
            0 <= i <= half,
            half <= 4,
            d@ == d_spec(),
            sc_vals(il) == st.0,
            sc_vals(ir) == st.1,
            pt_vals(gi) == st.2,
            pt_vals(hi) == st.3,
            R_pt@ == rpt_acc(st, Q@, half as nat, i as nat),
        decreases half - i,
    {
        proof {
            assert(sc_vals(il)[half + i] == il[half + i]@);
            assert(sc_vals(ir)[i as int] == ir[i as int]@);
            assert(pt_vals(gi)[i as int] == gi[i as int]@);
            assert(pt_vals(hi)[half + i] == hi[half + i]@);
        }
        proof {
            reveal_with_fuel(rpt_acc, 2);
        }
        R_pt = R_pt.add(gi[i].mul(il[half + i], d), d).add(hi[half + i].mul(ir[i], d), d);
        i += 1;
    }

    let u = hash_fs_challenge_ip(env, round, &L_pt, &R_pt);
    let u_inv = u.invert();
    proof {
        assert forall|k: int| 0 <= k < 8 implies (#[trigger] il[k])@ == st.0[k] by {
            assert(sc_vals(il)[k] == il[k]@);
        }
        assert forall|k: int| 0 <= k < 8 implies (#[trigger] ir[k])@ == st.1[k] by {
            assert(sc_vals(ir)[k] == ir[k]@);
        }
        assert forall|k: int| 0 <= k < 8 implies (#[trigger] gi[k])@ == st.2[k] by {
            assert(pt_vals(gi)[k] == gi[k]@);
        }
        assert forall|k: int| 0 <= k < 8 implies (#[trigger] hi[k])@ == st.3[k] by {
            assert(pt_vals(hi)[k] == hi[k]@);
        }
    }

    let mut i: usize = 0;
    while i < half
        invariant
            0 <= i <= half,
            half <= 4,
            u_inv@ == sinv(u@),
            forall|k: int| 0 <= k < 8 ==> (#[trigger] il[k])@ == (if k < i {
                fold_state(st, u@, half as nat).0[k]
            } else {
                st.0[k]
            }),
            forall|k: int| 0 <= k < 8 ==> (#[trigger] ir[k])@ == (if k < i {
                fold_state(st, u@, half as nat).1[k]
            } else {
                st.1[k]
            }),
        decreases half - i,
    {
        il[i] = il[i].mul(u).add(il[half + i].mul(u_inv));
        ir[i] = ir[i].mul(u_inv).add(ir[half + i].mul(u));
        i += 1;
    }

    let mut i: usize = 0;
    while i < half
        invariant
            0 <= i <= half,
            half <= 4,
            d@ == d_spec(),
            u_inv@ == sinv(u@),
            forall|k: int| 0 <= k < 8 ==> (#[trigger] gi[k])@ == (if k < i {
                fold_state(st, u@, half as nat).2[k]
            } else {
                st.2[k]
            }),
            forall|k: int| 0 <= k < 8 ==> (#[trigger] hi[k])@ == (if k < i {
                fold_state(st, u@, half as nat).3[k]
            } else {
                st.3[k]
            }),
        decreases half - i,
    {
        gi[i] = gi[i].mul(u_inv, d).add(gi[half + i].mul(u, d), d);
        hi[i] = hi[i].mul(u, d).add(hi[half + i].mul(u_inv, d), d);
        i += 1;
    }

    proof {
        let f = fold_state(st, u@, half as nat);
        assert(sc_vals(il) =~= f.0);
        assert(sc_vals(ir) =~= f.1);
        assert(pt_vals(gi) =~= f.2);
        assert(pt_vals(hi) =~= f.3);
    }
    (L_pt, R_pt, il, ir, gi, hi)
}

/// The three rounds of the inner-product argument from the state after the
/// evaluations: the round points L and R and the final scalars a and b.
#[verifier::rlimit(100)]
fn ip_argument(
    env: &Env,
    Q: Pt,
    d: Fe,
    ip_l: [Sc; 8],
    ip_r: [Sc; 8],
    gs_ip: [Pt; 8],
    hs_ip: [Pt; 8],
    Ghost(v): Ghost<u32>,
    Ghost(r): Ghost<nat>,
    Ghost(seed): Ghost<Seq<u8>>,
) -> (res: ([Pt; 3], [Pt; 3], Sc, Sc))
    requires
        d@ == d_spec(),
        Q@ == pr_q(v, r, seed),
        sc_vals(ip_l) == ip_init(v, r, seed).0,
        sc_vals(ip_r) == ip_init(v, r, seed).1,
        pt_vals(gs_ip) == ip_init(v, r, seed).2,
        pt_vals(hs_ip) == ip_init(v, r, seed).3,
    ensures
        forall|k: int| 0 <= k < 3 ==> (#[trigger] res.0[k])@ == pr_lpt(v, r, seed, k as nat),
        forall|k: int| 0 <= k < 3 ==> (#[trigger] res.1[k])@ == pr_rpt(v, r, seed, k as nat),
        res.2@ == ip_after(v, r, seed, 3).0[0],
        res.3@ == ip_after(v, r, seed, 3).1[0],
{
    proof {
        lemma_ip_after_next(v, r, seed, 0);
    }
    let ghost st0 = ip_after(v, r, seed, 0);
    let (L0, R0, l1, r1, g1, h1) = ip_round(env, 0, Q, d, ip_l, ip_r, gs_ip, hs_ip, 4, Ghost(st0));
    proof {
        lemma_ip_round_state(v, r, seed, 0, L0@, R0@, Q@);
    }
    let ghost st1 = ip_after(v, r, seed, 1);
    let (L1, R1, l2, r2, g2, h2) = ip_round(env, 1, Q, d, l1, r1, g1, h1, 2, Ghost(st1));
    proof {
        lemma_ip_round_state(v, r, seed, 1, L1@, R1@, Q@);
    }
    let ghost st2 = ip_after(v, r, seed, 2);
    let (L2, R2, l3, r3, _g3, _h3) = ip_round(env, 2, Q, d, l2, r2, g2, h2, 1, Ghost(st2));
    proof {
        lemma_ip_round_state(v, r, seed, 2, L2@, R2@, Q@);
        let st3 = ip_after(v, r, seed, 3);
        assert(sc_vals(l3)[0] == l3[0]@);
        assert(sc_vals(r3)[0] == r3[0]@);
    }
    let L = [L0, L1, L2];
    let R = [R0, R1, R2];
    proof {
        assert(forall|k: int| 0 <= k < 3 ==> (#[trigger] L[k])@ == pr_lpt(v, r, seed, k as nat));
        assert(forall|k: int| 0 <= k < 3 ==> (#[trigger] R[k])@ == pr_rpt(v, r, seed, k as nat));
    }
    (L, R, l3[0], r3[0])
}

/// Proves that the 8-bit value `v` lies in [0, 2^8), committed as
/// `v G + r H`, with prover randomness drawn from `prng`.
#[verifier::rlimit(100)]
pub fn prove_range_proof(env: &Env, v: u32, r: Sc, prng: SeededPrng) -> (res: Bulletproof)
    ensures
        prover_output(res, v, r@, prng@),
{
    let ghost seed = prng@;
    proof {
        prng.lemma_state_len();
        lemma_prng_state_step(seed, 0);
    }
    let mut prng = prng;
    let (g_pt, h_pt, d) = get_generators();
    let (gs, hs) = get_vector_generators(d);

    let mut a_L = [Sc::zero(); 8];
    let mut a_R = [Sc::zero(); 8];
    let mut i: usize = 0;
    while i < 8
        invariant
            0 <= i <= 8,
            forall|k: int| 0 <= k < i ==> (#[trigger] a_L[k])@ == a_l(v, k),
            forall|k: int| 0 <= k < i ==> (#[trigger] a_R[k])@ == a_r(v, k),
            forall|k: int| 0 <= k < i ==> (#[trigger] a_L[k])@ < 2,
            forall|k: int| 0 <= k < i ==> (#[trigger] a_R[k])@ < l_order(),
        decreases 8 - i,
    {
        let bit = ((v >> (i as u32)) & 1) as u64;
        proof {
            let s = i as u32;
            assert(((v >> s) & 1u32) <= 1u32) by (bit_vector);
        }
        a_L[i] = Sc::from_u64(bit);
        a_R[i] = Sc::from_u64(bit).sub(Sc::one());
        i += 1;
    }

    let alpha = draw(env, &mut prng, Ghost(seed), Ghost(0));
    let mut A = h_pt.mul(alpha, d);
    let mut i: usize = 0;
    while i < 8
        invariant
            0 <= i <= 8,
            d@ == d_spec(),
            forall|k: int| 0 <= k < 8 ==> (#[trigger] gs[k])@ == gvec(k),
            forall|k: int| 0 <= k < 8 ==> (#[trigger] hs[k])@ == hvec(k),
            forall|k: int| 0 <= k < 8 ==> (#[trigger] a_L[k])@ == a_l(v, k),
            forall|k: int| 0 <= k < 8 ==> (#[trigger] a_R[k])@ == a_r(v, k),
            A@ == a_acc(v, seed, i as nat),
        decreases 8 - i,
    {
        A = A.add(gs[i].mul(a_L[i], d), d).add(hs[i].mul(a_R[i], d), d);
        i += 1;
    }

    let mut s_L = [Sc::zero(); 8];
    let mut s_R = [Sc::zero(); 8];
    let mut i: usize = 0;
    while i < 8
        invariant
            0 <= i <= 8,
            seed.len() == 32,
            prng@ == prng_state(seed, (1 + 2 * i) as nat),
            forall|k: int| 0 <= k < i ==> (#[trigger] s_L[k])@ == s_l(seed, k),
            forall|k: int| 0 <= k < i ==> (#[trigger] s_R[k])@ == s_r(seed, k),
            forall|k: int| 0 <= k < i ==> (#[trigger] s_L[k])@ < l_order(),
            forall|k: int| 0 <= k < i ==> (#[trigger] s_R[k])@ < l_order(),
        decreases 8 - i,
    {
        s_L[i] = draw(env, &mut prng, Ghost(seed), Ghost((1 + 2 * i) as nat));
        s_R[i] = draw(env, &mut prng, Ghost(seed), Ghost((2 + 2 * i) as nat));
        i += 1;
    }
    let beta = draw(env, &mut prng, Ghost(seed), Ghost(17));
    let mut S = h_pt.mul(beta, d);
    let mut i: usize = 0;
    while i < 8
        invariant
            0 <= i <= 8,
            d@ == d_spec(),
            forall|k: int| 0 <= k < 8 ==> (#[trigger] gs[k])@ == gvec(k),
            forall|k: int| 0 <= k < 8 ==> (#[trigger] hs[k])@ == hvec(k),
            forall|k: int| 0 <= k < 8 ==> (#[trigger] s_L[k])@ == s_l(seed, k),
            forall|k: int| 0 <= k < 8 ==> (#[trigger] s_R[k])@ == s_r(seed, k),
            S@ == s_acc(seed, i as nat),
        decreases 8 - i,
    {
        S = S.add(gs[i].mul(s_L[i], d), d).add(hs[i].mul(s_R[i], d), d);
        i += 1;
    }

    let V = g_pt.mul(Sc::from_u64(v as u64), d).add(h_pt.mul(r, d), d);
    let (y, z) = hash_fs_y_z(env, &V, &A, &S);
    proof {
        reveal(pr_y);
    }

    let mut y_pow = [Sc::one(); 8];
    let mut i: usize = 1;
    while i < 8
        invariant
            1 <= i <= 8,
            y@ < l_order(),
            forall|k: int| 0 <= k < i ==> (#[trigger] y_pow[k])@ == spow_n(y@, k as nat),
            forall|k: int| 0 <= k < i ==> (#[trigger] y_pow[k])@ < l_order(),
        decreases 8 - i,
    {
        y_pow[i] = y_pow[i - 1].mul(y);
        i += 1;
    }

    let z2 = z.mul(z);
    let z3 = z2.mul(z);

    let mut t1 = Sc::zero();
    let mut t2 = Sc::zero();
    let mut i: usize = 0;
    while i < 8
        invariant
            0 <= i <= 8,
            y@ == pr_y(v, r@, seed),
            z@ == pr_z(v, r@, seed),
            z@ < l_order(),
            z2@ == smul(z@, z@),
            forall|k: int| 0 <= k < 8 ==> (#[trigger] a_L[k])@ == a_l(v, k),
            forall|k: int| 0 <= k < 8 ==> (#[trigger] a_R[k])@ == a_r(v, k),
            forall|k: int| 0 <= k < 8 ==> (#[trigger] a_L[k])@ < 2,
            forall|k: int| 0 <= k < 8 ==> (#[trigger] a_R[k])@ < l_order(),
            forall|k: int| 0 <= k < 8 ==> (#[trigger] s_L[k])@ == s_l(seed, k),
            forall|k: int| 0 <= k < 8 ==> (#[trigger] s_R[k])@ == s_r(seed, k),
            forall|k: int| 0 <= k < 8 ==> (#[trigger] s_L[k])@ < l_order(),
            forall|k: int| 0 <= k < 8 ==> (#[trigger] s_R[k])@ < l_order(),
            forall|k: int| 0 <= k < 8 ==> (#[trigger] y_pow[k])@ == spow_n(y@, k as nat),
            forall|k: int| 0 <= k < 8 ==> (#[trigger] y_pow[k])@ < l_order(),
            t1@ == t_acc(v, r@, seed, i as nat).0,
            t2@ == t_acc(v, r@, seed, i as nat).1,
            t1@ < l_order(),
            t2@ < l_order(),
        decreases 8 - i,
    {
        proof {
            lemma_shift_pow2(i as u64);
        }
        let l_0 = a_L[i].sub(z);
        let l_1 = s_L[i];

        let two_pow_i = Sc::from_u64(1 << i);
        let r_0 = y_pow[i].mul(a_R[i].add(z)).add(z2.mul(two_pow_i));
        let r_1 = y_pow[i].mul(s_R[i]);

        t1 = t1.add(l_0.mul(r_1).add(l_1.mul(r_0)));
        t2 = t2.add(l_1.mul(r_1));
        i += 1;
    }

    let tau1 = draw(env, &mut prng, Ghost(seed), Ghost(18));
    let tau2 = draw(env, &mut prng, Ghost(seed), Ghost(19));
    let T1 = g_pt.mul(t1, d).add(h_pt.mul(tau1, d), d);
    let T2 = g_pt.mul(t2, d).add(h_pt.mul(tau2, d), d);

    let x = hash_fs_x(env, &T1, &T2);
    let x2 = x.mul(x);

    let mut l = [Sc::zero(); 8];
    let mut r_v = [Sc::zero(); 8];
    let mut tx = Sc::zero();
    let mut i: usize = 0;
    while i < 8
        invariant
            0 <= i <= 8,
            y@ == pr_y(v, r@, seed),
            z@ == pr_z(v, r@, seed),
            x@ == pr_x(v, r@, seed),
            z@ < l_order(),
            x@ < l_order(),
            z2@ == smul(z@, z@),
            forall|k: int| 0 <= k < 8 ==> (#[trigger] a_L[k])@ == a_l(v, k),
            forall|k: int| 0 <= k < 8 ==> (#[trigger] a_R[k])@ == a_r(v, k),
            forall|k: int| 0 <= k < 8 ==> (#[trigger] a_L[k])@ < 2,
            forall|k: int| 0 <= k < 8 ==> (#[trigger] a_R[k])@ < l_order(),
            forall|k: int| 0 <= k < 8 ==> (#[trigger] s_L[k])@ == s_l(seed, k),
            forall|k: int| 0 <= k < 8 ==> (#[trigger] s_R[k])@ == s_r(seed, k),
            forall|k: int| 0 <= k < 8 ==> (#[trigger] y_pow[k])@ == spow_n(y@, k as nat),
            forall|k: int| 0 <= k < 8 ==> (#[trigger] y_pow[k])@ < l_order(),
            forall|k: int| 0 <= k < i ==> (#[trigger] l[k])@ == l_vec(v, r@, seed, k),
            forall|k: int| 0 <= k < i ==> (#[trigger] r_v[k])@ == r_vec(v, r@, seed, k),
            tx@ == tx_acc(v, r@, seed, i as nat),
            tx@ < l_order(),
        decreases 8 - i,
    {
        proof {
            lemma_shift_pow2(i as u64);
        }
        l[i] = a_L[i].sub(z).add(s_L[i].mul(x));
        let two_pow_i = Sc::from_u64(1 << i);
        r_v[i] = y_pow[i].mul(a_R[i].add(z).add(s_R[i].mul(x))).add(z2.mul(two_pow_i));
        tx = tx.add(l[i].mul(r_v[i]));
        i += 1;
    }

    let taux = tau2.mul(x2).add(tau1.mul(x)).add(z2.mul(r));
    let mu = alpha.add(beta.mul(x));

    let w = hash_fs_w(env, &tx, &taux, &mu);
    let Q = g_pt.mul(w, d);
    proof {
        reveal(pr_q);
    }

    let mut gs_ip = gs;
    let mut hs_ip = hs;
    let y_inv = y.invert();
    let mut y_inv_pow = Sc::one();
    let mut i: usize = 0;
    while i < 8
        invariant
            0 <= i <= 8,
            d@ == d_spec(),
            y_inv@ == sinv(pr_y(v, r@, seed)),
            forall|k: int| 0 <= k < i ==> (#[trigger] hs_ip[k])@ == pmul(hvec(k), spow_n(y_inv@, k as nat)),
            forall|k: int| i <= k < 8 ==> (#[trigger] hs_ip[k])@ == hvec(k),
            y_inv_pow@ == spow_n(y_inv@, i as nat),
        decreases 8 - i,
    {
        hs_ip[i] = hs_ip[i].mul(y_inv_pow, d);
        y_inv_pow = y_inv_pow.mul(y_inv);
        i += 1;
    }

    let ip_l = l;
    let ip_r = r_v;
    proof {
        let st = ip_init(v, r@, seed);
        assert(sc_vals(ip_l) =~= st.0);
        assert(sc_vals(ip_r) =~= st.1);
        assert(pt_vals(gs_ip) =~= st.2);
        assert(pt_vals(hs_ip) =~= st.3);
    }

    let (L, R, ip_a, ip_b) = ip_argument(env, Q, d, ip_l, ip_r, gs_ip, hs_ip, Ghost(v), Ghost(r@), Ghost(seed));

    let res = Bulletproof { A, S, T1, T2, tx, taux, mu, L, R, a: ip_a, b: ip_b };
    proof {
        reveal(prover_output);
    }
    res
}

} // verus!
