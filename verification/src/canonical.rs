//! Every point that the prover puts in a proof has reduced coordinates, and
//! every scalar is reduced: the proof's values are the canonical ones that
//! its wire format and the verifier's comparisons read.
use vstd::prelude::*;
use crate::field::{p, fmul};
use crate::scalar::{l_order, sadd};
use crate::curve::{pt_add_spec, pt_mul_acc, pt_mul_spec, identity_pt, g_spec, gen_point};
use crate::verify::{padd, pmul, h_spec, gvec, hvec};
use crate::bulletproof::Bulletproof;
use crate::prove::{IpState, a_acc, s_acc, pr_t1, pr_t2, pr_q, ip_init, ip_after, fold_state, lpt_acc, rpt_acc, half_of, pr_lpt, pr_rpt, prover_output, lemma_ip_after_next, l_vec, r_vec, tx_acc};

verus! {

/// Both coordinates are below p.
pub open spec fn pt_canonical(a: (nat, nat)) -> bool {
    a.0 < p() && a.1 < p()
}

/// Every entry of a state is reduced: scalars below l, point coordinates
/// below p.
pub open spec fn state_canonical(st: IpState) -> bool {
    forall|k: int|
        0 <= k < 8 ==> {
            &&& #[trigger] st.0[k] < l_order()
            &&& st.1[k] < l_order()
            &&& pt_canonical(st.2[k])
            &&& pt_canonical(st.3[k])
        }
}

/// The entries of a canonical state at one index.
proof fn lemma_state_entry(st: IpState, k: int)
    requires
        state_canonical(st),
        0 <= k < 8,
    ensures
        st.0[k] < l_order(),
        st.1[k] < l_order(),
        pt_canonical(st.2[k]),
        pt_canonical(st.3[k]),
{
    assert(st.0[k] < l_order());
}

/// The vectors l(x) and r(x) are reduced.
#[verifier::rlimit(100)]
proof fn lemma_vecs_reduced(v: u32, r: nat, seed: Seq<u8>, i: int)
    ensures
        l_vec(v, r, seed, i) < l_order(),
        r_vec(v, r, seed, i) < l_order(),
{
    let z = crate::prove::pr_z(v, r, seed);
    let x = crate::prove::pr_x(v, r, seed);
    let y = crate::prove::pr_y(v, r, seed);
    lemma_sadd_reduced(crate::scalar::ssub(crate::prove::a_l(v, i), z), crate::scalar::smul(crate::prove::s_l(seed, i), x));
    lemma_sadd_reduced(
        crate::scalar::smul(
            crate::verify::spow_n(y, i as nat),
            sadd(sadd(crate::prove::a_r(v, i), z), crate::scalar::smul(crate::prove::s_r(seed, i), x)),
        ),
        crate::scalar::smul(crate::scalar::smul(z, z), crate::verify::pow2_nat(i)),
    );
}

proof fn lemma_fmul_reduced(a: nat, b: nat)
    ensures
        fmul(a, b) < p(),
{
    vstd::arithmetic::div_mod::lemma_mod_bound((a * b) as int, p() as int);
}

proof fn lemma_sadd_reduced(a: nat, b: nat)
    ensures
        sadd(a, b) < l_order(),
{
    vstd::arithmetic::div_mod::lemma_mod_bound((a + b) as int, l_order() as int);
}

/// The sum of two canonical points is canonical.
proof fn lemma_add_canonical(a: (nat, nat), b: (nat, nat), d: nat)
    requires
        pt_canonical(a),
        pt_canonical(b),
    ensures
        pt_canonical(pt_add_spec(a, b, d)),
{
    if a != identity_pt() && b != identity_pt() {
        let x1x2 = fmul(a.0, b.0);
        let y1y2 = fmul(a.1, b.1);
        let x1y2 = fmul(a.0, b.1);
        let y1x2 = fmul(a.1, b.0);
        let dxy = fmul(fmul(d, x1x2), y1y2);
        lemma_fmul_reduced(crate::field::fadd(x1y2, y1x2), crate::curve::finv(crate::field::fadd(1, dxy)));
        lemma_fmul_reduced(
            crate::field::fadd(y1y2, x1x2),
            crate::curve::finv(crate::field::fe_sub_raw(1, dxy)),
        );
    }
}

proof fn lemma_mul_acc_canonical(acc: (nat, nat), base: (nat, nat), s: nat, d: nat)
    requires
        pt_canonical(acc),
        pt_canonical(base),
    ensures
        pt_canonical(pt_mul_acc(acc, base, s, d)),
    decreases s,
{
    if s > 0 {
        lemma_add_canonical(acc, base, d);
        lemma_add_canonical(base, base, d);
        lemma_mul_acc_canonical(
            if s % 2 == 1 { pt_add_spec(acc, base, d) } else { acc },
            pt_add_spec(base, base, d),
            s / 2,
            d,
        );
    }
}

/// A multiple of a canonical point is canonical.
proof fn lemma_pmul_canonical(a: (nat, nat), s: nat)
    requires
        pt_canonical(a),
    ensures
        pt_canonical(pmul(a, s)),
{
    lemma_mul_acc_canonical(identity_pt(), a, s, crate::curve::d_spec());
}

/// The sum of two canonical points is canonical.
proof fn lemma_padd_canonical(a: (nat, nat), b: (nat, nat))
    requires
        pt_canonical(a),
        pt_canonical(b),
    ensures
        pt_canonical(padd(a, b)),
{
    lemma_add_canonical(a, b, crate::curve::d_spec());
}

/// G and the sixteen other generators are canonical.
proof fn lemma_generators_canonical()
    ensures
        pt_canonical(g_spec()),
        pt_canonical(h_spec()),
        forall|i: int| 0 <= i < 8 ==> pt_canonical(#[trigger] gvec(i)) && pt_canonical(hvec(i)),
{
    reveal(gen_point);
    assert forall|i: int| 0 <= i < 8 implies pt_canonical(#[trigger] gvec(i)) && pt_canonical(hvec(i)) by {
        reveal(gen_point);
    }
}

proof fn lemma_a_acc_canonical(v: u32, seed: Seq<u8>, n: nat)
    requires
        n <= 8,
    ensures
        pt_canonical(a_acc(v, seed, n)),
    decreases n,
{
    lemma_generators_canonical();
    if n == 0 {
        lemma_pmul_canonical(h_spec(), crate::transcript::prng_draw(seed, 0));
    } else {
        let m = (n - 1) as nat;
        let i = m as int;
        lemma_a_acc_canonical(v, seed, m);
        lemma_pmul_canonical(gvec(i), crate::prove::a_l(v, i));
        lemma_pmul_canonical(hvec(i), crate::prove::a_r(v, i));
        lemma_padd_canonical(a_acc(v, seed, m), pmul(gvec(i), crate::prove::a_l(v, i)));
        lemma_padd_canonical(
            padd(a_acc(v, seed, m), pmul(gvec(i), crate::prove::a_l(v, i))),
            pmul(hvec(i), crate::prove::a_r(v, i)),
        );
    }
}

proof fn lemma_s_acc_canonical(seed: Seq<u8>, n: nat)
    requires
        n <= 8,
    ensures
        pt_canonical(s_acc(seed, n)),
    decreases n,
{
    lemma_generators_canonical();
    if n == 0 {
        lemma_pmul_canonical(h_spec(), crate::transcript::prng_draw(seed, 17));
    } else {
        let m = (n - 1) as nat;
        let i = m as int;
        lemma_s_acc_canonical(seed, m);
        lemma_pmul_canonical(gvec(i), crate::prove::s_l(seed, i));
        lemma_pmul_canonical(hvec(i), crate::prove::s_r(seed, i));
        lemma_padd_canonical(s_acc(seed, m), pmul(gvec(i), crate::prove::s_l(seed, i)));
        lemma_padd_canonical(
            padd(s_acc(seed, m), pmul(gvec(i), crate::prove::s_l(seed, i))),
            pmul(hvec(i), crate::prove::s_r(seed, i)),
        );
    }
}

/// Folding keeps a state canonical.
#[verifier::rlimit(100)]
proof fn lemma_fold_canonical(st: IpState, u: nat, half: nat)
    requires
        state_canonical(st),
        half <= 4,
    ensures
        state_canonical(fold_state(st, u, half)),
{
    let f = fold_state(st, u, half);
    let ui = crate::scalar::sinv(u);
    assert forall|k: int| 0 <= k < 8 implies {
        &&& #[trigger] f.0[k] < l_order()
        &&& f.1[k] < l_order()
        &&& pt_canonical(f.2[k])
        &&& pt_canonical(f.3[k])
    } by {
        lemma_state_entry(st, k);
        if k < half {
            let j = half + k;
            lemma_state_entry(st, k);
            lemma_state_entry(st, j);
            lemma_sadd_reduced(crate::scalar::smul(st.0[k], u), crate::scalar::smul(st.0[j], ui));
            lemma_sadd_reduced(crate::scalar::smul(st.1[k], ui), crate::scalar::smul(st.1[j], u));
            lemma_pmul_canonical(st.2[k], ui);
            lemma_pmul_canonical(st.2[j], u);
            lemma_padd_canonical(pmul(st.2[k], ui), pmul(st.2[j], u));
            lemma_pmul_canonical(st.3[k], u);
            lemma_pmul_canonical(st.3[j], ui);
            lemma_padd_canonical(pmul(st.3[k], u), pmul(st.3[j], ui));
        }
    }
}

/// The scalar entries of the initial state are reduced.
proof fn lemma_init_scalars(v: u32, r: nat, seed: Seq<u8>, k: int)
    requires
        0 <= k < 8,
    ensures
        ip_init(v, r, seed).0[k] < l_order(),
        ip_init(v, r, seed).1[k] < l_order(),
{
    lemma_vecs_reduced(v, r, seed, k);
}

/// The generator entries of the initial state are canonical.
proof fn lemma_init_points(v: u32, r: nat, seed: Seq<u8>, k: int)
    requires
        0 <= k < 8,
    ensures
        pt_canonical(ip_init(v, r, seed).2[k]),
        pt_canonical(ip_init(v, r, seed).3[k]),
{
    lemma_generators_canonical();
    let yi = crate::scalar::sinv(crate::prove::pr_y(v, r, seed));
    lemma_pmul_canonical(hvec(k), crate::verify::spow_n(yi, k as nat));
}

/// One entry of the initial state of the inner-product argument is reduced.
proof fn lemma_init_entry(v: u32, r: nat, seed: Seq<u8>, k: int)
    requires
        0 <= k < 8,
    ensures
        ip_init(v, r, seed).0[k] < l_order(),
        ip_init(v, r, seed).1[k] < l_order(),
        pt_canonical(ip_init(v, r, seed).2[k]),
        pt_canonical(ip_init(v, r, seed).3[k]),
{
    lemma_init_scalars(v, r, seed, k);
    lemma_init_points(v, r, seed, k);
}

/// The initial state of the inner-product argument is canonical.
proof fn lemma_init_canonical(v: u32, r: nat, seed: Seq<u8>)
    ensures
        state_canonical(ip_init(v, r, seed)),
{
    let st = ip_init(v, r, seed);
    assert forall|k: int| 0 <= k < 8 implies {
        &&& #[trigger] st.0[k] < l_order()
        &&& st.1[k] < l_order()
        &&& pt_canonical(st.2[k])
        &&& pt_canonical(st.3[k])
    } by {
        lemma_init_entry(v, r, seed, k);
    }
}

/// The state after `k` rounds is canonical.
proof fn lemma_after_canonical(v: u32, r: nat, seed: Seq<u8>, k: nat)
    requires
        k <= 3,
    ensures
        state_canonical(ip_after(v, r, seed, k)),
    decreases k,
{
    if k == 0 {
        lemma_ip_after_next(v, r, seed, 0);
        lemma_init_canonical(v, r, seed);
    } else {
        let j = (k - 1) as nat;
        lemma_after_canonical(v, r, seed, j);
        lemma_ip_after_next(v, r, seed, j);
        let u = crate::transcript::hash_scalar_spec(
            crate::transcript::transcript_ip(j as u8, pr_lpt(v, r, seed, j), pr_rpt(v, r, seed, j)),
        );
        lemma_fold_canonical(ip_after(v, r, seed, j), u, half_of(j));
    }
}

#[verifier::rlimit(100)]
proof fn lemma_lpt_canonical(st: IpState, q: (nat, nat), half: nat, n: nat)
    requires
        state_canonical(st),
        pt_canonical(q),
        n <= half <= 4,
    ensures
        pt_canonical(lpt_acc(st, q, half, n)),
        pt_canonical(rpt_acc(st, q, half, n)),
    decreases n,
{
    reveal_with_fuel(lpt_acc, 2);
    reveal_with_fuel(rpt_acc, 2);
    if n == 0 {
        lemma_pmul_canonical(q, crate::prove::cl_acc(st, half, half));
        lemma_pmul_canonical(q, crate::prove::cr_acc(st, half, half));
    } else {
        let m = (n - 1) as nat;
        let i = m as int;
        lemma_lpt_canonical(st, q, half, m);
        let j = half + i;
        lemma_state_entry(st, i);
        lemma_state_entry(st, j);
        lemma_pmul_canonical(st.2[j], st.0[i]);
        lemma_pmul_canonical(st.3[i], st.1[j]);
        lemma_padd_canonical(lpt_acc(st, q, half, m), pmul(st.2[j], st.0[i]));
        lemma_padd_canonical(padd(lpt_acc(st, q, half, m), pmul(st.2[j], st.0[i])), pmul(st.3[i], st.1[j]));
        lemma_pmul_canonical(st.2[i], st.0[j]);
        lemma_pmul_canonical(st.3[j], st.1[i]);
        lemma_padd_canonical(rpt_acc(st, q, half, m), pmul(st.2[i], st.0[j]));
        lemma_padd_canonical(padd(rpt_acc(st, q, half, m), pmul(st.2[i], st.0[j])), pmul(st.3[j], st.1[i]));
    }
}

/// Every point of a proof that the prover made has coordinates below p,
/// and every scalar of it is below l.
#[verifier::rlimit(100)]
pub proof fn lemma_prover_output_canonical(bp: Bulletproof, v: u32, r: nat, seed: Seq<u8>)
    requires
        prover_output(bp, v, r, seed),
    ensures
        pt_canonical(bp.A@),
        pt_canonical(bp.S@),
        pt_canonical(bp.T1@),
        pt_canonical(bp.T2@),
        forall|k: int| 0 <= k < 3 ==> pt_canonical(#[trigger] bp.L[k]@) && pt_canonical(bp.R[k]@),
        bp.tx@ < l_order(),
        bp.taux@ < l_order(),
        bp.mu@ < l_order(),
        bp.a@ < l_order(),
        bp.b@ < l_order(),
{
    reveal(prover_output);
    lemma_generators_canonical();
    lemma_a_acc_canonical(v, seed, 8);
    lemma_s_acc_canonical(seed, 8);
    let t = crate::prove::t_acc(v, r, seed, 8);
    lemma_pmul_canonical(g_spec(), t.0);
    lemma_pmul_canonical(g_spec(), t.1);
    lemma_pmul_canonical(h_spec(), crate::transcript::prng_draw(seed, 18));
    lemma_pmul_canonical(h_spec(), crate::transcript::prng_draw(seed, 19));
    lemma_padd_canonical(pmul(g_spec(), t.0), pmul(h_spec(), crate::transcript::prng_draw(seed, 18)));
    lemma_padd_canonical(pmul(g_spec(), t.1), pmul(h_spec(), crate::transcript::prng_draw(seed, 19)));
    reveal(pr_q);
    let q = pr_q(v, r, seed);
    lemma_pmul_canonical(g_spec(), crate::transcript::hash_scalar_spec(
        crate::transcript::transcript_w(tx_acc(v, r, seed, 8), crate::prove::pr_taux(v, r, seed), crate::prove::pr_mu(v, r, seed)),
    ));
    reveal(pr_lpt);
    reveal(pr_rpt);
    assert forall|k: int| 0 <= k < 3 implies pt_canonical(#[trigger] bp.L[k]@) && pt_canonical(bp.R[k]@) by {
        lemma_after_canonical(v, r, seed, k as nat);
        lemma_lpt_canonical(ip_after(v, r, seed, k as nat), q, half_of(k as nat), half_of(k as nat));
    }
    lemma_after_canonical(v, r, seed, 3);
    lemma_state_entry(ip_after(v, r, seed, 3), 0);
    lemma_sadd_reduced(tx_acc(v, r, seed, 7), crate::scalar::smul(l_vec(v, r, seed, 7), r_vec(v, r, seed, 7)));
}

} // verus!
