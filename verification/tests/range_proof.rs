use ledgerlens_zk::curve::get_generators;
use ledgerlens_zk::field::Fe;
use ledgerlens_zk::prove::prove_range_proof;
use ledgerlens_zk::scalar::Sc;
use ledgerlens_zk::transcript::SeededPrng;
use ledgerlens_zk::verify::verify_range_proof;
use soroban_sdk::Env;

#[test]
fn prove_then_verify_accepts() {
    let env = Env::default();
    let (g_pt, h_pt, d) = get_generators();
    let r = Sc::from_u64(12345);
    let v_commit = g_pt.mul(Sc::from_u64(42), d).add(h_pt.mul(r, d), d);
    let proof = prove_range_proof(&env, 42, r, SeededPrng::new([7u8; 32]));
    assert!(verify_range_proof(&env, v_commit, &proof));
}

#[test]
fn verify_rejects_value_out_of_range() {
    let env = Env::default();
    let (g_pt, h_pt, d) = get_generators();
    let r = Sc::from_u64(5);
    let v_commit = g_pt.mul(Sc::from_u64(300), d).add(h_pt.mul(r, d), d);
    let proof = prove_range_proof(&env, 300, r, SeededPrng::new([1u8; 32]));
    assert!(!verify_range_proof(&env, v_commit, &proof));
}

#[test]
fn verify_rejects_other_commitment() {
    let env = Env::default();
    let (g_pt, h_pt, d) = get_generators();
    let r = Sc::from_u64(12345);
    let other = g_pt.mul(Sc::from_u64(43), d).add(h_pt.mul(r, d), d);
    let proof = prove_range_proof(&env, 42, r, SeededPrng::new([7u8; 32]));
    assert!(!verify_range_proof(&env, other, &proof));
}

#[test]
fn verify_rejects_tampered_inner_product_scalar() {
    let env = Env::default();
    let (g_pt, h_pt, d) = get_generators();
    let r = Sc::from_u64(99);
    let v_commit = g_pt.mul(Sc::from_u64(7), d).add(h_pt.mul(r, d), d);
    let mut proof = prove_range_proof(&env, 7, r, SeededPrng::new([3u8; 32]));
    assert!(verify_range_proof(&env, v_commit, &proof));
    proof.a = proof.a.add(Sc::one());
    assert!(!verify_range_proof(&env, v_commit, &proof));
}

#[test]
fn prover_output_is_canonical() {
    let env = Env::default();
    let proof = prove_range_proof(&env, 200, Sc::from_u64(77), SeededPrng::new([9u8; 32]));
    let pts = [proof.A, proof.S, proof.T1, proof.T2, proof.L[0], proof.L[1], proof.L[2], proof.R[0], proof.R[1], proof.R[2]];
    for pt in pts.iter() {
        assert!(!pt.x.ge(&Fe::modulus()));
        assert!(!pt.y.ge(&Fe::modulus()));
    }
    for sc in [proof.tx, proof.taux, proof.mu, proof.a, proof.b].iter() {
        assert!(!sc.ge(&Sc::order()));
    }
}
