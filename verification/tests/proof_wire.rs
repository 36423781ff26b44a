use ledgerlens_zk::bulletproof::Bulletproof;
use ledgerlens_zk::curve::{g, Pt};
use ledgerlens_zk::field::Fe;
use ledgerlens_zk::scalar::Sc;
use ledgerlens_zk::transcript::{append_pt, append_sc, hash_fs_challenge_ip, hash_fs_w, hash_fs_x, hash_fs_y_z, hash_to_scalar, SeededPrng};
use ledgerlens_zk::verify::verify_range_proof;
use soroban_sdk::Env;

fn two_g() -> Pt {
    Pt {
        x: Fe([0x83c5a14e2843ce0e, 0x080d8e4515d7a45f, 0x3d043b7d1833e7ac, 0x36ab384c9f5a046c]),
        y: Fe([0x0e5f46ae6af8a3c9, 0x97390f5164385156, 0x1da25ee8c9a21f56, 0x2260cdf3092329c2]),
    }
}

fn sample_proof() -> Bulletproof {
    Bulletproof {
        A: g(),
        S: two_g(),
        T1: Pt::identity(),
        T2: g(),
        tx: Sc::from_u64(1),
        taux: Sc::from_u64(2),
        mu: Sc::from_u64(3),
        L: [g(), two_g(), Pt::identity()],
        R: [Pt::identity(), g(), two_g()],
        a: Sc([5, 6, 7, 8]),
        b: Sc::zero(),
    }
}

fn trivial_proof() -> Bulletproof {
    Bulletproof {
        A: Pt::identity(),
        S: Pt::identity(),
        T1: Pt::identity(),
        T2: Pt::identity(),
        tx: Sc::zero(),
        taux: Sc::zero(),
        mu: Sc::zero(),
        L: [Pt::identity(); 3],
        R: [Pt::identity(); 3],
        a: Sc::zero(),
        b: Sc::zero(),
    }
}

#[test]
fn proof_encodes_to_800_bytes() {
    let bytes = sample_proof().to_bytes();
    assert_eq!(bytes.len(), 800);
    assert_eq!(&bytes[0..32], &g().x.to_bytes()[..]);
    assert_eq!(&bytes[32..64], &g().y.to_bytes()[..]);
    assert_eq!(&bytes[256..288], &Sc::from_u64(1).to_bytes()[..]);
    assert_eq!(&bytes[736..768], &Sc([5, 6, 7, 8]).to_bytes()[..]);
    assert_eq!(&bytes[768..800], &[0u8; 32][..]);
}

#[test]
fn proof_decodes_its_encoding() {
    let bp = sample_proof();
    assert_eq!(Bulletproof::from_bytes(&bp.to_bytes()), Some(bp.clone()));
    let bytes = bp.to_bytes();
    assert_eq!(Bulletproof::from_bytes(&bytes).unwrap().to_bytes(), bytes);
}

#[test]
fn proof_decoding_rejects_wrong_length() {
    let bytes = sample_proof().to_bytes();
    assert_eq!(Bulletproof::from_bytes(&bytes[0..799]), None);
    let mut longer = bytes.clone();
    longer.push(0);
    assert_eq!(Bulletproof::from_bytes(&longer), None);
    assert_eq!(Bulletproof::from_bytes(&[]), None);
}

#[test]
fn proof_decoding_rejects_points_off_curve() {
    assert_eq!(Bulletproof::from_bytes(&[0u8; 800]), None);
    let mut bytes = sample_proof().to_bytes();
    bytes[700] ^= 1;
    assert_eq!(Bulletproof::from_bytes(&bytes), None);
}

#[test]
fn proof_decoding_keeps_unreduced_scalars() {
    let mut bytes = sample_proof().to_bytes();
    for i in 288..320 {
        bytes[i] = 0xff;
    }
    let bp = Bulletproof::from_bytes(&bytes).unwrap();
    assert_eq!(bp.taux, Sc([u64::MAX; 4]));
}

#[test]
fn transcript_appends_coordinates_and_scalars() {
    let mut data: Vec<u8> = Vec::new();
    append_pt(&mut data, &Pt::identity());
    append_sc(&mut data, &Sc::from_u64(0x0201));
    assert_eq!(data.len(), 96);
    assert_eq!(data[0], 0);
    assert_eq!(data[32], 1);
    assert_eq!(data[64], 1);
    assert_eq!(data[65], 2);
}

#[test]
fn hash_to_scalar_of_abc() {
    let env = Env::default();
    let s = hash_to_scalar(&env, &vec![0x61, 0x62, 0x63]);
    assert_eq!(s.0, [0xeacf018fbf1678ba, 0x2322ae5dde404141, 0x9c7a1796a36103b0, 0x0d1500f261ff10b4]);
}

#[test]
fn seeded_prng_draws() {
    let env = Env::default();
    let mut prng = SeededPrng::new([7u8; 32]);
    let first = prng.next_scalar(&env);
    assert_eq!(first.0, [0x9ff9f3d38b2ae445, 0x63fea267a6d6dd9b, 0x4ff0190934eb04c1, 0x0cfb37a2874ffcf1]);
    let second = prng.next_scalar(&env);
    assert_eq!(second.0, [0x44ccf3820a16f056, 0x54c19a644d1056c1, 0x204b27c842e00499, 0x0c4f183a6cd9cd90]);
    let mut again = SeededPrng::new([8u8; 32]);
    assert_eq!(again.next_scalar(&env), second);
}

#[test]
fn seeded_prng_state_wraps() {
    let env = Env::default();
    let mut prng = SeededPrng::new([255u8; 32]);
    let first = prng.next_scalar(&env);
    assert_eq!(first.0, [0xafd8cc4a719bdea5, 0x4c01e1d6cbf1abaa, 0x4d15aec295ff079d, 0x05e7315b4868ec91]);
    let second = prng.next_scalar(&env);
    assert_eq!(second.0, [0x30206ad142fda5f5, 0x9b9709d36eef9827, 0xe8f0d920233d0043, 0x0bfb5927a93198ea]);
}

#[test]
fn fiat_shamir_challenges() {
    let env = Env::default();
    let x = hash_fs_x(&env, &g(), &Pt::identity());
    assert_eq!(x.0, [0x15f0d88566f80684, 0xbbd28f98b1d3c78a, 0xd7124c2751140c04, 0x05e6e9ae4300b66d]);
    let (y, z) = hash_fs_y_z(&env, &g(), &two_g(), &Pt::identity());
    assert_eq!(y.0, [0x42ec36010137f466, 0xd707d3967900419d, 0xa15695abdbab4389, 0x08f5f386c45e8c61]);
    assert_eq!(z.0, [0x4da6b9d3aa208785, 0x86ae56f1ac3135f7, 0x139d5aea1ac4a276, 0x072a9ed67a784ca9]);
    let w = hash_fs_w(&env, &Sc::from_u64(1), &Sc::from_u64(2), &Sc::from_u64(3));
    assert_eq!(w.0, [0xdfc71dcd4b4da024, 0x4969b0de6133e54c, 0x9fa5a4a1ef5c2a9d, 0x0704102e7a955255]);
    let u = hash_fs_challenge_ip(&env, 2, &g(), &two_g());
    assert_eq!(u.0, [0xc83621920891e560, 0x1b22e9f6573b14b3, 0x1c124e93c3eadf22, 0x0fc509a27803d3b2]);
}

#[test]
fn verify_rejects_trivial_proof() {
    let env = Env::default();
    assert!(!verify_range_proof(&env, Pt::identity(), &trivial_proof()));
}
