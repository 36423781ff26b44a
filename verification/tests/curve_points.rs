use ledgerlens_zk::curve::{compress_pt, decompress_pt_32, g, get_generators, get_vector_generators, is_on_curve, Pt};
use ledgerlens_zk::field::Fe;
use ledgerlens_zk::scalar::Sc;
use soroban_sdk::{Bytes, Env};

const D: [u64; 4] = [0x75eb4dca135978a3, 0x00700a4d4141d8ab, 0x8cc740797779e898, 0x52036cee2b6ffe73];

fn two_g() -> Pt {
    Pt {
        x: Fe([0x83c5a14e2843ce0e, 0x080d8e4515d7a45f, 0x3d043b7d1833e7ac, 0x36ab384c9f5a046c]),
        y: Fe([0x0e5f46ae6af8a3c9, 0x97390f5164385156, 0x1da25ee8c9a21f56, 0x2260cdf3092329c2]),
    }
}

fn three_g() -> Pt {
    Pt {
        x: Fe([0xac62485fd3f8e25c, 0x6343981981624886, 0x1ff4ae743edac83a, 0x67ae9c4a22928f49]),
        y: Fe([0x02c3684878f5b4d4, 0x9f16ec1767240304, 0xa126a18e60269ef7, 0x1267b1d177ee69ab]),
    }
}

fn hex32(s: &str) -> [u8; 32] {
    let mut out = [0u8; 32];
    for i in 0..32 {
        out[i] = u8::from_str_radix(&s[2 * i..2 * i + 2], 16).unwrap();
    }
    out
}

#[test]
fn curve_constant_d() {
    let (_, _, d) = get_generators();
    assert_eq!(d.0, D);
}

#[test]
fn identity_is_neutral() {
    let d = Fe(D);
    assert_eq!(g().add(Pt::identity(), d), g());
    assert_eq!(Pt::identity().add(g(), d), g());
    assert!(Pt::identity().is_identity());
    assert!(!g().is_identity());
}

#[test]
fn doubling_the_base_point() {
    let d = Fe(D);
    assert_eq!(g().double(d), two_g());
    assert_eq!(g().add(g(), d), two_g());
}

#[test]
fn point_addition_commutes() {
    let d = Fe(D);
    assert_eq!(g().add(two_g(), d), three_g());
    assert_eq!(two_g().add(g(), d), three_g());
}

#[test]
fn small_scalar_multiples() {
    let d = Fe(D);
    assert_eq!(g().mul(Sc::zero(), d), Pt::identity());
    assert_eq!(g().mul(Sc::one(), d), g());
    assert_eq!(g().mul(Sc::from_u64(2), d), two_g());
    assert_eq!(g().mul(Sc::from_u64(3), d), three_g());
}

#[test]
fn curve_membership() {
    let d = Fe(D);
    assert!(is_on_curve(g().x, g().y, d));
    assert!(is_on_curve(two_g().x, two_g().y, d));
    assert!(is_on_curve(Fe::zero(), Fe::one(), d));
    assert!(!is_on_curve(Fe::one(), Fe::one(), d));
    assert!(!is_on_curve(Fe::zero(), Fe::zero(), d));
}

/// The generator rule: 8 times the first valid compressed point among the
/// SHA-256 digests of the label, the index byte and a counter byte.
fn derive_generator(env: &Env, k: u8) -> Pt {
    let d = Fe(D);
    for c in 0u8..=255 {
        let mut data: Vec<u8> = b"ledgerlens generator".to_vec();
        data.push(k);
        data.push(c);
        let digest = env.crypto().sha256(&Bytes::from_slice(env, &data)).to_array();
        if let Some(pt) = decompress_pt_32(&digest) {
            return pt.mul(Sc::from_u64(8), d);
        }
    }
    panic!("no generator found")
}

#[test]
fn blinding_generator_follows_the_rule() {
    let env = Env::default();
    let (g_pt, h_pt, d) = get_generators();
    assert_eq!(h_pt, derive_generator(&env, 0));
    assert!(is_on_curve(h_pt.x, h_pt.y, d));
    assert_ne!(h_pt, g_pt.mul(Sc::from_u64(8), d));
    assert_eq!(h_pt.x.0, [0xb40da4485983c213, 0xcc3db3d3ddfcffb3, 0x774ec5fa4f1e6602, 0x5a535589ff2c173e]);
    assert_eq!(h_pt.y.0, [0xfad5373112c8c078, 0xcbdb2955c5965ad5, 0x23a5b733a23c97be, 0x1ca907594a5b3003]);
}

#[test]
fn vector_generators_follow_the_rule() {
    let env = Env::default();
    let d = Fe(D);
    let (gs, hs) = get_vector_generators(d);
    for i in 0..8 {
        assert_eq!(gs[i], derive_generator(&env, 1 + i as u8));
        assert_eq!(hs[i], derive_generator(&env, 9 + i as u8));
        assert!(is_on_curve(gs[i].x, gs[i].y, d));
        assert!(is_on_curve(hs[i].x, hs[i].y, d));
        assert_ne!(gs[i], hs[i]);
    }
}

#[test]
fn generators_have_order_l() {
    let (_, h_pt, d) = get_generators();
    let l_minus_1 = Sc([0x5812631a5cf5d3ec, 0x14def9dea2f79cd6, 0, 0x1000000000000000]);
    assert_eq!(h_pt.mul(l_minus_1, d).add(h_pt, d), Pt::identity());
}

#[test]
fn compress_base_point() {
    assert_eq!(compress_pt(&g()), hex32("5866666666666666666666666666666666666666666666666666666666666666"));
    assert_eq!(compress_pt(&two_g()), hex32("c9a3f86aae465f0e56513864510f3997561fa2c9e85ea21dc2292309f3cd6022"));
    assert_eq!(compress_pt(&three_g()), hex32("d4b4f5784868c3020403246717ec169ff79e26608ea126a1ab69ee77d1b16712"));
}

#[test]
fn decompress_gives_points_back() {
    assert_eq!(decompress_pt_32(&compress_pt(&g())), Some(g()));
    assert_eq!(decompress_pt_32(&compress_pt(&two_g())), Some(two_g()));
    assert_eq!(decompress_pt_32(&compress_pt(&three_g())), Some(three_g()));
}

#[test]
fn compress_after_decompress_gives_bytes_back() {
    let b = hex32("c9a3f86aae465f0e56513864510f3997561fa2c9e85ea21dc2292309f3cd6022");
    let pt = decompress_pt_32(&b).unwrap();
    assert_eq!(compress_pt(&pt), b);
}

#[test]
fn decompress_rejects_y_not_below_p() {
    let b = hex32("edffffffffffffffffffffffffffffffffffffffffffffffffffffffffffff7f");
    assert_eq!(decompress_pt_32(&b), None);
    assert_eq!(decompress_pt_32(&[0xff; 32]), None);
}

#[test]
fn decompress_rejects_non_square() {
    let mut b = [0u8; 32];
    b[0] = 2;
    assert_eq!(decompress_pt_32(&b), None);
}

#[test]
fn decompress_identity_with_sign_bit() {
    let mut b = [0u8; 32];
    b[0] = 1;
    assert_eq!(decompress_pt_32(&b), Some(Pt::identity()));
    b[31] = 0x80;
    let pt = decompress_pt_32(&b).unwrap();
    assert_eq!(pt, Pt::identity());
    let mut cleared = [0u8; 32];
    cleared[0] = 1;
    assert_eq!(compress_pt(&pt), cleared);
}
