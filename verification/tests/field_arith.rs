use ledgerlens_zk::field::Fe;
use ledgerlens_zk::scalar::Sc;

const P_MINUS_1: [u64; 4] = [0xffffffffffffffec, 0xffffffffffffffff, 0xffffffffffffffff, 0x7fffffffffffffff];
const P_MINUS_2: [u64; 4] = [0xffffffffffffffeb, 0xffffffffffffffff, 0xffffffffffffffff, 0x7fffffffffffffff];
const L_MINUS_1: [u64; 4] = [0x5812631a5cf5d3ec, 0x14def9dea2f79cd6, 0x0000000000000000, 0x1000000000000000];

#[test]
fn fe_add_small_values() {
    assert_eq!(Fe::from_u64(5).add(Fe::from_u64(7)).0, [12, 0, 0, 0]);
}

#[test]
fn fe_add_wraps_at_modulus() {
    assert_eq!(Fe(P_MINUS_1).add(Fe::one()).0, [0, 0, 0, 0]);
    assert_eq!(Fe(P_MINUS_1).add(Fe::from_u64(3)).0, [2, 0, 0, 0]);
}

#[test]
fn fe_add_reduces_the_modulus_itself() {
    assert_eq!(Fe::modulus().add(Fe::zero()).0, [0, 0, 0, 0]);
}

#[test]
fn fe_add_commutes_on_samples() {
    let a = Fe([0x1234, 0xffff_0000_ffff_0000, 7, 0x7000_0000_0000_0000]);
    let b = Fe(P_MINUS_2);
    assert_eq!(a.add(b), b.add(a));
}

#[test]
fn fe_sub_borrows_modulus() {
    assert_eq!(Fe::zero().sub(Fe::one()).0, P_MINUS_1);
    assert_eq!(Fe::from_u64(10).sub(Fe::from_u64(3)).0, [7, 0, 0, 0]);
}

#[test]
fn fe_sub_then_add_restores() {
    let a = Fe::from_u64(3);
    let b = Fe(P_MINUS_2);
    assert_eq!(a.sub(b).add(b), a);
    assert_eq!(a.add(b).sub(b), a);
}

#[test]
fn fe_neg_values() {
    assert_eq!(Fe::one().neg().0, P_MINUS_1);
    assert_eq!(Fe::zero().neg().0, [0, 0, 0, 0]);
    assert_eq!(Fe::from_u64(99).neg().neg(), Fe::from_u64(99));
    assert_eq!(Fe::from_u64(99).add(Fe::from_u64(99).neg()).0, [0, 0, 0, 0]);
}

#[test]
fn fe_mul_small_values() {
    assert_eq!(Fe::from_u64(3).mul(Fe::from_u64(4)).0, [12, 0, 0, 0]);
    assert_eq!(Fe::from_u64(u64::MAX).mul(Fe::from_u64(u64::MAX)).0, [1, 0xfffffffffffffffe, 0, 0]);
}

#[test]
fn fe_mul_reduces() {
    assert_eq!(Fe(P_MINUS_1).mul(Fe::from_u64(2)).0, P_MINUS_2);
    assert_eq!(Fe(P_MINUS_1).mul(Fe(P_MINUS_1)).0, [1, 0, 0, 0]);
}

#[test]
fn fe_pow_values() {
    assert_eq!(Fe::from_u64(2).pow(Fe::from_u64(10)).0, [1024, 0, 0, 0]);
    assert_eq!(Fe::from_u64(12345).pow(Fe::zero()).0, [1, 0, 0, 0]);
    assert_eq!(Fe(P_MINUS_1).pow(Fe::from_u64(3)).0, P_MINUS_1);
}

#[test]
fn fe_invert_values() {
    let half = Fe::from_u64(2).invert();
    assert_eq!(half.0, [0xfffffffffffffff7, 0xffffffffffffffff, 0xffffffffffffffff, 0x3fffffffffffffff]);
    assert_eq!(half.mul(Fe::from_u64(2)).0, [1, 0, 0, 0]);
    assert_eq!(Fe::zero().invert().0, [0, 0, 0, 0]);
}

#[test]
fn fe_shr1_halves() {
    assert_eq!(Fe::from_u64(9).shr1().0, [4, 0, 0, 0]);
    assert_eq!(Fe([0, 1, 0, 0]).shr1().0, [0x8000000000000000, 0, 0, 0]);
}

#[test]
fn fe_comparisons() {
    assert!(Fe::zero().is_zero());
    assert!(!Fe::one().is_zero());
    assert!(Fe::modulus().ge(&Fe(P_MINUS_1)));
    assert!(!Fe(P_MINUS_1).ge(&Fe::modulus()));
    assert!(Fe::one().ge(&Fe::one()));
}

#[test]
fn fe_to_bytes_little_endian() {
    let b = Fe([0x0102, 0, 0, 0xff00000000000000]).to_bytes();
    assert_eq!(b[0], 2);
    assert_eq!(b[1], 1);
    assert_eq!(b[2], 0);
    assert_eq!(b[31], 0xff);
    assert_eq!(b[30], 0);
}

#[test]
fn sc_add_wraps_at_order() {
    assert_eq!(Sc(L_MINUS_1).add(Sc::one()).0, [0, 0, 0, 0]);
    assert_eq!(Sc::from_u64(2).add(Sc::from_u64(40)).0, [42, 0, 0, 0]);
}

#[test]
fn sc_sub_borrows_order() {
    assert_eq!(Sc::zero().sub(Sc::one()).0, L_MINUS_1);
    assert_eq!(Sc::one().neg().0, L_MINUS_1);
    assert_eq!(Sc::zero().neg().0, [0, 0, 0, 0]);
}

#[test]
fn sc_sub_then_add_restores() {
    let a = Sc::from_u64(5);
    let b = Sc(L_MINUS_1);
    assert_eq!(a.sub(b).add(b), a);
    assert_eq!(a.add(b).sub(b), a);
    assert_eq!(a.add(b), b.add(a));
}

#[test]
fn sc_mul_values() {
    assert_eq!(Sc::from_u64(6).mul(Sc::from_u64(7)).0, [42, 0, 0, 0]);
    assert_eq!(Sc(L_MINUS_1).mul(Sc(L_MINUS_1)).0, [1, 0, 0, 0]);
    assert_eq!(Sc([u64::MAX; 4]).mul(Sc::one()).0, [0xd6ec31748d98951c, 0xc6ef5bf4737dcf70, 0xfffffffffffffffe, 0x0fffffffffffffff]);
}

#[test]
fn sc_pow_and_invert() {
    assert_eq!(Sc::from_u64(3).pow(Sc::from_u64(4)).0, [81, 0, 0, 0]);
    let inv3 = Sc::from_u64(3).invert();
    assert_eq!(inv3.mul(Sc::from_u64(3)).0, [1, 0, 0, 0]);
    assert_eq!(Sc::zero().invert().0, [0, 0, 0, 0]);
}

#[test]
fn sc_shr1_and_bytes() {
    assert_eq!(Sc::from_u64(7).shr1().0, [3, 0, 0, 0]);
    let b = Sc(L_MINUS_1).to_bytes();
    assert_eq!(b[0], 0xec);
    assert_eq!(b[31], 0x10);
    assert!(Sc::from_u64(1).ge(&Sc::zero()));
    assert!(Sc::zero().is_zero());
}
