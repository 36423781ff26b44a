//! Points of the twisted Edwards curve -x^2 + y^2 = 1 + d x^2 y^2 over the
//! field modulo p, in affine coordinates.
use vstd::prelude::*;
use crate::field::{Fe, p, fadd, fmul, fpow, fe_sub_raw, lemma_fmul_commutes, eqp, lemma_eqp_refl, lemma_eqp_symm, lemma_eqp_trans, lemma_eqp_add, lemma_eqp_sub, lemma_eqp_mul, lemma_eqp_mod, lemma_eqp_sub_raw, lemma_eqp_reduced, lemma_eqp_diff};
use crate::scalar::Sc;
use crate::limbs::{limbs_le, limbs_val, limbs_of_le, read_u64_le, lemma_limbs_injective, lemma_le_of_limbs_at, lemma_low_bit};

verus! {

/// Field inversion as the code computes it: the power p - 2.
pub open spec fn finv(a: nat) -> nat {
    fpow(a, (p() - 2) as nat)
}

/// The affine point (0, 1), the neutral element.
pub open spec fn identity_pt() -> (nat, nat) {
    (0, 1)
}

/// The affine addition law that `Pt::add` computes, on coordinate values.
/// The neutral point is passed through as it is; otherwise the coordinates
/// are `(x1 y2 + y1 x2) / (1 + d x1 x2 y1 y2)` and
/// `(y1 y2 + x1 x2) / (1 - d x1 x2 y1 y2)`, with division by inversion.
pub open spec fn pt_add_spec(a: (nat, nat), b: (nat, nat), d: nat) -> (nat, nat) {
    if a == identity_pt() {
        b
    } else if b == identity_pt() {
        a
    } else {
        let x1x2 = fmul(a.0, b.0);
        let y1y2 = fmul(a.1, b.1);
        let x1y2 = fmul(a.0, b.1);
        let y1x2 = fmul(a.1, b.0);
        let dxy = fmul(fmul(d, x1x2), y1y2);
        let x3 = fmul(fadd(x1y2, y1x2), finv(fadd(1, dxy)));
        let y3 = fmul(fadd(y1y2, x1x2), finv(fe_sub_raw(1, dxy)));
        (x3, y3)
    }
}

/// Right-to-left double-and-add: `acc` plus `s` times `base`, where each
/// step adds `base` for a set low bit of `s`, then doubles `base` and halves
/// `s`.
pub open spec fn pt_mul_acc(acc: (nat, nat), base: (nat, nat), s: nat, d: nat) -> (nat, nat)
    decreases s,
{
    if s == 0 {
        acc
    } else {
        pt_mul_acc(
            if s % 2 == 1 { pt_add_spec(acc, base, d) } else { acc },
            pt_add_spec(base, base, d),
            s / 2,
            d,
        )
    }
}

/// Scalar multiplication by double-and-add from the neutral point.
pub open spec fn pt_mul_spec(a: (nat, nat), s: nat, d: nat) -> (nat, nat) {
    pt_mul_acc(identity_pt(), a, s, d)
}

/// The curve equation -x^2 + y^2 = 1 + d x^2 y^2 modulo p.
pub open spec fn on_curve_spec(x: nat, y: nat, d: nat) -> bool {
    (y * y - x * x - 1 - d * (x * x) * (y * y)) % (p() as int) == 0
}

/// The curve constant d = -121665 / 121666 as the code computes it.
pub open spec fn d_spec() -> nat {
    fmul(fe_sub_raw(0, 121665), finv(121666))
}

/// The base point G.
pub open spec fn g_spec() -> (nat, nat) {
    (
        0x216936d3cd6e53fe_c0a4e231fdd6dc5c_692cc7609525a7b2_c9562d608f25d51anat,
        0x6666666666666666_6666666666666666_6666666666666666_6666666666666658nat,
    )
}

/// The 32-byte compressed encoding: the bytes of y, with the top bit of the
/// last byte replaced by the low bit of x.
pub open spec fn compress_spec(x: [u64; 4], y: [u64; 4]) -> Seq<u8> {
    let yb = limbs_le(y);
    yb.update(31, ((yb[31] & 0x7f) | (((x[0] & 1) as u8) << 7u8)) as u8)
}

/// The exponent (p - 5) / 8 = 2^252 - 3.
#[verifier::inline]
pub open spec fn exp_p58() -> nat {
    0x0fffffffffffffff_ffffffffffffffff_ffffffffffffffff_fffffffffffffffdnat
}

/// A square root of -1 modulo p.
#[verifier::inline]
pub open spec fn sqrt_m1() -> nat {
    0x2b8324804fc1df0b_2b4d00993dfbd7a7_2f431806ad2fe478_c4ee1b274a0ea0b0nat
}

/// Decompression as the code computes it: y is the low 255 bits, rejected
/// unless below p; x is the candidate square root of (y^2 - 1) / (d y^2 + 1)
/// computed as u v^3 (u v^7)^((p-5)/8), multiplied by sqrt(-1) where the
/// first candidate does not square back; rejected where neither does; then
/// negated where its low bit differs from the sign bit.
pub open spec fn decompress_spec(b: Seq<u8>) -> Option<(nat, nat)> {
    let sign = b[31] >> 7u8;
    let yb = b.update(31, b[31] & 0x7f);
    let y = limbs_val(limbs_of_le(yb, 0));
    if y >= p() {
        None
    } else {
        let y2 = fmul(y, y);
        let u = fe_sub_raw(y2, 1);
        let v = fadd(fmul(d_spec(), y2), 1);
        let v2 = fmul(v, v);
        let v3 = fmul(v2, v);
        let v7 = fmul(fmul(v3, v3), v);
        let uv7 = fmul(u, v7);
        let x0 = fmul(fmul(u, v3), fpow(uv7, exp_p58()));
        let x1 = if fmul(v, fmul(x0, x0)) != u {
            fmul(x0, sqrt_m1())
        } else {
            x0
        };
        if fmul(v, fmul(x0, x0)) != u && fmul(v, fmul(x1, x1)) != u {
            None
        } else {
            let x = if x1 % 2 != sign as nat {
                fe_sub_raw(0, x1)
            } else {
                x1
            };
            Some((x, y))
        }
    }
}

/// An affine point with coordinates as field elements.
#[derive(Clone, Copy, Debug, Eq, PartialEq)]
pub struct Pt {
    pub x: Fe,
    pub y: Fe,
}

impl View for Pt {
    type V = (nat, nat);

    open spec fn view(&self) -> (nat, nat) {
        (self.x@, self.y@)
    }
}

impl Pt {
    pub fn identity() -> (r: Self)
        ensures
            r@ == identity_pt(),
    {
        Pt { x: Fe::zero(), y: Fe::one() }
    }

    /// Coordinate-wise equality, which is equality of the coordinate values.
    pub fn eq_pt(&self, other: &Self) -> (r: bool)
        ensures
            r == (self@ == other@),
    {
        self.x.eq_fe(&other.x) && self.y.eq_fe(&other.y)
    }

    pub fn is_identity(&self) -> (r: bool)
        ensures
            r == (self@ == identity_pt()),
    {
        self.x.is_zero() && self.y.eq_fe(&Fe::one())
    }

    pub fn add(self, other: Self, d: Fe) -> (r: Self)
        ensures
            r@ == pt_add_spec(self@, other@, d@),
    {
        if self.is_identity() {
            return other;
        }
        if other.is_identity() {
            return self;
        }
        let x1x2 = self.x.mul(other.x);
        let y1y2 = self.y.mul(other.y);
        let x1y2 = self.x.mul(other.y);
        let y1x2 = self.y.mul(other.x);
        let dx1x2y1y2 = d.mul(x1x2).mul(y1y2);

        let num_x = x1y2.add(y1x2);
        let den_x = Fe::one().add(dx1x2y1y2);
        let x3 = num_x.mul(den_x.invert());

        let num_y = y1y2.add(x1x2);
        let den_y = Fe::one().sub(dx1x2y1y2);
        let y3 = num_y.mul(den_y.invert());

        Pt { x: x3, y: y3 }
    }

    pub fn double(self, d: Fe) -> (r: Self)
        ensures
            r@ == pt_add_spec(self@, self@, d@),
    {
        self.add(self, d)
    }

    pub fn mul(self, scalar: Sc, d: Fe) -> (r: Self)
        ensures
            r@ == pt_mul_spec(self@, scalar@, d@),
    {
        let mut res = Self::identity();
        let mut temp = self;
        let mut s = scalar;
        while !s.is_zero()
            invariant
                pt_mul_acc(res@, temp@, s@, d@) == pt_mul_spec(self@, scalar@, d@),
            decreases s@,
        {
            proof {
                crate::limbs::lemma_low_bit(s.0);
            }
            if s.0[0] & 1 == 1 {
                res = res.add(temp, d);
            }
            temp = temp.double(d);
            s = s.shr1();
        }
        res
    }
}

pub fn is_on_curve(x: Fe, y: Fe, d: Fe) -> (r: bool)
    ensures
        r == on_curve_spec(x@, y@, d@),
{
    let x2 = x.mul(x);
    let y2 = y.mul(y);
    let lhs = y2.sub(x2);
    let rhs = Fe::one().add(d.mul(x2).mul(y2));
    proof {
        lemma_curve_check(x@, y@, d@);
    }
    lhs.eq_fe(&rhs)
}

/// The 32-byte compressed encoding of a point.
pub fn compress_pt(pt: &Pt) -> (r: [u8; 32])
    ensures
        r@ == compress_spec(pt.x.0, pt.y.0),
{
    let mut out = pt.y.to_bytes();
    let x_lsb = (pt.x.0[0] & 1) as u8;
    out[31] = (out[31] & 0x7f) | (x_lsb << 7);
    out
}

/// Decodes a compressed point; `None` where the encoding is rejected.
pub fn decompress_pt_32(bytes: &[u8; 32]) -> (r: Option<Pt>)
    ensures
        match r {
            None => decompress_spec(bytes@) is None,
            Some(pt) => decompress_spec(bytes@) == Some(pt@),
        },
{
    let arr = *bytes;
    let mut y_bytes = arr;
    let sign = y_bytes[31] >> 7;
    y_bytes[31] &= 0x7f;

    let mut y_limbs = [0u64; 4];
    let mut i: usize = 0;
    while i < 4
        invariant
            0 <= i <= 4,
            y_bytes@.len() == 32,
            forall|k: int| 0 <= k < i ==> y_limbs[k] == limbs_of_le(y_bytes@, 0)[k],
        decreases 4 - i,
    {
        y_limbs[i] = read_u64_le(y_bytes.as_slice(), i * 8);
        i += 1;
    }
    proof {
        assert(y_limbs =~= limbs_of_le(y_bytes@, 0));
        assert(y_bytes@ =~= bytes@.update(31, bytes@[31] & 0x7f));
    }
    let y = Fe(y_limbs);
    if y.ge(&Fe::modulus()) {
        return None;
    }

    let y2 = y.mul(y);
    let u = y2.sub(Fe::one());
    let d = Fe::from_u64(121665).neg().mul(Fe::from_u64(121666).invert());
    let v = d.mul(y2).add(Fe::one());

    let v2 = v.mul(v);
    let v3 = v2.mul(v);
    let v7 = v3.mul(v3).mul(v);
    let uv7 = u.mul(v7);

    let exp = Fe([0xfffffffffffffffd, 0xffffffffffffffff, 0xffffffffffffffff, 0x0fffffffffffffff]);
    let uv7_exp = uv7.pow(exp);
    let mut x = u.mul(v3).mul(uv7_exp);

    let vx2 = v.mul(x.mul(x));
    if !vx2.eq_fe(&u) {
        let i_val = Fe([0xc4ee1b274a0ea0b0, 0x2f431806ad2fe478, 0x2b4d00993dfbd7a7, 0x2b8324804fc1df0b]);
        x = x.mul(i_val);
        let vx2_i = v.mul(x.mul(x));
        if !vx2_i.eq_fe(&u) {
            return None;
        }
    }
    proof {
        crate::limbs::lemma_low_bit(x.0);
    }
    let x_lsb = (x.0[0] & 1) as u8;
    proof {
        let x0 = x.0[0];
        assert((x0 & 1u64) <= 1u64) by (bit_vector);
    }
    if x_lsb != sign {
        x = Fe::zero().sub(x);
    }

    Some(Pt { x, y })
}

/// The base point G.
pub fn g() -> (r: Pt)
    ensures
        r@ == g_spec(),
{
    Pt {
        x: Fe([0xc9562d608f25d51a, 0x692cc7609525a7b2, 0xc0a4e231fdd6dc5c, 0x216936d3cd6e53fe]),
        y: Fe([0x6666666666666658, 0x6666666666666666, 0x6666666666666666, 0x6666666666666666]),
    }
}

/// The generators other than G, by index: the blinding generator H at 0,
/// the vector generators `gs[0..8]` at 1 to 8 and `hs[0..8]` at 9 to 16.
/// Generator `k` is 8 P, where P decodes the first SHA-256 digest of
/// "ledgerlens generator", then the byte `k`, then a counter byte from 0 up,
/// that is a valid compressed point; no multiple of G is known for any of
/// them, and the factor 8 puts each in the subgroup of order l.
#[verifier::opaque]
pub open spec fn gen_point(k: int) -> (nat, nat) {
    if k == 0 {
        (0x5a535589ff2c173e_774ec5fa4f1e6602_cc3db3d3ddfcffb3_b40da4485983c213nat, 0x1ca907594a5b3003_23a5b733a23c97be_cbdb2955c5965ad5_fad5373112c8c078nat)
    } else if k == 1 {
        (0x62a71dc27a13c0d9_69636d7b5123b7b2_2fd8b85319fafc93_b72ce59eec32d0a9nat, 0x76022c3a8b4eee0b_fa224136259bdbdb_a0a917a6c01c69ee_afb033e90031c3d9nat)
    } else if k == 2 {
        (0x3179478f1ecdf123_3880710fe6c33d42_340650e5dd63c3a2_653b4958e9ffe762nat, 0x0045beaf55317258_bbba01a38c133c36_e917ce7063f70cf2_1c16b0e7254f02efnat)
    } else if k == 3 {
        (0x3a707d55597cf656_40b680b0e4336f6f_bbddf05a60bf47f4_418cb84bb2c71830nat, 0x39b55907eafea543_b4f17a9a55343e36_c23036e42434c2a7_7286a4e775db0f55nat)
    } else if k == 4 {
        (0x701df00cd58b24ea_d12a60b4951c751c_b1e67ca148987b2e_4e6f8f3930bfd23bnat, 0x66c5cd5303f34f24_8fa9033f381258be_4e892a4879aee05e_bb228f29eb875ca1nat)
    } else if k == 5 {
        (0x4de6a0fe66621e30_63dda78e2645c851_e164f9ed91bc5eea_c8720820b54c0c49nat, 0x603016e2e5355a3a_05ae8496734651b4_8f4ad02046908ea8_4842f965582ff6c4nat)
    } else if k == 6 {
        (0x1b07e82b66d0b497_f50b868d0b99d152_652f2c5220cf33db_3295ca417fd3810enat, 0x43c54ce959fff257_e14b689fe969a746_bfb463e5a7f47d6c_f8ecb493fc9126e7nat)
    } else if k == 7 {
        (0x63822b0b539f6909_1bba763c3a41af61_2130eda9cba838ea_b4252456b5764b33nat, 0x1d6eda36d3c2b606_fa9aeba288ae3a16_2867ececcf9e2870_b030b226991c0e17nat)
    } else if k == 8 {
        (0x303c7987bf725d0d_4f77f0d5a6664c26_5950724430f7f3e3_499eaef0f3fa70e3nat, 0x6fa2c9ee7badfc21_3ef796ac5736cedf_b009b9daa5915434_4aadf461a507c906nat)
    } else if k == 9 {
        (0x753085d7c646b9e5_a01467361ab9dde6_d955d973dd83485b_45e9b915a955b91dnat, 0x70b74738105765c3_a4c9b6b27c436384_5ded64fd2e0aafb3_99cd071d5e767149nat)
    } else if k == 10 {
        (0x014cb0900de856e9_1fddf57236be35dc_4f6e1f4507e844d1_6713c4926ac2e71bnat, 0x06ad163f421be2a7_789f1bff9ff7111a_4f58cb52cbdbb3fa_3e6c71ac5bb17bfanat)
    } else if k == 11 {
        (0x782a6dd30aa7f36c_33e8e360c9ca1015_e67ec8552b0e54cd_61181338c9082ff8nat, 0x7c5332d107e1c8a9_dfe0d3aff7e1ea4a_cfedbd060d91d4a7_27729644d1c83b7dnat)
    } else if k == 12 {
        (0x01eb8866bf1be7ec_1212ac43655641c6_0424d11d95ad4771_87245175c1cc665fnat, 0x260730472856db8c_ecee01689b41234b_13f479144955d049_3b4a7dd88770ac64nat)
    } else if k == 13 {
        (0x581da8dfec930c71_03df4ee99bc1d168_ea15f99e156da1e5_5d3b3d36f1728fe9nat, 0x26b43b2633fb901a_8cc95b540cafeaf8_4f3c4411741cf986_8ba3f816da54cd46nat)
    } else if k == 14 {
        (0x59dea579a36e8f9b_2248c4626aa8f25b_96c09627e34d2758_1fb300350c580218nat, 0x5da70a5e0e86f9fe_504762abd7610de8_52c553c08bb961dc_4f6cc625a2c5b7ecnat)
    } else if k == 15 {
        (0x5278cfd3a7609196_c98b41b0b1217baa_e39e34da4fad9af4_f65039b500597c48nat, 0x1a557a90b66a3edd_014ee78a2e51f43d_aed7c81141e3b854_545d6cdac900830anat)
    } else {
        (0x6b5dd7ae8facac02_c10225ba378db68e_c9c6a419b69dffa3_2ed25d290bff54banat, 0x5f6b0c63a516eb40_08422c0ca0cca785_54b5813cb8330b37_2691f49b4e44f231nat)
    }
}

/// Generator `k`, for `k < 17`.
fn gen_pt(k: usize) -> (r: Pt)
    requires
        k < 17,
    ensures
        r@ == gen_point(k as int),
{
    reveal(gen_point);
    if k == 0 {
        Pt { x: Fe([0xb40da4485983c213, 0xcc3db3d3ddfcffb3, 0x774ec5fa4f1e6602, 0x5a535589ff2c173e]), y: Fe([0xfad5373112c8c078, 0xcbdb2955c5965ad5, 0x23a5b733a23c97be, 0x1ca907594a5b3003]) }
    } else if k == 1 {
        Pt { x: Fe([0xb72ce59eec32d0a9, 0x2fd8b85319fafc93, 0x69636d7b5123b7b2, 0x62a71dc27a13c0d9]), y: Fe([0xafb033e90031c3d9, 0xa0a917a6c01c69ee, 0xfa224136259bdbdb, 0x76022c3a8b4eee0b]) }
    } else if k == 2 {
        Pt { x: Fe([0x653b4958e9ffe762, 0x340650e5dd63c3a2, 0x3880710fe6c33d42, 0x3179478f1ecdf123]), y: Fe([0x1c16b0e7254f02ef, 0xe917ce7063f70cf2, 0xbbba01a38c133c36, 0x0045beaf55317258]) }
    } else if k == 3 {
        Pt { x: Fe([0x418cb84bb2c71830, 0xbbddf05a60bf47f4, 0x40b680b0e4336f6f, 0x3a707d55597cf656]), y: Fe([0x7286a4e775db0f55, 0xc23036e42434c2a7, 0xb4f17a9a55343e36, 0x39b55907eafea543]) }
    } else if k == 4 {
        Pt { x: Fe([0x4e6f8f3930bfd23b, 0xb1e67ca148987b2e, 0xd12a60b4951c751c, 0x701df00cd58b24ea]), y: Fe([0xbb228f29eb875ca1, 0x4e892a4879aee05e, 0x8fa9033f381258be, 0x66c5cd5303f34f24]) }
    } else if k == 5 {
        Pt { x: Fe([0xc8720820b54c0c49, 0xe164f9ed91bc5eea, 0x63dda78e2645c851, 0x4de6a0fe66621e30]), y: Fe([0x4842f965582ff6c4, 0x8f4ad02046908ea8, 0x05ae8496734651b4, 0x603016e2e5355a3a]) }
    } else if k == 6 {
        Pt { x: Fe([0x3295ca417fd3810e, 0x652f2c5220cf33db, 0xf50b868d0b99d152, 0x1b07e82b66d0b497]), y: Fe([0xf8ecb493fc9126e7, 0xbfb463e5a7f47d6c, 0xe14b689fe969a746, 0x43c54ce959fff257]) }
    } else if k == 7 {
        Pt { x: Fe([0xb4252456b5764b33, 0x2130eda9cba838ea, 0x1bba763c3a41af61, 0x63822b0b539f6909]), y: Fe([0xb030b226991c0e17, 0x2867ececcf9e2870, 0xfa9aeba288ae3a16, 0x1d6eda36d3c2b606]) }
    } else if k == 8 {
        Pt { x: Fe([0x499eaef0f3fa70e3, 0x5950724430f7f3e3, 0x4f77f0d5a6664c26, 0x303c7987bf725d0d]), y: Fe([0x4aadf461a507c906, 0xb009b9daa5915434, 0x3ef796ac5736cedf, 0x6fa2c9ee7badfc21]) }
    } else if k == 9 {
        Pt { x: Fe([0x45e9b915a955b91d, 0xd955d973dd83485b, 0xa01467361ab9dde6, 0x753085d7c646b9e5]), y: Fe([0x99cd071d5e767149, 0x5ded64fd2e0aafb3, 0xa4c9b6b27c436384, 0x70b74738105765c3]) }
    } else if k == 10 {
        Pt { x: Fe([0x6713c4926ac2e71b, 0x4f6e1f4507e844d1, 0x1fddf57236be35dc, 0x014cb0900de856e9]), y: Fe([0x3e6c71ac5bb17bfa, 0x4f58cb52cbdbb3fa, 0x789f1bff9ff7111a, 0x06ad163f421be2a7]) }
    } else if k == 11 {
        Pt { x: Fe([0x61181338c9082ff8, 0xe67ec8552b0e54cd, 0x33e8e360c9ca1015, 0x782a6dd30aa7f36c]), y: Fe([0x27729644d1c83b7d, 0xcfedbd060d91d4a7, 0xdfe0d3aff7e1ea4a, 0x7c5332d107e1c8a9]) }
    } else if k == 12 {
        Pt { x: Fe([0x87245175c1cc665f, 0x0424d11d95ad4771, 0x1212ac43655641c6, 0x01eb8866bf1be7ec]), y: Fe([0x3b4a7dd88770ac64, 0x13f479144955d049, 0xecee01689b41234b, 0x260730472856db8c]) }
    } else if k == 13 {
        Pt { x: Fe([0x5d3b3d36f1728fe9, 0xea15f99e156da1e5, 0x03df4ee99bc1d168, 0x581da8dfec930c71]), y: Fe([0x8ba3f816da54cd46, 0x4f3c4411741cf986, 0x8cc95b540cafeaf8, 0x26b43b2633fb901a]) }
    } else if k == 14 {
        Pt { x: Fe([0x1fb300350c580218, 0x96c09627e34d2758, 0x2248c4626aa8f25b, 0x59dea579a36e8f9b]), y: Fe([0x4f6cc625a2c5b7ec, 0x52c553c08bb961dc, 0x504762abd7610de8, 0x5da70a5e0e86f9fe]) }
    } else if k == 15 {
        Pt { x: Fe([0xf65039b500597c48, 0xe39e34da4fad9af4, 0xc98b41b0b1217baa, 0x5278cfd3a7609196]), y: Fe([0x545d6cdac900830a, 0xaed7c81141e3b854, 0x014ee78a2e51f43d, 0x1a557a90b66a3edd]) }
    } else {
        Pt { x: Fe([0x2ed25d290bff54ba, 0xc9c6a419b69dffa3, 0xc10225ba378db68e, 0x6b5dd7ae8facac02]), y: Fe([0x2691f49b4e44f231, 0x54b5813cb8330b37, 0x08422c0ca0cca785, 0x5f6b0c63a516eb40]) }
    }
}

/// The curve constant d, the base point G and the blinding generator H.
pub fn get_generators() -> (r: (Pt, Pt, Fe))
    ensures
        r.0@ == g_spec(),
        r.1@ == gen_point(0),
        r.2@ == d_spec(),
{
    let d = Fe::from_u64(121665).neg().mul(Fe::from_u64(121666).invert());
    let g_pt = g();
    let h_pt = gen_pt(0);
    (g_pt, h_pt, d)
}

/// The vector generators `gs[i]`, generator `1 + i`, and `hs[i]`, generator
/// `9 + i`.
pub fn get_vector_generators(_d: Fe) -> (r: ([Pt; 8], [Pt; 8]))
    ensures
        forall|i: int| 0 <= i < 8 ==> (#[trigger] r.0[i])@ == gen_point(1 + i),
        forall|i: int| 0 <= i < 8 ==> (#[trigger] r.1[i])@ == gen_point(9 + i),
{
    let mut gs = [Pt::identity(); 8];
    let mut hs = [Pt::identity(); 8];
    let mut i: usize = 0;
    while i < 8
        invariant
            0 <= i <= 8,
            forall|k: int| 0 <= k < i ==> (#[trigger] gs[k])@ == gen_point(1 + k),
            forall|k: int| 0 <= k < i ==> (#[trigger] hs[k])@ == gen_point(9 + k),
        decreases 8 - i,
    {
        gs[i] = gen_pt(1 + i);
        hs[i] = gen_pt(9 + i);
        i += 1;
    }
    (gs, hs)
}

/// The neutral point is neutral for addition on either side.
pub proof fn lemma_pt_add_identity(a: (nat, nat), d: nat)
    ensures
        pt_add_spec(a, identity_pt(), d) == a,
        pt_add_spec(identity_pt(), a, d) == a,
{
}

/// Point addition is commutative.
pub proof fn lemma_pt_add_commutes(a: (nat, nat), b: (nat, nat), d: nat)
    ensures
        pt_add_spec(a, b, d) == pt_add_spec(b, a, d),
{
    lemma_fmul_commutes(a.0, b.0);
    lemma_fmul_commutes(a.1, b.1);
    lemma_fmul_commutes(a.0, b.1);
    lemma_fmul_commutes(a.1, b.0);
}

/// The neutral point lies on the curve, whatever the curve constant.
pub proof fn lemma_identity_on_curve(d: nat)
    ensures
        on_curve_spec(0, 1, d),
{
    assert(fmul(d, 0) == 0);
    assert(fmul(0, 1) == 0);
}

/// Multiplying by 0 gives the neutral point, by 1 the point itself and by 2
/// its double.
pub proof fn lemma_pt_mul_small(a: (nat, nat), d: nat)
    ensures
        pt_mul_spec(a, 0, d) == identity_pt(),
        pt_mul_spec(a, 1, d) == a,
        pt_mul_spec(a, 2, d) == pt_add_spec(a, a, d),
{
    reveal_with_fuel(pt_mul_acc, 3);
}

/// The check that `is_on_curve` computes, with reduced squares, is the curve
/// equation modulo p.
proof fn lemma_curve_check(x: nat, y: nat, d: nat)
    ensures
        (fe_sub_raw(fmul(y, y), fmul(x, x)) == fadd(1, fmul(fmul(d, fmul(x, x)), fmul(y, y))))
            == on_curve_spec(x, y, d),
{
    let X2 = fmul(x, x);
    let Y2 = fmul(y, y);
    let xx: int = (x * x) as int;
    let yy: int = (y * y) as int;
    let dd: int = d as int;
    let lhs = fe_sub_raw(Y2, X2);
    let m = fmul(fmul(d, X2), Y2);
    let rhs = fadd(1, m);
    lemma_eqp_mod(xx);
    lemma_eqp_mod(yy);
    lemma_eqp_sub_raw(Y2, X2);
    lemma_eqp_sub_raw_bound(Y2, X2);
    lemma_eqp_refl(dd);
    lemma_eqp_mod(dd * X2);
    lemma_eqp_mul(dd, X2 as int, dd, xx);
    lemma_eqp_trans(fmul(d, X2) as int, dd * X2, dd * xx);
    lemma_eqp_mod((fmul(d, X2) * Y2) as int);
    lemma_eqp_mul(fmul(d, X2) as int, Y2 as int, dd * xx, yy);
    lemma_eqp_trans(m as int, (fmul(d, X2) * Y2) as int, dd * xx * yy);
    lemma_eqp_mod((1 + m) as int);
    lemma_eqp_refl(1);
    lemma_eqp_add(1, m as int, 1, dd * xx * yy);
    lemma_eqp_trans(rhs as int, (1 + m) as int, 1 + dd * xx * yy);
    lemma_eqp_sub(Y2 as int, X2 as int, yy, xx);
    lemma_eqp_trans(lhs as int, Y2 - X2, yy - xx);
    lemma_eqp_reduced(lhs, rhs);
    lemma_eqp_diff(yy - xx, 1 + dd * xx * yy);
    reveal(eqp);
    assert((yy - xx) - (1 + dd * xx * yy) == y * y - x * x - 1 - d * (x * x) * (y * y));
}

/// A raw difference of reduced values is reduced.
proof fn lemma_eqp_sub_raw_bound(a: nat, b: nat)
    requires
        a < p(),
        b < p(),
    ensures
        fe_sub_raw(a, b) < p(),
{
}

/// A square root x1 of (y^2 - 1) / (d y^2 + 1), or its negation, lies with y
/// on the curve.
proof fn lemma_root_on_curve(x1: nat, x: nat, y: nat, d: nat)
    requires
        x1 < p(),
        x == x1 || (x1 != 0 && x == p() - x1) || (x1 == 0 && x == 0),
        fmul(fadd(fmul(d, fmul(y, y)), 1), fmul(x1, x1)) == fe_sub_raw(fmul(y, y), 1),
    ensures
        on_curve_spec(x, y, d),
{
    let m = p() as int;
    let X: int = x as int;
    let X1: int = x1 as int;
    let yy: int = (y * y) as int;
    let dd: int = d as int;
    let Y2 = fmul(y, y);
    // x^2 is congruent to x1^2.
    assert(eqp(X * X, X1 * X1)) by {
        if x == x1 {
            lemma_eqp_refl(X * X);
        } else if x1 == 0 {
            lemma_eqp_refl(0);
        } else {
            reveal(eqp);
            vstd::arithmetic::div_mod::lemma_mod_add_multiples_vanish(-X1, m);
            lemma_eqp_mul(X, X, -X1, -X1);
            assert((-X1) * (-X1) == X1 * X1) by (nonlinear_arith);
        }
    }
    lemma_eqp_mod(yy);
    lemma_eqp_refl(dd);
    lemma_eqp_mod(dd * Y2);
    lemma_eqp_mul(dd, Y2 as int, dd, yy);
    lemma_eqp_trans(fmul(d, Y2) as int, dd * Y2, dd * yy);
    let v = fadd(fmul(d, Y2), 1);
    lemma_eqp_mod((fmul(d, Y2) + 1) as int);
    lemma_eqp_refl(1);
    lemma_eqp_add(fmul(d, Y2) as int, 1, dd * yy, 1);
    lemma_eqp_trans(v as int, (fmul(d, Y2) + 1) as int, dd * yy + 1);
    let s1 = fmul(x1, x1);
    lemma_eqp_mod(X1 * X1);
    lemma_eqp_symm(X * X, X1 * X1);
    lemma_eqp_trans(s1 as int, X1 * X1, X * X);
    lemma_eqp_mod((v * s1) as int);
    lemma_eqp_mul(v as int, s1 as int, dd * yy + 1, X * X);
    lemma_eqp_trans(fmul(v, s1) as int, (v * s1) as int, (dd * yy + 1) * (X * X));
    lemma_eqp_sub_raw(Y2, 1);
    lemma_eqp_sub(Y2 as int, 1, yy, 1);
    lemma_eqp_trans(fe_sub_raw(Y2, 1) as int, Y2 - 1, yy - 1);
    lemma_eqp_symm(fmul(v, s1) as int, (dd * yy + 1) * (X * X));
    lemma_eqp_trans((dd * yy + 1) * (X * X), fmul(v, s1) as int, yy - 1);
    lemma_eqp_diff(yy - 1, (dd * yy + 1) * (X * X));
    lemma_eqp_symm((dd * yy + 1) * (X * X), yy - 1);
    assert((yy - 1) - (dd * yy + 1) * (X * X) == y * y - x * x - 1 - d * (x * x) * (y * y)) by (nonlinear_arith)
        requires
            yy == y * y,
            dd == d,
            X == x,
    ;
}

/// The sign correction of decompression leaves x with the requested low bit,
/// unless it negated zero.
proof fn lemma_sign_fix(x1: nat, sign: nat, xv: nat)
    requires
        x1 < p(),
        sign <= 1,
        xv == (if x1 % 2 != sign { fe_sub_raw(0, x1) } else { x1 }),
        xv != 0 || sign == 0,
    ensures
        xv % 2 == sign,
{
    if x1 % 2 != sign && x1 != 0 {
        assert(xv == p() - x1);
    }
}

/// What a successful decoding gives: y is the low 255 bits of the bytes,
/// below p; x is below p and has the low bit that the sign bit asks for,
/// unless it is zero; and the point lies on the curve.
#[verifier::rlimit(50)]
proof fn lemma_decompress_parts(b: Seq<u8>)
    requires
        b.len() == 32,
        decompress_spec(b) is Some,
    ensures
        decompress_spec(b).unwrap().1 == limbs_val(limbs_of_le(b.update(31, b[31] & 0x7f), 0)),
        decompress_spec(b).unwrap().0 != 0 || b[31] >> 7u8 == 0 ==> decompress_spec(b).unwrap().0 % 2
            == (b[31] >> 7u8) as nat,
        decompress_spec(b).unwrap().0 < p(),
        decompress_spec(b).unwrap().1 < p(),
        on_curve_spec(decompress_spec(b).unwrap().0, decompress_spec(b).unwrap().1, d_spec()),
{
    let c = b[31];
    let sign = c >> 7u8;
    assert(sign <= 1) by (bit_vector)
        requires
            sign == c >> 7u8,
    ;
    let yb = b.update(31, c & 0x7f);
    let yv = limbs_val(limbs_of_le(yb, 0));
    let y2 = fmul(yv, yv);
    let u = fe_sub_raw(y2, 1);
    let v = fadd(fmul(d_spec(), y2), 1);
    let v2 = fmul(v, v);
    let v3 = fmul(v2, v);
    let v7 = fmul(fmul(v3, v3), v);
    let uv7 = fmul(u, v7);
    let x0 = fmul(fmul(u, v3), fpow(uv7, exp_p58()));
    let x1 = if fmul(v, fmul(x0, x0)) != u {
        fmul(x0, sqrt_m1())
    } else {
        x0
    };
    let xv = decompress_spec(b).unwrap().0;
    assert(xv == (if x1 % 2 != sign as nat { fe_sub_raw(0, x1) } else { x1 }));
    if xv != 0 || sign == 0 {
        lemma_sign_fix(x1, sign as nat, xv);
    }
    assert(fmul(v, fmul(x1, x1)) == u);
    lemma_root_on_curve(x1, xv, yv, d_spec());
}

/// A point that decompression accepts has for y the low 255 bits of the
/// bytes, below p; its x is below p and has the low bit that the top bit of
/// the bytes asks for, unless x is zero; and it lies on the curve.
pub proof fn lemma_decoded_point(b: Seq<u8>)
    requires
        b.len() == 32,
        decompress_spec(b) is Some,
    ensures
        ({
            let (x, y) = decompress_spec(b).unwrap();
            &&& y == limbs_val(limbs_of_le(b.update(31, b[31] & 0x7f), 0))
            &&& y < p()
            &&& x < p()
            &&& (x != 0 || b[31] >> 7u8 == 0 ==> x % 2 == (b[31] >> 7u8) as nat)
            &&& on_curve_spec(x, y, d_spec())
        }),
{
    lemma_decompress_parts(b);
}

/// Compressing a decoded point gives back the very bytes decoded, except for
/// a decoded x of zero under a set sign bit, which compresses with the sign
/// bit clear.
pub proof fn lemma_compress_decompress(b: Seq<u8>, x: [u64; 4], y: [u64; 4])
    requires
        b.len() == 32,
        decompress_spec(b) == Some((limbs_val(x), limbs_val(y))),
        limbs_val(x) != 0 || b[31] < 128,
    ensures
        compress_spec(x, y) == b,
{
    let c = b[31];
    let sign = c >> 7u8;
    assert((c < 128) == (sign == 0)) by (bit_vector)
        requires
            sign == c >> 7u8,
    ;
    lemma_decompress_parts(b);
    let yb = b.update(31, c & 0x7f);
    lemma_limbs_injective(y, limbs_of_le(yb, 0));
    lemma_le_of_limbs_at(yb, 0);
    assert(yb.subrange(0, 32) =~= yb);
    assert(limbs_le(y) == yb);
    lemma_low_bit(x);
    let x0l = x[0];
    let bit = (x0l & 1) as u8;
    assert(limbs_val(x) % 2 == sign as nat);
    assert(bit == sign) by (bit_vector)
        requires
            bit == (x0l & 1) as u8,
            ((x0l & 1) == 1) == (sign == 1),
            sign <= 1,
    ;
    assert(((c & 0x7f) & 0x7f) | (bit << 7u8) == c) by (bit_vector)
        requires
            bit == c >> 7u8,
    ;
    assert(compress_spec(x, y) =~= b);
}

} // verus!
