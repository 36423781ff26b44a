//! The range proof object and its 800-byte wire format.
use vstd::prelude::*;
use crate::limbs::{limbs_of_le, limbs_val, read_u64_le, num_le, lemma_nat_limbs, lemma_limbs_at, lemma_le_of_limbs_at, limbs_le, cat_le, lemma_cat_le_push, lemma_cat_le_len, lemma_cat_le_piece, lemma_cat_le_unique};
use crate::field::Fe;
use crate::scalar::Sc;
use crate::curve::{Pt, is_on_curve, on_curve_spec, d_spec};
use crate::transcript::{append_pt, append_sc, pt_bytes, sc_bytes};

verus! {

/// A range proof: the commitments A, S, T1, T2, the evaluations tx, taux, mu,
/// the three rounds (L, R) of the inner-product argument and its final
/// scalars a and b.
#[derive(Clone, Debug, Eq, PartialEq)]
pub struct Bulletproof {
    pub A: Pt,
    pub S: Pt,
    pub T1: Pt,
    pub T2: Pt,
    pub tx: Sc,
    pub taux: Sc,
    pub mu: Sc,
    pub L: [Pt; 3],
    pub R: [Pt; 3],
    pub a: Sc,
    pub b: Sc,
}

/// The 25 values of the wire format in order: the coordinates of A, S, T1,
/// T2, then tx, taux, mu, the coordinates of L[0..3] and R[0..3], then a, b.
pub open spec fn bp_fields(bp: Bulletproof) -> Seq<nat> {
    seq![
        bp.A.x@, bp.A.y@, bp.S.x@, bp.S.y@, bp.T1.x@, bp.T1.y@, bp.T2.x@, bp.T2.y@,
        bp.tx@, bp.taux@, bp.mu@,
        bp.L[0].x@, bp.L[0].y@, bp.L[1].x@, bp.L[1].y@, bp.L[2].x@, bp.L[2].y@,
        bp.R[0].x@, bp.R[0].y@, bp.R[1].x@, bp.R[1].y@, bp.R[2].x@, bp.R[2].y@,
        bp.a@, bp.b@,
    ]
}

/// The wire format: each of the 25 values as 32 little-endian bytes, 800
/// bytes in all.
pub open spec fn bp_bytes(bp: Bulletproof) -> Seq<u8> {
    cat_le(bp_fields(bp))
}

/// The point whose coordinates stand at `off` and `off + 32`.
#[verifier::opaque]
pub open spec fn pt_at(b: Seq<u8>, off: int) -> Pt {
    Pt { x: Fe(limbs_of_le(b, off)), y: Fe(limbs_of_le(b, off + 32)) }
}

/// The scalar that stands at `off`.
pub open spec fn sc_at(b: Seq<u8>, off: int) -> Sc {
    Sc(limbs_of_le(b, off))
}

/// The fields read from the wire format.
#[verifier::opaque]
pub open spec fn bp_parse(b: Seq<u8>) -> Bulletproof {
    Bulletproof {
        A: pt_at(b, 0),
        S: pt_at(b, 64),
        T1: pt_at(b, 128),
        T2: pt_at(b, 192),
        tx: sc_at(b, 256),
        taux: sc_at(b, 288),
        mu: sc_at(b, 320),
        L: [pt_at(b, 352), pt_at(b, 416), pt_at(b, 480)],
        R: [pt_at(b, 544), pt_at(b, 608), pt_at(b, 672)],
        a: sc_at(b, 736),
        b: sc_at(b, 768),
    }
}

/// A point that passes the curve check of the decoder.
#[verifier::opaque]
pub open spec fn pt_ok(pt: Pt) -> bool {
    on_curve_spec(pt.x@, pt.y@, d_spec())
}

/// Every point of the proof passes the curve check.
#[verifier::opaque]
pub open spec fn bp_points_ok(bp: Bulletproof) -> bool {
    &&& pt_ok(bp.A)
    &&& pt_ok(bp.S)
    &&& pt_ok(bp.T1)
    &&& pt_ok(bp.T2)
    &&& pt_ok(bp.L[0])
    &&& pt_ok(bp.L[1])
    &&& pt_ok(bp.L[2])
    &&& pt_ok(bp.R[0])
    &&& pt_ok(bp.R[1])
    &&& pt_ok(bp.R[2])
}

/// What decoding gives: the fields read from exactly 800 bytes, where every
/// point passes the curve check; `None` otherwise.
pub open spec fn bp_decode(b: Seq<u8>) -> Option<Bulletproof> {
    if b.len() == 800 && bp_points_ok(bp_parse(b)) {
        Some(bp_parse(b))
    } else {
        None
    }
}

/// The offsets at which the ten points of the wire format stand.
pub open spec fn is_pt_offset(off: int) -> bool {
    off == 0 || off == 64 || off == 128 || off == 192 || off == 352 || off == 416 || off == 480
        || off == 544 || off == 608 || off == 672
}

/// A point at one of the point offsets that fails the curve check makes the
/// decoder reject.
proof fn lemma_decode_rejects(b: Seq<u8>, off: int)
    requires
        b.len() == 800,
        is_pt_offset(off),
        !pt_ok(pt_at(b, off)),
    ensures
        bp_decode(b) is None,
{
    reveal(bp_decode);
    reveal(bp_points_ok);
    reveal(bp_parse);
    let bp = bp_parse(b);
    if off == 0 {
        assert(!pt_ok(bp.A));
    } else if off == 64 {
        assert(!pt_ok(bp.S));
    } else if off == 128 {
        assert(!pt_ok(bp.T1));
    } else if off == 192 {
        assert(!pt_ok(bp.T2));
    } else if off == 352 {
        assert(!pt_ok(bp.L[0]));
    } else if off == 416 {
        assert(!pt_ok(bp.L[1]));
    } else if off == 480 {
        assert(!pt_ok(bp.L[2]));
    } else if off == 544 {
        assert(!pt_ok(bp.R[0]));
    } else if off == 608 {
        assert(!pt_ok(bp.R[1]));
    } else {
        assert(!pt_ok(bp.R[2]));
    }
}

/// Where every point passes the curve check, the decoder accepts.
proof fn lemma_decode_accepts(b: Seq<u8>)
    requires
        b.len() == 800,
        forall|off: int| is_pt_offset(off) ==> pt_ok(#[trigger] pt_at(b, off)),
    ensures
        bp_decode(b) == Some(bp_parse(b)),
{
    reveal(bp_decode);
    reveal(bp_points_ok);
    reveal(bp_parse);
    assert(is_pt_offset(0) && is_pt_offset(64) && is_pt_offset(128) && is_pt_offset(192));
    assert(is_pt_offset(352) && is_pt_offset(416) && is_pt_offset(480));
    assert(is_pt_offset(544) && is_pt_offset(608) && is_pt_offset(672));
}

/// Reading back the limbs of a value whose encoding stands at `off`.
proof fn lemma_read_back(s: Seq<u8>, off: int, l: [u64; 4])
    requires
        0 <= off,
        off + 32 <= s.len(),
        s.subrange(off, off + 32) == num_le(limbs_val(l)),
    ensures
        limbs_of_le(s, off) == l,
{
    reveal(num_le);
    lemma_nat_limbs(l);
    lemma_limbs_at(s, off, l);
}

/// The limbs read at piece `k` of the encoding are those of value `k`.
proof fn lemma_field_at(bp: Bulletproof, k: int, l: [u64; 4])
    requires
        0 <= k < 25,
        bp_fields(bp)[k] == limbs_val(l),
    ensures
        limbs_of_le(bp_bytes(bp), 32 * k) == l,
{
    lemma_cat_le_len(bp_fields(bp));
    lemma_cat_le_piece(bp_fields(bp), k);
    lemma_read_back(bp_bytes(bp), 32 * k, l);
}

/// The point encoded at pieces `k` and `k + 1` reads back.
proof fn lemma_point_at(bp: Bulletproof, k: int, pt: Pt)
    requires
        0 <= k < 24,
        bp_fields(bp)[k] == pt.x@,
        bp_fields(bp)[k + 1] == pt.y@,
    ensures
        pt_at(bp_bytes(bp), 32 * k) == pt,
{
    lemma_field_at(bp, k, pt.x.0);
    lemma_field_at(bp, k + 1, pt.y.0);
    reveal(pt_at);
}

proof fn lemma_read_back_points(bp: Bulletproof)
    ensures
        pt_at(bp_bytes(bp), 0) == bp.A,
        pt_at(bp_bytes(bp), 64) == bp.S,
        pt_at(bp_bytes(bp), 128) == bp.T1,
        pt_at(bp_bytes(bp), 192) == bp.T2,
{
    let vs = bp_fields(bp);
    assert(vs[0] == bp.A.x@ && vs[1] == bp.A.y@ && vs[2] == bp.S.x@ && vs[3] == bp.S.y@);
    assert(vs[4] == bp.T1.x@ && vs[5] == bp.T1.y@ && vs[6] == bp.T2.x@ && vs[7] == bp.T2.y@);
    lemma_point_at(bp, 0, bp.A);
    lemma_point_at(bp, 2, bp.S);
    lemma_point_at(bp, 4, bp.T1);
    lemma_point_at(bp, 6, bp.T2);
}

proof fn lemma_read_back_rounds(bp: Bulletproof)
    ensures
        pt_at(bp_bytes(bp), 352) == bp.L[0],
        pt_at(bp_bytes(bp), 416) == bp.L[1],
        pt_at(bp_bytes(bp), 480) == bp.L[2],
        pt_at(bp_bytes(bp), 544) == bp.R[0],
        pt_at(bp_bytes(bp), 608) == bp.R[1],
        pt_at(bp_bytes(bp), 672) == bp.R[2],
{
    let vs = bp_fields(bp);
    assert(vs[11] == bp.L[0].x@ && vs[12] == bp.L[0].y@ && vs[13] == bp.L[1].x@ && vs[14]
        == bp.L[1].y@ && vs[15] == bp.L[2].x@ && vs[16] == bp.L[2].y@);
    assert(vs[17] == bp.R[0].x@ && vs[18] == bp.R[0].y@ && vs[19] == bp.R[1].x@ && vs[20]
        == bp.R[1].y@ && vs[21] == bp.R[2].x@ && vs[22] == bp.R[2].y@);
    lemma_point_at(bp, 11, bp.L[0]);
    lemma_point_at(bp, 13, bp.L[1]);
    lemma_point_at(bp, 15, bp.L[2]);
    lemma_point_at(bp, 17, bp.R[0]);
    lemma_point_at(bp, 19, bp.R[1]);
    lemma_point_at(bp, 21, bp.R[2]);
}

proof fn lemma_read_back_scalars(bp: Bulletproof)
    ensures
        sc_at(bp_bytes(bp), 256) == bp.tx,
        sc_at(bp_bytes(bp), 288) == bp.taux,
        sc_at(bp_bytes(bp), 320) == bp.mu,
        sc_at(bp_bytes(bp), 736) == bp.a,
        sc_at(bp_bytes(bp), 768) == bp.b,
{
    let vs = bp_fields(bp);
    assert(vs[8] == bp.tx@ && vs[9] == bp.taux@ && vs[10] == bp.mu@ && vs[23] == bp.a@ && vs[24]
        == bp.b@);
    lemma_field_at(bp, 8, bp.tx.0);
    lemma_field_at(bp, 9, bp.taux.0);
    lemma_field_at(bp, 10, bp.mu.0);
    lemma_field_at(bp, 23, bp.a.0);
    lemma_field_at(bp, 24, bp.b.0);
}

/// Decoding the encoding of a proof gives the proof back exactly when all
/// its points pass the decoder's curve check, and rejects it otherwise.
pub proof fn lemma_decode_encode(bp: Bulletproof)
    ensures
        bp_decode(bp_bytes(bp)) == (if bp_points_ok(bp) { Some(bp) } else { None::<Bulletproof> }),
{
    let s = bp_bytes(bp);
    lemma_cat_le_len(bp_fields(bp));
    lemma_read_back_points(bp);
    lemma_read_back_rounds(bp);
    lemma_read_back_scalars(bp);
    reveal(bp_parse);
    assert(bp_parse(s).L =~= bp.L);
    assert(bp_parse(s).R =~= bp.R);
    assert(bp_parse(s) == bp);
    reveal(bp_decode);
}

/// Encoding what the decoder accepted gives back the very bytes decoded.
#[verifier::rlimit(100)]
pub proof fn lemma_encode_decode(b: Seq<u8>)
    requires
        bp_decode(b) is Some,
    ensures
        bp_bytes(bp_decode(b).unwrap()) == b,
{
    reveal(bp_decode);
    let bp = bp_parse(b);
    let vs = bp_fields(bp);
    assert forall|k: int| 0 <= k < 25 implies #[trigger] b.subrange(32 * k, 32 * k + 32) == num_le(
        vs[k],
    ) by {
        reveal(bp_parse);
        reveal(pt_at);
        reveal(num_le);
        lemma_nat_limbs(limbs_of_le(b, 32 * k));
        lemma_le_of_limbs_at(b, 32 * k);
        assert(vs[k] == limbs_val(limbs_of_le(b, 32 * k)));
    }
    lemma_cat_le_unique(b, vs);
}

/// Reads four limbs at `off`.
fn read_limbs(bytes: &[u8], off: usize) -> (r: [u64; 4])
    requires
        off + 32 <= bytes@.len(),
        bytes@.len() == 800,
    ensures
        r == limbs_of_le(bytes@, off as int),
{
    let mut limbs = [0u64; 4];
    let mut i: usize = 0;
    while i < 4
        invariant
            0 <= i <= 4,
            off + 32 <= bytes@.len(),
            bytes@.len() == 800,
            forall|k: int| 0 <= k < i ==> limbs[k] == limbs_of_le(bytes@, off as int)[k],
        decreases 4 - i,
    {
        limbs[i] = read_u64_le(bytes, off + i * 8);
        i += 1;
    }
    assert(limbs =~= limbs_of_le(bytes@, off as int));
    limbs
}

/// Reads a point at `offset` and moves past it; `None` where the point fails
/// the curve check.
fn read_pt(bytes: &[u8], offset: &mut usize) -> (r: Option<Pt>)
    requires
        *old(offset) + 64 <= bytes@.len(),
        bytes@.len() == 800,
    ensures
        *final(offset) == *old(offset) + 64,
        r == (if pt_ok(pt_at(bytes@, *old(offset) as int)) {
            Some(pt_at(bytes@, *old(offset) as int))
        } else {
            None
        }),
{
    let x_limbs = read_limbs(bytes, *offset);
    *offset += 32;
    let y_limbs = read_limbs(bytes, *offset);
    *offset += 32;
    let x = Fe(x_limbs);
    let y = Fe(y_limbs);
    proof {
        reveal(pt_at);
    }
    let d = Fe::from_u64(121665).neg().mul(Fe::from_u64(121666).invert());
    if is_on_curve(x, y, d) {
        proof {
            reveal(pt_ok);
        }
        Some(Pt { x, y })
    } else {
        proof {
            reveal(pt_ok);
        }
        None
    }
}

/// Reads a scalar at `offset` and moves past it.
fn read_sc(bytes: &[u8], offset: &mut usize) -> (r: Sc)
    requires
        *old(offset) + 32 <= bytes@.len(),
        bytes@.len() == 800,
    ensures
        *final(offset) == *old(offset) + 32,
        r == sc_at(bytes@, *old(offset) as int),
{
    let limbs = read_limbs(bytes, *offset);
    *offset += 32;
    Sc(limbs)
}

impl Bulletproof {
    /// Appends a point of the wire format.
    fn push_pt(&self, buf: &mut Vec<u8>, pt: &Pt, Ghost(vs): Ghost<Seq<nat>>)
        requires
            old(buf)@ == cat_le(vs),
        ensures
            final(buf)@ == cat_le(vs.push(pt.x@).push(pt.y@)),
    {
        append_pt(buf, pt);
        proof {
            lemma_cat_le_push(vs, pt.x@);
            lemma_cat_le_push(vs.push(pt.x@), pt.y@);
            assert(buf@ =~= cat_le(vs.push(pt.x@).push(pt.y@)));
        }
    }

    /// Appends a scalar of the wire format.
    fn push_sc(&self, buf: &mut Vec<u8>, sc: &Sc, Ghost(vs): Ghost<Seq<nat>>)
        requires
            old(buf)@ == cat_le(vs),
        ensures
            final(buf)@ == cat_le(vs.push(sc@)),
    {
        append_sc(buf, sc);
        proof {
            lemma_cat_le_push(vs, sc@);
        }
    }

    /// The 800-byte wire format.
    pub fn to_bytes(&self) -> (r: Vec<u8>)
        ensures
            r@ == bp_bytes(*self),
            r@.len() == 800,
    {
        let mut buf: Vec<u8> = Vec::new();
        let ghost mut vs: Seq<nat> = Seq::empty();
        proof {
            assert(buf@ =~= cat_le(vs));
        }
        self.push_pt(&mut buf, &self.A, Ghost(vs));
        proof { vs = vs.push(self.A.x@).push(self.A.y@); }
        self.push_pt(&mut buf, &self.S, Ghost(vs));
        proof { vs = vs.push(self.S.x@).push(self.S.y@); }
        self.push_pt(&mut buf, &self.T1, Ghost(vs));
        proof { vs = vs.push(self.T1.x@).push(self.T1.y@); }
        self.push_pt(&mut buf, &self.T2, Ghost(vs));
        proof { vs = vs.push(self.T2.x@).push(self.T2.y@); }
        self.push_sc(&mut buf, &self.tx, Ghost(vs));
        proof { vs = vs.push(self.tx@); }
        self.push_sc(&mut buf, &self.taux, Ghost(vs));
        proof { vs = vs.push(self.taux@); }
        self.push_sc(&mut buf, &self.mu, Ghost(vs));
        proof { vs = vs.push(self.mu@); }
        let mut i: usize = 0;
        while i < 3
            invariant
                0 <= i <= 3,
                buf@ == cat_le(vs),
                vs == bp_fields(*self).subrange(0, 11 + 2 * i),
            decreases 3 - i,
        {
            self.push_pt(&mut buf, &self.L[i], Ghost(vs));
            proof {
                vs = vs.push(self.L[i as int].x@).push(self.L[i as int].y@);
                assert(vs =~= bp_fields(*self).subrange(0, 11 + 2 * (i + 1)));
            }
            i += 1;
        }
        let mut i: usize = 0;
        while i < 3
            invariant
                0 <= i <= 3,
                buf@ == cat_le(vs),
                vs == bp_fields(*self).subrange(0, 17 + 2 * i),
            decreases 3 - i,
        {
            self.push_pt(&mut buf, &self.R[i], Ghost(vs));
            proof {
                vs = vs.push(self.R[i as int].x@).push(self.R[i as int].y@);
                assert(vs =~= bp_fields(*self).subrange(0, 17 + 2 * (i + 1)));
            }
            i += 1;
        }
        self.push_sc(&mut buf, &self.a, Ghost(vs));
        proof { vs = vs.push(self.a@); }
        self.push_sc(&mut buf, &self.b, Ghost(vs));
        proof {
            vs = vs.push(self.b@);
            assert(vs =~= bp_fields(*self));
            lemma_cat_le_len(vs);
        }
        buf
    }

    /// Decodes the wire format; `None` unless there are exactly 800 bytes and
    /// every point passes the curve check.
    pub fn from_bytes(bytes: &[u8]) -> (r: Option<Self>)
        ensures
            r == bp_decode(bytes@),
    {
        if bytes.len() != 800 {
            return None;
        }
        let mut offset: usize = 0;
        let A = match read_pt(bytes, &mut offset) {
            Some(p) => p,
            None => {
                proof {
                    lemma_decode_rejects(bytes@, 0);
                }
                return None;
            },
        };
        let S = match read_pt(bytes, &mut offset) {
            Some(p) => p,
            None => {
                proof {
                    lemma_decode_rejects(bytes@, 64);
                }
                return None;
            },
        };
        let T1 = match read_pt(bytes, &mut offset) {
            Some(p) => p,
            None => {
                proof {
                    lemma_decode_rejects(bytes@, 128);
                }
                return None;
            },
        };
        let T2 = match read_pt(bytes, &mut offset) {
            Some(p) => p,
            None => {
                proof {
                    lemma_decode_rejects(bytes@, 192);
                }
                return None;
            },
        };

        let tx = read_sc(bytes, &mut offset);
        let taux = read_sc(bytes, &mut offset);
        let mu = read_sc(bytes, &mut offset);

        let mut L = [Pt::identity(); 3];
        let mut i: usize = 0;
        while i < 3
            invariant
                0 <= i <= 3,
                bytes@.len() == 800,
                offset == 352 + 64 * i,
                forall|k: int| 0 <= k < i ==> L[k] == pt_at(bytes@, 352 + 64 * k),
                forall|k: int| 0 <= k < i ==> pt_ok(#[trigger] pt_at(bytes@, 352 + 64 * k)),
            decreases 3 - i,
        {
            L[i] = match read_pt(bytes, &mut offset) {
                Some(p) => p,
                None => {
                    proof {
                        lemma_decode_rejects(bytes@, 352 + 64 * i);
                    }
                    return None;
                },
            };
            i += 1;
        }

        let mut R = [Pt::identity(); 3];
        let mut i: usize = 0;
        while i < 3
            invariant
                0 <= i <= 3,
                bytes@.len() == 800,
                offset == 544 + 64 * i,
                forall|k: int| 0 <= k < i ==> R[k] == pt_at(bytes@, 544 + 64 * k),
                forall|k: int| 0 <= k < i ==> pt_ok(#[trigger] pt_at(bytes@, 544 + 64 * k)),
            decreases 3 - i,
        {
            R[i] = match read_pt(bytes, &mut offset) {
                Some(p) => p,
                None => {
                    proof {
                        lemma_decode_rejects(bytes@, 544 + 64 * i);
                    }
                    return None;
                },
            };
            i += 1;
        }

        let a = read_sc(bytes, &mut offset);
        let b = read_sc(bytes, &mut offset);

        let r = Bulletproof { A, S, T1, T2, tx, taux, mu, L, R, a, b };
        proof {
            assert(pt_ok(pt_at(bytes@, 352 + 64 * 0int)));
            assert(pt_ok(pt_at(bytes@, 352 + 64 * 1int)));
            assert(pt_ok(pt_at(bytes@, 352 + 64 * 2int)));
            assert(pt_ok(pt_at(bytes@, 544 + 64 * 0int)));
            assert(pt_ok(pt_at(bytes@, 544 + 64 * 1int)));
            assert(pt_ok(pt_at(bytes@, 544 + 64 * 2int)));
            lemma_decode_accepts(bytes@);
            reveal(bp_parse);
            assert(L =~= [pt_at(bytes@, 352), pt_at(bytes@, 416), pt_at(bytes@, 480)]);
            assert(R =~= [pt_at(bytes@, 544), pt_at(bytes@, 608), pt_at(bytes@, 672)]);
            assert(r == bp_parse(bytes@));
        }
        Some(r)
    }
}

} // verus!
