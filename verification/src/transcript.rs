//! SHA-256 through the Soroban host, scalars drawn from hashes, the
//! Fiat-Shamir transcripts of the range proof and the seeded generator of
//! prover randomness.
use vstd::prelude::*;
use soroban_sdk::{Bytes, Env};
use crate::limbs::{limbs_le, limbs_of_le, limbs_val, read_u64_le, num_le, lemma_nat_limbs};
use crate::scalar::{Sc, l_order};
use crate::curve::Pt;

verus! {

/// The Soroban host environment; opaque here, it is only handed through to
/// the host's hash function.
#[verifier::external_type_specification]
#[verifier::external_body]
pub struct ExEnv(Env);

/// The SHA-256 digest of a byte string, as the Soroban host computes it.
pub uninterp spec fn sha256_spec(data: Seq<u8>) -> Seq<u8>;

/// Calls `soroban_sdk::crypto::Crypto::sha256` (through `env.crypto()`) on
/// `data` copied into host `Bytes` by `Bytes::from_slice`, and returns the 32
/// digest bytes by `Hash::to_array`. The SDK documents the call as the
/// SHA-256 hash of the data; the contract names that digest `sha256_spec` of
/// the bytes hashed and states nothing more of it. The host meters both
/// calls against its budget and panics once the budget is spent; that rests
/// on what the environment has spent before, and is left unstated.
#[verifier::external_body]
fn sha256(env: &Env, data: &[u8]) -> (r: [u8; 32])
    ensures
        r@ == sha256_spec(data@),
{
    env.crypto().sha256(&Bytes::from_slice(env, data)).to_array()
}

/// The bytes of a point in a transcript or a proof: x, then y, each as 32
/// little-endian bytes.
pub open spec fn pt_bytes(pt: (nat, nat)) -> Seq<u8> {
    num_le(pt.0) + num_le(pt.1)
}

/// The bytes of a scalar: 32 little-endian bytes.
pub open spec fn sc_bytes(s: nat) -> Seq<u8> {
    num_le(s)
}

/// The limbs drawn from a digest: its four little-endian words with the top
/// four bits cleared, which leaves a value below 2^252 and so below l.
pub open spec fn digest_limbs(h: Seq<u8>) -> [u64; 4] {
    let w = limbs_of_le(h, 0);
    [w[0], w[1], w[2], w[3] & 0x0fff_ffff_ffff_ffff]
}

/// The scalar that hashing `data` gives.
pub open spec fn hash_scalar_spec(data: Seq<u8>) -> nat {
    limbs_val(digest_limbs(sha256_spec(data)))
}

/// A scalar drawn from a digest is below 2^252, and so below l.
pub proof fn lemma_hash_scalar_below_order(data: Seq<u8>)
    ensures
        hash_scalar_spec(data) < l_order(),
{
    let w = limbs_of_le(sha256_spec(data), 0);
    let t = w[3];
    assert(t & 0x0fff_ffff_ffff_ffffu64 <= 0x0fff_ffff_ffff_ffffu64) by (bit_vector);
    let l = digest_limbs(sha256_spec(data));
    assert(l[3] <= 0x0fff_ffff_ffff_ffffu64);
    assert(limbs_val(l) < l_order()) by (nonlinear_arith)
        requires
            l[3] <= 0x0fff_ffff_ffff_ffffu64,
            limbs_val(l) == l[0] as nat + l[1] as nat * 0x1_0000_0000_0000_0000nat + l[2] as nat
                * 0x1_0000_0000_0000_0000_0000_0000_0000_0000nat + l[3] as nat
                * 0x1_0000_0000_0000_0000_0000_0000_0000_0000_0000_0000_0000_0000nat,
    ;
}

/// Appends 32 bytes.
fn append32(data: &mut Vec<u8>, b: &[u8; 32])
    ensures
        final(data)@ == old(data)@ + b@,
{
    let mut i: usize = 0;
    while i < 32
        invariant
            0 <= i <= 32,
            data@ == old(data)@ + b@.subrange(0, i as int),
        decreases 32 - i,
    {
        data.push(b[i]);
        proof {
            assert(b@.subrange(0, i + 1) =~= b@.subrange(0, i as int).push(b@[i as int]));
        }
        i += 1;
    }
    proof {
        assert(b@.subrange(0, 32) =~= b@);
    }
}

/// Appends the bytes of a point.
pub fn append_pt(data: &mut Vec<u8>, pt: &Pt)
    ensures
        final(data)@ == old(data)@ + pt_bytes(pt@),
{
    let xb = pt.x.to_bytes();
    let yb = pt.y.to_bytes();
    append32(data, &xb);
    append32(data, &yb);
    proof {
        reveal(num_le);
        lemma_nat_limbs(pt.x.0);
        lemma_nat_limbs(pt.y.0);
        assert(data@ =~= old(data)@ + pt_bytes(pt@));
    }
}

/// Appends the bytes of a scalar.
pub fn append_sc(data: &mut Vec<u8>, sc: &Sc)
    ensures
        final(data)@ == old(data)@ + sc_bytes(sc@),
{
    let sb = sc.to_bytes();
    append32(data, &sb);
    proof {
        reveal(num_le);
        lemma_nat_limbs(sc.0);
    }
}

/// A scalar from the 32 bytes of a digest: the little-endian limbs with the
/// top four bits cleared, reduced below l.
fn scalar_from_digest(arr: &[u8; 32]) -> (r: Sc)
    ensures
        r.0 == digest_limbs(arr@),
        r@ < l_order(),
{
    let mut limbs = [0u64; 4];
    let mut i: usize = 0;
    while i < 4
        invariant
            0 <= i <= 4,
            forall|k: int| 0 <= k < i ==> limbs[k] == limbs_of_le(arr@, 0)[k],
        decreases 4 - i,
    {
        limbs[i] = read_u64_le(arr.as_slice(), i * 8);
        i += 1;
    }
    let mut val = Sc(limbs);
    val.0[3] &= 0x0fffffffffffffff;
    proof {
        let t = val.0[3];
        let w = limbs[3];
        assert(t == w & 0x0fff_ffff_ffff_ffffu64);
        assert(t <= 0x0fff_ffff_ffff_ffffu64) by (bit_vector)
            requires
                t == w & 0x0fff_ffff_ffff_ffffu64,
        ;
        assert(val.0 =~= digest_limbs(arr@));
    }
    while val.ge(&Sc::order())
        invariant
            val.0 == digest_limbs(arr@),
            val@ < l_order(),
        decreases val@,
    {
        val = val.sub(Sc::order());
    }
    val
}

/// Hashes `data` and draws a scalar from the digest.
pub fn hash_to_scalar(env: &Env, data: &Vec<u8>) -> (r: Sc)
    ensures
        r@ == hash_scalar_spec(data@),
        r@ < l_order(),
{
    let hash = sha256(env, data.as_slice());
    scalar_from_digest(&hash)
}

/// The transcript that the challenge y hashes: "y_z", then V, A and S.
pub open spec fn transcript_y(V: (nat, nat), A: (nat, nat), S: (nat, nat)) -> Seq<u8> {
    seq![0x79u8, 0x5fu8, 0x7au8] + pt_bytes(V) + pt_bytes(A) + pt_bytes(S)
}

/// The transcript that the challenge z hashes: "z", then y.
pub open spec fn transcript_z(y: nat) -> Seq<u8> {
    seq![0x7au8] + sc_bytes(y)
}

/// The transcript that the challenge x hashes: "x", then T1 and T2.
pub open spec fn transcript_x(T1: (nat, nat), T2: (nat, nat)) -> Seq<u8> {
    seq![0x78u8] + pt_bytes(T1) + pt_bytes(T2)
}

/// The transcript that the challenge w hashes: "w", then tx, taux and mu.
pub open spec fn transcript_w(tx: nat, taux: nat, mu: nat) -> Seq<u8> {
    seq![0x77u8] + sc_bytes(tx) + sc_bytes(taux) + sc_bytes(mu)
}

/// The transcript of an inner-product round: "ip", the round number as one
/// byte, then L and R.
pub open spec fn transcript_ip(round: u8, L: (nat, nat), R: (nat, nat)) -> Seq<u8> {
    seq![0x69u8, 0x70u8, round] + pt_bytes(L) + pt_bytes(R)
}

/// The challenges y and z.
pub fn hash_fs_y_z(env: &Env, V: &Pt, A: &Pt, S: &Pt) -> (r: (Sc, Sc))
    ensures
        r.0@ == hash_scalar_spec(transcript_y(V@, A@, S@)),
        r.1@ == hash_scalar_spec(transcript_z(r.0@)),
        r.0@ < l_order(),
        r.1@ < l_order(),
{
    let mut data: Vec<u8> = Vec::new();
    data.push(0x79);
    data.push(0x5f);
    data.push(0x7a);
    append_pt(&mut data, V);
    append_pt(&mut data, A);
    append_pt(&mut data, S);
    proof {
        assert(data@ =~= transcript_y(V@, A@, S@));
    }
    let y = hash_to_scalar(env, &data);

    let mut data2: Vec<u8> = Vec::new();
    data2.push(0x7a);
    append_sc(&mut data2, &y);
    proof {
        assert(data2@ =~= transcript_z(y@));
    }
    let z = hash_to_scalar(env, &data2);

    (y, z)
}

/// The challenge x.
pub fn hash_fs_x(env: &Env, T1: &Pt, T2: &Pt) -> (r: Sc)
    ensures
        r@ == hash_scalar_spec(transcript_x(T1@, T2@)),
        r@ < l_order(),
{
    let mut data: Vec<u8> = Vec::new();
    data.push(0x78);
    append_pt(&mut data, T1);
    append_pt(&mut data, T2);
    proof {
        assert(data@ =~= transcript_x(T1@, T2@));
    }
    hash_to_scalar(env, &data)
}

/// The challenge w.
pub fn hash_fs_w(env: &Env, tx: &Sc, taux: &Sc, mu: &Sc) -> (r: Sc)
    ensures
        r@ == hash_scalar_spec(transcript_w(tx@, taux@, mu@)),
        r@ < l_order(),
{
    let mut data: Vec<u8> = Vec::new();
    data.push(0x77);
    append_sc(&mut data, tx);
    append_sc(&mut data, taux);
    append_sc(&mut data, mu);
    proof {
        assert(data@ =~= transcript_w(tx@, taux@, mu@));
    }
    hash_to_scalar(env, &data)
}

/// The challenge of an inner-product round.
pub fn hash_fs_challenge_ip(env: &Env, round: usize, L: &Pt, R: &Pt) -> (r: Sc)
    ensures
        r@ == hash_scalar_spec(transcript_ip((round % 256) as u8, L@, R@)),
        r@ < l_order(),
{
    let mut data: Vec<u8> = Vec::new();
    data.push(0x69);
    data.push(0x70);
    let r_byte = round as u8;
    proof {
        assert(r_byte == (round % 256) as u8) by (bit_vector)
            requires
                r_byte == round as u8,
        ;
    }
    data.push(r_byte);
    append_pt(&mut data, L);
    append_pt(&mut data, R);
    proof {
        assert(data@ =~= transcript_ip((round % 256) as u8, L@, R@));
    }
    hash_to_scalar(env, &data)
}


/// The generator state after `k` draws from `seed`: every byte advanced by
/// `k`, wrapping.
pub open spec fn prng_state(seed: Seq<u8>, k: nat) -> Seq<u8> {
    Seq::new(32, |i: int| ((seed[i] + k) % 256) as u8)
}

/// The 64 bytes hashed for a draw: the state, then 32 zero bytes.
pub open spec fn prng_block(state: Seq<u8>) -> Seq<u8> {
    state + Seq::new(32, |i: int| 0u8)
}

/// The scalar of draw `k` from `seed`.
pub open spec fn prng_draw(seed: Seq<u8>, k: nat) -> nat {
    hash_scalar_spec(prng_block(prng_state(seed, k)))
}

/// Advancing by one after `k` draws is the state after `k + 1`.
pub proof fn lemma_prng_state_step(seed: Seq<u8>, k: nat)
    requires
        seed.len() == 32,
    ensures
        prng_state(prng_state(seed, k), 1) == prng_state(seed, k + 1),
        prng_state(seed, 0) == seed,
{
    assert forall|i: int| 0 <= i < 32 implies #[trigger] prng_state(prng_state(seed, k), 1)[i]
        == prng_state(seed, k + 1)[i] by {
        let b = seed[i] as int;
        assert(((b + k) % 256 + 1) % 256 == (b + k + 1) % 256) by {
            vstd::arithmetic::div_mod::lemma_add_mod_noop(b + k, 1, 256);
            vstd::arithmetic::div_mod::lemma_small_mod(1, 256);
            vstd::arithmetic::div_mod::lemma_mod_twice(b + k, 256);
        }
    }
    assert(prng_state(prng_state(seed, k), 1) =~= prng_state(seed, k + 1));
    assert forall|i: int| 0 <= i < 32 implies #[trigger] prng_state(seed, 0)[i] == seed[i] by {
        vstd::arithmetic::div_mod::lemma_small_mod(seed[i] as nat, 256);
    }
    assert(prng_state(seed, 0) =~= seed);
}

/// A deterministic generator of prover randomness: each draw hashes the state
/// followed by 32 zero bytes, then advances every state byte by one.
pub struct SeededPrng {
    state: [u8; 32],
}

impl View for SeededPrng {
    type V = Seq<u8>;

    closed spec fn view(&self) -> Seq<u8> {
        self.state@
    }
}

impl SeededPrng {
    /// The state is 32 bytes.
    pub proof fn lemma_state_len(&self)
        ensures
            self@.len() == 32,
    {
    }

    pub fn new(seed: [u8; 32]) -> (r: Self)
        ensures
            r@ == seed@,
    {
        SeededPrng { state: seed }
    }

    pub fn next_scalar(&mut self, env: &Env) -> (r: Sc)
        ensures
            r@ == hash_scalar_spec(prng_block(old(self)@)),
            r@ < l_order(),
            final(self)@ == prng_state(old(self)@, 1),
            final(self)@.len() == 32,
    {
        let mut buf = [0u8; 64];
        let mut i: usize = 0;
        while i < 32
            invariant
                0 <= i <= 32,
                self.state == old(self).state,
                forall|k: int| 0 <= k < i ==> buf[k] == self.state[k],
                forall|k: int| 32 <= k < 64 ==> buf[k] == 0,
            decreases 32 - i,
        {
            buf[i] = self.state[i];
            i += 1;
        }
        let mut i: usize = 0;
        while i < 32
            invariant
                0 <= i <= 32,
                forall|k: int| 0 <= k < i ==> self.state[k] == ((old(self).state[k] + 1) % 256) as u8,
                forall|k: int| i <= k < 32 ==> self.state[k] == old(self).state[k],
            decreases 32 - i,
        {
            self.state[i] = self.state[i].wrapping_add(1);
            i += 1;
        }
        proof {
            assert(buf@ =~= prng_block(old(self)@));
            assert(self.state@ =~= prng_state(old(self)@, 1));
        }
        let hash = sha256(env, buf.as_slice());
        scalar_from_digest(&hash)
    }
}

} // verus!
