# ledgerlens_zk

Range proofs over the Ed25519 curve, verified with Verus: a Bulletproof
prover and verifier showing that a Pedersen-committed value lies in [0, 2^8),
with Fiat-Shamir challenges drawn from SHA-256 through the Soroban host.

- `src/limbs.rs`: four-limb integers, their bytes and the carry lemmas.
- `src/field.rs`, `src/scalar.rs`: arithmetic modulo p = 2^255 - 19 and
  modulo the group order l, each operation specified on values.
- `src/curve.rs`: affine twisted Edwards points, compression, decompression,
  the generators: G and sixteen more points, each 8 times the first valid
  compressed point among the SHA-256 digests of a label, its index and a
  counter. Nothing in the crate proves that no relation to G is known; the
  points follow a public rule that the tests re-derive.
- `src/transcript.rs`: the host hash, scalars drawn from digests, the
  transcripts and the seeded generator of prover randomness.
- `src/bulletproof.rs`: the proof and its 800-byte wire format.
- `src/prove.rs`, `src/verify.rs`: the prover and the verifier, each with a
  contract that fixes every field or the verdict.
- `src/poly.rs`: the exponent equations of the polynomial check that an
  honest proof satisfies.
- `src/canonical.rs`: every point and scalar of an honest proof is reduced.
- `src/invariants.rs`: the decision of the contract-level invariant check on
  the stored values.
- `src/ipa.rs`: the folding of the inner-product argument and the exponent
  equation on Q that an honest proof satisfies.
- `app/lib.rs`: conversions to and from the Soroban host's byte types.
