//! Range proofs over the Ed25519 curve: multi-limb field and scalar
//! arithmetic, twisted Edwards point arithmetic, proof serialisation,
//! Fiat-Shamir transcripts and the Bulletproof prover and verifier.
#![allow(non_snake_case)]

pub mod limbs;
pub mod modarith;
pub mod field;
pub mod scalar;
pub mod curve;
pub mod transcript;
pub mod bulletproof;
pub mod verify;
pub mod prove;
pub mod poly;
pub mod ipa;
pub mod invariants;
pub mod canonical;
