//! Core of a hybrid verifiable secret sharing protocol: the sigma-protocol
//! proofs, the polynomial commitments and the per-participant state machine.

pub mod bls12_381;
pub mod curve25519;
pub mod encoding;
pub mod hash;
pub mod hybridvss;
pub mod rng;
pub mod syncvss;
pub mod vss;
