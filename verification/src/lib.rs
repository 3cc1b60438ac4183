//! Verification of Verkle-tree opening proofs over the Bandersnatch curve:
//! Pedersen vector commitments, the inner product argument (IPA) and the
//! multipoint opening that batches many claims into one IPA.
//!
//! Points are those of the prime-order subgroup of Bandersnatch with arkworks'
//! encodings, not of the Banderwagon group; see [`curve`].

pub mod banderwagon;
pub mod curve;
pub mod error;
pub mod field;
pub mod hash;
pub mod ipa;
pub mod multiproof;
pub mod pedersen;
pub mod precompute;
pub mod proofs;
pub mod transcript;

pub use error::VerificationError;
pub use multiproof::verify_multiproof;
pub use proofs::{VerkleCommitment, VerkleProof};
