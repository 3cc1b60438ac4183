//! The shapes of Verkle proofs.

use crate::curve::Point;
use crate::field::Scalar;
use vstd::prelude::*;

verus! {

/// A single Verkle tree commitment.
#[derive(Debug, Clone, Copy, PartialEq, Eq)]
pub struct VerkleCommitment(pub Point);

/// An inner product argument proof: the left and right commitments of each
/// halving round and the final scalar.
#[derive(Debug, Clone)]
pub struct IpaProof {
    pub l: Vec<Point>,
    pub r: Vec<Point>,
    pub a: Scalar,
}

/// A multipoint proof that batches several openings into one IPA.
#[derive(Debug, Clone)]
pub struct MultiPointProof {
    /// Commitment to the helper polynomial.
    pub d: Point,
    /// The underlying IPA proof.
    pub ipa: IpaProof,
}

/// A Verkle proof as it appears in a block.
#[derive(Debug, Clone)]
pub struct VerkleProof {
    /// The multipoint opening proof.
    pub multi_point: MultiPointProof,
    /// Internal node commitments along the proven paths.
    pub commitments: Vec<VerkleCommitment>,
}

impl VerkleCommitment {
    /// The committed point.
    pub fn inner(&self) -> (p: &Point)
        ensures
            *p == self.0,
    {
        &self.0
    }
}

impl From<Point> for VerkleCommitment {
    fn from(e: Point) -> (c: Self) {
        VerkleCommitment(e)
    }
}

impl vstd::std_specs::convert::FromSpecImpl<Point> for VerkleCommitment {
    open spec fn obeys_from_spec() -> bool {
        true
    }

    open spec fn from_spec(e: Point) -> VerkleCommitment {
        VerkleCommitment(e)
    }
}

} // verus!
