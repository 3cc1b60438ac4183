//! SHA-256, the hash behind the Fiat-Shamir transcript and the reference string.

use sha2::{Digest, Sha256};
use vstd::prelude::*;

verus! {

/// The SHA-256 digest of `data`.
pub uninterp spec fn sha256(data: Seq<u8>) -> Seq<u8>;

/// `sha2::Sha256`: a fresh hasher fed `data` with `update`, then `finalize`d.
/// The contract names the digest and states its length of 32 bytes; nothing
/// else about SHA-256 is claimed.
#[verifier::external_body]
pub(crate) fn sha256_digest(data: &[u8]) -> (digest: Vec<u8>)
    ensures
        digest@ == sha256(data@),
        digest@.len() == 32,
{
    let mut hasher = Sha256::new();
    hasher.update(data);
    hasher.finalize().to_vec()
}

} // verus!
