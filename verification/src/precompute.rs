//! The common reference string: the basis points of the vector commitment and
//! the extra point `Q` of the inner product argument, all derived from a seed.

use crate::curve::{point_decompress, point_from_compressed, Point};
use crate::hash::{sha256, sha256_digest};
use vstd::bytes::{spec_u64_to_le_bytes, u64_to_le_bytes};
use vstd::prelude::*;
use vstd::slice::slice_to_vec;

verus! {

/// The bytes hashed for the `counter`-th attempt at the point of index `index`.
pub open spec fn hash_to_point_input(seed: Seq<u8>, index: u64, counter: u64) -> Seq<u8> {
    seed + spec_u64_to_le_bytes(index) + spec_u64_to_le_bytes(counter)
}

/// What the `counter`-th attempt yields: the digest read as a compressed point.
pub open spec fn hash_to_point_attempt(seed: Seq<u8>, index: u64, counter: u64) -> Option<
    Seq<u8>,
> {
    point_decompress(sha256(hash_to_point_input(seed, index, counter)))
}

/// The number of 64-bit counter values, 2^64.
pub open spec fn counter_limit() -> nat {
    0x1_0000_0000_0000_0000nat
}

/// The first point that an attempt at `counter` or later yields, trying each
/// 64-bit counter in increasing order.
pub open spec fn first_point_from(seed: Seq<u8>, index: u64, counter: nat) -> Option<Seq<u8>>
    decreases counter_limit() - counter,
{
    if counter >= counter_limit() {
        None
    } else {
        match hash_to_point_attempt(seed, index, counter as u64) {
            Some(p) => Some(p),
            None => first_point_from(seed, index, counter + 1),
        }
    }
}

/// The point of index `index` derived from `seed` (try-and-increment from counter 0).
pub open spec fn derived_point(seed: Seq<u8>, index: u64) -> Option<Seq<u8>> {
    first_point_from(seed, index, 0)
}

/// `basis` and `q` are the points of indices `0..256` and `256` derived from `seed`.
pub open spec fn derived_from(basis: Seq<Point>, q: Point, seed: Seq<u8>) -> bool {
    &&& basis.len() == 256
    &&& forall|i: int| 0 <= i < 256 ==> derived_point(seed, i as u64) == Some(#[trigger] basis[i]@)
    &&& derived_point(seed, 256) == Some(q@)
}

/// The reference string is a function of the seed: two strings derived from
/// the same seed have the same points.
pub proof fn lemma_derivation_is_deterministic(
    basis1: Seq<Point>,
    q1: Point,
    basis2: Seq<Point>,
    q2: Point,
    seed: Seq<u8>,
)
    requires
        derived_from(basis1, q1, seed),
        derived_from(basis2, q2, seed),
    ensures
        basis1.len() == basis2.len(),
        forall|i: int| 0 <= i < basis1.len() ==> (#[trigger] basis1[i])@ == basis2[i]@,
        q1@ == q2@,
{
    assert forall|i: int| 0 <= i < basis1.len() implies (#[trigger] basis1[i])@ == basis2[i]@ by {
        assert(derived_point(seed, i as u64) == Some(basis2[i]@));
    }
}

/// The Common Reference String for Verkle tree commitments: one basis point
/// per child of a width-256 node, and `Q` for the inner product argument.
pub struct CRS {
    pub basis: Vec<Point>,
    pub q: Point,
}

impl CRS {
    /// Domain width of Ethereum Verkle trees.
    pub const DOMAIN_SIZE: usize = 256;

    /// The reference string derived from `seed`: basis point `i` is the point
    /// of index `i`, and `Q` the point of index 256. `None` when, for some
    /// index, none of the 2^64 counters yields a point.
    pub fn new(seed: &[u8]) -> (r: Option<CRS>)
        ensures
            r is Some <==> forall|i: u64| i <= 256 ==> (#[trigger] derived_point(seed@, i)) is Some,
            r matches Some(crs) ==> derived_from(crs.basis@, crs.q, seed@),
    {
        let mut basis: Vec<Point> = Vec::with_capacity(Self::DOMAIN_SIZE);
        for i in 0..Self::DOMAIN_SIZE
            invariant
                basis@.len() == i,
                forall|j: int|
                    0 <= j < i ==> derived_point(seed@, j as u64) == Some(#[trigger] basis@[j]@),
        {
            match hash_to_point(seed, i as u64) {
                Some(point) => basis.push(point),
                None => {
                    assert(derived_point(seed@, i as u64) is None);
                    return None;
                },
            }
        }
        match hash_to_point(seed, Self::DOMAIN_SIZE as u64) {
            Some(q) => {
                assert forall|i: u64| i <= 256 implies (#[trigger] derived_point(seed@, i)) is Some by {
                    if i < 256 {
                        assert(derived_point(seed@, (i as int) as u64) == Some(basis@[i as int]@));
                    }
                }
                Some(CRS { basis, q })
            },
            None => None,
        }
    }

    /// The number of basis points.
    pub fn basis_len(&self) -> (n: usize)
        ensures
            n == self.basis@.len(),
    {
        self.basis.len()
    }
}

/// Hashes to a curve point by try-and-increment: hash the seed, the index and
/// a counter, read the digest as a compressed point, and increment the counter
/// until that succeeds. `None` when no 64-bit counter succeeds.
fn hash_to_point(seed: &[u8], index: u64) -> (r: Option<Point>)
    ensures
        r matches Some(p) ==> derived_point(seed@, index) == Some(p@),
        r is None ==> derived_point(seed@, index) is None,
{
    let mut counter: u64 = 0;
    loop
        invariant
            derived_point(seed@, index) == first_point_from(seed@, index, counter as nat),
        decreases u64::MAX - counter,
    {
        let mut data = slice_to_vec(seed);
        let index_bytes = u64_to_le_bytes(index);
        let counter_bytes = u64_to_le_bytes(counter);
        data.extend_from_slice(index_bytes.as_slice());
        data.extend_from_slice(counter_bytes.as_slice());
        assert(data@ == hash_to_point_input(seed@, index, counter));
        let hash = sha256_digest(data.as_slice());
        match point_from_compressed(hash.as_slice()) {
            Some(point) => {
                return Some(point);
            },
            None => {},
        }
        assert(hash_to_point_attempt(seed@, index, counter) is None);
        if counter == u64::MAX {
            assert(first_point_from(seed@, index, counter as nat + 1) is None);
            return None;
        }
        counter = counter + 1;
    }
}

/// From counter `c` on, the first attempt that yields a point is the one at `c0`.
proof fn lemma_first_point_from_reaches(seed: Seq<u8>, index: u64, c: nat, c0: u64)
    requires
        c <= c0,
        hash_to_point_attempt(seed, index, c0) is Some,
        forall|c2: u64| c <= c2 < c0 ==> (#[trigger] hash_to_point_attempt(seed, index, c2)) is None,
    ensures
        first_point_from(seed, index, c) == hash_to_point_attempt(seed, index, c0),
    decreases c0 - c,
{
    if c < c0 {
        assert(hash_to_point_attempt(seed, index, c as u64) is None);
        lemma_first_point_from_reaches(seed, index, c + 1, c0);
    }
}

/// When some attempt at or after counter `c` yields a point, a point is found.
proof fn lemma_first_point_from_some(seed: Seq<u8>, index: u64, c: nat, c0: u64)
    requires
        c <= c0,
        hash_to_point_attempt(seed, index, c0) is Some,
    ensures
        first_point_from(seed, index, c) is Some,
    decreases c0 - c,
{
    if c < c0 && hash_to_point_attempt(seed, index, c as u64) is None {
        lemma_first_point_from_some(seed, index, c + 1, c0);
    }
}

/// When no attempt from counter `c` on yields a point, there is none.
proof fn lemma_first_point_from_none(seed: Seq<u8>, index: u64, c: nat)
    requires
        forall|c2: u64| c <= c2 ==> (#[trigger] hash_to_point_attempt(seed, index, c2)) is None,
    ensures
        first_point_from(seed, index, c) is None,
    decreases counter_limit() - c,
{
    if c < counter_limit() {
        assert(hash_to_point_attempt(seed, index, c as u64) is None);
        lemma_first_point_from_none(seed, index, c + 1);
    }
}

/// A point found from counter `c` on is the attempt of some counter at or
/// after `c`, and every attempt between them failed.
proof fn lemma_first_point_from_found(seed: Seq<u8>, index: u64, c: nat)
    ensures
        first_point_from(seed, index, c) matches Some(p) ==> exists|c0: u64|
            c <= c0 && hash_to_point_attempt(seed, index, c0) == Some(p) && forall|c2: u64|
                c <= c2 < c0 ==> (#[trigger] hash_to_point_attempt(seed, index, c2)) is None,
    decreases counter_limit() - c,
{
    if c < counter_limit() {
        lemma_first_point_from_found(seed, index, c + 1);
        if let Some(p) = first_point_from(seed, index, c) {
            if hash_to_point_attempt(seed, index, c as u64) is Some {
                assert(hash_to_point_attempt(seed, index, c as u64) == Some(p));
                assert(forall|c2: u64| c <= c2 < (c as u64) ==> (#[trigger] hash_to_point_attempt(seed, index, c2)) is None);
            } else {
                let c0 = choose|c0: u64|
                    c + 1 <= c0 && hash_to_point_attempt(seed, index, c0) == Some(p) && forall|c2: u64|
                        c + 1 <= c2 < c0 ==> (#[trigger] hash_to_point_attempt(seed, index, c2)) is None;
                assert forall|c2: u64| c <= c2 < c0 implies (#[trigger] hash_to_point_attempt(seed, index, c2)) is None by {
                    if c2 == c {
                    }
                }
            }
        }
    }
}

/// Try-and-increment counts from zero: the point of an index is the attempt
/// of the first counter, from 0 up, that yields a point.
pub proof fn lemma_derived_point_is_first_success(seed: Seq<u8>, index: u64, c: u64)
    requires
        point_decompress(sha256(seed + spec_u64_to_le_bytes(index) + spec_u64_to_le_bytes(c))) is Some,
        forall|c2: u64| c2 < c ==> (#[trigger] point_decompress(sha256(seed + spec_u64_to_le_bytes(index) + spec_u64_to_le_bytes(c2)))) is None,
    ensures
        derived_point(seed, index) == point_decompress(sha256(seed + spec_u64_to_le_bytes(index) + spec_u64_to_le_bytes(c))),
{
    assert forall|c2: u64| 0 <= c2 < c implies (#[trigger] hash_to_point_attempt(seed, index, c2)) is None by {
        assert(point_decompress(sha256(seed + spec_u64_to_le_bytes(index) + spec_u64_to_le_bytes(c2))) is None);
    }
    lemma_first_point_from_reaches(seed, index, 0, c);
}

/// An index has no point exactly when no counter yields one; a point it has
/// is the attempt of a counter whose every predecessor failed.
pub proof fn lemma_derived_point_characterized(seed: Seq<u8>, index: u64)
    ensures
        derived_point(seed, index) is None <==> forall|c: u64|
            (#[trigger] point_decompress(sha256(seed + spec_u64_to_le_bytes(index) + spec_u64_to_le_bytes(c)))) is None,
        derived_point(seed, index) matches Some(p) ==> exists|c: u64|
            point_decompress(sha256(seed + spec_u64_to_le_bytes(index) + spec_u64_to_le_bytes(c))) == Some(p) && forall|c2: u64|
                c2 < c ==> (#[trigger] point_decompress(sha256(seed + spec_u64_to_le_bytes(index) + spec_u64_to_le_bytes(c2)))) is None,
{
    lemma_first_point_from_found(seed, index, 0);
    if let Some(p) = derived_point(seed, index) {
        let c0 = choose|c0: u64|
            0 <= c0 && hash_to_point_attempt(seed, index, c0) == Some(p) && forall|c2: u64|
                0 <= c2 < c0 ==> (#[trigger] hash_to_point_attempt(seed, index, c2)) is None;
        assert forall|c2: u64| c2 < c0 implies (#[trigger] point_decompress(
            sha256(seed + spec_u64_to_le_bytes(index) + spec_u64_to_le_bytes(c2)),
        )) is None by {
            assert(hash_to_point_attempt(seed, index, c2) is None);
        }
        assert(point_decompress(sha256(seed + spec_u64_to_le_bytes(index) + spec_u64_to_le_bytes(c0)))
            == Some(p));
    }
    if forall|c: u64| (#[trigger] point_decompress(sha256(seed + spec_u64_to_le_bytes(index) + spec_u64_to_le_bytes(c)))) is None {
        lemma_first_point_from_none(seed, index, 0);
    } else {
        let c0 = choose|c: u64| !(#[trigger] point_decompress(sha256(seed + spec_u64_to_le_bytes(index) + spec_u64_to_le_bytes(c))) is None);
        lemma_first_point_from_some(seed, index, 0, c0);
    }
}

} // verus!
