//! Points of the prime-order subgroup of the Bandersnatch curve.
//!
//! The group is the subgroup itself, not the Banderwagon quotient group that
//! Ethereum's Verkle specification builds on Bandersnatch: two points are
//! equal only when their coordinates are, and points are serialized in
//! arkworks' compressed twisted Edwards form (y with the sign of x), not as
//! Banderwagon's big-endian x. Transcripts, challenges and reference strings
//! therefore differ from those of a Banderwagon-based verifier.
//!
//! A [`Point`] holds the uncompressed affine encoding of a subgroup point: the
//! x coordinate then the y coordinate, 32 little-endian bytes each. Affine
//! coordinates are unique, so equal points have equal encodings. The group
//! law is computed by arkworks; the contracts below state it as the affine
//! twisted Edwards addition law, and name the compressed serialization.

use crate::field::{
    le_bytes, le_value, lemma_bytes_of_le_value, lemma_le_bytes_len, lemma_le_value_of_bytes, pow256,
    Scalar,
};
use vstd::arithmetic::div_mod::lemma_small_mod;
use ark_ec::{AffineRepr, CurveGroup, VariableBaseMSM};
use ark_ed_on_bls12_381_bandersnatch::{EdwardsAffine, EdwardsProjective, Fr};
use ark_ff::{BigInt, BigInteger, PrimeField};
use ark_serialize::{CanonicalDeserialize, CanonicalSerialize};
use vstd::prelude::*;

verus! {

/// The order `q` of the base field (the scalar field of BLS12-381).
pub open spec fn base_modulus() -> nat {
    52435875175126190479447740508185965837690552500527637822603658699938581184513nat
}

/// The curve coefficient `a = -5` of `a x^2 + y^2 = 1 + d x^2 y^2`.
pub open spec fn coeff_a() -> nat {
    (base_modulus() - 5) as nat
}

/// The curve coefficient `d`.
pub open spec fn coeff_d() -> nat {
    45022363124591815672509500913686876175488063829319466900776701791074614335719nat
}

/// Addition in the base field.
pub open spec fn qadd(a: nat, b: nat) -> nat {
    (a + b) % base_modulus()
}

/// Subtraction in the base field.
pub open spec fn qsub(a: nat, b: nat) -> nat {
    ((a - b) % (base_modulus() as int)) as nat
}

/// Multiplication in the base field.
pub open spec fn qmul(a: nat, b: nat) -> nat {
    (a * b) % base_modulus()
}

/// `y` is a reduced base field element whose product with `a` is one.
pub open spec fn is_base_inverse_of(a: nat, y: nat) -> bool {
    y < base_modulus() && (a * y) % base_modulus() == 1
}

/// Division in the base field.
pub open spec fn qdiv(a: nat, b: nat) -> nat {
    qmul(a, choose|y: nat| #[trigger] is_base_inverse_of(b, y))
}

/// The x coordinate of an encoding.
pub open spec fn x_coord(p: Seq<u8>) -> nat {
    le_value(p.subrange(0, 32))
}

/// The y coordinate of an encoding.
pub open spec fn y_coord(p: Seq<u8>) -> nat {
    le_value(p.subrange(32, 64))
}

/// The encoding of the affine point `(x, y)`.
pub open spec fn affine_encoding(x: nat, y: nat) -> Seq<u8> {
    le_bytes(x, 32) + le_bytes(y, 32)
}

/// Both coordinates of the 64-byte encoding `p` are reduced base field elements.
pub open spec fn is_canonical_encoding(p: Seq<u8>) -> bool {
    p.len() == 64 && x_coord(p) < base_modulus() && y_coord(p) < base_modulus()
}

/// The encoding of the sum of the points encoded by `p1` and `p2`, by the
/// affine twisted Edwards addition law
/// `x3 = (x1 y2 + y1 x2) / (1 + d x1 x2 y1 y2)`,
/// `y3 = (y1 y2 - a x1 x2) / (1 - d x1 x2 y1 y2)`.
pub open spec fn point_sum(p1: Seq<u8>, p2: Seq<u8>) -> Seq<u8> {
    let (x1, y1, x2, y2) = (x_coord(p1), y_coord(p1), x_coord(p2), y_coord(p2));
    let t = qmul(coeff_d(), qmul(qmul(x1, x2), qmul(y1, y2)));
    let x3 = qdiv(qadd(qmul(x1, y2), qmul(y1, x2)), qadd(1, t));
    let y3 = qdiv(qsub(qmul(y1, y2), qmul(coeff_a(), qmul(x1, x2))), qsub(1, t));
    affine_encoding(x3, y3)
}

/// The encoding of the point encoded by `p` multiplied by `s`: `s` copies of
/// it added up.
pub open spec fn point_scale(p: Seq<u8>, s: nat) -> Seq<u8>
    decreases s,
{
    if s == 0 {
        identity_encoding()
    } else {
        point_sum(point_scale(p, (s - 1) as nat), p)
    }
}


/// The 32-byte compressed serialization of the point encoded by `p`: the y
/// coordinate, little-endian, with the top bit of its last byte set when x is
/// the larger of `x` and `-x`.
pub open spec fn point_compress(p: Seq<u8>) -> Seq<u8> {
    let (x, y) = (x_coord(p), y_coord(p));
    let y_bytes = le_bytes(y, 32);
    if x > qsub(0, x) {
        y_bytes.update(31, y_bytes[31] | 0x80u8)
    } else {
        y_bytes
    }
}

/// The subgroup point whose compressed serialization starts `bytes`, if any.
pub uninterp spec fn point_decompress(bytes: Seq<u8>) -> Option<Seq<u8>>;

/// The encoding of the identity, the affine point (0, 1).
pub open spec fn identity_encoding() -> Seq<u8> {
    affine_encoding(0, 1)
}

/// `p` encodes a subgroup point: its compressed form decodes back to it.
pub open spec fn is_point(p: Seq<u8>) -> bool {
    point_decompress(point_compress(p)) == Some(p)
}

/// The views of a sequence of points.
pub open spec fn point_views(points: Seq<Point>) -> Seq<Seq<u8>> {
    points.map_values(|p: Point| p@)
}

/// The views of a sequence of scalars.
pub open spec fn scalar_views(scalars: Seq<Scalar>) -> Seq<nat> {
    scalars.map_values(|s: Scalar| s@)
}

/// The sum of `scalars[i] * bases[i]`, over the common length, added up from
/// the first term to the last.
pub open spec fn msm_spec(bases: Seq<Seq<u8>>, scalars: Seq<nat>) -> Seq<u8>
    decreases scalars.len(),
{
    if scalars.len() == 0 || bases.len() == 0 {
        identity_encoding()
    } else {
        point_sum(
            msm_spec(bases.drop_last(), scalars.drop_last()),
            point_scale(bases.last(), scalars.last()),
        )
    }
}

/// A point of the prime-order subgroup of the Bandersnatch curve.
#[derive(Clone, Copy, Debug, PartialEq, Eq)]
pub struct Point {
    bytes: [u8; 64],
}

impl View for Point {
    type V = Seq<u8>;

    closed spec fn view(&self) -> Seq<u8> {
        self.bytes@
    }
}

impl Point {
    #[verifier::type_invariant]
    closed spec fn well_formed(self) -> bool {
        is_point(self.bytes@)
    }

    /// The point whose compressed serialization starts `bytes`; `None` when
    /// those bytes encode no point of the prime-order subgroup.
    pub fn from_bytes(bytes: &[u8]) -> (r: Option<Point>)
        ensures
            r matches Some(p) ==> point_decompress(bytes@) == Some(p@),
            r is None ==> point_decompress(bytes@) is None,
    {
        point_from_compressed(bytes)
    }
}

/// The identity, `AffineRepr::zero` of arkworks' Bandersnatch affine points.
#[verifier::external_body]
pub(crate) fn point_zero() -> (r: Point)
    ensures
        r@ == identity_encoding(),
        is_point(r@),
{
    let mut out = [0u8; 64];
    EdwardsAffine::zero().serialize_uncompressed(&mut out[..]).unwrap();
    Point { bytes: out }
}

/// Point addition (`Add` on arkworks' Bandersnatch points). arkworks adds in
/// extended coordinates; on the prime-order subgroup the denominators of the
/// affine law never vanish, and both give the same affine point.
#[verifier::external_body]
pub(crate) fn point_add(a: &Point, b: &Point) -> (r: Point)
    ensures
        r@ == point_sum(a@, b@),
        is_point(r@),
{
    let x = EdwardsAffine::deserialize_uncompressed_unchecked(&a.bytes[..]).unwrap();
    let y = EdwardsAffine::deserialize_uncompressed_unchecked(&b.bytes[..]).unwrap();
    let mut out = [0u8; 64];
    (x + y).into_affine().serialize_uncompressed(&mut out[..]).unwrap();
    Point { bytes: out }
}

/// Scalar multiplication (`Mul<Fr>` on arkworks' Bandersnatch points), by
/// double-and-add over the bits of the reduced scalar: the point added to
/// itself that many times.
#[verifier::external_body]
pub(crate) fn point_mul(p: &Point, s: &Scalar) -> (r: Point)
    ensures
        r@ == point_scale(p@, s@),
        is_point(r@),
{
    let x = EdwardsAffine::deserialize_uncompressed_unchecked(&p.bytes[..]).unwrap();
    let k = Fr::from_le_bytes_mod_order(&BigInt::new(s.limbs).to_bytes_le());
    let mut out = [0u8; 64];
    (x * k).into_affine().serialize_uncompressed(&mut out[..]).unwrap();
    Point { bytes: out }
}

/// Multi-scalar multiplication (`VariableBaseMSM::msm`): the sum of
/// `scalars[i] * bases[i]`.
#[verifier::external_body]
pub(crate) fn point_msm(bases: &[Point], scalars: &[Scalar]) -> (r: Point)
    requires
        bases@.len() == scalars@.len(),
    ensures
        r@ == msm_spec(point_views(bases@), scalar_views(scalars@)),
        is_point(r@),
{
    let b: Vec<EdwardsAffine> = bases.iter().map(
        |p| EdwardsAffine::deserialize_uncompressed_unchecked(&p.bytes[..]).unwrap(),
    ).collect();
    let k: Vec<Fr> = scalars.iter().map(
        |s| Fr::from_le_bytes_mod_order(&BigInt::new(s.limbs).to_bytes_le()),
    ).collect();
    let mut out = [0u8; 64];
    EdwardsProjective::msm(&b, &k).unwrap().into_affine().serialize_uncompressed(&mut out[..]).unwrap();
    Point { bytes: out }
}

/// Point equality (`PartialEq` on arkworks' projective Bandersnatch points).
#[verifier::external_body]
pub(crate) fn point_eq(a: &Point, b: &Point) -> (r: bool)
    ensures
        r == (a@ == b@),
{
    let x = EdwardsAffine::deserialize_uncompressed_unchecked(&a.bytes[..]).unwrap();
    let y = EdwardsAffine::deserialize_uncompressed_unchecked(&b.bytes[..]).unwrap();
    x.into_group() == y.into_group()
}

/// `CanonicalSerialize::serialize_compressed`: the y coordinate with the sign
/// flag of x in its top bit, 32 bytes (a 255-bit base field element and one
/// flag bit).
#[verifier::external_body]
pub(crate) fn point_serialize(p: &Point) -> (bytes: Vec<u8>)
    ensures
        bytes@ == point_compress(p@),
{
    let x = EdwardsAffine::deserialize_uncompressed_unchecked(&p.bytes[..]).unwrap();
    let mut out = Vec::new();
    x.serialize_compressed(&mut out).unwrap();
    out
}

/// `CanonicalDeserialize::deserialize_compressed`, which checks that the
/// decoded point is on the curve and in the prime-order subgroup.
#[verifier::external_body]
pub(crate) fn point_from_compressed(bytes: &[u8]) -> (r: Option<Point>)
    ensures
        r matches Some(p) ==> point_decompress(bytes@) == Some(p@) && is_point(p@),
        r is None ==> point_decompress(bytes@) is None,
{
    let x = EdwardsAffine::deserialize_compressed(bytes).ok()?;
    let mut out = [0u8; 64];
    x.serialize_uncompressed(&mut out[..]).unwrap();
    Some(Point { bytes: out })
}

/// The base field modulus fits in 32 bytes.
proof fn lemma_base_modulus_fits()
    ensures
        base_modulus() < pow256(32),
{
    reveal_with_fuel(pow256, 33);
}

/// The coordinates read back from an encoding are the ones written.
pub proof fn lemma_encoding_reads_back(x: nat, y: nat)
    requires
        x < base_modulus(),
        y < base_modulus(),
    ensures
        x_coord(affine_encoding(x, y)) == x,
        y_coord(affine_encoding(x, y)) == y,
        is_canonical_encoding(affine_encoding(x, y)),
{
    lemma_base_modulus_fits();
    lemma_le_bytes_len(x, 32);
    lemma_le_bytes_len(y, 32);
    let e = affine_encoding(x, y);
    assert(e.subrange(0, 32) =~= le_bytes(x, 32));
    assert(e.subrange(32, 64) =~= le_bytes(y, 32));
    lemma_le_value_of_bytes(x, 32);
    lemma_le_value_of_bytes(y, 32);
}

/// A canonical encoding is the encoding of its coordinates.
pub proof fn lemma_canonical_encoding_is_affine(p: Seq<u8>)
    requires
        is_canonical_encoding(p),
    ensures
        affine_encoding(x_coord(p), y_coord(p)) == p,
{
    lemma_bytes_of_le_value(p.subrange(0, 32));
    lemma_bytes_of_le_value(p.subrange(32, 64));
    assert(affine_encoding(x_coord(p), y_coord(p)) =~= p);
}

/// Sums are canonical encodings.
pub proof fn lemma_point_sum_canonical(p1: Seq<u8>, p2: Seq<u8>)
    ensures
        is_canonical_encoding(point_sum(p1, p2)),
{
    let (x1, y1, x2, y2) = (x_coord(p1), y_coord(p1), x_coord(p2), y_coord(p2));
    let t = qmul(coeff_d(), qmul(qmul(x1, x2), qmul(y1, y2)));
    let x3 = qdiv(qadd(qmul(x1, y2), qmul(y1, x2)), qadd(1, t));
    let y3 = qdiv(qsub(qmul(y1, y2), qmul(coeff_a(), qmul(x1, x2))), qsub(1, t));
    lemma_encoding_reads_back(x3, y3);
}

/// Multiples are canonical encodings.
pub proof fn lemma_point_scale_canonical(p: Seq<u8>, s: nat)
    ensures
        is_canonical_encoding(point_scale(p, s)),
{
    if s == 0 {
        lemma_encoding_reads_back(0, 1);
    } else {
        lemma_point_sum_canonical(point_scale(p, (s - 1) as nat), p);
    }
}

/// One is its own inverse in the base field.
proof fn lemma_base_inverse_of_one()
    ensures
        (choose|y: nat| #[trigger] is_base_inverse_of(1, y)) == 1,
{
    assert(is_base_inverse_of(1, 1));
    let y = choose|y: nat| #[trigger] is_base_inverse_of(1, y);
    lemma_small_mod(y, base_modulus());
}

/// The identity is neutral for addition, on either side.
pub proof fn lemma_point_sum_identity(p: Seq<u8>)
    requires
        is_canonical_encoding(p),
    ensures
        point_sum(p, identity_encoding()) == p,
        point_sum(identity_encoding(), p) == p,
{
    let q = base_modulus();
    let (x1, y1) = (x_coord(p), y_coord(p));
    lemma_encoding_reads_back(0, 1);
    lemma_canonical_encoding_is_affine(p);
    lemma_base_inverse_of_one();
    lemma_small_mod(x1, q);
    lemma_small_mod(y1, q);
    lemma_small_mod(0, q);
    lemma_small_mod(1, q);
    assert(qmul(x1, 1) == x1);
    assert(qmul(y1, 1) == y1);
    assert(qmul(1, x1) == x1);
    assert(qmul(1, y1) == y1);
    assert(qmul(x1, 0) == 0);
    assert(qmul(y1, 0) == 0);
    assert(qmul(0, x1) == 0);
    assert(qmul(0, y1) == 0);
    assert(qmul(coeff_d(), 0) == 0);
    assert(qmul(coeff_a(), 0) == 0);
    assert(qmul(0, 0) == 0);
    assert(qmul(0, 1) == 0);
    assert(qmul(1, 0) == 0);
    assert(qadd(1, 0) == 1);
    assert(qsub(1, 0) == 1);
    assert(qadd(x1, 0) == x1);
    assert(qadd(0, x1) == x1);
    assert(qsub(y1, 0) == y1);
}

/// Addition is commutative.
pub proof fn lemma_point_sum_commutative(p1: Seq<u8>, p2: Seq<u8>)
    ensures
        point_sum(p1, p2) == point_sum(p2, p1),
{
    let (x1, y1, x2, y2) = (x_coord(p1), y_coord(p1), x_coord(p2), y_coord(p2));
    assert(x1 * x2 == x2 * x1) by (nonlinear_arith);
    assert(y1 * y2 == y2 * y1) by (nonlinear_arith);
    assert(qmul(x1, x2) * qmul(y1, y2) == qmul(x2, x1) * qmul(y2, y1));
    assert(qmul(x1, y2) + qmul(y1, x2) == qmul(x2, y1) + qmul(y2, x1)) by {
        assert(x1 * y2 == y2 * x1) by (nonlinear_arith);
        assert(y1 * x2 == x2 * y1) by (nonlinear_arith);
    }
}

/// Multiplying by zero gives the identity, and by one gives the point back.
pub proof fn lemma_point_scale_zero_one(p: Seq<u8>)
    ensures
        point_scale(p, 0) == identity_encoding(),
        is_canonical_encoding(p) ==> point_scale(p, 1) == p,
{
    if is_canonical_encoding(p) {
        assert(point_scale(p, 1) == point_sum(identity_encoding(), p));
        lemma_point_sum_identity(p);
    }
}

/// The compressed serialization has 32 bytes.
pub proof fn lemma_point_compress_len(p: Seq<u8>)
    ensures
        point_compress(p).len() == 32,
{
    lemma_le_bytes_len(y_coord(p), 32);
}

} // verus!
