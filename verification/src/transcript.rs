//! Fiat-Shamir transcript for non-interactive proof verification.
//!
//! The transcript is the byte string of everything absorbed so far. A
//! challenge hashes that string with its label, replaces the string by the
//! digest, and reads the digest as a big-endian number modulo `r`.

use crate::curve::{
    base_modulus, is_canonical_encoding, is_point, lemma_point_compress_len, point_compress,
    point_decompress, point_serialize, qsub, x_coord, y_coord, Point,
};
use crate::field::{
    be_value, fr_from_be_bytes_mod_order, fr_serialize, le_bytes, le_value, lemma_le_bytes_len,
    lemma_le_value_of_bytes, lemma_le_value_update, modulus, pow256, Scalar,
};
use crate::hash::{sha256, sha256_digest};
use vstd::prelude::*;

verus! {

/// The transcript after absorbing `label` and the compressed point `p`.
pub open spec fn absorb_point(state: Seq<u8>, label: Seq<u8>, p: Seq<u8>) -> Seq<u8> {
    state + label + point_compress(p)
}

/// The transcript after absorbing `label` and the 32-byte serialization of `s`.
pub open spec fn absorb_scalar(state: Seq<u8>, label: Seq<u8>, s: nat) -> Seq<u8> {
    state + label + le_bytes(s, 32)
}

/// The transcript after squeezing a challenge labelled `label`: the digest of
/// the state followed by the label.
pub open spec fn squeeze(state: Seq<u8>, label: Seq<u8>) -> Seq<u8> {
    sha256(state + label)
}

/// The challenge scalar read from a digest.
pub open spec fn challenge_of(digest: Seq<u8>) -> nat {
    be_value(digest) % modulus()
}

/// A Fiat-Shamir transcript that produces deterministic challenges from
/// absorbed proof elements.
pub struct Transcript {
    state: Vec<u8>,
}

impl View for Transcript {
    type V = Seq<u8>;

    closed spec fn view(&self) -> Seq<u8> {
        self.state@
    }
}

impl Transcript {
    /// A new transcript that has absorbed the domain label `label`.
    pub fn new(label: &[u8]) -> (t: Transcript)
        ensures
            t@ == label@,
    {
        let mut t = Transcript { state: Vec::new() };
        t.append_bytes(label);
        assert(t@ == label@);
        t
    }

    /// Domain separation: absorbs a label.
    pub fn domain_sep(&mut self, label: &[u8])
        ensures
            final(self)@ == old(self)@ + label@,
    {
        self.append_bytes(label);
    }

    /// Absorbs raw bytes.
    fn append_bytes(&mut self, data: &[u8])
        ensures
            final(self)@ == old(self)@ + data@,
    {
        self.state.extend_from_slice(data);
        assert(self.state@ == old(self)@ + data@);
    }

    /// Absorbs `label` and then the compressed serialization of `point`.
    pub fn append_point(&mut self, point: &Point, label: &[u8])
        ensures
            final(self)@ == absorb_point(old(self)@, label@, point@),
            final(self)@.len() == old(self)@.len() + label@.len() + 32,
    {
        self.append_bytes(label);
        let buf = point_serialize(point);
        proof {
            lemma_point_compress_len(point@);
        }
        self.append_bytes(buf.as_slice());
    }

    /// Absorbs `label` and then the serialization of `scalar`.
    pub fn append_scalar(&mut self, scalar: &Scalar, label: &[u8])
        ensures
            final(self)@ == absorb_scalar(old(self)@, label@, scalar@),
            final(self)@.len() == old(self)@.len() + label@.len() + 32,
    {
        self.append_bytes(label);
        let buf = fr_serialize(scalar);
        proof {
            lemma_le_bytes_len(scalar@, 32);
        }
        self.append_bytes(buf.as_slice());
    }

    /// Squeezes a challenge: absorbs `label`, hashes the whole transcript,
    /// restarts the transcript from the digest, and returns the digest read
    /// as a big-endian number reduced modulo `r`.
    pub fn challenge_scalar(&mut self, label: &[u8]) -> (c: Scalar)
        ensures
            final(self)@ == squeeze(old(self)@, label@),
            final(self)@.len() == 32,
            c@ == challenge_of(final(self)@),
            c.is_canonical(),
    {
        self.append_bytes(label);
        let hash_output = sha256_digest(self.state.as_slice());
        let c = fr_from_be_bytes_mod_order(hash_output.as_slice());
        self.state = hash_output;
        c
    }
}

/// Challenges are deterministic: transcripts that absorbed the same bytes
/// give the same challenge for the same label, and leave the same state.
pub proof fn lemma_challenges_are_deterministic(s1: Seq<u8>, s2: Seq<u8>, label: Seq<u8>)
    requires
        s1 == s2,
    ensures
        squeeze(s1, label) == squeeze(s2, label),
        challenge_of(squeeze(s1, label)) == challenge_of(squeeze(s2, label)),
{
}

/// Absorbing is appending: the state after absorbing a point or a scalar
/// starts with the state before, so nothing absorbed earlier is lost.
pub proof fn lemma_absorbing_extends(state: Seq<u8>, label: Seq<u8>, p: Seq<u8>, s: nat)
    ensures
        absorb_point(state, label, p).subrange(0, state.len() as int) == state,
        absorb_scalar(state, label, s).subrange(0, state.len() as int) == state,
        absorb_scalar(state, label, s).len() == state.len() + label.len() + 32,
{
    lemma_le_bytes_len(s, 32);
    assert(absorb_point(state, label, p).subrange(0, state.len() as int) =~= state);
    assert(absorb_scalar(state, label, s).subrange(0, state.len() as int) =~= state);
}

/// What absorbing a point writes: the state and the label unchanged, then 32
/// bytes whose little-endian value is the point's y coordinate, plus `2^255`
/// exactly when its x coordinate is the larger of `x` and `-x`. The sign of
/// `x` is part of what the transcript absorbs.
pub proof fn lemma_absorbed_point_bytes(state: Seq<u8>, label: Seq<u8>, p: Seq<u8>)
    requires
        is_canonical_encoding(p),
    ensures
        absorb_point(state, label, p).len() == state.len() + label.len() + 32,
        absorb_point(state, label, p).subrange(0, state.len() + label.len() as int) == state + label,
        le_value(
            absorb_point(state, label, p).subrange(
                state.len() + label.len() as int,
                state.len() + label.len() + 32int,
            ),
        ) == y_coord(p) + (if x_coord(p) > qsub(0, x_coord(p)) {
            128 * pow256(31)
        } else {
            0
        }),
{
    let t = absorb_point(state, label, p);
    let off: int = (state.len() + label.len()) as int;
    let y = y_coord(p);
    let yb = le_bytes(y, 32);
    let big = pow256(31);
    lemma_point_compress_len(p);
    lemma_le_bytes_len(y, 32);
    assert(t.subrange(0, off) =~= state + label);
    assert(t.subrange(off, off + 32) =~= point_compress(p));
    assert(base_modulus() < 128 * big && 128 * big < pow256(32)) by {
        reveal_with_fuel(pow256, 33);
    }
    lemma_le_value_of_bytes(y, 32);
    lemma_le_value_update(yb, 31, 0);
    let top = yb[31];
    assert(top < 128) by (nonlinear_arith)
        requires
            big * top <= y,
            y < 128 * big,
    ;
    if x_coord(p) > qsub(0, x_coord(p)) {
        let flagged = top | 0x80u8;
        assert(top | 0x80u8 == top + 128) by (bit_vector)
            requires
                top < 128,
        ;
        lemma_le_value_update(yb, 31, flagged);
        let v = le_value(yb.update(31, flagged));
        assert(v == y + 128 * big) by (nonlinear_arith)
            requires
                v + big * top == y + big * flagged,
                flagged == top + 128,
        ;
    }
}

/// A transcript tells apart the points absorbed into it: absorbing two
/// different subgroup points after the same state and label gives two
/// different transcripts.
pub proof fn lemma_absorbed_points_differ(state: Seq<u8>, label: Seq<u8>, p1: Seq<u8>, p2: Seq<u8>)
    requires
        is_point(p1),
        is_point(p2),
        p1 != p2,
    ensures
        absorb_point(state, label, p1) != absorb_point(state, label, p2),
{
    let off: int = (state.len() + label.len()) as int;
    lemma_point_compress_len(p1);
    lemma_point_compress_len(p2);
    let (t1, t2) = (absorb_point(state, label, p1), absorb_point(state, label, p2));
    assert(t1.subrange(off, off + 32) =~= point_compress(p1));
    assert(t2.subrange(off, off + 32) =~= point_compress(p2));
    if t1 == t2 {
        assert(point_decompress(point_compress(p1)) == point_decompress(point_compress(p2)));
    }
}

/// What absorbing a scalar writes: the state and the label unchanged, then
/// 32 bytes whose little-endian value is the scalar.
pub proof fn lemma_absorbed_scalar_bytes(state: Seq<u8>, label: Seq<u8>, s: nat)
    requires
        s < modulus(),
    ensures
        absorb_scalar(state, label, s).len() == state.len() + label.len() + 32,
        absorb_scalar(state, label, s).subrange(0, state.len() + label.len() as int) == state
            + label,
        le_value(
            absorb_scalar(state, label, s).subrange(
                state.len() + label.len() as int,
                state.len() + label.len() + 32int,
            ),
        ) == s,
{
    let t = absorb_scalar(state, label, s);
    let off: int = (state.len() + label.len()) as int;
    lemma_le_bytes_len(s, 32);
    assert(t.subrange(0, off) =~= state + label);
    assert(t.subrange(off, off + 32) =~= le_bytes(s, 32));
    assert(modulus() < pow256(32)) by {
        reveal_with_fuel(pow256, 33);
    }
    lemma_le_value_of_bytes(s, 32);
}

/// A challenge reads the digest most significant byte first: it is the
/// digest reversed, read least significant byte first, modulo `r`.
pub proof fn lemma_challenge_reads_big_endian(digest: Seq<u8>)
    ensures
        challenge_of(digest) == le_value(digest.reverse()) % modulus(),
{
    lemma_be_value_is_reversed_le_value(digest);
}

/// Big-endian reading is little-endian reading of the reversed string.
proof fn lemma_be_value_is_reversed_le_value(d: Seq<u8>)
    ensures
        be_value(d) == le_value(d.reverse()),
    decreases d.len(),
{
    if d.len() > 0 {
        lemma_be_value_is_reversed_le_value(d.drop_last());
        assert(d.reverse().drop_first() =~= d.drop_last().reverse());
        assert(d.reverse()[0] == d.last());
    }
}

} // verus!
