//! Verification of multipoint proofs: many opening claims are combined with
//! powers of a transcript challenge into one claim, checked by one IPA.

use crate::curve::{
    identity_encoding,
    lemma_point_compress_len,
    msm_spec,
    point_add,
    point_compress,
    point_mul,
    point_scale,
    point_sum,
    point_views,
    point_zero,
};
use crate::error::{ErrorView, VerificationError};
use crate::field::{
    fadd, field_sum, fmul, fpow, fr_add, fr_mul, le_bytes, le_value, lemma_field_sum_ext,
    lemma_fpow_step, lemma_le_bytes_len, lemma_le_value_of_bytes, modulus, pow256, Scalar,
};
use crate::hash::sha256;
use crate::ipa::{ipa_result, verify_ipa};
use crate::precompute::CRS;
use crate::proofs::{VerkleCommitment, VerkleProof};
use crate::transcript::{absorb_point, absorb_scalar, challenge_of, squeeze, Transcript};
use vstd::prelude::*;
use vstd::string::*;

verus! {

/// A claim that the polynomial committed in `commitment` takes the value
/// `eval_value` at `eval_point`.
#[derive(Debug, Clone)]
pub struct OpeningClaim {
    pub commitment: VerkleCommitment,
    pub eval_point: Scalar,
    pub eval_value: Scalar,
}

/// The commitment, point and value of each claim.
pub open spec fn claim_views(claims: Seq<OpeningClaim>) -> Seq<(Seq<u8>, nat, nat)> {
    claims.map_values(
        |c: OpeningClaim| (c.commitment.0@, c.eval_point@, c.eval_value@),
    )
}

/// The domain label of the multiproof transcript.
pub open spec fn multiproof_label() -> Seq<u8> {
    "verkle_multiproof".spec_bytes()
}

/// The transcript after absorbing the first `i` claims: claim `j` adds its
/// commitment, point and value under the labels `C`, `z` and `y`, each
/// followed by the byte `j mod 256`.
pub open spec fn claims_state(st: Seq<u8>, claims: Seq<(Seq<u8>, nat, nat)>, i: nat) -> Seq<u8>
    decreases i,
{
    if i == 0 {
        st
    } else {
        let prev = claims_state(st, claims, (i - 1) as nat);
        let c = claims[i - 1];
        let idx = ((i - 1) % 256) as u8;
        absorb_scalar(
            absorb_scalar(absorb_point(prev, seq![67u8, idx], c.0), seq![122u8, idx], c.1),
            seq![121u8, idx],
            c.2,
        )
    }
}

/// The sum of `rr^j * C_j` over the first `i` claims.
pub open spec fn combined_commitment(claims: Seq<(Seq<u8>, nat, nat)>, rr: nat, i: nat) -> Seq<u8>
    decreases i,
{
    if i == 0 {
        identity_encoding()
    } else {
        point_sum(
            combined_commitment(claims, rr, (i - 1) as nat),
            point_scale(claims[i - 1].0, fpow(rr, (i - 1) as nat)),
        )
    }
}

/// The sum of `rr^j * y_j` over the first `i` claims.
pub open spec fn combined_eval(claims: Seq<(Seq<u8>, nat, nat)>, rr: nat, i: nat) -> nat
    decreases i,
{
    if i == 0 {
        0
    } else {
        fadd(
            combined_eval(claims, rr, (i - 1) as nat),
            fmul(fpow(rr, (i - 1) as nat), claims[i - 1].2),
        )
    }
}

/// The transcript after the claims and the batching challenge `r`.
pub open spec fn batching_state(claims: Seq<(Seq<u8>, nat, nat)>) -> Seq<u8> {
    squeeze(claims_state(multiproof_label(), claims, claims.len()), seq![114u8])
}

/// The transcript after also absorbing `D` and squeezing the evaluation challenge `t`.
pub open spec fn evaluation_state(claims: Seq<(Seq<u8>, nat, nat)>, d: Seq<u8>) -> Seq<u8> {
    squeeze(absorb_point(batching_state(claims), seq![68u8], d), seq![116u8])
}

/// What [`verify_multiproof`] gives, from the basis and `Q`, the proof's `D`,
/// IPA rounds `L` and `R` and final scalar `a`, and the claims.
pub open spec fn multiproof_result(
    basis: Seq<Seq<u8>>,
    q: Seq<u8>,
    d: Seq<u8>,
    l: Seq<Seq<u8>>,
    r: Seq<Seq<u8>>,
    a: nat,
    claims: Seq<(Seq<u8>, nat, nat)>,
) -> Result<bool, ErrorView> {
    if claims.len() == 0 {
        Err(ErrorView::InvalidInput("no claims to verify"@))
    } else {
        let rr = challenge_of(batching_state(claims));
        let t_state = evaluation_state(claims, d);
        let t = challenge_of(t_state);
        let c_final = point_sum(
            combined_commitment(claims, rr, claims.len()),
            point_scale(d, t),
        );
        ipa_result(t_state, basis, q, c_final, l, r, a, t, combined_eval(claims, rr, claims.len()))
    }
}

/// Verifies a Verkle multiproof against a set of opening claims.
pub fn verify_multiproof(crs: &CRS, proof: &VerkleProof, claims: &[OpeningClaim]) -> (res: Result<
    bool,
    VerificationError,
>)
    ensures
        match multiproof_result(
            point_views(crs.basis@),
            crs.q@,
            proof.multi_point.d@,
            point_views(proof.multi_point.ipa.l@),
            point_views(proof.multi_point.ipa.r@),
            proof.multi_point.ipa.a@,
            claim_views(claims@),
        ) {
            Ok(b) => res == Ok::<bool, VerificationError>(b),
            Err(e) => res matches Err(err) && err@ == e,
        },
{
    if claims.len() == 0 {
        return Err(VerificationError::InvalidInput(String::from_str("no claims to verify")));
    }
    let ghost cl = claim_views(claims@);
    let mut transcript = Transcript::new("verkle_multiproof".as_bytes());

    // Absorb all commitments and evaluation data into the transcript
    let n = claims.len();
    for i in 0..n
        invariant
            n == claims@.len(),
            cl == claim_views(claims@),
            transcript@ == claims_state(multiproof_label(), cl, i as nat),
    {
        let claim = &claims[i];
        // The labels are "C", "z" and "y" followed by the claim's index as a byte.
        let idx = #[verifier::truncate] (i as u8);
        let label_c = [67u8, idx];
        let label_z = [122u8, idx];
        let label_y = [121u8, idx];
        assert(label_c@ == seq![67u8, idx]);
        assert(label_z@ == seq![122u8, idx]);
        assert(label_y@ == seq![121u8, idx]);
        assert(idx == (i % 256) as u8) by (bit_vector)
            requires
                idx == #[verifier::truncate] (i as u8),
        ;
        transcript.append_point(claim.commitment.inner(), &label_c);
        transcript.append_scalar(&claim.eval_point, &label_z);
        transcript.append_scalar(&claim.eval_value, &label_y);
        assert(cl[i as int] == (claim.commitment.0@, claim.eval_point@, claim.eval_value@));
    }

    // Squeeze the batching challenge r
    let label_r = [114u8];
    assert(label_r@ == seq![114u8]);
    let r = transcript.challenge_scalar(&label_r);

    // Combine commitments: E = sum(r^i * C_i)
    // Combine evaluations: combined_y = sum(r^i * y_i)
    let mut combined = point_zero();
    let mut combined_y = Scalar::from_u64(0);
    let mut r_power = Scalar::from_u64(1);
    proof {
        lemma_fpow_step(r@, 0);
    }
    for i in 0..n
        invariant
            n == claims@.len(),
            cl == claim_views(claims@),
            r_power@ == fpow(r@, i as nat),
            combined@ == combined_commitment(cl, r@, i as nat),
            combined_y@ == combined_eval(cl, r@, i as nat),
    {
        let claim = &claims[i];
        assert(cl[i as int] == (claim.commitment.0@, claim.eval_point@, claim.eval_value@));
        let term = point_mul(claim.commitment.inner(), &r_power);
        combined = point_add(&combined, &term);
        let weighted = fr_mul(&r_power, &claim.eval_value);
        combined_y = fr_add(&combined_y, &weighted);
        proof {
            lemma_fpow_step(r@, i as nat);
        }
        r_power = fr_mul(&r_power, &r);
    }

    // Absorb the helper commitment D
    let label_d = [68u8];
    assert(label_d@ == seq![68u8]);
    transcript.append_point(&proof.multi_point.d, &label_d);

    // Squeeze the evaluation challenge t
    let label_t = [116u8];
    assert(label_t@ == seq![116u8]);
    let t = transcript.challenge_scalar(&label_t);

    // The final commitment to check through the IPA: C_final = E + t * D
    let d_term = point_mul(&proof.multi_point.d, &t);
    let c_final = point_add(&combined, &d_term);

    // The IPA checks that the polynomial behind c_final takes the combined
    // value at the point t
    verify_ipa(&mut transcript, crs, c_final, &proof.multi_point.ipa, t, combined_y)
}

/// The commitments of the claims.
pub open spec fn claim_commitments(claims: Seq<(Seq<u8>, nat, nat)>) -> Seq<Seq<u8>> {
    Seq::new(claims.len(), |i: int| claims[i].0)
}

/// The batching weights `1, rr, rr^2, ...` of `n` claims.
pub open spec fn batching_weights(rr: nat, n: nat) -> Seq<nat> {
    Seq::new(n, |i: int| fpow(rr, i as nat))
}

/// The combined value weights the value of claim `i` by `rr^i`.
pub proof fn lemma_combined_eval_is_weighted_sum(
    claims: Seq<(Seq<u8>, nat, nat)>,
    rr: nat,
    n: nat,
)
    requires
        n <= claims.len(),
    ensures
        combined_eval(claims, rr, n) == field_sum(|i: nat| fmul(fpow(rr, i), claims[i as int].2), n),
    decreases n,
{
    if n > 0 {
        lemma_combined_eval_is_weighted_sum(claims, rr, (n - 1) as nat);
    }
}

/// The combined commitment is the multi-scalar sum of the claims'
/// commitments with the same weights `rr^i` as their values.
pub proof fn lemma_combined_commitment_is_msm(claims: Seq<(Seq<u8>, nat, nat)>, rr: nat, n: nat)
    requires
        n <= claims.len(),
    ensures
        combined_commitment(claims, rr, n) == msm_spec(
            claim_commitments(claims).take(n as int),
            batching_weights(rr, n),
        ),
    decreases n,
{
    if n > 0 {
        lemma_combined_commitment_is_msm(claims, rr, (n - 1) as nat);
        assert(claim_commitments(claims).take(n as int).drop_last() =~= claim_commitments(
            claims,
        ).take(n - 1));
        assert(batching_weights(rr, n).drop_last() =~= batching_weights(rr, (n - 1) as nat));
    }
}

/// A multiproof is one IPA for the batched claim: the commitment
/// `sum of rr^i * C_i + t * D` opening at `t` to `sum of rr^i * y_i`, where
/// `rr` and `t` are the transcript's batching and evaluation challenges.
pub proof fn lemma_multiproof_batches_claims(
    basis: Seq<Seq<u8>>,
    q: Seq<u8>,
    d: Seq<u8>,
    l: Seq<Seq<u8>>,
    r: Seq<Seq<u8>>,
    a: nat,
    claims: Seq<(Seq<u8>, nat, nat)>,
)
    requires
        claims.len() > 0,
    ensures
        ({
            let n = claims.len();
            let rr = challenge_of(batching_state(claims));
            let t = challenge_of(evaluation_state(claims, d));
            multiproof_result(basis, q, d, l, r, a, claims) == ipa_result(
                evaluation_state(claims, d),
                basis,
                q,
                point_sum(
                    msm_spec(claim_commitments(claims), batching_weights(rr, n)),
                    point_scale(d, t),
                ),
                l,
                r,
                a,
                t,
                field_sum(|i: nat| fmul(fpow(rr, i), claims[i as int].2), n),
            )
        }),
{
    let n = claims.len();
    let rr = challenge_of(batching_state(claims));
    lemma_combined_eval_is_weighted_sum(claims, rr, n);
    lemma_combined_commitment_is_msm(claims, rr, n);
    assert(claim_commitments(claims).take(n as int) =~= claim_commitments(claims));
}

/// Where claim `i` lands in the transcript: after what the earlier claims
/// left come 102 bytes: `C`, the byte `i mod 256` and the 32-byte compressed
/// commitment; `z`, `i mod 256` and the point, 32 bytes little-endian; `y`,
/// `i mod 256` and the value, 32 bytes little-endian.
pub proof fn lemma_claim_bytes(st: Seq<u8>, claims: Seq<(Seq<u8>, nat, nat)>, i: nat)
    requires
        i < claims.len(),
        claims[i as int].1 < modulus(),
        claims[i as int].2 < modulus(),
    ensures
        ({
            let prev = claims_state(st, claims, i);
            let next = claims_state(st, claims, i + 1);
            let o = prev.len() as int;
            let idx = (i % 256) as u8;
            &&& next.len() == o + 102
            &&& next.subrange(0, o) == prev
            &&& next[o] == 67u8 && next[o + 1] == idx
            &&& next.subrange(o + 2, o + 34) == point_compress(claims[i as int].0)
            &&& next[o + 34] == 122u8 && next[o + 35] == idx
            &&& le_value(next.subrange(o + 36, o + 68)) == claims[i as int].1
            &&& next[o + 68] == 121u8 && next[o + 69] == idx
            &&& le_value(next.subrange(o + 70, o + 102)) == claims[i as int].2
        }),
{
    let prev = claims_state(st, claims, i);
    let next = claims_state(st, claims, i + 1);
    let o = prev.len() as int;
    let idx = (i % 256) as u8;
    let c = claims[i as int];
    let (pc, bz, by) = (point_compress(c.0), le_bytes(c.1, 32), le_bytes(c.2, 32));
    lemma_point_compress_len(c.0);
    lemma_le_bytes_len(c.1, 32);
    lemma_le_bytes_len(c.2, 32);
    assert(modulus() < pow256(32)) by {
        reveal_with_fuel(pow256, 33);
    }
    lemma_le_value_of_bytes(c.1, 32);
    lemma_le_value_of_bytes(c.2, 32);
    assert(next =~= prev + seq![67u8, idx] + pc + seq![122u8, idx] + bz + seq![121u8, idx] + by);
    assert(next.subrange(0, o) =~= prev);
    assert(next.subrange(o + 2, o + 34) =~= pc);
    assert(next.subrange(o + 36, o + 68) =~= bz);
    assert(next.subrange(o + 70, o + 102) =~= by);
}

/// What the two challenges of a multiproof hash: the batching challenge hashes
/// the transcript of the claims followed by the byte `r`; the evaluation
/// challenge hashes that digest, the byte `D`, the compressed `D` and the
/// byte `t`.
pub proof fn lemma_multiproof_challenge_inputs(claims: Seq<(Seq<u8>, nat, nat)>, d: Seq<u8>)
    ensures
        batching_state(claims) == sha256(
            claims_state(multiproof_label(), claims, claims.len()) + seq![114u8],
        ),
        evaluation_state(claims, d) == sha256(
            batching_state(claims) + seq![68u8] + point_compress(d) + seq![116u8],
        ),
{
}

} // verus!
