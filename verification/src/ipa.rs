//! Verification of inner product argument (IPA) proofs: that the polynomial
//! committed in `C` evaluates to `y` at `z`.
//!
//! Each round of the proof halves the basis. The verifier derives one
//! challenge `x` per round from the transcript, folds the commitment with the
//! round's `L` and `R`, folds the basis and the powers of `z` down to a single
//! point and a single scalar, and checks one final equation.

use crate::curve::{
    point_add, point_compress, point_eq, point_mul, point_scale, point_sum, point_views,
    scalar_views, Point,
};
use crate::error::{two_number_message, two_number_text, ErrorView, VerificationError};
use crate::field::{
    be_value, fadd, finv, fmul, modulus, fpow, fr_add, fr_inverse, fr_mul, fr_square, fr_sub, fsub, is_inverse_of,
    field_sum, lemma_field_laws, lemma_field_sum_add, lemma_field_sum_ext, lemma_field_sum_split,
    pointwise_sum, lemma_finv_involutive, lemma_fpow_step, lemma_inverse_is_finv, lemma_inverse_nonzero, Scalar,
};
use crate::precompute::CRS;
use crate::hash::sha256;
use crate::proofs::IpaProof;
use crate::transcript::{absorb_point, challenge_of, squeeze, Transcript};
use vstd::arithmetic::power2::{
    lemma2_to64, lemma2_to64_rest, lemma_pow2_strictly_increases, lemma_pow2_unfold, pow2,
};
use vstd::bits::{lemma_usize_pow2_no_overflow, lemma_usize_shl_is_mul};
use vstd::prelude::*;
use vstd::slice::slice_to_vec;
use vstd::string::StringExecFns;

verus! {

/// The transcript after `i` rounds, each of which absorbs `L[i]` and `R[i]`
/// and squeezes the challenge `x`.
pub open spec fn ipa_round_state(st: Seq<u8>, l: Seq<Seq<u8>>, r: Seq<Seq<u8>>, i: nat) -> Seq<u8>
    decreases i,
{
    if i == 0 {
        st
    } else {
        let prev = ipa_round_state(st, l, r, (i - 1) as nat);
        squeeze(
            absorb_point(absorb_point(prev, seq![76u8], l[i - 1]), seq![82u8], r[i - 1]),
            seq![120u8],
        )
    }
}

/// The challenge of round `i`.
pub open spec fn ipa_challenge(st: Seq<u8>, l: Seq<Seq<u8>>, r: Seq<Seq<u8>>, i: nat) -> nat {
    challenge_of(ipa_round_state(st, l, r, i + 1))
}

/// The challenges of all rounds.
pub open spec fn ipa_challenges(st: Seq<u8>, l: Seq<Seq<u8>>, r: Seq<Seq<u8>>) -> Seq<nat> {
    Seq::new(l.len(), |i: int| ipa_challenge(st, l, r, i as nat))
}

/// The first round, at `i` or later, whose challenge is zero.
pub open spec fn first_zero_challenge(st: Seq<u8>, l: Seq<Seq<u8>>, r: Seq<Seq<u8>>, i: nat) -> Option<
    nat,
>
    decreases l.len() - i,
{
    if i >= l.len() {
        None
    } else if ipa_challenge(st, l, r, i) == 0 {
        Some(i)
    } else {
        first_zero_challenge(st, l, r, i + 1)
    }
}

/// The commitment folded with the first `i` rounds:
/// `C' = C + sum of (L[i] * x_i^2 + R[i] * x_i^-2)`.
pub open spec fn fold_commitment(
    c: Seq<u8>,
    l: Seq<Seq<u8>>,
    r: Seq<Seq<u8>>,
    xs: Seq<nat>,
    i: nat,
) -> Seq<u8>
    decreases i,
{
    if i == 0 {
        c
    } else {
        let prev = fold_commitment(c, l, r, xs, (i - 1) as nat);
        let x = xs[i - 1];
        point_sum(
            point_sum(prev, point_scale(l[i - 1], fmul(x, x))),
            point_scale(r[i - 1], fmul(finv(x), finv(x))),
        )
    }
}

/// The final equation of the argument: `C' == a * G + (a * b - y) * Q`, where
/// `G` is the folded basis and `b` the folded powers of `z`.
pub open spec fn ipa_equation(
    basis: Seq<Seq<u8>>,
    q: Seq<u8>,
    c: Seq<u8>,
    l: Seq<Seq<u8>>,
    r: Seq<Seq<u8>>,
    a: nat,
    z: nat,
    y: nat,
    xs: Seq<nat>,
) -> bool {
    let g_final = fold_points_spec(basis, xs)[0];
    let b_final = fold_scalars_spec(powers(z, basis.len()), xs)[0];
    let rhs = point_sum(point_scale(g_final, a), point_scale(q, fsub(fmul(a, b_final), y)));
    fold_commitment(c, l, r, xs, xs.len()) == rhs
}

/// The message of a proof whose depth does not match the basis.
pub open spec fn depth_mismatch_message(k: nat, n: nat) -> Seq<char> {
    two_number_message("proof depth "@, k, " does not match domain size "@, n, ""@)
}

/// What [`verify_ipa`] gives, from the transcript it starts from, the basis and
/// `Q`, the commitment, the proof's `L`, `R` and `a`, the point `z` and the value `y`.
pub open spec fn ipa_result(
    st: Seq<u8>,
    basis: Seq<Seq<u8>>,
    q: Seq<u8>,
    c: Seq<u8>,
    l: Seq<Seq<u8>>,
    r: Seq<Seq<u8>>,
    a: nat,
    z: nat,
    y: nat,
) -> Result<bool, ErrorView> {
    if r.len() != l.len() {
        Err(ErrorView::InvalidProofLength { expected: l.len(), got: r.len() })
    } else if pow2(l.len()) != basis.len() {
        Err(ErrorView::InvalidInput(depth_mismatch_message(l.len(), basis.len())))
    } else if first_zero_challenge(st, l, r, 0) is Some {
        Err(ErrorView::InvalidInput("challenge has no inverse"@))
    } else {
        Ok(ipa_equation(basis, q, c, l, r, a, z, y, ipa_challenges(st, l, r)))
    }
}

/// The transcript that [`verify_ipa`] leaves: untouched when the proof's shape
/// is refused, else after the rounds up to the first zero challenge, or all rounds.
pub open spec fn ipa_final_state(st: Seq<u8>, n: nat, l: Seq<Seq<u8>>, r: Seq<Seq<u8>>) -> Seq<u8> {
    if r.len() != l.len() || pow2(l.len()) != n {
        st
    } else {
        match first_zero_challenge(st, l, r, 0) {
            Some(i) => ipa_round_state(st, l, r, i + 1),
            None => ipa_round_state(st, l, r, l.len()),
        }
    }
}

/// One folding round of a scalar vector with challenge `x`: entry `j` becomes
/// `s[j] * x^-1 + s[half + j] * x`.
pub open spec fn fold_scalar_round(s: Seq<nat>, x: nat) -> Seq<nat> {
    let half = s.len() / 2;
    Seq::new(half, |j: int| fadd(fmul(s[j], finv(x)), fmul(s[half + j], x)))
}

/// Folds a scalar vector with the challenges, the last challenge first.
pub open spec fn fold_scalars_spec(s: Seq<nat>, xs: Seq<nat>) -> Seq<nat>
    decreases xs.len(),
{
    if xs.len() == 0 {
        s
    } else {
        fold_scalars_spec(fold_scalar_round(s, xs.last()), xs.drop_last())
    }
}

/// One folding round of a point vector with challenge `x`: entry `j` becomes
/// `g[j] * x^-1 + g[half + j] * x`.
pub open spec fn fold_point_round(g: Seq<Seq<u8>>, x: nat) -> Seq<Seq<u8>> {
    let half = g.len() / 2;
    Seq::new(
        half,
        |j: int| point_sum(point_scale(g[j], finv(x)), point_scale(g[half + j], x)),
    )
}

/// Folds a point vector with the challenges, the last challenge first.
pub open spec fn fold_points_spec(g: Seq<Seq<u8>>, xs: Seq<nat>) -> Seq<Seq<u8>>
    decreases xs.len(),
{
    if xs.len() == 0 {
        g
    } else {
        fold_points_spec(fold_point_round(g, xs.last()), xs.drop_last())
    }
}

/// The powers `1, z, z^2, ..., z^(n-1)` in the field.
pub open spec fn powers(z: nat, n: nat) -> Seq<nat> {
    Seq::new(n, |i: int| fpow(z, i as nat))
}

/// No challenge is zero.
pub open spec fn all_nonzero(xs: Seq<nat>) -> bool {
    forall|i: int| 0 <= i < xs.len() ==> #[trigger] xs[i] != 0
}

/// Folds the generators down using the challenges; with at least `2^k`
/// generators for `k` challenges, at least one is left.
/// At each round, pairs are combined: `g_left * x_inv + g_right * x`.
fn fold_generators(generators: &[Point], challenges: &[Scalar]) -> (r: Result<Point, VerificationError>)
    requires
        generators@.len() >= pow2(challenges@.len() as nat),
        all_nonzero(scalar_views(challenges@)),
    ensures
        r matches Ok(p) && p@ == fold_points_spec(point_views(generators@), scalar_views(challenges@))[0],
{
    let ghost xs = scalar_views(challenges@);
    let ghost g0 = point_views(generators@);
    let mut gens: Vec<Point> = slice_to_vec(generators);
    let mut t = challenges.len();
    assert(xs.take(t as int) == xs);
    while t > 0
        invariant
            t <= challenges@.len(),
            xs == scalar_views(challenges@),
            all_nonzero(xs),
            gens@.len() >= pow2(t as nat),
            fold_points_spec(point_views(gens@), xs.take(t as int)) == fold_points_spec(g0, xs),
        decreases t,
    {
        t = t - 1;
        let ghost x_view = xs[t as int];
        assert(x_view == challenges@[t as int]@);
        let x_inv = fr_inverse(&challenges[t]).expect("challenge invertible");
        proof {
            lemma_finv_involutive(x_view, x_inv@);
        }
        let x = fr_inverse(&x_inv).unwrap();
        proof {
            lemma_inverse_is_finv(x_inv@, x@);
            lemma_pow2_unfold((t + 1) as nat);
        }
        let len = gens.len();
        let half = len / 2;
        let mut folded: Vec<Point> = Vec::with_capacity(half);
        for j in 0..half
            invariant
                len == gens@.len(),
                half == len / 2,
                gens@.len() >= pow2((t + 1) as nat),
                folded@.len() == j,
                x_inv@ == finv(x_view),
                x@ == x_view,
                forall|i: int|
                    0 <= i < j ==> (#[trigger] point_views(folded@)[i]) == fold_point_round(
                        point_views(gens@),
                        x_view,
                    )[i],
        {
            assert(half + j < gens@.len());
            let a = point_mul(&gens[j], &x_inv);
            let b = point_mul(&gens[half + j], &x);
            let ghost before = folded@;
            folded.push(point_add(&a, &b));
            proof {
                assert(point_views(folded@)[j as int] == fold_point_round(
                    point_views(gens@),
                    x_view,
                )[j as int]);
                assert forall|i: int| 0 <= i < j implies (#[trigger] point_views(folded@)[i])
                    == point_views(before)[i] by {}
            }
        }
        proof {
            assert(point_views(folded@) == fold_point_round(point_views(gens@), x_view));
            assert(xs.take(t + 1).drop_last() == xs.take(t as int));
            assert(xs.take(t + 1).last() == x_view);
        }
        gens = folded;
    }
    proof {
        lemma2_to64();
    }
    Ok(gens[0])
}

/// Folds the evaluation basis, the `n` powers of `z`, using the challenges;
/// with `n` at least `2^k` for `k` challenges, at least one is left.
fn fold_scalars(eval_point: Scalar, challenges: &[Scalar], n: usize) -> (r: Result<Scalar, VerificationError>)
    requires
        n >= pow2(challenges@.len() as nat),
        all_nonzero(scalar_views(challenges@)),
    ensures
        r matches Ok(s) && s@ == fold_scalars_spec(powers(eval_point@, n as nat), scalar_views(challenges@))[0],
{
    let ghost xs = scalar_views(challenges@);
    let ghost z = eval_point@;
    // Build the powers: [1, z, z^2, ..., z^(n-1)]
    let mut powers_vec: Vec<Scalar> = Vec::with_capacity(n);
    let mut current = Scalar::from_u64(1);
    proof {
        lemma_fpow_step(z, 0);
    }
    for i in 0..n
        invariant
            z == eval_point@,
            powers_vec@.len() == i,
            current@ == fpow(z, i as nat),
            forall|j: int| 0 <= j < i ==> (#[trigger] scalar_views(powers_vec@)[j]) == fpow(z, j as nat),
    {
        let ghost before = powers_vec@;
        powers_vec.push(current);
        proof {
            assert(scalar_views(powers_vec@)[i as int] == fpow(z, i as nat));
            assert forall|j: int| 0 <= j < i implies (#[trigger] scalar_views(powers_vec@)[j])
                == scalar_views(before)[j] by {}
            lemma_fpow_step(z, i as nat);
        }
        current = fr_mul(&current, &eval_point);
    }
    assert(scalar_views(powers_vec@) == powers(z, n as nat));
    // Fold using the same challenge pattern as the generators
    let mut scalars = powers_vec;
    let mut t = challenges.len();
    assert(xs.take(t as int) == xs);
    while t > 0
        invariant
            t <= challenges@.len(),
            xs == scalar_views(challenges@),
            all_nonzero(xs),
            scalars@.len() >= pow2(t as nat),
            fold_scalars_spec(scalar_views(scalars@), xs.take(t as int)) == fold_scalars_spec(
                powers(z, n as nat),
                xs,
            ),
        decreases t,
    {
        t = t - 1;
        let ghost x_view = xs[t as int];
        assert(x_view == challenges@[t as int]@);
        let x_inv = fr_inverse(&challenges[t]).expect("challenge invertible");
        proof {
            lemma_finv_involutive(x_view, x_inv@);
        }
        let x = fr_inverse(&x_inv).unwrap();
        proof {
            lemma_inverse_is_finv(x_inv@, x@);
            lemma_pow2_unfold((t + 1) as nat);
        }
        let len = scalars.len();
        let half = len / 2;
        let mut folded: Vec<Scalar> = Vec::with_capacity(half);
        for j in 0..half
            invariant
                len == scalars@.len(),
                half == len / 2,
                scalars@.len() >= pow2((t + 1) as nat),
                folded@.len() == j,
                x_inv@ == finv(x_view),
                x@ == x_view,
                forall|i: int|
                    0 <= i < j ==> (#[trigger] scalar_views(folded@)[i]) == fold_scalar_round(
                        scalar_views(scalars@),
                        x_view,
                    )[i],
        {
            assert(half + j < scalars@.len());
            let a = fr_mul(&scalars[j], &x_inv);
            let b = fr_mul(&scalars[half + j], &x);
            let ghost before = folded@;
            folded.push(fr_add(&a, &b));
            proof {
                assert(scalar_views(folded@)[j as int] == fold_scalar_round(
                    scalar_views(scalars@),
                    x_view,
                )[j as int]);
                assert forall|i: int| 0 <= i < j implies (#[trigger] scalar_views(folded@)[i])
                    == scalar_views(before)[i] by {}
            }
        }
        proof {
            assert(scalar_views(folded@) == fold_scalar_round(scalar_views(scalars@), x_view));
            assert(xs.take(t + 1).drop_last() == xs.take(t as int));
            assert(xs.take(t + 1).last() == x_view);
        }
        scalars = folded;
    }
    proof {
        lemma2_to64();
    }
    Ok(scalars[0])
}

/// No power of two from `2^BITS` on fits in a `usize`.
proof fn lemma_pow2_exceeds_usize(k: nat)
    requires
        k >= usize::BITS,
    ensures
        pow2(k) > usize::MAX,
{
    lemma2_to64();
    lemma2_to64_rest();
    if k > usize::BITS {
        lemma_pow2_strictly_increases(usize::BITS as nat, k);
    }
}

/// Verifies an IPA proof that the polynomial committed in `commitment`
/// evaluates to `eval_value` at `eval_point`. The proof needs one round per
/// halving of the basis, so the basis must hold `2^k` points for a proof of
/// `k` rounds.
pub fn verify_ipa(
    transcript: &mut Transcript,
    crs: &CRS,
    commitment: Point,
    proof: &IpaProof,
    eval_point: Scalar,
    eval_value: Scalar,
) -> (res: Result<bool, VerificationError>)
    ensures
        match ipa_result(
            old(transcript)@,
            point_views(crs.basis@),
            crs.q@,
            commitment@,
            point_views(proof.l@),
            point_views(proof.r@),
            proof.a@,
            eval_point@,
            eval_value@,
        ) {
            Ok(b) => res == Ok::<bool, VerificationError>(b),
            Err(e) => res matches Err(err) && err@ == e,
        },
        final(transcript)@ == ipa_final_state(
            old(transcript)@,
            crs.basis@.len(),
            point_views(proof.l@),
            point_views(proof.r@),
        ),
{
    let ghost st = transcript@;
    let ghost ls = point_views(proof.l@);
    let ghost rs = point_views(proof.r@);
    let n = crs.basis_len();
    let k = proof.l.len();

    // k rounds of halving means the basis started with 2^k elements
    if proof.r.len() != k {
        return Err(VerificationError::InvalidProofLength { expected: k, got: proof.r.len() });
    }
    if k >= usize::BITS as usize || (1usize << k) != n {
        proof {
            if k >= usize::BITS {
                lemma_pow2_exceeds_usize(k as nat);
            } else {
                lemma_usize_pow2_no_overflow(k as nat);
                lemma_usize_shl_is_mul(1, k);
            }
        }
        return Err(
            VerificationError::InvalidInput(
                two_number_text("proof depth ", k, " does not match domain size ", n, ""),
            ),
        );
    }
    proof {
        lemma_usize_pow2_no_overflow(k as nat);
        lemma_usize_shl_is_mul(1, k);
    }

    // Generate the challenges from the transcript
    let mut challenges: Vec<Scalar> = Vec::with_capacity(k);
    let mut challenges_inv: Vec<Scalar> = Vec::with_capacity(k);
    for i in 0..k
        invariant
            k == ls.len(),
            k == rs.len(),
            ls == point_views(proof.l@),
            rs == point_views(proof.r@),
            pow2(k as nat) == n,
            n == crs.basis@.len(),
            st == old(transcript)@,
            transcript@ == ipa_round_state(st, ls, rs, i as nat),
            challenges@.len() == i,
            challenges_inv@.len() == i,
            forall|j: int|
                0 <= j < i ==> (#[trigger] challenges@[j])@ == ipa_challenge(st, ls, rs, j as nat),
            forall|j: int|
                0 <= j < i ==> is_inverse_of(challenges@[j]@, (#[trigger] challenges_inv@[j])@),
            first_zero_challenge(st, ls, rs, 0) == first_zero_challenge(st, ls, rs, i as nat),
    {
        // The labels are the ASCII bytes of "L", "R" and "x".
        let label_l = [76u8];
        let label_r = [82u8];
        let label_x = [120u8];
        assert(label_l@ == seq![76u8]);
        assert(label_r@ == seq![82u8]);
        assert(label_x@ == seq![120u8]);
        assert(ls[i as int] == proof.l@[i as int]@);
        assert(rs[i as int] == proof.r@[i as int]@);
        transcript.append_point(&proof.l[i], &label_l);
        transcript.append_point(&proof.r[i], &label_r);
        let x = transcript.challenge_scalar(&label_x);
        assert(transcript@ == ipa_round_state(st, ls, rs, (i + 1) as nat));
        let x_inv = match fr_inverse(&x) {
            Some(v) => v,
            None => {
                assert(ipa_challenge(st, ls, rs, i as nat) == 0);
                assert(first_zero_challenge(st, ls, rs, i as nat) == Some(i as nat));
                return Err(
                    VerificationError::InvalidInput(String::from_str("challenge has no inverse")),
                );
            },
        };
        challenges.push(x);
        challenges_inv.push(x_inv);
    }
    let ghost xs = ipa_challenges(st, ls, rs);
    assert(scalar_views(challenges@) == xs);
    assert forall|j: int| 0 <= j < xs.len() implies #[trigger] xs[j] != 0 by {
        lemma_inverse_nonzero(challenges@[j]@, challenges_inv@[j]@);
    }

    // Fold the commitment
    let mut c_prime = commitment;
    for i in 0..k
        invariant
            k == ls.len(),
            k == rs.len(),
            k == xs.len(),
            ls == point_views(proof.l@),
            rs == point_views(proof.r@),
            challenges@.len() == k,
            challenges_inv@.len() == k,
            forall|j: int| 0 <= j < k ==> (#[trigger] challenges@[j])@ == xs[j],
            forall|j: int|
                0 <= j < k ==> is_inverse_of(challenges@[j]@, (#[trigger] challenges_inv@[j])@),
            c_prime@ == fold_commitment(commitment@, ls, rs, xs, i as nat),
    {
        let x_sq = fr_square(&challenges[i]);
        let x_inv_sq = fr_square(&challenges_inv[i]);
        proof {
            lemma_inverse_is_finv(challenges@[i as int]@, challenges_inv@[i as int]@);
        }
        let left = point_mul(&proof.l[i], &x_sq);
        let sum = point_add(&c_prime, &left);
        let right = point_mul(&proof.r[i], &x_inv_sq);
        c_prime = point_add(&sum, &right);
    }

    // Fold the generators to a single generator, and the powers of the
    // evaluation point to a single scalar
    let g_final = fold_generators(crs.basis.as_slice(), challenges.as_slice())?;
    let b_final = fold_scalars(eval_point, challenges.as_slice(), n)?;

    // Check: C' == a * g_final + (a * b_final - y) * Q
    let lhs = c_prime;
    let ab = fr_mul(&proof.a, &b_final);
    let diff = fr_sub(&ab, &eval_value);
    let g_term = point_mul(&g_final, &proof.a);
    let q_term = point_mul(&crs.q, &diff);
    let rhs = point_add(&g_term, &q_term);
    Ok(point_eq(&lhs, &rhs))
}

/// The weight that folding with `xs` gives entry `j` of a vector of
/// `2^xs.len()` entries: the product over the rounds `i` of `x_i` where bit
/// `i` of `j` is set and of `x_i^-1` where it is clear.
pub open spec fn fold_weight(xs: Seq<nat>, j: nat) -> nat
    decreases xs.len(),
{
    if xs.len() == 0 {
        1
    } else {
        let half = pow2((xs.len() - 1) as nat);
        if j < half {
            fmul(fold_weight(xs.drop_last(), j), finv(xs.last()))
        } else {
            fmul(fold_weight(xs.drop_last(), (j - half) as nat), xs.last())
        }
    }
}

/// Folding a reduced vector of `2^k` scalars with `k` challenges gives the
/// sum of its entries, each weighted by its [`fold_weight`].
pub proof fn lemma_fold_scalars_weighted(s: Seq<nat>, xs: Seq<nat>)
    requires
        s.len() == pow2(xs.len()),
        forall|i: int| 0 <= i < s.len() ==> #[trigger] s[i] < modulus(),
    ensures
        fold_scalars_spec(s, xs).len() == 1,
        fold_scalars_spec(s, xs)[0] == field_sum(
            |j: nat| fmul(s[j as int], fold_weight(xs, j)),
            s.len(),
        ),
    decreases xs.len(),
{
    let term = |j: nat| fmul(s[j as int], fold_weight(xs, j));
    if xs.len() == 0 {
        lemma2_to64();
        lemma_field_laws(s[0], 1, 0);
        lemma_field_laws(0, term(0), 0);
        lemma_field_laws(term(0), 0, 0);
        vstd::arithmetic::div_mod::lemma_small_mod(s[0], modulus());
        vstd::arithmetic::div_mod::lemma_small_mod(term(0), modulus());
        assert(fold_weight(xs, 0) == 1);
        assert(term(0) == s[0]);
        assert(field_sum(term, 1) == fadd(field_sum(term, 0), term(0)));
    } else {
        let k = (xs.len() - 1) as nat;
        let half = pow2(k);
        let x = xs.last();
        let rest = xs.drop_last();
        lemma_pow2_unfold(xs.len());
        let s2 = fold_scalar_round(s, x);
        assert forall|i: int| 0 <= i < s2.len() implies #[trigger] s2[i] < modulus() by {
            lemma_field_laws(fmul(s[i], finv(x)), fmul(s[half + i], x), 0);
        }
        lemma_fold_scalars_weighted(s2, rest);
        let g = |j: nat| fmul(s2[j as int], fold_weight(rest, j));
        let lo = |j: nat| term(j);
        let hi = |j: nat| term(half + j);
        assert forall|j: nat| j < half implies g(j) == #[trigger] fadd(lo(j), hi(j)) by {
            let w = fold_weight(rest, j);
            let (a, b) = (s[j as int], s[(half + j) as int]);
            assert(fold_weight(xs, j) == fmul(w, finv(x)));
            assert(fold_weight(xs, half + j) == fmul(w, x));
            lemma_field_laws(fmul(a, finv(x)), fmul(b, x), w);
            lemma_field_laws(a, finv(x), w);
            lemma_field_laws(finv(x), w, 0);
            lemma_field_laws(b, x, w);
            lemma_field_laws(x, w, 0);
        }
        assert forall|j: nat| j < half implies #[trigger] g(j) == pointwise_sum(lo, hi)(j) by {}
        lemma_field_sum_ext(g, pointwise_sum(lo, hi), half);
        lemma_field_sum_add(lo, hi, half);
        lemma_field_sum_split(term, half, half);
        lemma_field_sum_ext(lo, term, half);
        lemma_field_sum_ext(hi, |j: nat| term(half + j), half);
        assert(field_sum(term, half + half) == fadd(
            field_sum(term, half),
            field_sum(|j: nat| term(half + j), half),
        ));
    }
}

/// The folded powers of `z` are the sum of `z^j` weighted by the folding
/// weight of `j`, for a basis of `2^k` entries.
pub proof fn lemma_folded_powers(z: nat, xs: Seq<nat>)
    ensures
        fold_scalars_spec(powers(z, pow2(xs.len())), xs)[0] == field_sum(
            |j: nat| fmul(fpow(z, j), fold_weight(xs, j)),
            pow2(xs.len()),
        ),
{
    let p = powers(z, pow2(xs.len()));
    assert forall|i: int| 0 <= i < p.len() implies #[trigger] p[i] < modulus() by {}
    lemma_fold_scalars_weighted(p, xs);
    lemma_field_sum_ext(
        |j: nat| fmul(p[j as int], fold_weight(xs, j)),
        |j: nat| fmul(fpow(z, j), fold_weight(xs, j)),
        pow2(xs.len()),
    );
}

/// The entries at even indices.
pub open spec fn even_entries<T>(g: Seq<T>) -> Seq<T> {
    Seq::new(g.len() / 2, |m: int| g[2 * m])
}

/// The entries at odd indices.
pub open spec fn odd_entries<T>(g: Seq<T>) -> Seq<T> {
    Seq::new(g.len() / 2, |m: int| g[2 * m + 1])
}

/// A folding round commutes with taking the even or the odd entries of a
/// vector whose length is a multiple of four.
proof fn lemma_point_round_parity(g: Seq<Seq<u8>>, x: nat)
    requires
        g.len() % 4 == 0,
    ensures
        even_entries(fold_point_round(g, x)) == fold_point_round(even_entries(g), x),
        odd_entries(fold_point_round(g, x)) == fold_point_round(odd_entries(g), x),
{
    let h = g.len() / 2;
    assert(even_entries(fold_point_round(g, x)) =~= fold_point_round(even_entries(g), x)) by {
        assert forall|m: int| 0 <= m < h / 2 implies #[trigger] even_entries(g)[h / 2 + m] == g[h + 2 * m] by {}
    }
    assert(odd_entries(fold_point_round(g, x)) =~= fold_point_round(odd_entries(g), x)) by {
        assert forall|m: int| 0 <= m < h / 2 implies #[trigger] odd_entries(g)[h / 2 + m] == g[h + 2 * m + 1] by {}
    }
}

/// The same for scalars.
proof fn lemma_scalar_round_parity(s: Seq<nat>, x: nat)
    requires
        s.len() % 4 == 0,
    ensures
        even_entries(fold_scalar_round(s, x)) == fold_scalar_round(even_entries(s), x),
        odd_entries(fold_scalar_round(s, x)) == fold_scalar_round(odd_entries(s), x),
{
    let h = s.len() / 2;
    assert(even_entries(fold_scalar_round(s, x)) =~= fold_scalar_round(even_entries(s), x)) by {
        assert forall|m: int| 0 <= m < h / 2 implies #[trigger] even_entries(s)[h / 2 + m] == s[h + 2 * m] by {}
    }
    assert(odd_entries(fold_scalar_round(s, x)) =~= fold_scalar_round(odd_entries(s), x)) by {
        assert forall|m: int| 0 <= m < h / 2 implies #[trigger] odd_entries(s)[h / 2 + m] == s[h + 2 * m + 1] by {}
    }
}

/// The first challenge folds index bit 0: folding `2^k` generators gives the
/// fold of the even-indexed ones (by the other challenges) times `x_0^-1`
/// plus the fold of the odd-indexed ones times `x_0`. So challenge `x_i`
/// pairs the entries that differ in bit `i`, as it does for the scalars.
pub proof fn lemma_fold_points_first_challenge(g: Seq<Seq<u8>>, xs: Seq<nat>)
    requires
        xs.len() >= 1,
        g.len() == pow2(xs.len()),
    ensures
        fold_points_spec(g, xs).len() == 1,
        fold_points_spec(g, xs)[0] == point_sum(
            point_scale(fold_points_spec(even_entries(g), xs.drop_first())[0], finv(xs[0])),
            point_scale(fold_points_spec(odd_entries(g), xs.drop_first())[0], xs[0]),
        ),
    decreases xs.len(),
{
    let k = xs.len();
    let x = xs.last();
    let g2 = fold_point_round(g, x);
    let xs2 = xs.drop_last();
    lemma_pow2_unfold(k);
    assert(fold_points_spec(g, xs) == fold_points_spec(g2, xs2));
    assert(g2.len() == pow2((k - 1) as nat));
    if k == 1 {
        lemma2_to64();
        assert(xs2.len() == 0);
        assert(xs.drop_first().len() == 0);
        assert(fold_points_spec(g2, xs2) == g2);
        assert(fold_points_spec(even_entries(g), xs.drop_first()) == even_entries(g));
        assert(fold_points_spec(odd_entries(g), xs.drop_first()) == odd_entries(g));
        assert(even_entries(g)[0] == g[0]);
        assert(odd_entries(g)[0] == g[1]);
        assert(x == xs[0]);
    } else {
        lemma_pow2_unfold((k - 1) as nat);
        assert(g.len() % 4 == 0);
        lemma_fold_points_first_challenge(g2, xs2);
        lemma_point_round_parity(g, x);
        let rest = xs.drop_first();
        assert(rest.last() == x);
        assert(rest.drop_last() =~= xs2.drop_first());
        assert(xs2[0] == xs[0]);
        assert(fold_points_spec(even_entries(g), rest) == fold_points_spec(
            fold_point_round(even_entries(g), x),
            xs2.drop_first(),
        ));
        assert(fold_points_spec(odd_entries(g), rest) == fold_points_spec(
            fold_point_round(odd_entries(g), x),
            xs2.drop_first(),
        ));
    }
}

/// The first challenge folds index bit 0 of the scalars too (see
/// [`lemma_fold_points_first_challenge`]).
pub proof fn lemma_fold_scalars_first_challenge(s: Seq<nat>, xs: Seq<nat>)
    requires
        xs.len() >= 1,
        s.len() == pow2(xs.len()),
    ensures
        fold_scalars_spec(s, xs).len() == 1,
        fold_scalars_spec(s, xs)[0] == fadd(
            fmul(fold_scalars_spec(even_entries(s), xs.drop_first())[0], finv(xs[0])),
            fmul(fold_scalars_spec(odd_entries(s), xs.drop_first())[0], xs[0]),
        ),
    decreases xs.len(),
{
    let k = xs.len();
    let x = xs.last();
    let s2 = fold_scalar_round(s, x);
    let xs2 = xs.drop_last();
    lemma_pow2_unfold(k);
    assert(fold_scalars_spec(s, xs) == fold_scalars_spec(s2, xs2));
    assert(s2.len() == pow2((k - 1) as nat));
    if k == 1 {
        lemma2_to64();
        assert(xs2.len() == 0);
        assert(xs.drop_first().len() == 0);
        assert(fold_scalars_spec(s2, xs2) == s2);
        assert(fold_scalars_spec(even_entries(s), xs.drop_first()) == even_entries(s));
        assert(fold_scalars_spec(odd_entries(s), xs.drop_first()) == odd_entries(s));
        assert(even_entries(s)[0] == s[0]);
        assert(odd_entries(s)[0] == s[1]);
        assert(x == xs[0]);
    } else {
        lemma_pow2_unfold((k - 1) as nat);
        assert(s.len() % 4 == 0);
        lemma_fold_scalars_first_challenge(s2, xs2);
        lemma_scalar_round_parity(s, x);
        let rest = xs.drop_first();
        assert(rest.last() == x);
        assert(rest.drop_last() =~= xs2.drop_first());
        assert(xs2[0] == xs[0]);
        assert(fold_scalars_spec(even_entries(s), rest) == fold_scalars_spec(
            fold_scalar_round(even_entries(s), x),
            xs2.drop_first(),
        ));
        assert(fold_scalars_spec(odd_entries(s), rest) == fold_scalars_spec(
            fold_scalar_round(odd_entries(s), x),
            xs2.drop_first(),
        ));
    }
}

/// What round `i` hashes: the transcript so far, the byte `L`, the round's
/// compressed `L`, the byte `R`, the compressed `R`, then the byte `x`. Its
/// challenge is that digest read big-endian, modulo `r`.
pub proof fn lemma_round_transcript(st: Seq<u8>, l: Seq<Seq<u8>>, r: Seq<Seq<u8>>, i: nat)
    requires
        i < l.len(),
        i < r.len(),
    ensures
        ipa_round_state(st, l, r, i + 1) == sha256(
            ipa_round_state(st, l, r, i) + seq![76u8] + point_compress(l[i as int]) + seq![82u8]
                + point_compress(r[i as int]) + seq![120u8],
        ),
        ipa_challenge(st, l, r, i) == be_value(ipa_round_state(st, l, r, i + 1)) % modulus(),
{
}

} // verus!
