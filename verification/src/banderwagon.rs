//! Multi-scalar multiplication and inner products, the two sums that the
//! commitment scheme is built on.

use crate::curve::{
    is_canonical_encoding, lemma_encoding_reads_back, lemma_point_scale_canonical,
    lemma_point_scale_zero_one, lemma_point_sum_canonical, lemma_point_sum_identity, msm_spec, point_msm,
    point_scale, point_sum, point_views, scalar_views, Point,
};
use crate::error::{two_number_message, two_number_text, ErrorView, VerificationError};
use crate::field::{field_sum, fadd, fmul, fr_add, fr_mul, lemma_field_sum_ext, Scalar};
use vstd::prelude::*;

verus! {

/// The message of a length mismatch in [`msm`].
pub open spec fn msm_mismatch_message(bases: nat, scalars: nat) -> Seq<char> {
    two_number_message("msm length mismatch: "@, bases, " bases, "@, scalars, " scalars"@)
}

/// The message of a length mismatch in [`inner_product`].
pub open spec fn inner_product_mismatch_message(a: nat, b: nat) -> Seq<char> {
    two_number_message("inner product length mismatch: "@, a, " vs "@, b, ""@)
}

/// The sum of `a[i] * b[i]` in the field, over the common length.
pub open spec fn inner_product_spec(a: Seq<nat>, b: Seq<nat>) -> nat
    decreases a.len(),
{
    if a.len() == 0 || b.len() == 0 {
        0
    } else {
        fadd(inner_product_spec(a.drop_last(), b.drop_last()), fmul(a.last(), b.last()))
    }
}

/// The sum of `scalars[i] * bases[i]`. The two slices must have the same length.
pub fn msm(bases: &[Point], scalars: &[Scalar]) -> (r: Result<Point, VerificationError>)
    ensures
        r is Ok <==> bases@.len() == scalars@.len(),
        r matches Ok(p) ==> p@ == msm_spec(point_views(bases@), scalar_views(scalars@)),
        r matches Err(e) ==> e@ == ErrorView::InvalidInput(
            msm_mismatch_message(bases@.len(), scalars@.len()),
        ),
{
    if bases.len() != scalars.len() {
        return Err(
            VerificationError::InvalidInput(
                two_number_text("msm length mismatch: ", bases.len(), " bases, ", scalars.len(), " scalars"),
            ),
        );
    }
    Ok(point_msm(bases, scalars))
}

/// The inner product of two scalar vectors: the sum of `a[i] * b[i]`.
/// The two slices must have the same length.
pub fn inner_product(a: &[Scalar], b: &[Scalar]) -> (r: Result<Scalar, VerificationError>)
    ensures
        r is Ok <==> a@.len() == b@.len(),
        r matches Ok(s) ==> s@ == inner_product_spec(scalar_views(a@), scalar_views(b@))
            && s.is_canonical(),
        r matches Err(e) ==> e@ == ErrorView::InvalidInput(
            inner_product_mismatch_message(a@.len(), b@.len()),
        ),
{
    if a.len() != b.len() {
        return Err(
            VerificationError::InvalidInput(
                two_number_text("inner product length mismatch: ", a.len(), " vs ", b.len(), ""),
            ),
        );
    }
    let mut result = Scalar::from_u64(0);
    let n = a.len();
    for i in 0..n
        invariant
            n == a@.len(),
            n == b@.len(),
            result.is_canonical(),
            result@ == inner_product_spec(
                scalar_views(a@.take(i as int)),
                scalar_views(b@.take(i as int)),
            ),
    {
        let product = fr_mul(&a[i], &b[i]);
        result = fr_add(&result, &product);
        assert(scalar_views(a@.take(i + 1)).drop_last() == scalar_views(a@.take(i as int)));
        assert(scalar_views(b@.take(i + 1)).drop_last() == scalar_views(b@.take(i as int)));
    }
    assert(a@.take(n as int) == a@);
    assert(b@.take(n as int) == b@);
    Ok(result)
}

/// Every multi-scalar sum is a canonical encoding.
pub proof fn lemma_msm_canonical(bases: Seq<Seq<u8>>, scalars: Seq<nat>)
    ensures
        is_canonical_encoding(msm_spec(bases, scalars)),
    decreases scalars.len(),
{
    if scalars.len() == 0 || bases.len() == 0 {
        lemma_encoding_reads_back(0, 1);
    } else {
        lemma_point_sum_canonical(
            msm_spec(bases.drop_last(), scalars.drop_last()),
            point_scale(bases.last(), scalars.last()),
        );
    }
}

/// Adding one more pair adds its product to the sum.
pub proof fn lemma_msm_push(bases: Seq<Seq<u8>>, scalars: Seq<nat>, base: Seq<u8>, scalar: nat)
    requires
        bases.len() == scalars.len(),
    ensures
        msm_spec(bases.push(base), scalars.push(scalar)) == point_sum(
            msm_spec(bases, scalars),
            point_scale(base, scalar),
        ),
{
    assert(bases.push(base).drop_last() =~= bases);
    assert(scalars.push(scalar).drop_last() =~= scalars);
}

/// The sum of a single product is that product.
pub proof fn lemma_msm_single(base: Seq<u8>, scalar: nat)
    ensures
        msm_spec(seq![base], seq![scalar]) == point_scale(base, scalar),
{
    lemma_msm_push(Seq::empty(), Seq::empty(), base, scalar);
    assert(Seq::<Seq<u8>>::empty().push(base) =~= seq![base]);
    assert(Seq::<nat>::empty().push(scalar) =~= seq![scalar]);
    lemma_point_scale_canonical(base, scalar);
    lemma_point_sum_identity(point_scale(base, scalar));
}

/// A trailing pair with a zero scalar does not change the sum.
pub proof fn lemma_msm_trailing_zero(bases: Seq<Seq<u8>>, scalars: Seq<nat>, base: Seq<u8>)
    requires
        bases.len() == scalars.len(),
    ensures
        msm_spec(bases.push(base), scalars.push(0)) == msm_spec(bases, scalars),
{
    lemma_msm_push(bases, scalars, base, 0);
    lemma_point_scale_zero_one(base);
    lemma_msm_canonical(bases, scalars);
    lemma_point_sum_identity(msm_spec(bases, scalars));
}

/// Appending one more pair adds its product to the inner product: every
/// pair counts, whatever the value of its product.
pub proof fn lemma_inner_product_push(a: Seq<nat>, b: Seq<nat>, x: nat, y: nat)
    requires
        a.len() == b.len(),
    ensures
        inner_product_spec(a.push(x), b.push(y)) == fadd(inner_product_spec(a, b), fmul(x, y)),
{
    assert(a.push(x).drop_last() =~= a);
    assert(b.push(y).drop_last() =~= b);
}

/// The inner product is the field sum of the products `a[i] * b[i]` over all `i`.
pub proof fn lemma_inner_product_is_sum(a: Seq<nat>, b: Seq<nat>)
    requires
        a.len() == b.len(),
    ensures
        inner_product_spec(a, b) == field_sum(|i: nat| fmul(a[i as int], b[i as int]), a.len()),
    decreases a.len(),
{
    if a.len() > 0 {
        let (a2, b2) = (a.drop_last(), b.drop_last());
        lemma_inner_product_is_sum(a2, b2);
        let f = |i: nat| fmul(a[i as int], b[i as int]);
        let f2 = |i: nat| fmul(a2[i as int], b2[i as int]);
        assert forall|i: nat| i < a2.len() implies #[trigger] f2(i) == f(i) by {}
        lemma_field_sum_ext(f2, f, a2.len());
    }
}

} // verus!
