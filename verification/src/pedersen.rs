//! Pedersen vector commitments over the basis of the reference string.

use crate::banderwagon::{lemma_msm_trailing_zero, msm};
use crate::curve::{msm_spec, point_eq, point_views, scalar_views, Point};
use crate::error::{two_number_message, two_number_text, ErrorView, VerificationError};
use crate::field::Scalar;
use crate::precompute::CRS;
use vstd::prelude::*;
use vstd::slice::slice_subrange;

verus! {

/// The message of a commitment to more values than there are basis points.
pub open spec fn too_many_values_message(values: nat, basis: nat) -> Seq<char> {
    two_number_message(
        "too many values for commitment: "@,
        values,
        " values, "@,
        basis,
        " basis points"@,
    )
}

/// The commitment to `values`: the sum of `values[i] * basis[i]` over the
/// first `values.len()` basis points.
pub open spec fn commitment_spec(basis: Seq<Seq<u8>>, values: Seq<nat>) -> Seq<u8> {
    msm_spec(basis.take(values.len() as int), values)
}

/// What [`pedersen_commit`] gives for a basis and values.
pub open spec fn pedersen_commit_result(basis: Seq<Seq<u8>>, values: Seq<nat>) -> Result<
    Seq<u8>,
    ErrorView,
> {
    if values.len() > basis.len() {
        Err(ErrorView::InvalidInput(too_many_values_message(values.len(), basis.len())))
    } else {
        Ok(commitment_spec(basis, values))
    }
}

/// What [`verify_commitment`] gives for a basis, a commitment and values.
pub open spec fn verify_commitment_result(
    basis: Seq<Seq<u8>>,
    commitment: Seq<u8>,
    values: Seq<nat>,
) -> Result<bool, ErrorView> {
    match pedersen_commit_result(basis, values) {
        Ok(c) => Ok(c == commitment),
        Err(e) => Err(e),
    }
}

/// Computes a Pedersen commitment to a vector of scalars:
/// the sum of `values[i] * basis[i]`.
pub fn pedersen_commit(crs: &CRS, values: &[Scalar]) -> (r: Result<Point, VerificationError>)
    ensures
        match pedersen_commit_result(point_views(crs.basis@), scalar_views(values@)) {
            Ok(c) => r matches Ok(p) && p@ == c,
            Err(e) => r matches Err(err) && err@ == e,
        },
{
    if values.len() > crs.basis_len() {
        return Err(
            VerificationError::InvalidInput(
                two_number_text(
                    "too many values for commitment: ",
                    values.len(),
                    " values, ",
                    crs.basis_len(),
                    " basis points",
                ),
            ),
        );
    }
    let bases = slice_subrange(crs.basis.as_slice(), 0, values.len());
    assert(point_views(bases@) == point_views(crs.basis@).take(values@.len() as int));
    msm(bases, values)
}

/// Checks that `commitment` is the commitment to `values`.
pub fn verify_commitment(crs: &CRS, commitment: &Point, values: &[Scalar]) -> (r: Result<
    bool,
    VerificationError,
>)
    ensures
        match verify_commitment_result(point_views(crs.basis@), commitment@, scalar_views(values@)) {
            Ok(b) => r == Ok::<bool, VerificationError>(b),
            Err(e) => r matches Err(err) && err@ == e,
        },
{
    let recomputed = pedersen_commit(crs, values)?;
    Ok(point_eq(&recomputed, commitment))
}

/// Committing and then checking the commitment against the same values succeeds.
pub proof fn lemma_commitment_verifies(basis: Seq<Seq<u8>>, values: Seq<nat>)
    requires
        values.len() <= basis.len(),
    ensures
        pedersen_commit_result(basis, values) == Ok::<Seq<u8>, ErrorView>(
            commitment_spec(basis, values),
        ),
        verify_commitment_result(basis, commitment_spec(basis, values), values) == Ok::<
            bool,
            ErrorView,
        >(true),
{
}

/// Committing to one more value of zero gives the same commitment, while
/// the basis has room for it.
pub proof fn lemma_commitment_trailing_zero(basis: Seq<Seq<u8>>, values: Seq<nat>)
    requires
        values.len() < basis.len(),
    ensures
        commitment_spec(basis, values.push(0)) == commitment_spec(basis, values),
{
    let n = values.len() as int;
    assert(basis.take(n + 1) =~= basis.take(n).push(basis[n]));
    lemma_msm_trailing_zero(basis.take(n), values, basis[n]);
}

} // verus!
