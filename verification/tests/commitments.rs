use ark_ec::{AffineRepr, CurveGroup};
use ark_ed_on_bls12_381_bandersnatch::{EdwardsAffine, EdwardsProjective, Fr};
use ark_ff::{BigInt, Field, PrimeField};
use ark_serialize::CanonicalSerialize;
use verkle_verifier::banderwagon::msm;
use verkle_verifier::curve::Point;
use verkle_verifier::field::Scalar;
use verkle_verifier::multiproof::{verify_multiproof, OpeningClaim};
use verkle_verifier::pedersen::{pedersen_commit, verify_commitment};
use verkle_verifier::precompute::CRS;
use verkle_verifier::proofs::{IpaProof, MultiPointProof, VerkleCommitment, VerkleProof};
use verkle_verifier::transcript::Transcript;
use verkle_verifier::VerificationError;

fn point_of(p: EdwardsProjective) -> Point {
    let mut bytes = Vec::new();
    p.into_affine().serialize_compressed(&mut bytes).unwrap();
    Point::from_bytes(&bytes).unwrap()
}

fn scalar_of(x: Fr) -> Scalar {
    Scalar { limbs: x.into_bigint().0 }
}

fn fr_of(s: &Scalar) -> Fr {
    Fr::from_bigint(BigInt::new(s.limbs)).unwrap()
}

fn small_crs() -> (CRS, [EdwardsProjective; 3]) {
    let g = EdwardsAffine::generator().into_group();
    let pts = [g * Fr::from(11u64), g * Fr::from(13u64), g * Fr::from(17u64)];
    let crs = CRS { basis: vec![point_of(pts[0]), point_of(pts[1])], q: point_of(pts[2]) };
    (crs, pts)
}

#[test]
fn commitment_is_the_msm_over_a_basis_prefix() {
    let (crs, [g0, _, _]) = small_crs();
    let c = pedersen_commit(&crs, &[Scalar::from_u64(4)]).unwrap();
    assert_eq!(c, point_of(g0 * Fr::from(4u64)));
    let full = pedersen_commit(&crs, &[Scalar::from_u64(4), Scalar::from_u64(6)]).unwrap();
    assert_eq!(full, msm(&crs.basis, &[Scalar::from_u64(4), Scalar::from_u64(6)]).unwrap());
}

#[test]
fn commitment_to_too_many_values_is_refused() {
    let (crs, _) = small_crs();
    let values = vec![Scalar::from_u64(1); 3];
    match pedersen_commit(&crs, &values) {
        Err(VerificationError::InvalidInput(m)) => {
            assert_eq!(m, "too many values for commitment: 3 values, 2 basis points")
        }
        other => panic!("unexpected result {:?}", other),
    }
    let c = crs.q;
    assert!(verify_commitment(&crs, &c, &values).is_err());
}

#[test]
fn a_commitment_verifies_against_its_values() {
    let (crs, _) = small_crs();
    let values = [Scalar::from_u64(2), Scalar::from_u64(3)];
    let c = pedersen_commit(&crs, &values).unwrap();
    assert!(matches!(verify_commitment(&crs, &c, &values), Ok(true)));
    let other = [Scalar::from_u64(3), Scalar::from_u64(2)];
    assert!(matches!(verify_commitment(&crs, &c, &other), Ok(false)));
}

#[test]
fn commitment_to_nothing_is_the_identity() {
    let (crs, _) = small_crs();
    let c = pedersen_commit(&crs, &[]).unwrap();
    assert_eq!(c, point_of(EdwardsProjective::default()));
}

#[test]
fn verkle_commitment_wraps_a_point() {
    let (crs, _) = small_crs();
    let c: VerkleCommitment = crs.q.into();
    assert_eq!(*c.inner(), crs.q);
}

#[test]
fn multiproof_without_claims_is_refused() {
    let (crs, _) = small_crs();
    let proof = VerkleProof {
        multi_point: MultiPointProof {
            d: crs.q,
            ipa: IpaProof { l: vec![], r: vec![], a: Scalar::from_u64(0) },
        },
        commitments: vec![],
    };
    match verify_multiproof(&crs, &proof, &[]) {
        Err(VerificationError::InvalidInput(m)) => assert_eq!(m, "no claims to verify"),
        other => panic!("unexpected result {:?}", other),
    }
}

/// One claim `C = a0 * G0` opens to `a0` at any point, and `D` is the
/// identity, so the combined claim is the claim itself and the IPA needs an
/// honest one-round proof of `(a0, 0)` at the evaluation challenge `t`.
fn single_claim_proof(a0: Fr) -> (CRS, VerkleProof, OpeningClaim) {
    let (crs, [g0, g1, q]) = small_crs();
    let c = point_of(g0 * a0);
    let d = point_of(EdwardsProjective::default());
    let claim = OpeningClaim {
        commitment: VerkleCommitment(c),
        eval_point: Scalar::from_u64(99),
        eval_value: scalar_of(a0),
    };
    let mut t = Transcript::new(b"verkle_multiproof");
    t.append_point(&c, &[b'C', 0]);
    t.append_scalar(&claim.eval_point, &[b'z', 0]);
    t.append_scalar(&claim.eval_value, &[b'y', 0]);
    let _r = t.challenge_scalar(b"r");
    t.append_point(&d, b"D");
    let z = fr_of(&t.challenge_scalar(b"t"));
    // Honest IPA for a = (a0, 0), b = (1, z).
    let l = point_of(g1 * a0 + q * (a0 * z));
    let r = point_of(EdwardsProjective::default());
    t.append_point(&l, b"L");
    t.append_point(&r, b"R");
    let x = fr_of(&t.challenge_scalar(b"x"));
    let a = a0 * x;
    let _ = x.inverse();
    let proof = VerkleProof {
        multi_point: MultiPointProof { d, ipa: IpaProof { l: vec![l], r: vec![r], a: scalar_of(a) } },
        commitments: vec![VerkleCommitment(c)],
    };
    (crs, proof, claim)
}

#[test]
fn multiproof_accepts_an_honest_single_claim() {
    let (crs, proof, claim) = single_claim_proof(Fr::from(21u64));
    assert!(matches!(verify_multiproof(&crs, &proof, &[claim]), Ok(true)));
}

#[test]
fn multiproof_rejects_a_wrong_value() {
    let (crs, proof, mut claim) = single_claim_proof(Fr::from(21u64));
    claim.eval_value = Scalar::from_u64(22);
    assert!(matches!(verify_multiproof(&crs, &proof, &[claim]), Ok(false)));
}

#[test]
fn trailing_zero_values_leave_the_commitment_unchanged() {
    let g = EdwardsAffine::generator().into_group();
    let crs = CRS {
        basis: vec![point_of(g * Fr::from(2u64)), point_of(g * Fr::from(3u64)), point_of(g * Fr::from(5u64))],
        q: point_of(g),
    };
    let short = pedersen_commit(&crs, &[Scalar::from_u64(4)]).unwrap();
    let padded = pedersen_commit(&crs, &[Scalar::from_u64(4), Scalar::from_u64(0)]).unwrap();
    assert_eq!(short, padded);
}

#[test]
fn msm_is_independent_of_the_order_of_two_terms() {
    let g = EdwardsAffine::generator().into_group();
    let a = point_of(g * Fr::from(2u64));
    let b = point_of(g * Fr::from(9u64));
    let x = Scalar::from_u64(6);
    let y = Scalar::from_u64(10);
    assert_eq!(msm(&[a, b], &[x, y]).unwrap(), msm(&[b, a], &[y, x]).unwrap());
}
