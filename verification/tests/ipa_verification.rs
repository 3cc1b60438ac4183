use ark_ec::{AffineRepr, CurveGroup};
use ark_ed_on_bls12_381_bandersnatch::{EdwardsAffine, EdwardsProjective, Fr};
use ark_ff::{BigInt, Field, PrimeField};
use ark_serialize::CanonicalSerialize;
use verkle_verifier::curve::Point;
use verkle_verifier::field::Scalar;
use verkle_verifier::ipa::verify_ipa;
use verkle_verifier::precompute::CRS;
use verkle_verifier::proofs::IpaProof;
use verkle_verifier::transcript::Transcript;
use verkle_verifier::VerificationError;

fn point_of(p: EdwardsProjective) -> Point {
    let mut bytes = Vec::new();
    p.into_affine().serialize_compressed(&mut bytes).unwrap();
    Point::from_bytes(&bytes).unwrap()
}

fn generator() -> EdwardsProjective {
    EdwardsAffine::generator().into_group()
}

fn scalar_of(x: Fr) -> Scalar {
    Scalar { limbs: x.into_bigint().0 }
}

fn fr_of(s: &Scalar) -> Fr {
    Fr::from_bigint(BigInt::new(s.limbs)).unwrap()
}

#[test]
fn rejects_mismatched_l_r_lengths() {
    let crs = CRS::new(b"test").unwrap();
    let g = point_of(generator());

    let bad_proof = IpaProof { l: vec![g; 8], r: vec![g; 7], a: Scalar::from_u64(1) };

    let mut transcript = Transcript::new(b"test");
    let result = verify_ipa(
        &mut transcript,
        &crs,
        g,
        &bad_proof,
        Scalar::from_u64(1),
        Scalar::from_u64(1),
    );
    assert!(result.is_err());
}

#[test]
fn rejects_wrong_proof_depth() {
    let crs = CRS::new(b"test").unwrap();
    let g = point_of(generator());

    // CRS has 256 points so proof needs log2(256) = 8 rounds
    let wrong_depth = IpaProof { l: vec![g; 4], r: vec![g; 4], a: Scalar::from_u64(1) };

    let mut transcript = Transcript::new(b"test");
    let result = verify_ipa(
        &mut transcript,
        &crs,
        g,
        &wrong_depth,
        Scalar::from_u64(1),
        Scalar::from_u64(1),
    );
    assert!(result.is_err());
}

#[test]
fn rejects_random_proof() {
    let crs = CRS::new(b"test").unwrap();
    let g = point_of(generator());

    // Garbage proof with correct structure should fail verification
    let fake_proof = IpaProof { l: vec![g; 8], r: vec![g; 8], a: Scalar::from_u64(42) };

    let mut transcript = Transcript::new(b"test");
    let result = verify_ipa(
        &mut transcript,
        &crs,
        g,
        &fake_proof,
        Scalar::from_u64(1),
        Scalar::from_u64(1),
    );
    assert!(matches!(result, Ok(false)));
}

/// A reference string of two basis points, for a one-round proof.
fn small_crs() -> (CRS, [EdwardsProjective; 3]) {
    let g = generator();
    let pts = [g * Fr::from(11u64), g * Fr::from(13u64), g * Fr::from(17u64)];
    let crs = CRS { basis: vec![point_of(pts[0]), point_of(pts[1])], q: point_of(pts[2]) };
    (crs, pts)
}

/// An honest one-round proof that (a0, a1) evaluated against (1, z) gives y.
fn honest_proof(a0: Fr, a1: Fr, z: Fr) -> (Point, IpaProof, Fr) {
    let (crs, [g0, g1, q]) = small_crs();
    let y = a0 + a1 * z;
    let c = g0 * a0 + g1 * a1;
    let l = g1 * a0 + q * (a0 * z);
    let r = g0 * a1 + q * a1;
    let (lp, rp) = (point_of(l), point_of(r));
    let mut t = Transcript::new(b"ipa");
    t.append_point(&lp, b"L");
    t.append_point(&rp, b"R");
    let x = fr_of(&t.challenge_scalar(b"x"));
    let a = a0 * x + a1 * x.inverse().unwrap();
    let _ = crs;
    (point_of(c), IpaProof { l: vec![lp], r: vec![rp], a: scalar_of(a) }, y)
}

#[test]
fn accepts_an_honest_one_round_proof() {
    let (crs, _) = small_crs();
    let (a0, a1, z) = (Fr::from(5u64), Fr::from(9u64), Fr::from(123u64));
    let (c, proof, y) = honest_proof(a0, a1, z);
    let mut transcript = Transcript::new(b"ipa");
    let result = verify_ipa(&mut transcript, &crs, c, &proof, scalar_of(z), scalar_of(y));
    assert!(matches!(result, Ok(true)));
}

#[test]
fn rejects_a_wrong_evaluation() {
    let (crs, _) = small_crs();
    let (a0, a1, z) = (Fr::from(5u64), Fr::from(9u64), Fr::from(123u64));
    let (c, proof, y) = honest_proof(a0, a1, z);
    let mut transcript = Transcript::new(b"ipa");
    let wrong = y + Fr::from(1u64);
    let result = verify_ipa(&mut transcript, &crs, c, &proof, scalar_of(z), scalar_of(wrong));
    assert!(matches!(result, Ok(false)));
}

#[test]
fn rejects_a_wrong_final_scalar() {
    let (crs, _) = small_crs();
    let (a0, a1, z) = (Fr::from(5u64), Fr::from(9u64), Fr::from(123u64));
    let (c, mut proof, y) = honest_proof(a0, a1, z);
    proof.a = scalar_of(fr_of(&proof.a) + Fr::from(1u64));
    let mut transcript = Transcript::new(b"ipa");
    let result = verify_ipa(&mut transcript, &crs, c, &proof, scalar_of(z), scalar_of(y));
    assert!(matches!(result, Ok(false)));
}

#[test]
fn length_error_names_both_lengths() {
    let crs = CRS::new(b"test").unwrap();
    let g = point_of(generator());
    let bad_proof = IpaProof { l: vec![g; 8], r: vec![g; 7], a: Scalar::from_u64(1) };
    let mut transcript = Transcript::new(b"test");
    let before = Transcript::new(b"test").challenge_scalar(b"probe");
    let result = verify_ipa(&mut transcript, &crs, g, &bad_proof, Scalar::from_u64(1), Scalar::from_u64(1));
    assert!(matches!(result, Err(VerificationError::InvalidProofLength { expected: 8, got: 7 })));
    // A refused proof leaves the transcript untouched.
    assert_eq!(transcript.challenge_scalar(b"probe"), before);
}

#[test]
fn depth_error_message() {
    let crs = CRS::new(b"test").unwrap();
    let g = point_of(generator());
    let wrong_depth = IpaProof { l: vec![g; 4], r: vec![g; 4], a: Scalar::from_u64(1) };
    let mut transcript = Transcript::new(b"test");
    match verify_ipa(&mut transcript, &crs, g, &wrong_depth, Scalar::from_u64(1), Scalar::from_u64(1)) {
        Err(VerificationError::InvalidInput(m)) => {
            assert_eq!(m, "proof depth 4 does not match domain size 256")
        }
        other => panic!("unexpected result {:?}", other),
    }
}

#[test]
fn depth_beyond_the_word_size_is_refused() {
    let (crs, _) = small_crs();
    let g = point_of(generator());
    let deep = IpaProof { l: vec![g; 70], r: vec![g; 70], a: Scalar::from_u64(1) };
    let mut transcript = Transcript::new(b"test");
    let result = verify_ipa(&mut transcript, &crs, g, &deep, Scalar::from_u64(1), Scalar::from_u64(1));
    assert!(matches!(result, Err(VerificationError::InvalidInput(_))));
}
