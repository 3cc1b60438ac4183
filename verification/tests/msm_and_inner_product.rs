use ark_ec::{AffineRepr, CurveGroup};
use ark_ed_on_bls12_381_bandersnatch::{EdwardsAffine, EdwardsProjective, Fr};
use ark_serialize::CanonicalSerialize;
use verkle_verifier::banderwagon::{inner_product, msm};
use verkle_verifier::curve::Point;
use verkle_verifier::field::Scalar;
use verkle_verifier::VerificationError;

fn point_of(p: EdwardsProjective) -> Point {
    let mut bytes = Vec::new();
    p.into_affine().serialize_compressed(&mut bytes).unwrap();
    Point::from_bytes(&bytes).unwrap()
}

fn generator() -> EdwardsProjective {
    EdwardsAffine::generator().into_group()
}

#[test]
fn msm_single_element() {
    let g = generator();
    let scalar = Scalar::from_u64(5);
    let result = msm(&[point_of(g)], &[scalar]).unwrap();
    assert_eq!(result, point_of(g * Fr::from(5u64)));
}

#[test]
fn msm_two_elements() {
    let g = generator();
    let a = Scalar::from_u64(3);
    let b = Scalar::from_u64(7);
    let bases_ark = [g * Fr::from(1u64), g * Fr::from(2u64)];
    let bases = [point_of(bases_ark[0]), point_of(bases_ark[1])];
    let result = msm(&bases, &[a, b]).unwrap();
    let expected = bases_ark[0] * Fr::from(3u64) + bases_ark[1] * Fr::from(7u64);
    assert_eq!(result, point_of(expected));
}

#[test]
fn msm_length_mismatch() {
    let g = point_of(generator());
    let result = msm(&[g, g], &[Scalar::from_u64(1)]);
    assert!(result.is_err());
}

#[test]
fn inner_product_basic() {
    let a = vec![Scalar::from_u64(2), Scalar::from_u64(3)];
    let b = vec![Scalar::from_u64(4), Scalar::from_u64(5)];
    let result = inner_product(&a, &b).unwrap();
    // 2*4 + 3*5 = 23
    assert_eq!(result, Scalar::from_u64(23));
}

#[test]
fn inner_product_length_mismatch() {
    let a = vec![Scalar::from_u64(1)];
    let b = vec![Scalar::from_u64(1), Scalar::from_u64(2)];
    assert!(inner_product(&a, &b).is_err());
}

#[test]
fn inner_product_with_zeros() {
    let a = vec![Scalar::from_u64(0), Scalar::from_u64(5)];
    let b = vec![Scalar::from_u64(9), Scalar::from_u64(0)];
    let result = inner_product(&a, &b).unwrap();
    assert_eq!(result, Scalar::from_u64(0));
}

#[test]
fn msm_of_nothing_is_the_identity() {
    let result = msm(&[], &[]).unwrap();
    assert_eq!(result, point_of(EdwardsProjective::default()));
}

#[test]
fn msm_mismatch_message_names_both_lengths() {
    let g = point_of(generator());
    match msm(&[g, g], &[Scalar::from_u64(1)]) {
        Err(VerificationError::InvalidInput(m)) => {
            assert_eq!(m, "msm length mismatch: 2 bases, 1 scalars")
        }
        other => panic!("unexpected result {:?}", other),
    }
}

#[test]
fn inner_product_mismatch_message_names_both_lengths() {
    let a = vec![Scalar::from_u64(1); 12];
    let b = vec![Scalar::from_u64(1); 3];
    match inner_product(&a, &b) {
        Err(VerificationError::InvalidInput(m)) => {
            assert_eq!(m, "inner product length mismatch: 12 vs 3")
        }
        other => panic!("unexpected result {:?}", other),
    }
}

#[test]
fn inner_product_of_empty_vectors_is_zero() {
    assert_eq!(inner_product(&[], &[]).unwrap(), Scalar::from_u64(0));
}

#[test]
fn inner_product_reduces_modulo_the_group_order() {
    // r - 1 squared is 1 modulo r.
    let r_minus_one = Fr::from(0u64) - Fr::from(1u64);
    let limbs = ark_ff::PrimeField::into_bigint(r_minus_one).0;
    let x = Scalar { limbs };
    let result = inner_product(&[x], &[x]).unwrap();
    assert_eq!(result, Scalar::from_u64(1));
}

#[test]
fn scalars_above_the_modulus_are_reduced() {
    // r + 2 times 3 is 6.
    let r_plus_two = ark_ff::PrimeField::into_bigint(Fr::from(0u64) - Fr::from(1u64)).0;
    let mut limbs = r_plus_two;
    limbs[0] += 3; // r - 1 + 3 = r + 2; the low limb of r - 1 does not overflow here
    let x = Scalar { limbs };
    let result = inner_product(&[x], &[Scalar::from_u64(3)]).unwrap();
    assert_eq!(result, Scalar::from_u64(6));
}

#[test]
fn point_from_bytes_refuses_a_non_point() {
    assert!(Point::from_bytes(&[0xffu8; 32]).is_none());
    assert!(Point::from_bytes(&[1u8; 3]).is_none());
}
