use ark_ec::{AffineRepr, CurveGroup};
use ark_ed_on_bls12_381_bandersnatch::{EdwardsAffine, Fr};
use ark_ff::PrimeField;
use ark_serialize::{CanonicalDeserialize, CanonicalSerialize};
use sha2::{Digest, Sha256};
use verkle_verifier::curve::Point;
use verkle_verifier::field::Scalar;
use verkle_verifier::precompute::CRS;
use verkle_verifier::transcript::Transcript;

fn scalar_of(x: Fr) -> Scalar {
    Scalar { limbs: x.into_bigint().0 }
}

fn sha256(data: &[u8]) -> Vec<u8> {
    let mut h = Sha256::new();
    h.update(data);
    h.finalize().to_vec()
}

#[test]
fn challenge_hashes_the_absorbed_bytes() {
    let mut t = Transcript::new(b"dom");
    t.domain_sep(b"sep");
    let s = Scalar::from_u64(0x0102);
    t.append_scalar(&s, b"z");
    let c = t.challenge_scalar(b"c");

    let mut data = b"domsepz".to_vec();
    let mut ser = vec![0x02u8, 0x01];
    ser.resize(32, 0);
    data.extend_from_slice(&ser);
    data.extend_from_slice(b"c");
    let digest = sha256(&data);
    assert_eq!(c, scalar_of(Fr::from_be_bytes_mod_order(&digest)));

    // The next challenge chains from the digest.
    let c2 = t.challenge_scalar(b"d");
    let mut next = digest.clone();
    next.extend_from_slice(b"d");
    assert_eq!(c2, scalar_of(Fr::from_be_bytes_mod_order(&sha256(&next))));
}

#[test]
fn appending_a_point_absorbs_its_compressed_form() {
    let gen = EdwardsAffine::generator();
    let mut compressed = Vec::new();
    gen.serialize_compressed(&mut compressed).unwrap();
    let p = Point::from_bytes(&compressed).unwrap();

    let mut t = Transcript::new(b"");
    t.append_point(&p, b"P");
    let c = t.challenge_scalar(b"x");
    let mut data = b"P".to_vec();
    data.extend_from_slice(&compressed);
    data.extend_from_slice(b"x");
    assert_eq!(c, scalar_of(Fr::from_be_bytes_mod_order(&sha256(&data))));
}

#[test]
fn same_transcript_same_challenge() {
    let mut a = Transcript::new(b"label");
    let mut b = Transcript::new(b"label");
    a.append_scalar(&Scalar::from_u64(7), b"s");
    b.append_scalar(&Scalar::from_u64(7), b"s");
    assert_eq!(a.challenge_scalar(b"c"), b.challenge_scalar(b"c"));
    let mut c = Transcript::new(b"label");
    c.append_scalar(&Scalar::from_u64(8), b"s");
    assert_ne!(Transcript::new(b"label").challenge_scalar(b"c"), c.challenge_scalar(b"c"));
}

#[test]
fn crs_has_the_domain_size() {
    let crs = CRS::new(b"test").unwrap();
    assert_eq!(CRS::DOMAIN_SIZE, 256);
    assert_eq!(crs.basis_len(), 256);
    assert_eq!(crs.basis.len(), 256);
}

#[test]
fn crs_is_deterministic_and_seed_dependent() {
    let a = CRS::new(b"seed").unwrap();
    let b = CRS::new(b"seed").unwrap();
    let c = CRS::new(b"other").unwrap();
    assert_eq!(a.basis, b.basis);
    assert_eq!(a.q, b.q);
    assert_ne!(a.basis[0], c.basis[0]);
}

/// The first point of the reference string comes from the first counter
/// whose digest is a valid compressed point.
#[test]
fn crs_points_come_from_try_and_increment() {
    let seed = b"test";
    let crs = CRS::new(seed).unwrap();
    for (index, expected) in [(0u64, crs.basis[0]), (255u64, crs.basis[255]), (256u64, crs.q)] {
        let mut counter: u64 = 0;
        let point = loop {
            let mut data = seed.to_vec();
            data.extend_from_slice(&index.to_le_bytes());
            data.extend_from_slice(&counter.to_le_bytes());
            let digest = sha256(&data);
            if let Ok(p) = EdwardsAffine::deserialize_compressed(&digest[..]) {
                let mut bytes = Vec::new();
                p.into_group().into_affine().serialize_compressed(&mut bytes).unwrap();
                break Point::from_bytes(&bytes).unwrap();
            }
            counter += 1;
        };
        assert_eq!(point, expected);
    }
}
