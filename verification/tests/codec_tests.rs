use ark_bls12_381::{Fr, G1Projective};
use ark_ec::Group;
use ark_serialize::CanonicalSerialize;
use kzg::codec::{
    decode_scalar, decode_scalars, encode_scalar, encode_scalars, SerdeSerializableCommitment,
    SerdeSerializableG2Commitment, SerdeSerializableLagrangePolynomial, SerdeSerializablePoints,
    SerdeSerializablePolynomial, SerializableCommitment, SerializableG2Commitment,
    SerializableLagrangePolynomial, SerializablePoints, SerializablePolynomial,
};
use kzg::error::KzgError;
use kzg::field::Scalar;
use kzg::group::{G1Point, G2Point};

fn s(x: u64) -> Scalar {
    Scalar::from_u64(x)
}

fn g1_bytes() -> Vec<u8> {
    let mut bytes = Vec::new();
    G1Projective::generator().serialize_compressed(&mut bytes).unwrap();
    bytes
}

#[test]
fn scalar_encoding_is_little_endian() {
    let bytes = encode_scalar(&s(0x0102));
    assert_eq!(bytes.len(), 32);
    assert_eq!(bytes[0], 2);
    assert_eq!(bytes[1], 1);
    assert!(bytes[2..].iter().all(|b| *b == 0));
    assert_eq!(decode_scalar(&bytes), Some(s(0x0102)));
    assert_eq!(decode_scalar(&[0xff; 32]), None);
    assert_eq!(decode_scalar(&[0; 31]), None);
    assert_eq!(decode_scalar(&[0; 33]), None);
    assert_eq!(decode_scalar(&[0; 32]), Some(Scalar::zero()));
}

#[test]
fn scalar_sequence_encoding_matches_the_field_crate() {
    let v = vec![s(1), s(2).neg(), s(77)];
    let fr = vec![Fr::from(1u64), -Fr::from(2u64), Fr::from(77u64)];
    let mut expected = Vec::new();
    fr.serialize_uncompressed(&mut expected).unwrap();
    assert_eq!(encode_scalars(&v), expected);
    assert_eq!(expected.len(), 8 + 3 * 32);
}

#[test]
fn scalar_sequence_round_trips() {
    let v = vec![s(1), s(2).neg(), s(77)];
    assert_eq!(decode_scalars(&encode_scalars(&v)), Ok(v));
    assert_eq!(decode_scalars(&encode_scalars(&[])), Ok(vec![]));
}

#[test]
fn malformed_scalar_sequences_are_refused() {
    assert_eq!(decode_scalars(&[]), Err(KzgError::SerializationError));
    assert_eq!(decode_scalars(&[1, 0, 0, 0, 0, 0, 0, 0]), Err(KzgError::SerializationError));
    let mut bytes = encode_scalars(&[s(1)]);
    bytes.push(0);
    assert_eq!(decode_scalars(&bytes), Err(KzgError::SerializationError));
    let mut large = vec![1u8, 0, 0, 0, 0, 0, 0, 0];
    large.extend_from_slice(&[0xff; 32]);
    assert_eq!(decode_scalars(&large), Err(KzgError::SerializationError));
}

#[test]
fn wrapper_types_round_trip() {
    let v = vec![s(3), s(4)];
    let points = SerializablePoints(v.clone()).encode();
    assert_eq!(SerializablePoints::decode(&points).unwrap().0, v);
    let polynomial = SerializablePolynomial(v.clone()).encode();
    assert_eq!(SerializablePolynomial::decode(&polynomial).unwrap().0, v);
    let lagrange = SerializableLagrangePolynomial(v.clone()).encode();
    assert_eq!(SerializableLagrangePolynomial::decode(&lagrange).unwrap().0, v);
    assert_eq!(points.0, polynomial.0);
    assert_eq!(lagrange.0, encode_scalars(&v));
    assert!(SerializablePoints::decode(&SerdeSerializablePoints(vec![9])).is_err());
    assert!(SerializablePolynomial::decode(&SerdeSerializablePolynomial(vec![9])).is_err());
    assert!(
        SerializableLagrangePolynomial::decode(&SerdeSerializableLagrangePolynomial(vec![9]))
            .is_err()
    );
}

#[test]
fn commitments_round_trip() {
    let g = G1Point::from_bytes(&g1_bytes()).unwrap();
    let mut expected = Vec::new();
    G1Projective::generator().serialize_uncompressed(&mut expected).unwrap();
    let encoded = SerializableCommitment(g.clone()).encode();
    assert_eq!(encoded.0, expected);
    assert_eq!(encoded.0.len(), 96);
    assert_eq!(SerializableCommitment::decode(&encoded).unwrap().0, g);
    assert_eq!(
        SerializableCommitment::decode(&SerdeSerializableCommitment(vec![0; 48])).err(),
        Some(KzgError::SerializationError)
    );
    let mut infinity = vec![0u8; 96];
    infinity[0] = 0xc0;
    let h = G2Point::from_bytes(&infinity).unwrap();
    let encoded = SerializableG2Commitment(h.clone()).encode();
    assert_eq!(encoded.0.len(), 192);
    assert_eq!(SerializableG2Commitment::decode(&encoded).unwrap().0, h);
    assert_eq!(
        SerializableG2Commitment::decode(&SerdeSerializableG2Commitment(vec![7; 3])).err(),
        Some(KzgError::SerializationError)
    );
}

#[test]
fn commitments_round_trip_in_compressed_form() {
    let g = G1Point::from_bytes(&g1_bytes()).unwrap();
    let encoded = SerializableCommitment(g.clone()).encode_compressed();
    assert_eq!(encoded.0, g1_bytes());
    assert_eq!(encoded.0.len(), 48);
    assert_eq!(SerializableCommitment::decode_compressed(&encoded).unwrap().0, g);
    assert_eq!(
        SerializableCommitment::decode_compressed(&SerdeSerializableCommitment(vec![0; 48]))
            .err(),
        Some(KzgError::SerializationError)
    );
    let mut infinity = vec![0u8; 96];
    infinity[0] = 0xc0;
    let h = G2Point::from_bytes(&infinity).unwrap();
    let encoded = SerializableG2Commitment(h.clone()).encode_compressed();
    assert_eq!(encoded.0, infinity);
    assert_eq!(SerializableG2Commitment::decode_compressed(&encoded).unwrap().0, h);
    assert_eq!(
        SerializableG2Commitment::decode_compressed(&SerdeSerializableG2Commitment(vec![7; 3]))
            .err(),
        Some(KzgError::SerializationError)
    );
}
