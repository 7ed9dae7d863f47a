use ark_bls12_381::{G1Projective, G2Projective};
use ark_ec::Group;
use ark_serialize::CanonicalSerialize;
use kzg::error::KzgError;
use kzg::field::Scalar;
use kzg::group::{pairing, G1Point, G2Point};
use kzg::kzg::{combine_g1, combine_g2, KZG};
use kzg::poly::{add, div, evaluate, evaluate_all, mul, sub, vanishing_poly};

fn s(x: u64) -> Scalar {
    Scalar::from_u64(x)
}

fn poly(v: &[u64]) -> Vec<Scalar> {
    v.iter().map(|x| s(*x)).collect()
}

fn g1() -> G1Point {
    let mut bytes = Vec::new();
    G1Projective::generator().serialize_compressed(&mut bytes).unwrap();
    G1Point::from_bytes(&bytes).unwrap()
}

fn g2() -> G2Point {
    let mut bytes = Vec::new();
    G2Projective::generator().serialize_compressed(&mut bytes).unwrap();
    G2Point::from_bytes(&bytes).unwrap()
}

fn instance(degree: usize) -> KZG {
    let mut kzg = KZG::new(g1(), g2(), degree);
    kzg.setup(s(0x1234_5678_9abc_def1));
    kzg
}

#[test]
fn group_points_decode_only_from_valid_encodings() {
    assert!(G1Point::from_bytes(&[]).is_none());
    assert!(G1Point::from_bytes(&[0u8; 48]).is_none());
    assert!(G2Point::from_bytes(&[1u8; 96]).is_none());
    let g = g1();
    assert_eq!(g.to_bytes().len(), 48);
    assert_eq!(G1Point::from_bytes(&g.to_bytes()).unwrap(), g);
    assert_eq!(g2().to_bytes().len(), 96);
    let mut infinity = vec![0u8; 48];
    infinity[0] = 0xc0;
    let zero = G1Point::from_bytes(&infinity).unwrap();
    assert_eq!(zero, g.scale(&Scalar::zero()));
    // a non-canonical encoding of the identity is brought to the canonical one
    infinity[47] = 1;
    assert_eq!(G1Point::from_bytes(&infinity).unwrap(), zero);
}

#[test]
fn group_operations_follow_the_group_law() {
    let g = g1();
    let two = g.add(&g);
    assert_ne!(two, g);
    assert_eq!(two, g.scale(&s(2)));
    assert_eq!(two.sub(&g), g);
    assert_eq!(g.scale(&s(5)).sub(&g.scale(&s(3))), two);
    assert!(two.equals(&g.scale(&s(2))));
    assert!(!two.equals(&g));
    assert_eq!(g.clone(), g);
    let h = g2();
    let h2 = h.add(&h);
    assert_ne!(h2, h);
    assert_eq!(h2, h.scale(&s(2)));
    assert_eq!(h2.sub(&h), h);
    assert_eq!(h.duplicate(), h);
}

#[test]
fn pairing_is_bilinear() {
    let a = pairing(&g1().scale(&s(6)), &g2());
    let b = pairing(&g1().scale(&s(2)), &g2().scale(&s(3)));
    let c = pairing(&g1(), &g2());
    assert!(a.equals(&b));
    assert!(!a.equals(&c));
    assert_eq!(a.to_bytes(), b.to_bytes());
}

#[test]
fn new_instance_has_an_empty_reference_string() {
    let kzg = KZG::new(g1(), g2(), 3);
    assert_eq!(kzg.degree, 3);
    assert!(kzg.crs_g1.is_empty());
    assert!(kzg.crs_g2.is_empty());
    assert_eq!(kzg.g2_tau, g2().scale(&Scalar::zero()));
    assert_eq!(kzg.capacity(), 0);
    assert_eq!(kzg.commit(&poly(&[1])), Err(KzgError::InvalidInput));
    assert_eq!(kzg.open(&[], s(1)), Err(KzgError::InvalidInput));
}

#[test]
fn setup_derives_the_powers_of_the_secret() {
    let secret = s(5);
    let mut kzg = KZG::new(g1(), g2(), 2);
    kzg.setup(secret);
    assert_eq!(kzg.crs_g1.len(), 3);
    assert_eq!(kzg.crs_g2.len(), 3);
    assert_eq!(kzg.capacity(), 3);
    assert_eq!(kzg.crs_g1[0], g1());
    assert_eq!(kzg.crs_g1[1], g1().scale(&s(5)));
    assert_eq!(kzg.crs_g1[2], g1().scale(&s(25)));
    assert_eq!(kzg.crs_g2[2], g2().scale(&s(25)));
    assert_eq!(kzg.g2_tau, g2().scale(&s(5)));
}

#[test]
fn commit_is_the_generator_times_the_value_at_the_secret() {
    let secret = s(5);
    let mut kzg = KZG::new(g1(), g2(), 3);
    kzg.setup(secret);
    let p = poly(&[2, 3, 5, 1]);
    let commitment = kzg.commit(&p).unwrap();
    assert_eq!(commitment, g1().scale(&evaluate(&p, secret)));
    assert_eq!(commitment, g1().scale(&s(2 + 15 + 125 + 125)));
    assert_eq!(kzg.commit(&[]).unwrap(), g1().scale(&Scalar::zero()));
    assert_eq!(combine_g1(&kzg.g1, &kzg.crs_g1, &p), commitment);
}

#[test]
fn commit_refuses_a_polynomial_beyond_the_degree() {
    let kzg = instance(3);
    assert_eq!(kzg.commit(&poly(&[1, 2, 3, 4, 5])), Err(KzgError::InvalidInput));
    assert_eq!(kzg.open(&poly(&[1, 2, 3, 4, 5]), s(2)), Err(KzgError::InvalidInput));
    assert_eq!(
        kzg.multi_open(&poly(&[1, 2, 3, 4, 5]), &poly(&[2])),
        Err(KzgError::InvalidInput)
    );
    assert!(kzg.commit(&poly(&[1, 2, 3, 4])).is_ok());
}

#[test]
fn commit_is_linear() {
    let kzg = instance(3);
    let p1 = poly(&[2, 3, 5, 1]);
    let p2 = poly(&[7, 0, 11]);
    let sum = kzg.commit(&add(&p1, &p2)).unwrap();
    assert_eq!(sum, kzg.commit(&p1).unwrap().add(&kzg.commit(&p2).unwrap()));
}

#[test]
fn opening_at_seven_verifies_for_the_true_value_only() {
    let kzg = instance(3);
    let p = poly(&[2, 3, 5, 1]);
    assert_eq!(evaluate(&p, s(7)), s(611));
    let commitment = kzg.commit(&p).unwrap();
    let proof = kzg.open(&p, s(7)).unwrap();
    assert!(kzg.verify(s(7), s(611), commitment.clone(), proof.clone()));
    assert!(!kzg.verify(s(7), s(612), commitment, proof));
}

#[test]
fn opening_is_the_commitment_to_the_quotient() {
    let kzg = instance(3);
    // x^2 - 1 opened at 1: value 0, quotient x + 1
    let p = vec![s(1).neg(), s(0), s(1)];
    let proof = kzg.open(&p, s(1)).unwrap();
    assert_eq!(proof, kzg.commit(&poly(&[1, 1])).unwrap());
}

#[test]
fn single_opening_verifies_at_several_points() {
    let kzg = instance(4);
    let p = poly(&[9, 0, 4, 4, 1]);
    let commitment = kzg.commit(&p).unwrap();
    for z in [0u64, 1, 2, 1000] {
        let proof = kzg.open(&p, s(z)).unwrap();
        let value = evaluate(&p, s(z));
        assert!(kzg.verify(s(z), value, commitment.clone(), proof));
    }
}

#[test]
fn unrelated_proof_is_rejected() {
    let kzg = instance(3);
    let p = poly(&[2, 3, 5, 1]);
    let q = poly(&[1, 1, 1, 1]);
    let commitment = kzg.commit(&p).unwrap();
    let other = kzg.open(&q, s(7)).unwrap();
    assert!(!kzg.verify(s(7), s(611), commitment.clone(), other.clone()));
    let points = poly(&[1, 2]);
    let values = evaluate_all(&p, &points);
    assert_eq!(kzg.verify_multi(&points, &values, commitment, other), Ok(false));
}

#[test]
fn multi_opening_verifies() {
    let kzg = instance(3);
    let p = poly(&[2, 3, 5, 1]);
    let points = poly(&[7, 1, 30]);
    let values = evaluate_all(&p, &points);
    assert_eq!(values[0], s(611));
    let commitment = kzg.commit(&p).unwrap();
    let proof = kzg.multi_open(&p, &points).unwrap();
    assert_eq!(kzg.verify_multi(&points, &values, commitment.clone(), proof.clone()), Ok(true));
    let mut wrong = values.clone();
    wrong[1] = wrong[1].add(&s(1));
    assert_eq!(kzg.verify_multi(&points, &wrong, commitment, proof), Ok(false));
}

#[test]
fn multi_opening_at_one_point_is_the_single_opening() {
    let kzg = instance(3);
    let p = poly(&[2, 3, 5, 1]);
    assert_eq!(kzg.multi_open(&p, &poly(&[7])).unwrap(), kzg.open(&p, s(7)).unwrap());
    let short = poly(&[4]);
    assert_eq!(kzg.multi_open(&short, &poly(&[9])).unwrap(), kzg.open(&short, s(9)).unwrap());
}

#[test]
fn get_lagrange_pads_to_the_polynomial() {
    let kzg = instance(3);
    let p = poly(&[2, 3, 5, 1]);
    // through (0, 2) and (1, 11): 9x + 2
    assert_eq!(kzg.get_lagrange(&p, &poly(&[0, 1])), Ok(poly(&[2, 9, 0, 0])));
    assert_eq!(
        kzg.get_lagrange(&p, &poly(&[1, 1])),
        Err(KzgError::DuplicateEvaluationPoint)
    );
    // cut when there are more points than coefficients
    assert_eq!(kzg.get_lagrange(&poly(&[5]), &poly(&[0, 1])), Ok(poly(&[5])));
}

#[test]
fn multi_operations_refuse_bad_point_sets() {
    let kzg = instance(3);
    let p = poly(&[2, 3, 5, 1]);
    let c = kzg.commit(&p).unwrap();
    assert_eq!(kzg.multi_open(&p, &[]), Err(KzgError::InvalidInput));
    assert_eq!(
        kzg.multi_open(&p, &poly(&[4, 5, 4])),
        Err(KzgError::DuplicateEvaluationPoint)
    );
    assert_eq!(
        kzg.verify_multi(&[], &[], c.clone(), c.clone()),
        Err(KzgError::InvalidInput)
    );
    assert_eq!(
        kzg.verify_multi(&poly(&[1, 2]), &poly(&[1]), c.clone(), c.clone()),
        Err(KzgError::InvalidInput)
    );
    assert_eq!(
        kzg.verify_multi(&poly(&[1, 2, 3, 4]), &poly(&[1, 2, 3, 4]), c.clone(), c.clone()),
        Err(KzgError::InvalidInput)
    );
    assert_eq!(
        kzg.verify_multi(&poly(&[1, 1]), &poly(&[1, 2]), c.clone(), c),
        Err(KzgError::DuplicateEvaluationPoint)
    );
}

#[test]
fn second_group_decodes_to_canonical_bytes() {
    let mut infinity = vec![0u8; 96];
    infinity[0] = 0xc0;
    let zero = G2Point::from_bytes(&infinity).unwrap();
    assert_eq!(zero, g2().scale(&Scalar::zero()));
    infinity[95] = 7;
    assert_eq!(G2Point::from_bytes(&infinity).unwrap(), zero);
    assert_eq!(G2Point::from_bytes(&g2().to_bytes()).unwrap(), g2());
    assert!(g2().equals(&g2()));
    assert!(!g2().equals(&zero));
}

#[test]
fn trailing_bytes_are_dropped_when_decoding() {
    let mut bytes = g1().to_bytes();
    bytes.push(0xaa);
    assert_eq!(G1Point::from_bytes(&bytes).unwrap(), g1());
}

#[test]
fn second_group_commitment_to_the_vanishing_polynomial() {
    let secret = s(5);
    let mut kzg = KZG::new(g1(), g2(), 3);
    kzg.setup(secret);
    let z = vanishing_poly(&poly(&[1, 2]));
    // (5 - 1)(5 - 2) = 12
    assert_eq!(combine_g2(&kzg.g2, &kzg.crs_g2, &z), g2().scale(&s(12)));
}

#[test]
fn setup_replaces_an_existing_reference_string() {
    let mut kzg = KZG::new(g1(), g2(), 1);
    kzg.setup(s(3));
    kzg.setup(s(4));
    assert_eq!(kzg.crs_g1.len(), 2);
    assert_eq!(kzg.crs_g2.len(), 2);
    assert_eq!(kzg.crs_g1[0], g1());
    assert_eq!(kzg.crs_g1[1], g1().scale(&s(4)));
    assert_eq!(kzg.crs_g2[1], g2().scale(&s(4)));
    assert_eq!(kzg.g2_tau, kzg.crs_g2[1]);
    assert_eq!(kzg.capacity(), 2);
    let p = poly(&[6, 1]);
    let c = kzg.commit(&p).unwrap();
    let pi = kzg.open(&p, s(2)).unwrap();
    assert!(kzg.verify(s(2), s(8), c, pi));
}

#[test]
fn encodings_have_one_size() {
    for k in [0u64, 1, 2, 12345] {
        let p = g1().scale(&s(k));
        assert_eq!(p.to_bytes().len(), 48);
        assert_eq!(p.to_uncompressed().len(), 96);
        assert_eq!(G1Point::from_uncompressed(&p.to_uncompressed()).unwrap(), p);
        let q = g2().scale(&s(k));
        assert_eq!(q.to_bytes().len(), 96);
        assert_eq!(q.to_uncompressed().len(), 192);
        assert_eq!(G2Point::from_uncompressed(&q.to_uncompressed()).unwrap(), q);
    }
    assert_ne!(g1().to_uncompressed()[..48], g1().to_bytes()[..]);
}

#[test]
fn uncompressed_decoding_refuses_what_is_no_element() {
    assert!(G1Point::from_uncompressed(&[]).is_none());
    assert!(G1Point::from_uncompressed(&g1().to_bytes()).is_none());
    // the coordinates (1, 1) are on no curve of the pairing
    let mut bytes = vec![0u8; 96];
    bytes[47] = 1;
    bytes[95] = 1;
    assert!(G1Point::from_uncompressed(&bytes).is_none());
    let mut bytes = vec![0u8; 192];
    bytes[95] = 1;
    bytes[191] = 1;
    assert!(G2Point::from_uncompressed(&bytes).is_none());
}

#[test]
fn multi_opening_of_a_short_polynomial() {
    let kzg = instance(3);
    let p = poly(&[4]);
    let points = poly(&[9, 10]);
    let values = evaluate_all(&p, &points);
    assert_eq!(values, poly(&[4, 4]));
    let commitment = kzg.commit(&p).unwrap();
    let proof = kzg.multi_open(&p, &points).unwrap();
    assert_eq!(proof, g1().scale(&Scalar::zero()));
    assert_eq!(kzg.verify_multi(&points, &values, commitment.clone(), proof.clone()), Ok(true));
    assert_eq!(kzg.verify_multi(&points, &poly(&[4, 5]), commitment, proof), Ok(false));
}

#[test]
fn multi_opening_divides_without_remainder() {
    let kzg = instance(4);
    let p = poly(&[2, 3, 5, 1, 8]);
    let points = poly(&[7, 1, 30]);
    let lagrange = kzg.get_lagrange(&p, &points).unwrap();
    let numerator = sub(&p, &lagrange);
    let z = vanishing_poly(&points);
    let quotient = div(&numerator, &z).unwrap();
    assert_eq!(quotient.len(), 2);
    assert_eq!(mul(&quotient, &z), numerator);
    assert_eq!(kzg.multi_open(&p, &points).unwrap(), kzg.commit(&quotient).unwrap());
}
