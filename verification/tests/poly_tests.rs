use kzg::error::KzgError;
use kzg::field::Scalar;
use kzg::poly::{
    add, coefficient, div, effective_length, evaluate, evaluate_all, interpolate, is_zero, mul, resize, scalar_mul,
    sub, to_vec, vanishing_poly, zero_vec,
};

fn s(x: u64) -> Scalar {
    Scalar::from_u64(x)
}

fn poly(v: &[u64]) -> Vec<Scalar> {
    v.iter().map(|x| s(*x)).collect()
}

fn minus(x: u64) -> Scalar {
    s(x).neg()
}

#[test]
fn scalar_addition_wraps_at_the_modulus() {
    let top = minus(1);
    assert_eq!(top.add(&s(1)), Scalar::zero());
    assert_eq!(s(5).add(&s(6)), s(11));
    assert_eq!(
        top.to_limbs(),
        (0xffff_ffff_0000_0000, 0x53bd_a402_fffe_5bfe, 0x3339_d808_09a1_d805, 0x73ed_a753_299d_7d48)
    );
}

#[test]
fn scalar_subtraction_and_negation() {
    assert_eq!(s(9).sub(&s(4)), s(5));
    assert_eq!(s(4).sub(&s(9)), minus(5));
    assert_eq!(s(7).neg().add(&s(7)), Scalar::zero());
    assert_eq!(Scalar::zero().neg(), Scalar::zero());
    assert!(s(3).sub(&s(3)).is_zero());
}

#[test]
fn scalar_multiplication_and_power() {
    assert_eq!(s(6).mul(&s(7)), s(42));
    assert_eq!(s(3).pow(4), s(81));
    assert_eq!(s(3).pow(0), Scalar::one());
    assert_eq!(s(0).pow(0), Scalar::one());
    assert_eq!(minus(1).mul(&minus(1)), Scalar::one());
}

#[test]
fn scalar_inverse_is_none_only_for_zero() {
    assert!(Scalar::zero().inverse().is_none());
    let inv = s(7).inverse().unwrap();
    assert_eq!(inv.mul(&s(7)), Scalar::one());
    assert_ne!(inv, s(7));
    assert_eq!(Scalar::one().inverse().unwrap(), Scalar::one());
}

#[test]
fn scalar_from_limbs_rejects_the_modulus_and_above() {
    let m = (0xffff_ffff_0000_0001u64, 0x53bd_a402_fffe_5bfeu64, 0x3339_d808_09a1_d805u64, 0x73ed_a753_299d_7d48u64);
    assert!(Scalar::from_limbs(m.0, m.1, m.2, m.3).is_none());
    assert!(Scalar::from_limbs(m.0 - 1, m.1, m.2, m.3).is_some());
    assert!(Scalar::from_limbs(0, 0, 0, m.3 + 1).is_none());
    assert!(Scalar::from_limbs(u64::MAX, u64::MAX, u64::MAX, m.3 - 1).is_some());
    assert_eq!(Scalar::from_limbs(5, 0, 0, 0).unwrap(), s(5));
    assert!(s(5).equals(&s(5)));
    assert!(!s(5).equals(&s(6)));
}

#[test]
fn add_pads_the_shorter_operand() {
    assert_eq!(add(&poly(&[1, 2]), &poly(&[3])), poly(&[4, 2]));
    assert_eq!(add(&poly(&[3]), &poly(&[1, 2, 9])), poly(&[4, 2, 9]));
    assert_eq!(add(&[], &[]), poly(&[]));
}

#[test]
fn sub_is_coefficient_wise() {
    assert_eq!(sub(&poly(&[5, 7]), &poly(&[2, 3])), poly(&[3, 4]));
    assert_eq!(sub(&poly(&[1]), &poly(&[2])), vec![minus(1)]);
}

#[test]
fn mul_is_a_convolution() {
    assert_eq!(mul(&poly(&[1, 1]), &poly(&[1, 1])), poly(&[1, 2, 1]));
    assert_eq!(mul(&poly(&[2, 3, 5]), &poly(&[7, 11])), poly(&[14, 43, 68, 55]));
    assert_eq!(mul(&poly(&[4]), &poly(&[5])).len(), 1);
    assert_eq!(mul(&poly(&[1, 2, 3]), &[]), poly(&[0, 0]));
    assert_eq!(mul(&[], &[]), poly(&[]));
}

#[test]
fn scalar_mul_scales_every_coefficient() {
    assert_eq!(scalar_mul(&poly(&[1, 2, 3]), s(4)), poly(&[4, 8, 12]));
    assert_eq!(scalar_mul(&[], s(4)), poly(&[]));
}

#[test]
fn evaluate_sums_the_powers() {
    assert_eq!(evaluate(&poly(&[2, 3, 5, 1]), s(7)), s(611));
    assert_eq!(evaluate(&[], s(7)), Scalar::zero());
    assert_eq!(evaluate(&poly(&[9]), s(0)), s(9));
}

#[test]
fn div_by_a_root_factor_is_exact() {
    // x^2 - 1 = (x - 1)(x + 1)
    let numerator = vec![minus(1), s(0), s(1)];
    let denominator = vec![minus(1), s(1)];
    assert_eq!(div(&numerator, &denominator), Ok(poly(&[1, 1])));
}

#[test]
fn div_keeps_the_quotient_when_there_is_a_remainder() {
    // x^3 + 5x^2 + 3x + 2 = (x + 2)(x^2 + 3x - 3) + 8
    let quotient = div(&poly(&[2, 3, 5, 1]), &poly(&[2, 1])).unwrap();
    assert_eq!(quotient, vec![minus(3), s(3), s(1)]);
    let back = add(&mul(&quotient, &poly(&[2, 1])), &poly(&[8]));
    assert_eq!(back, poly(&[2, 3, 5, 1]));
}

#[test]
fn div_of_a_shorter_numerator_is_zero() {
    assert_eq!(div(&poly(&[5]), &poly(&[1, 1])), Ok(poly(&[0])));
    assert_eq!(div(&[], &poly(&[1])), Ok(poly(&[0])));
    assert_eq!(div(&poly(&[5]), &poly(&[1, 0])), Ok(poly(&[0])));
}

#[test]
fn div_refuses_a_zero_denominator() {
    assert_eq!(div(&poly(&[1, 2]), &[]), Err(KzgError::DivisionByZeroPolynomial));
    assert_eq!(div(&poly(&[1, 2]), &poly(&[0, 0])), Err(KzgError::DivisionByZeroPolynomial));
    assert_eq!(div(&poly(&[1]), &poly(&[0, 0])), Err(KzgError::DivisionByZeroPolynomial));
    assert_eq!(div(&[], &[]), Err(KzgError::DivisionByZeroPolynomial));
}

#[test]
fn div_takes_an_untrimmed_denominator() {
    // the denominator is the constant one, written with a trailing zero
    assert_eq!(div(&poly(&[1, 2]), &poly(&[1, 0])), Ok(poly(&[1, 2])));
    // x^2 - 49 by x - 7, written with a trailing zero
    let numerator = vec![minus(49), s(0), s(1)];
    let denominator = vec![minus(7), s(1), s(0)];
    assert_eq!(div(&numerator, &denominator), Ok(poly(&[7, 1])));
    assert_eq!(mul(&poly(&[7, 1]), &[minus(7), s(1)]), numerator);
    // with a remainder: x^2 + 1 = (x - 7)(x + 7) + 50
    assert_eq!(div(&poly(&[1, 0, 1]), &denominator), Ok(poly(&[7, 1])));
    assert_eq!(effective_length(&denominator), 2);
    assert_eq!(effective_length(&poly(&[0, 0])), 0);
    assert_eq!(effective_length(&[]), 0);
}

#[test]
fn div_with_leading_zeros_in_the_numerator() {
    assert_eq!(div(&poly(&[1, 0, 0]), &poly(&[1, 1])), Ok(poly(&[0, 0])));
    assert_eq!(div(&poly(&[6, 4]), &poly(&[2])), Ok(poly(&[3, 2])));
}

#[test]
fn interpolate_recovers_a_line() {
    // 2x + 1 through (1, 3) and (2, 5)
    assert_eq!(interpolate(&poly(&[1, 2]), &poly(&[3, 5])), Ok(poly(&[1, 2])));
    assert_eq!(interpolate(&poly(&[4]), &poly(&[9])), Ok(poly(&[9])));
    assert_eq!(interpolate(&[], &[]), Ok(poly(&[])));
}

#[test]
fn interpolate_takes_the_given_values() {
    let points = poly(&[3, 10, 21, 4]);
    let values = poly(&[8, 1, 100, 77]);
    let p = interpolate(&points, &values).unwrap();
    assert_eq!(p.len(), 4);
    for i in 0..4 {
        assert_eq!(evaluate(&p, points[i]), values[i]);
    }
}

#[test]
fn interpolate_refuses_mismatched_lengths() {
    assert_eq!(interpolate(&poly(&[1, 2]), &poly(&[3])), Err(KzgError::InvalidInput));
    assert_eq!(interpolate(&poly(&[1, 1]), &poly(&[3])), Err(KzgError::InvalidInput));
}

#[test]
fn interpolate_refuses_repeated_points() {
    assert_eq!(
        interpolate(&poly(&[1, 2, 1]), &poly(&[3, 4, 5])),
        Err(KzgError::DuplicateEvaluationPoint)
    );
}

#[test]
fn error_messages_are_distinct() {
    assert_eq!(KzgError::InvalidInput.message(), "invalid input");
    assert_eq!(KzgError::DivisionByZeroPolynomial.message(), "cannot divide by zero polynomial");
    assert_eq!(KzgError::DuplicateEvaluationPoint.message(), "duplicate evaluation point");
    assert_eq!(KzgError::SerializationError.message(), "malformed encoding");
}

#[test]
fn vanishing_poly_has_the_points_as_roots() {
    // (x - 1)(x - 2) = x^2 - 3x + 2
    assert_eq!(vanishing_poly(&poly(&[1, 2])), vec![s(2), minus(3), s(1)]);
    assert_eq!(vanishing_poly(&poly(&[5])), vec![minus(5), s(1)]);
    let points = poly(&[3, 9, 27]);
    let z = vanishing_poly(&points);
    assert_eq!(z.len(), 4);
    assert_eq!(z[3], Scalar::one());
    for p in points {
        assert!(evaluate(&z, p).is_zero());
    }
}

#[test]
fn helpers_on_coefficients() {
    let p = poly(&[4, 5]);
    assert_eq!(coefficient(&p, 1), s(5));
    assert_eq!(coefficient(&p, 2), Scalar::zero());
    assert_eq!(to_vec(&p), p);
    assert_eq!(zero_vec(3), poly(&[0, 0, 0]));
    assert_eq!(resize(&p, 4), poly(&[4, 5, 0, 0]));
    assert_eq!(resize(&p, 1), poly(&[4]));
    assert!(is_zero(&poly(&[0, 0])));
    assert!(is_zero(&[]));
    assert!(!is_zero(&poly(&[0, 1, 0])));
    assert_eq!(evaluate_all(&poly(&[1, 1]), &poly(&[0, 6])), poly(&[1, 7]));
}

#[test]
fn remainder_vanishes_at_a_root() {
    // x^3 - 6x^2 + 11x - 6 has the root 2: the division by x - 2 is exact
    let p = vec![minus(6), s(11), minus(6), s(1)];
    assert!(evaluate(&p, s(2)).is_zero());
    let d = vec![minus(2), s(1)];
    let q = div(&p, &d).unwrap();
    assert_eq!(q, vec![s(3), minus(4), s(1)]);
    assert_eq!(mul(&q, &d), p);
}

#[test]
fn limbs_round_trip() {
    let x = minus(12345);
    let l = x.to_limbs();
    assert_eq!(Scalar::from_limbs(l.0, l.1, l.2, l.3), Some(x));
}

#[test]
fn interpolate_recovers_a_parabola() {
    // x^2 + 1 through (0, 1), (1, 2), (2, 5)
    assert_eq!(interpolate(&poly(&[0, 1, 2]), &poly(&[1, 2, 5])), Ok(poly(&[1, 0, 1])));
}

#[test]
fn evaluation_is_multiplicative() {
    let p = poly(&[3, 0, 7, 1]);
    let q = vec![minus(4), s(9), s(2)];
    for x in [0u64, 1, 5, 1 << 40] {
        let product = mul(&p, &q);
        assert_eq!(evaluate(&product, s(x)), evaluate(&p, s(x)).mul(&evaluate(&q, s(x))));
    }
}
