use pvss_generator::big::Big;
use pvss_generator::poly::{
    range_check_centered, range_check_standard, reduce_and_center, reduce_coefficients,
    Polynomial, PolynomialError,
};

#[test]
fn test_polynomial_creation() {
    let poly = Polynomial::new(vec![Big::from_i64(1), Big::from_i64(2), Big::from_i64(3)]);
    assert_eq!(
        poly.coefficients(),
        &vec![Big::from_i64(1), Big::from_i64(2), Big::from_i64(3)]
    );
    assert_eq!(poly.degree(), 2);
}

#[test]
fn test_zero_polynomial() {
    let zero = Polynomial::zero(3);
    assert_eq!(zero.degree(), 3);
    assert!(zero.is_zero());
}

#[test]
fn test_constant_polynomial() {
    let const_poly = Polynomial::constant(Big::from_i64(42));
    assert_eq!(const_poly.degree(), 0);
    assert_eq!(const_poly.coefficients(), &vec![Big::from_i64(42)]);
}

#[test]
fn test_polynomial_addition() {
    let poly1 = Polynomial::new(vec![Big::from_i64(1), Big::from_i64(2)]);
    let poly2 = Polynomial::new(vec![Big::from_i64(3), Big::from_i64(4)]);
    let result = poly1.add(&poly2);
    assert_eq!(result.coefficients(), &vec![Big::from_i64(4), Big::from_i64(6)]);
}

#[test]
fn test_polynomial_subtraction() {
    let poly1 = Polynomial::new(vec![Big::from_i64(5), Big::from_i64(3)]);
    let poly2 = Polynomial::new(vec![Big::from_i64(2), Big::from_i64(1)]);
    let result = poly1.sub(&poly2);
    assert_eq!(result.coefficients(), &vec![Big::from_i64(3), Big::from_i64(2)]);
}

#[test]
fn test_polynomial_negation() {
    let poly = Polynomial::new(vec![Big::from_i64(1), Big::from_i64(-2), Big::from_i64(3)]);
    let neg_poly = poly.neg();
    assert_eq!(
        neg_poly.coefficients(),
        &vec![Big::from_i64(-1), Big::from_i64(2), Big::from_i64(-3)]
    );
}

#[test]
fn test_polynomial_multiplication() {
    let poly1 = Polynomial::new(vec![Big::from_i64(1), Big::from_i64(2)]); // x + 2
    let poly2 = Polynomial::new(vec![Big::from_i64(1), Big::from_i64(3)]); // x + 3
    let result = poly1.mul(&poly2); // Should be x^2 + 5x + 6
    assert_eq!(
        result.coefficients(),
        &vec![Big::from_i64(1), Big::from_i64(5), Big::from_i64(6)]
    );
}

#[test]
fn test_polynomial_division() {
    let dividend = Polynomial::new(vec![Big::from_i64(1), Big::from_i64(5), Big::from_i64(6)]); // x^2 + 5x + 6
    let divisor = Polynomial::new(vec![Big::from_i64(1), Big::from_i64(2)]); // x + 2
    let (quotient, remainder) = dividend.div(&divisor).unwrap();
    assert_eq!(quotient.coefficients(), &vec![Big::from_i64(1), Big::from_i64(3)]); // x + 3
    assert!(remainder.is_zero());
}

#[test]
fn test_division_by_zero() {
    let poly = Polynomial::new(vec![Big::from_i64(1), Big::from_i64(2)]);
    let zero = Polynomial::zero(0);
    assert!(matches!(poly.div(&zero), Err(PolynomialError::DivisionByZero)));
}

#[test]
fn test_scalar_multiplication() {
    let poly = Polynomial::new(vec![Big::from_i64(1), Big::from_i64(2), Big::from_i64(3)]);
    let scalar = Big::from_i64(5);
    let result = poly.scalar_mul(&scalar);
    assert_eq!(
        result.coefficients(),
        &vec![Big::from_i64(5), Big::from_i64(10), Big::from_i64(15)]
    );
}

#[test]
fn test_polynomial_evaluation() {
    let poly = Polynomial::new(vec![Big::from_i64(1), Big::from_i64(2), Big::from_i64(3)]); // x^2 + 2x + 3
    let result = poly.evaluate(&Big::from_i64(2)); // 1*4 + 2*2 + 3 = 11
    assert_eq!(result, Big::from_i64(11));
}

#[test]
fn test_trim_leading_zeros() {
    let poly = Polynomial::new(vec![
        Big::from_i64(0),
        Big::from_i64(0),
        Big::from_i64(1),
        Big::from_i64(2),
    ]);
    let trimmed = poly.trim_leading_zeros();
    assert_eq!(trimmed.coefficients(), &vec![Big::from_i64(1), Big::from_i64(2)]);
}

#[test]
fn test_reduce_and_center() {
    let poly = Polynomial::new(vec![Big::from_i64(10), Big::from_i64(15), Big::from_i64(20)]);
    let modulus = Big::from_i64(7);
    let result = poly.reduce_and_center(&modulus);
    // 10 % 7 = 3, 15 % 7 = 1, 20 % 7 = 6 -> -1 (centered)
    assert_eq!(
        result.coefficients(),
        &vec![Big::from_i64(3), Big::from_i64(1), Big::from_i64(-1)]
    );
}

#[test]
fn test_reduce_and_center_function() {
    let modulus = Big::from_i64(7);
    let half_modulus = Big::from_i64(3);

    // Test positive number
    assert_eq!(
        reduce_and_center(&Big::from_i64(10), &modulus, &half_modulus),
        Big::from_i64(3)
    );

    // Test negative number
    assert_eq!(
        reduce_and_center(&Big::from_i64(-3), &modulus, &half_modulus),
        Big::from_i64(-3)
    );

    // Test number greater than half modulus
    assert_eq!(
        reduce_and_center(&Big::from_i64(6), &modulus, &half_modulus),
        Big::from_i64(-1)
    );
}

#[test]
fn test_reduce_coefficients() {
    let coeffs = vec![Big::from_i64(10), Big::from_i64(-3), Big::from_i64(15)];
    let modulus = Big::from_i64(7);
    let result = reduce_coefficients(&coeffs, &modulus);
    assert_eq!(
        result,
        vec![Big::from_i64(3), Big::from_i64(4), Big::from_i64(1)]
    );
}

#[test]
fn test_range_check_centered() {
    let vec = vec![Big::from_i64(-2), Big::from_i64(0), Big::from_i64(2)];
    let lower = Big::from_i64(-3);
    let upper = Big::from_i64(3);
    assert!(range_check_centered(&vec, &lower, &upper));

    let vec_out_of_range = vec![Big::from_i64(-5), Big::from_i64(0), Big::from_i64(2)];
    assert!(!range_check_centered(&vec_out_of_range, &lower, &upper));
}

#[test]
fn test_range_check_standard() {
    let vec = vec![Big::from_i64(1), Big::from_i64(2), Big::from_i64(3)];
    let bound = Big::from_i64(5);
    let modulus = Big::from_i64(7);
    assert!(range_check_standard(&vec, &bound, &modulus));
}

#[test]
fn test_division_leading_zero_divisor() {
    let poly = Polynomial::new(vec![Big::from_i64(1), Big::from_i64(2)]);
    let bad = Polynomial::new(vec![Big::from_i64(0), Big::from_i64(3)]);
    assert!(matches!(
        poly.div(&bad),
        Err(PolynomialError::InvalidPolynomial(_))
    ));
}

#[test]
fn test_reduce_and_center_even_modulus() {
    // for an even modulus the centered range is asymmetric: [-m/2, m/2 - 1]
    let modulus = Big::from_i64(8);
    let half_modulus = Big::from_i64(4);
    assert_eq!(
        reduce_and_center(&Big::from_i64(4), &modulus, &half_modulus),
        Big::from_i64(-4)
    );
    assert_eq!(
        reduce_and_center(&Big::from_i64(3), &modulus, &half_modulus),
        Big::from_i64(3)
    );
    assert_eq!(
        reduce_and_center(&Big::from_i64(-5), &modulus, &half_modulus),
        Big::from_i64(3)
    );
}

#[test]
fn test_big_from_decimal() {
    let parsed = Big::from_decimal(&b"123456789012345678901234567890".to_vec()).unwrap();
    let ten = Big::from_u64(10);
    let mut built = Big::zero();
    for d in b"123456789012345678901234567890".iter() {
        let poly = Polynomial::new(vec![built, Big::from_u64((*d - b'0') as u64)]);
        built = poly.evaluate(&ten);
    }
    assert_eq!(parsed, built);
    assert!(Big::from_decimal(&b"12a".to_vec()).is_none());
    assert!(Big::from_decimal(&b"".to_vec()).is_none());
}
