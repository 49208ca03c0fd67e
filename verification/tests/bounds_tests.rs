use pvss_generator::big::Big;
use pvss_generator::bounds::{gauss_bound, ptxt_high, ptxt_low, BoundsError, InputValidationBounds};
use pvss_generator::config::BfvConfig;

#[test]
fn test_gauss_bound_values() {
    // variance 10: 6 * sqrt(10) = 18.97..., so the bound is 19
    assert_eq!(gauss_bound(10), 19);
    // perfect square: 6 * sqrt(1) = 6 exactly
    assert_eq!(gauss_bound(1), 6);
    assert_eq!(gauss_bound(0), 0);
    // 6 * sqrt(4) = 12 exactly
    assert_eq!(gauss_bound(4), 12);
}

#[test]
fn test_ptxt_bounds_odd_modulus() {
    // odd t: the range is symmetric and spans t - 1
    assert_eq!(ptxt_high(1032193), 516096);
    assert_eq!(ptxt_low(1032193), -516096);
    assert_eq!(ptxt_high(7), 3);
    assert_eq!(ptxt_low(7), -3);
}

#[test]
fn test_ptxt_bounds_even_modulus() {
    // even t: the range is asymmetric by one unit
    assert_eq!(ptxt_high(8), 3);
    assert_eq!(ptxt_low(8), -4);
    assert_eq!(ptxt_high(2), 0);
    assert_eq!(ptxt_low(2), -1);
}

#[test]
fn test_bounds_reference_values() {
    let config = BfvConfig {
        degree: 2048,
        plaintext_modulus: 1032193,
        moduli: vec![18014398492704769],
        variance: 10,
    };
    let bounds = InputValidationBounds::compute(&config, 0).unwrap();
    assert_eq!(bounds.sk_bound, 19);
    assert_eq!(bounds.e_bound, 19);
    assert_eq!(bounds.a_bound, 9007199246352384);
    assert_eq!(bounds.r2_bounds, vec![9007199246352384]);
    assert_eq!(bounds.moduli, vec![18014398492704769]);
    assert_eq!(bounds.size, (10 * 2048 - 4) * 1 + 4 * 2048);
    assert_eq!(bounds.sk, Big::from_u64(19));
    assert_eq!(bounds.a, Big::from_u64(9007199246352384));
}

#[test]
fn test_bounds_small_exact_values() {
    // degree 4, t = 5, q = 17, variance 1: the Gaussian bound is 6, the
    // inverse of -5 mod 17 (that is, of 12) is 10, the half range of t is 2,
    // and the witness bounds come out as
    //   r1_low = floor((-2*10 - ((4*6 + 2)*8 + 6)) / 17) = floor(-234/17) = -14
    //   r1_up  = floor(( 2*10 + ((4*6 + 2)*8 + 6)) / 17) = floor( 234/17) =  13
    let config = BfvConfig { degree: 4, plaintext_modulus: 5, moduli: vec![17], variance: 1 };
    let bounds = InputValidationBounds::compute(&config, 0).unwrap();
    assert_eq!(bounds.sk_bound, 6);
    assert_eq!(bounds.r2_bounds, vec![8]);
    assert_eq!(bounds.r1_low_bounds, vec![-14]);
    assert_eq!(bounds.r1_up_bounds, vec![13]);
    assert_eq!(bounds.r1_low, vec![Big::from_i64(-14)]);
    assert_eq!(bounds.r1_up, vec![Big::from_i64(13)]);
    // q mod t, centered: 17 mod 5 = 2
    assert_eq!(bounds.q_mod_t, Big::from_i64(2));
    assert_eq!(bounds.size, (10 * 4 - 4) * 1 + 4 * 4);
}

#[test]
fn test_bounds_deterministic_tag() {
    let config = BfvConfig {
        degree: 2048,
        plaintext_modulus: 1032193,
        moduli: vec![18014398492704769],
        variance: 10,
    };
    let b1 = InputValidationBounds::compute(&config, 0).unwrap();
    let b2 = InputValidationBounds::compute(&config, 0).unwrap();
    assert_eq!(b1.tag, b2.tag);
    assert_eq!(b1.r1_low_bounds, b2.r1_low_bounds);
    assert_eq!(b1.r1_up_bounds, b2.r1_up_bounds);
    assert_eq!(b1.q_mod_t, b2.q_mod_t);
    // the tag is reduced modulo the product of the moduli
    assert!(Big::zero().le(&b1.tag));
    assert!(b1.tag.lt(&Big::from_u64(18014398492704769)));
    // a drift in the parameters moves the tag
    let other = BfvConfig {
        degree: 1024,
        plaintext_modulus: 1032193,
        moduli: vec![18014398492704769],
        variance: 10,
    };
    let b3 = InputValidationBounds::compute(&other, 0).unwrap();
    assert_ne!(b1.tag, b3.tag);
}

#[test]
fn test_bounds_level_out_of_range() {
    let config = BfvConfig { degree: 4, plaintext_modulus: 5, moduli: vec![17], variance: 1 };
    assert!(matches!(
        InputValidationBounds::compute(&config, 1),
        Err(BoundsError::LevelOutOfRange)
    ));
}

#[test]
fn test_bounds_degree_not_power_of_two() {
    let config = BfvConfig { degree: 3, plaintext_modulus: 5, moduli: vec![17], variance: 1 };
    assert!(matches!(
        InputValidationBounds::compute(&config, 0),
        Err(BoundsError::DegreeNotPowerOfTwo)
    ));
}

#[test]
fn test_bounds_inverse_not_found() {
    // -4 mod 8 is 4, and gcd(4, 8) = 4, so no inverse exists
    let config = BfvConfig { degree: 4, plaintext_modulus: 4, moduli: vec![8], variance: 1 };
    assert!(matches!(
        InputValidationBounds::compute(&config, 0),
        Err(BoundsError::InverseNotFound(0))
    ));
}

#[test]
fn test_bounds_rejects_zero_plaintext() {
    let config = BfvConfig { degree: 4, plaintext_modulus: 0, moduli: vec![17], variance: 1 };
    assert!(matches!(
        InputValidationBounds::compute(&config, 0),
        Err(BoundsError::PlaintextTooSmall)
    ));
}

#[test]
fn test_bounds_rejects_tiny_modulus() {
    let config = BfvConfig { degree: 4, plaintext_modulus: 5, moduli: vec![17, 1], variance: 1 };
    assert!(matches!(
        InputValidationBounds::compute(&config, 0),
        Err(BoundsError::ModulusTooSmall(1))
    ));
}

#[test]
fn test_bounds_size_overflow() {
    // a power-of-two degree so large that the payload size leaves the
    // machine word
    let config = BfvConfig {
        degree: 1usize << 62,
        plaintext_modulus: 5,
        moduli: vec![17],
        variance: 1,
    };
    assert!(matches!(
        InputValidationBounds::compute(&config, 0),
        Err(BoundsError::SizeOverflow)
    ));
}

#[test]
fn test_bounds_level_drops_later_moduli() {
    let config = BfvConfig {
        degree: 4,
        plaintext_modulus: 5,
        moduli: vec![17, 23],
        variance: 1,
    };
    let bounds = InputValidationBounds::compute(&config, 1).unwrap();
    assert_eq!(bounds.moduli, vec![17]);
    assert_eq!(bounds.r2_bounds, vec![8]);
}
