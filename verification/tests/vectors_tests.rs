use pvss_generator::big::Big;
use pvss_generator::bounds::InputValidationBounds;
use pvss_generator::config::BfvConfig;
use pvss_generator::vectors::InputValidationVectors;

#[test]
fn test_vector_lengths() {
    let vecs = InputValidationVectors::new(1, 2048);
    assert!(vecs.check_correct_lengths(1, 2048));
    assert!(!vecs.check_correct_lengths(2, 2048));
    assert!(!vecs.check_correct_lengths(1, 1024));
}

#[test]
fn test_standard_form() {
    let vecs = InputValidationVectors::new(1, 2048);
    let p = Big::from_decimal(
        &b"21888242871839275222246405745257275088548364400416034343698204186575808495617".to_vec(),
    )
    .unwrap();
    let std_form = vecs.standard_form(&p);

    // Check that all vectors are properly reduced
    assert!(std_form.sk.iter().all(|x| x.lt(&p)));
    assert!(std_form.e.iter().all(|x| x.lt(&p)));
}

#[test]
fn test_bounds_computation() {
    let config = BfvConfig {
        degree: 2048,
        plaintext_modulus: 1032193,
        moduli: vec![18014398492704769],
        variance: 10,
    };

    // Try to compute bounds
    let _bounds = InputValidationBounds::compute(&config, 0).unwrap();

    println!("Bounds computation successful!");
}

#[test]
fn test_standard_form_exact_values() {
    let mut vecs = InputValidationVectors::new(1, 4);
    vecs.sk[0] = Big::from_i64(-1);
    vecs.sk[1] = Big::from_i64(6);
    let p = Big::from_i64(7);
    let std_form = vecs.standard_form(&p);
    assert_eq!(std_form.sk[0], Big::from_i64(6));
    assert_eq!(std_form.sk[1], Big::from_i64(6));
    assert_eq!(std_form.sk[2], Big::zero());
    // a row already inside [0, p) is unchanged when reduced again with the
    // same modulus
    let twice = std_form.standard_form(&p);
    assert_eq!(twice.sk, std_form.sk);
    assert_eq!(twice.r1is, std_form.r1is);
}
