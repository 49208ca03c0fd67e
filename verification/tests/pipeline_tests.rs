use pvss_generator::big::Big;
use pvss_generator::bounds::{ConstraintError, InputValidationBounds};
use pvss_generator::config::BfvConfig;
use pvss_generator::vectors::{InputValidationVectors, VectorsError};

fn center_i128(x: u64, q: u64) -> i128 {
    let r = x % q;
    let h = q / 2;
    if q % 2 == 1 {
        if r > h {
            r as i128 - q as i128
        } else {
            r as i128
        }
    } else {
        if r >= h {
            r as i128 - q as i128
        } else {
            r as i128
        }
    }
}

fn residue(x: i128, q: u64) -> u64 {
    let m = q as i128;
    (((x % m) + m) % m) as u64
}

/// Builds the two ciphertext rows of a well-formed instance: the first is
/// the centered ring reduction of `a * sk + e`, the second carries `-a`.
fn synth_ct_rows(n: usize, q: u64, sk_c: &[i128], e_c: &[i128], a_row: &[u64]) -> (Vec<u64>, Vec<u64>) {
    let a_c: Vec<i128> = a_row.iter().map(|&x| center_i128(x, q)).collect();
    let mut hat = vec![0i128; 2 * n - 1];
    for u in 0..n {
        if sk_c[u] == 0 {
            continue;
        }
        for v in 0..n {
            hat[u + v] += a_c[v] * sk_c[u];
        }
    }
    for k in 0..n {
        hat[k] += e_c[k];
    }
    let mut red = vec![0i128; n];
    for k in 0..n {
        red[k] = hat[k];
    }
    for k in 0..(n - 1) {
        red[k] -= hat[n + k];
    }
    let ct0_row: Vec<u64> = red.iter().map(|&x| residue(x, q)).collect();
    let ct1_row: Vec<u64> = a_row.iter().map(|&x| (q - x % q) % q).collect();
    (ct0_row, ct1_row)
}

fn lcg_next(state: &mut u64) -> u64 {
    *state = state.wrapping_mul(6364136223846793005).wrapping_add(1442695040888963407);
    *state >> 11
}

#[test]
fn test_decomposition_pipeline_small() {
    // a small ring: degree 4, plaintext modulus 5, one modulus 17
    let q = 17u64;
    let n = 4usize;
    let config = BfvConfig { degree: n, plaintext_modulus: 5, moduli: vec![q], variance: 1 };
    let sk_c = [1i128, 0, -1, 1];
    let e_c = [2i128, -3, 0, 1];
    let a_row = vec![5u64, 16, 2, 11];
    let sk_row: Vec<u64> = sk_c.iter().map(|&x| residue(x, q)).collect();
    let e_row: Vec<u64> = e_c.iter().map(|&x| residue(x, q)).collect();
    let (ct0_row, ct1_row) = synth_ct_rows(n, q, &sk_c, &e_c, &a_row);
    let vecs = InputValidationVectors::compute(
        &sk_row,
        &e_row,
        &a_row,
        &vec![ct0_row],
        &vec![ct1_row],
        &config,
    )
    .unwrap();
    assert!(vecs.check_correct_lengths(1, n));
    // vectors straight out of the decomposition satisfy the derived bounds
    let bounds = InputValidationBounds::compute(&config, 0).unwrap();
    let p = Big::from_decimal(
        &b"21888242871839275222246405745257275088548364400416034343698204186575808495617".to_vec(),
    )
    .unwrap();
    assert!(bounds.check_constraints(&vecs, &p).is_ok());
}

#[test]
fn test_decomposition_pipeline_reference_parameters() {
    // degree 2048, odd plaintext modulus 1032193, a single 54-bit modulus,
    // Gaussian bound 19
    let q = 18014398492704769u64;
    let n = 2048usize;
    let config = BfvConfig {
        degree: n,
        plaintext_modulus: 1032193,
        moduli: vec![q],
        variance: 10,
    };
    let bounds = InputValidationBounds::compute(&config, 0).unwrap();
    assert_eq!(bounds.r2_bounds, vec![9007199246352384]);
    assert_eq!(bounds.sk_bound, 19);

    let mut state = 42u64;
    let sk_c: Vec<i128> = (0..n).map(|_| (lcg_next(&mut state) % 3) as i128 - 1).collect();
    let e_c: Vec<i128> = (0..n).map(|_| (lcg_next(&mut state) % 39) as i128 - 19).collect();
    let a_row: Vec<u64> = (0..n).map(|_| lcg_next(&mut state) % q).collect();
    let sk_row: Vec<u64> = sk_c.iter().map(|&x| residue(x, q)).collect();
    let e_row: Vec<u64> = e_c.iter().map(|&x| residue(x, q)).collect();
    let (ct0_row, ct1_row) = synth_ct_rows(n, q, &sk_c, &e_c, &a_row);
    let vecs = InputValidationVectors::compute(
        &sk_row,
        &e_row,
        &a_row,
        &vec![ct0_row],
        &vec![ct1_row],
        &config,
    )
    .unwrap();
    assert!(vecs.check_correct_lengths(1, n));
    let p = Big::from_decimal(
        &b"21888242871839275222246405745257275088548364400416034343698204186575808495617".to_vec(),
    )
    .unwrap();
    assert!(bounds.check_constraints(&vecs, &p).is_ok());
}

#[test]
fn test_constraint_violation_detected() {
    // a secret-key coefficient pushed one past its bound must be caught
    let config = BfvConfig {
        degree: 2048,
        plaintext_modulus: 1032193,
        moduli: vec![18014398492704769],
        variance: 10,
    };
    let bounds = InputValidationBounds::compute(&config, 0).unwrap();
    let p = Big::from_decimal(
        &b"21888242871839275222246405745257275088548364400416034343698204186575808495617".to_vec(),
    )
    .unwrap();
    let mut vecs = InputValidationVectors::new(1, 2048);
    assert!(bounds.check_constraints(&vecs, &p).is_ok());
    vecs.sk[0] = Big::from_u64(bounds.sk_bound + 1);
    assert!(matches!(
        bounds.check_constraints(&vecs, &p),
        Err(ConstraintError::SecretKey)
    ));
}

#[test]
fn test_compute_rejects_wrong_shape() {
    let q = 17u64;
    let config = BfvConfig { degree: 4, plaintext_modulus: 5, moduli: vec![q], variance: 1 };
    let row3 = vec![0u64; 3];
    let row4 = vec![0u64; 4];
    let r = InputValidationVectors::compute(
        &row3,
        &row4,
        &row4,
        &vec![row4.clone()],
        &vec![row4.clone()],
        &config,
    );
    assert!(matches!(r, Err(VectorsError::ShapeMismatch)));
}

#[test]
fn test_compute_rejects_corrupt_ciphertext() {
    let q = 17u64;
    let n = 4usize;
    let config = BfvConfig { degree: n, plaintext_modulus: 5, moduli: vec![q], variance: 1 };
    let sk_c = [1i128, 0, -1, 1];
    let e_c = [2i128, -3, 0, 1];
    let a_row = vec![5u64, 16, 2, 11];
    let sk_row: Vec<u64> = sk_c.iter().map(|&x| residue(x, q)).collect();
    let e_row: Vec<u64> = e_c.iter().map(|&x| residue(x, q)).collect();
    let (mut ct0_row, ct1_row) = synth_ct_rows(n, q, &sk_c, &e_c, &a_row);
    ct0_row[0] = (ct0_row[0] + 1) % q;
    let r = InputValidationVectors::compute(
        &sk_row,
        &e_row,
        &a_row,
        &vec![ct0_row],
        &vec![ct1_row],
        &config,
    );
    assert!(matches!(r, Err(VectorsError::RingCheckFailed(0))));
}

#[test]
fn test_compute_rejects_corrupt_second_component() {
    let q = 17u64;
    let n = 4usize;
    let config = BfvConfig { degree: n, plaintext_modulus: 5, moduli: vec![q], variance: 1 };
    let sk_c = [1i128, 0, -1, 1];
    let e_c = [2i128, -3, 0, 1];
    let a_row = vec![5u64, 16, 2, 11];
    let sk_row: Vec<u64> = sk_c.iter().map(|&x| residue(x, q)).collect();
    let e_row: Vec<u64> = e_c.iter().map(|&x| residue(x, q)).collect();
    let (ct0_row, mut ct1_row) = synth_ct_rows(n, q, &sk_c, &e_c, &a_row);
    ct1_row[2] = (ct1_row[2] + 1) % q;
    let r = InputValidationVectors::compute(
        &sk_row,
        &e_row,
        &a_row,
        &vec![ct0_row],
        &vec![ct1_row],
        &config,
    );
    assert!(matches!(r, Err(VectorsError::Ct1Mismatch(0))));
}

#[test]
fn test_compute_rejects_zero_product() {
    // an all-zero secret key collapses the reconstructed product
    let q = 17u64;
    let n = 4usize;
    let config = BfvConfig { degree: n, plaintext_modulus: 5, moduli: vec![q], variance: 1 };
    let zero_row = vec![0u64; n];
    let r = InputValidationVectors::compute(
        &zero_row,
        &zero_row,
        &zero_row,
        &vec![zero_row.clone()],
        &vec![zero_row.clone()],
        &config,
    );
    assert!(matches!(r, Err(VectorsError::DegenerateProduct)));
}

#[test]
fn test_compute_rejects_leading_zero_identity() {
    // an instance whose ciphertext row starts with a zero coefficient fails
    // the trimmed identity comparison
    let q = 17u64;
    let n = 4usize;
    let config = BfvConfig { degree: n, plaintext_modulus: 5, moduli: vec![q], variance: 1 };
    let sk_c = [0i128, 1, 1, -1];
    let e_c = [-1i128, 4, 2, 0];
    let a_row = vec![3u64, 7, 13, 6];
    let sk_row: Vec<u64> = sk_c.iter().map(|&x| residue(x, q)).collect();
    let e_row: Vec<u64> = e_c.iter().map(|&x| residue(x, q)).collect();
    let (ct0_row, ct1_row) = synth_ct_rows(n, q, &sk_c, &e_c, &a_row);
    let r = InputValidationVectors::compute(
        &sk_row,
        &e_row,
        &a_row,
        &vec![ct0_row],
        &vec![ct1_row],
        &config,
    );
    assert!(matches!(r, Err(VectorsError::IdentityMismatch(0))));
}

#[test]
fn test_compute_rejects_collapsed_high_witness() {
    // a well-shaped instance whose raw difference vanishes entirely: the
    // high witness collapses to the zero polynomial and the reproduction
    // check rejects the collapsed product
    let config = BfvConfig { degree: 2, plaintext_modulus: 5, moduli: vec![17], variance: 1 };
    let sk_row = vec![1u64, 0];
    let e_row = vec![2u64, 0];
    let a_row = vec![5u64, 0];
    let ct0_row = vec![7u64, 0];
    let ct1_row = vec![12u64, 0];
    let r = InputValidationVectors::compute(
        &sk_row,
        &e_row,
        &a_row,
        &vec![ct0_row],
        &vec![ct1_row],
        &config,
    );
    assert!(matches!(r, Err(VectorsError::R2CycloMismatch(0))));
}

#[test]
fn test_decomposition_identity_witnesses() {
    // the witnesses reassemble the ciphertext row exactly over the integers:
    // ct0 == trim(a*sk + e + r1*q + r2*(x^n + 1)), checked here by plain
    // i128 arithmetic outside the library
    let q = 17u64;
    let n = 4usize;
    let config = BfvConfig { degree: n, plaintext_modulus: 5, moduli: vec![q], variance: 1 };
    let sk_c = [0i128, 1, 1, -1];
    let e_c = [-1i128, 4, 2, 1];
    let a_row = vec![3u64, 7, 13, 6];
    let sk_row: Vec<u64> = sk_c.iter().map(|&x| residue(x, q)).collect();
    let e_row: Vec<u64> = e_c.iter().map(|&x| residue(x, q)).collect();
    let (ct0_row, ct1_row) = synth_ct_rows(n, q, &sk_c, &e_c, &a_row);
    let vecs = InputValidationVectors::compute(
        &sk_row,
        &e_row,
        &a_row,
        &vec![ct0_row.clone()],
        &vec![ct1_row],
        &config,
    )
    .unwrap();
    // read the witnesses back as i128 (all values are small here)
    let to_i128 = |b: &Big| -> i128 {
        let mut v: i128 = 0;
        for limb in b.limbs.iter().rev() {
            v = (v << 32) + *limb as i128;
        }
        if b.negative {
            -v
        } else {
            v
        }
    };
    let r1: Vec<i128> = vecs.r1is[0].iter().map(&to_i128).collect();
    let r2: Vec<i128> = vecs.r2is[0].iter().map(&to_i128).collect();
    let a_c: Vec<i128> = vecs.a.iter().map(&to_i128).collect();
    let sk_v: Vec<i128> = vecs.sk.iter().map(&to_i128).collect();
    let e_v: Vec<i128> = vecs.e.iter().map(&to_i128).collect();
    let ct0: Vec<i128> = vecs.ct0is[0].iter().map(&to_i128).collect();
    // all stored highest-degree-first; rebuild hat + r1*q + r2*cyclo
    let mut acc = vec![0i128; 2 * n - 1];
    for u in 0..n {
        for v in 0..n {
            acc[u + v] += a_c[u] * sk_v[v];
        }
    }
    for k in 0..n {
        acc[n - 1 + k] += e_v[k];
    }
    for k in 0..(2 * n - 1) {
        acc[k] += r1[k] * q as i128;
    }
    // r2 has degree n-2; cyclo is x^n + 1
    for j in 0..(n - 1) {
        acc[j] += r2[j];
        acc[j + n] += r2[j];
    }
    // trim leading zeros and compare against the centered ciphertext row
    let trimmed: Vec<i128> = {
        let mut s = acc.clone();
        while !s.is_empty() && s[0] == 0 {
            s.remove(0);
        }
        s
    };
    assert_eq!(trimmed, ct0);
}
