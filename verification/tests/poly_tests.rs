use eyvara::ntt::reduce_coeff;
use eyvara::params::{N, Q, SEED_SIZE};
use eyvara::poly::{
    expand_a, hint_weight, high_bits, high_bits_poly, high_bits_vec, infinity_norm, infinity_norm_ct,
    infinity_norm_vec, low_bits, low_bits_poly, low_bits_vec, make_hint_coeff, make_hint_poly, make_hint_vec,
    poly_add, poly_mul, poly_neg, poly_scalar_mul, poly_sub, poly_to_bytes, poly_vec_add, poly_vec_sub,
    poly_vec_to_bytes, poly_zero, sample_cbd, sample_cbd_vec, sample_uniform_gamma1, sample_uniform_gamma1_vec,
    use_hint_coeff, use_hint_poly, use_hint_vec, Poly, PolyVec,
};
use eyvara::{EyvaraError, EYVARA_128, EYVARA_192};
use rand::{RngCore, SeedableRng};
use rand_chacha::ChaCha20Rng;

/// The 64-bit words that sampling `k` masking polynomials reads from `rng`,
/// one word per coefficient.
fn draw_words(rng: &mut ChaCha20Rng, k: usize) -> Vec<u64> {
    (0..k * N).map(|_| rng.next_u64()).collect()
}

fn uniform_vec_from_rng(rng: &mut ChaCha20Rng, k: usize, gamma1: i64) -> PolyVec {
    let words = draw_words(rng, k);
    sample_uniform_gamma1_vec(&words, k, gamma1)
}

#[test]
fn test_poly_add_sub_inverse() {
    let mut rng = ChaCha20Rng::seed_from_u64(42);
    let p1 = uniform_vec_from_rng(&mut rng, 1, 1000)[0];
    let p2 = uniform_vec_from_rng(&mut rng, 1, 1000)[0];

    let sum = poly_add(&p1, &p2);
    let diff = poly_sub(&sum, &p2);

    assert_eq!(p1, diff);
}

#[test]
fn test_high_low_bits_reconstruction() {
    let mut rng = ChaCha20Rng::seed_from_u64(42);
    let p = uniform_vec_from_rng(&mut rng, 1, 1000)[0];
    let gamma2 = EYVARA_128.gamma_2();

    let w1 = high_bits_poly(&p, gamma2);
    let w0 = low_bits_poly(&p, gamma2);

    for &coeff in &w0 {
        assert!(coeff.abs() <= gamma2);
    }

    for i in 0..N {
        let reconstructed = w1[i] * 2 * gamma2 + w0[i];
        let diff = reduce_coeff(p[i] - reconstructed);
        assert_eq!(diff, 0, "Reconstruction failed at index {i}");
    }
}

#[test]
fn test_make_use_hint_roundtrip_smoke() {
    let gamma2 = EYVARA_128.gamma_2();
    let mut rng = ChaCha20Rng::seed_from_u64(99);

    for _ in 0..100 {
        let r: i64 = (rng.next_u64() % Q as u64) as i64;
        let z: i64 = (rng.next_u64() % (2 * gamma2 as u64)) as i64 - gamma2;
        let hint = make_hint_coeff(z, r, gamma2);
        let _ = use_hint_coeff(hint, ((r + z) % Q + Q) % Q, gamma2);
    }
}

#[test]
fn test_sample_uniform_gamma1_bounds() {
    let mut rng = ChaCha20Rng::seed_from_u64(7);
    let gamma1 = EYVARA_128.gamma_1();
    let words = draw_words(&mut rng, 1);
    let p = sample_uniform_gamma1(&words, gamma1);
    for &c in &p {
        assert!(c > -gamma1 && c <= gamma1, "coefficient {c} out of range");
    }
}

#[test]
fn test_expand_a_deterministic() {
    let rho = [0u8; SEED_SIZE];
    let a1 = expand_a(&rho, 2);
    let a2 = expand_a(&rho, 2);
    for i in 0..2 {
        for j in 0..2 {
            assert_eq!(a1[i][j], a2[i][j], "A[{i}][{j}] differs");
        }
    }
}

#[test]
fn test_vector_length_mismatch_returns_error() {
    let a = vec![poly_zero()];
    let b = vec![poly_zero(), poly_zero()];
    assert_eq!(poly_vec_add(&a, &b), Err(EyvaraError::MalformedProof));
    assert_eq!(poly_vec_sub(&a, &b), Err(EyvaraError::MalformedProof));
}

fn poly_from(f: impl Fn(usize) -> i64) -> Poly {
    let mut p = poly_zero();
    for i in 0..N {
        p[i] = f(i);
    }
    p
}

#[test]
fn poly_add_sub_exact_values() {
    let a = poly_from(|i| i as i64);
    let b = poly_from(|_| Q - 1);
    let s = poly_add(&a, &b);
    // i + (q - 1) = i - 1 (mod q), centered.
    for i in 0..N {
        assert_eq!(s[i], i as i64 - 1);
    }
    let d = poly_sub(&a, &b);
    for i in 0..N {
        assert_eq!(d[i], i as i64 + 1);
    }
    let n = poly_neg(&a);
    for i in 0..N {
        assert_eq!(n[i], -(i as i64));
    }
}

#[test]
fn poly_mul_by_x_rotates_negacyclically() {
    // X * (a_0 + a_1 X + ... + a_255 X^255) = -a_255 + a_0 X + ... + a_254 X^255.
    let mut x = poly_zero();
    x[1] = 1;
    let a = poly_from(|i| (i as i64 * 7) % 100 - 50);
    let c = poly_mul(&x, &a);
    assert_eq!(reduce_coeff(c[0]), -a[255]);
    for i in 1..N {
        assert_eq!(reduce_coeff(c[i]), a[i - 1], "index {i}");
    }
    let c2 = poly_scalar_mul(&x, &a);
    assert_eq!(c, c2);
}

#[test]
fn infinity_norm_values() {
    let mut p = poly_zero();
    assert_eq!(infinity_norm(&p), 0);
    p[3] = -17;
    p[100] = 12;
    assert_eq!(infinity_norm(&p), 17);
    // Q - 1 is -1 centered.
    p[5] = Q - 1;
    assert_eq!(infinity_norm(&p), 17);
    p[7] = Q / 2;
    assert_eq!(infinity_norm(&p), Q / 2);
    assert_eq!(infinity_norm_vec(&[]), 0);
    let mut q = poly_zero();
    q[0] = 40;
    assert_eq!(infinity_norm_vec(&[p, q]), Q / 2);
    assert_eq!(infinity_norm_vec(&[q]), 40);
}

#[test]
fn infinity_norm_ct_matches_branching_norm() {
    let mut rng = ChaCha20Rng::seed_from_u64(5);
    for _ in 0..20 {
        let mut p = poly_zero();
        for i in 0..N {
            p[i] = (rng.next_u64() % (4 * Q as u64)) as i64 - 2 * Q;
        }
        assert_eq!(infinity_norm_ct(&p, Q), infinity_norm(&p));
    }
    let mut p = poly_zero();
    p[0] = -3;
    p[1] = 2;
    assert_eq!(infinity_norm_ct(&p, Q), 3);
}

#[test]
fn high_low_bits_exact_values() {
    let g = EYVARA_128.gamma_2();
    // r = 3 * 2 * gamma2 + 5 splits into (3, 5).
    assert_eq!(high_bits(6 * g + 5, g), 3);
    assert_eq!(low_bits(6 * g + 5, g), 5);
    // Just above a multiple: r0 in (-gamma2, gamma2].
    assert_eq!(high_bits(2 * g + g + 1, g), 2);
    assert_eq!(low_bits(2 * g + g + 1, g), -g + 1);
    // The top of the range wraps to 0.
    assert_eq!(high_bits(Q - 1, g), 0);
    assert_eq!(low_bits(Q - 1, g), -1);
    // Negative inputs are taken mod q first.
    assert_eq!(high_bits(-1, g), 0);
    assert_eq!(low_bits(-1, g), -1);
}

#[test]
fn hint_roundtrip_recovers_high_bits() {
    // UseHint(MakeHint(z, r), r + z) == HighBits(r) for |z| <= gamma2
    // whenever the low bits of r + z leave room for z.
    let g = EYVARA_128.gamma_2();
    let mut rng = ChaCha20Rng::seed_from_u64(11);
    for _ in 0..1000 {
        let r: i64 = (rng.next_u64() % Q as u64) as i64;
        let z: i64 = (rng.next_u64() % 200) as i64 - 100;
        let rz = ((r + z) % Q + Q) % Q;
        let h = make_hint_coeff(-z, rz, g);
        assert_eq!(use_hint_coeff(h, rz, g), high_bits(r, g));
    }
}

#[test]
fn hint_vectors_and_weight() {
    let g = EYVARA_192.gamma_2();
    // r[i] sits on the upper edge of its rounding interval: high bits i % 16,
    // low bits exactly gamma2.
    let r = poly_from(|i| (i as i64 % 16) * 2 * g + g);
    let mut z = poly_zero();
    z[0] = -1;
    z[1] = 1;
    let h = make_hint_poly(&z, &r, g);
    assert_eq!(h.len(), N);
    // Moving down stays in the interval; moving up crosses into the next one.
    assert_eq!(h[0], 0);
    assert_eq!(h[1], 1);
    assert_eq!(hint_weight(&h), 1);
    let (hv, w) = make_hint_vec(&[z, z], &[r, r], g).unwrap();
    assert_eq!(hv.len(), 2 * N);
    assert_eq!(w, 2);
    assert_eq!(make_hint_vec(&[z], &[r, r], g), Err(EyvaraError::MalformedProof));
    let used = use_hint_poly(&h, &r, g).unwrap();
    assert_eq!(used[0], 0);
    assert_eq!(used[1], 2);
    assert_eq!(used[2], 2);
    assert_eq!(use_hint_poly(&h[..10], &r, g), Err(EyvaraError::MalformedProof));
    let used_v = use_hint_vec(&hv, &[r, r], g).unwrap();
    assert_eq!(used_v[1][1], 2);
    assert_eq!(used_v[0][2], 2);
    assert_eq!(use_hint_vec(&hv, &[r], g), Err(EyvaraError::MalformedProof));
    let hv2 = high_bits_vec(&[r], g);
    let lv2 = low_bits_vec(&[r], g);
    assert_eq!(hv2[0][3], 3);
    assert_eq!(lv2[0][3], g);
}

#[test]
fn serialization_is_little_endian_canonical() {
    let mut p = poly_zero();
    p[0] = 1;
    p[1] = -1;
    p[2] = 0x123456;
    let b = poly_to_bytes(&p);
    assert_eq!(b.len(), 4 * N);
    assert_eq!(&b[0..4], &[1, 0, 0, 0]);
    let qm1 = (Q - 1) as u32;
    assert_eq!(&b[4..8], &qm1.to_le_bytes());
    assert_eq!(&b[8..12], &[0x56, 0x34, 0x12, 0]);
    let v = poly_vec_to_bytes(&[p, p]);
    assert_eq!(v.len(), 8 * N);
    assert_eq!(&v[..4 * N], &b[..]);
    assert_eq!(&v[4 * N..], &b[..]);
    assert!(poly_vec_to_bytes(&[]).is_empty());
}

#[test]
fn cbd_sampling_exact_values() {
    // eta = 2: coefficient = (c0 & 1) + (c2 & 1) - (c1 & 1) - (c3 & 1).
    let mut coins = vec![0u32; 4 * N];
    coins[0] = 1;
    coins[2] = 3;
    coins[5] = 1;
    coins[7] = 1;
    let p = sample_cbd(&coins, 2);
    assert_eq!(p[0], 2);
    assert_eq!(p[1], -2);
    for i in 2..N {
        assert_eq!(p[i], 0);
    }
    let mut coins2 = vec![0u32; 2 * 4 * N];
    coins2[4 * N] = 1;
    let v = sample_cbd_vec(&coins2, 2, 2);
    assert_eq!(v.len(), 2);
    assert_eq!(v[0], poly_zero());
    assert_eq!(v[1][0], 1);
}

#[test]
fn uniform_sampling_exact_values() {
    let gamma1 = 1000i64;
    let mut words = vec![0u64; N + 1];
    words[0] = 1999; // 1999 % 2000 - 1000 + 1 = 1000
    words[1] = u64::MAX; // rejected
    words[2] = 0; // -999
    let p = sample_uniform_gamma1(&words, gamma1);
    assert_eq!(p[0], 1000);
    assert_eq!(p[1], -999);
    // The vector sampler continues where the previous polynomial stopped.
    let v = sample_uniform_gamma1_vec(&words, 2, gamma1);
    assert_eq!(v[0], p);
    // Coefficients past the words stay zero.
    assert_eq!(v[1][1], 0);
}
