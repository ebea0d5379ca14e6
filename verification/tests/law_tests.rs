use eyvara::challenge::{challenge_from_xof, hash_to_challenge_seed, hash_vrf_output, sample_in_ball};
use eyvara::eval::bytes_to_words;
use eyvara::keygen::keygen_coins_len;
use eyvara::ntt::{montgomery_reduce, ntt_forward, ntt_inverse, reduce_coeff};
use eyvara::params::{CHALLENGE_XOF_BYTES, N, Q};
use eyvara::poly::{
    expand_a, high_bits, make_hint_coeff, poly_matrix_mul_ntt, poly_scalar_mul, poly_vec_add, poly_vec_sub,
    nested_vec_to_polyvec, poly_mul, poly_zero, polyvec_to_nested_vec, rej_uniform, seed_from_bytes, use_hint_coeff,
    Poly, PolyVec,
};
use eyvara::{eyvara_keygen, EYVARA_128, EYVARA_192};
use rand::{RngCore, SeedableRng};
use rand_chacha::ChaCha20Rng;
use sha3::digest::ExtendableOutput;

#[test]
fn inverse_then_forward_transform_roundtrip() {
    // ntt(intt(a)) == 2^32 * a (mod q): one Montgomery reduction gives a back.
    let mut a = [0i64; N];
    for i in 0..N {
        a[i] = (i as i64 * 7919 + 3) % Q - Q / 2;
    }
    let before = a;
    ntt_inverse(&mut a);
    ntt_forward(&mut a);
    for i in 0..N {
        let got = ((montgomery_reduce(a[i]) % Q) + Q) % Q;
        assert_eq!(got, ((before[i] % Q) + Q) % Q, "index {i}");
    }
}

#[test]
fn residual_identity_on_concrete_keys() {
    // For t = A s + e and z = y + c s: A z - c t == A y - c e (mod q).
    let mut rng = ChaCha20Rng::seed_from_u64(2024);
    let mut seed = [0u8; 32];
    rng.fill_bytes(&mut seed);
    let mut rho = [0u8; 32];
    rng.fill_bytes(&mut rho);
    let coins: Vec<u32> = (0..keygen_coins_len(&EYVARA_192)).map(|_| rng.next_u32()).collect();
    let (pk, sk) = eyvara_keygen(&EYVARA_192, seed, rho, &coins);
    let k = EYVARA_192.k();
    let a = expand_a(&pk.rho, k);
    let mut y: PolyVec = Vec::new();
    for _ in 0..k {
        let mut p = poly_zero();
        for i in 0..N {
            p[i] = (rng.next_u32() % 2001) as i64 - 1000;
        }
        y.push(p);
    }
    let c = sample_in_ball(&[5u8; 32], EYVARA_192.tau());
    let cs: PolyVec = sk.s().iter().map(|s| poly_scalar_mul(&c, s)).collect();
    let z = poly_vec_add(&y, &cs).unwrap();
    let az = poly_matrix_mul_ntt(&a, &z);
    let ct: PolyVec = pk.t.iter().map(|t| poly_scalar_mul(&c, t)).collect();
    let r = poly_vec_sub(&az, &ct).unwrap();
    let w = poly_matrix_mul_ntt(&a, &y);
    let ce: Vec<Poly> = sk.e().iter().map(|e| poly_scalar_mul(&c, e)).collect();
    for j in 0..k {
        for i in 0..N {
            assert_eq!(reduce_coeff(r[j][i] - (w[j][i] - ce[j][i])), 0, "({j}, {i})");
            // The product c e is small: at most tau * eta.
            assert!(reduce_coeff(ce[j][i]).abs() <= EYVARA_192.beta());
        }
    }
}

#[test]
fn hint_lets_verifier_recover_high_bits() {
    // UseHint(MakeHint(-ce, w), w - ce) == HighBits(w) for |ce| <= gamma2.
    let g = EYVARA_192.gamma_2();
    let mut rng = ChaCha20Rng::seed_from_u64(77);
    for _ in 0..2000 {
        let w: i64 = (rng.next_u64() % Q as u64) as i64;
        let ce: i64 = (rng.next_u64() % (2 * g as u64 + 1)) as i64 - g;
        let r = ((w - ce) % Q + Q) % Q;
        let h = make_hint_coeff(-ce, w, g);
        assert_eq!(use_hint_coeff(h, r, g), high_bits(w, g), "w = {w}, ce = {ce}");
    }
}

#[test]
fn challenge_from_xof_exact_values() {
    // tau = 2: positions 254 and 255 are placed; the sign bits come from byte 0.
    let mut bytes = vec![0u8; 10];
    bytes[0] = 0b10;
    bytes[8] = 0;
    bytes[9] = 255;
    let c = challenge_from_xof(&bytes, 2);
    assert_eq!(c[0], 1);
    assert_eq!(c[255], -1);
    assert_eq!(c.iter().filter(|&&v| v != 0).count(), 2);
    // A byte above the current position is rejected.
    let mut bytes = vec![0u8; 11];
    bytes[8] = 255;
    bytes[9] = 3;
    bytes[10] = 3;
    let c = challenge_from_xof(&bytes, 2);
    assert_eq!(c[3], 1);
    assert_eq!(c[254], 0);
    assert_eq!(c[255], 1);
}

#[test]
fn sample_in_ball_hashes_its_seed() {
    let seed = [42u8; 32];
    let mut xof = vec![0u8; CHALLENGE_XOF_BYTES];
    sha3::Shake256::digest_xof(&seed[..], &mut xof);
    assert_eq!(sample_in_ball(&seed, 39), challenge_from_xof(&xof, 39));
}

#[test]
fn output_hash_is_shake256_of_tagged_input() {
    let expected: [u8; 64] = [
        14, 45, 221, 64, 168, 188, 117, 144, 162, 12, 75, 217, 226, 28, 80, 206, 182, 182, 224, 169, 198, 221,
        199, 142, 193, 129, 20, 119, 123, 9, 98, 30, 208, 145, 151, 129, 223, 223, 230, 249, 233, 153, 127, 99,
        217, 244, 131, 247, 80, 150, 0, 255, 14, 10, 147, 38, 225, 167, 116, 115, 26, 174, 214, 83,
    ];
    assert_eq!(hash_vrf_output(b"", b""), expected);
    let expected_seed: [u8; 32] = [
        166, 252, 173, 230, 55, 129, 249, 224, 25, 17, 42, 68, 112, 254, 223, 118, 107, 204, 32, 199, 104, 25,
        230, 216, 50, 82, 1, 50, 86, 57, 29, 191,
    ];
    assert_eq!(hash_to_challenge_seed(&[], &[], b"abc"), expected_seed);
}

#[test]
fn rej_uniform_exact_values() {
    // 1, then 0x7fffff (rejected), then 5, then q - 1 (centered to -1).
    let bytes = [1u8, 0, 0, 0xff, 0xff, 0xff, 5, 0, 0, 0x00, 0xe0, 0x7f];
    let p = rej_uniform(&bytes);
    assert_eq!(p[0], 1);
    assert_eq!(p[1], 5);
    assert_eq!(p[2], -1);
    for i in 3..N {
        assert_eq!(p[i], 0);
    }
    // The top bit of the third byte is masked off: 0x80 | 0 gives 0.
    let p = rej_uniform(&[7, 0, 0x80]);
    assert_eq!(p[0], 7);
}

#[test]
fn bytes_to_words_little_endian() {
    let bytes = [1u8, 0, 0, 0, 0, 0, 0, 0, 0, 1, 0, 0, 0, 0, 0, 0x80, 9];
    let w = bytes_to_words(&bytes);
    assert_eq!(w, vec![1u64, 256 + (0x80u64 << 56)]);
    assert!(bytes_to_words(&[1, 2, 3]).is_empty());
}

#[test]
fn expand_a_entries_are_transformed_uniform_polys() {
    let rho = [3u8; 32];
    let a = expand_a(&rho, 2);
    assert_eq!(a.len(), 2);
    assert_eq!(a[0].len(), 2);
    // Entries differ by position.
    assert_ne!(a[0][0], a[0][1]);
    assert_ne!(a[0][0], a[1][0]);
    // EYVARA_128 uses the same matrix for the same seed.
    let a2 = expand_a(&rho, EYVARA_128.k());
    assert_eq!(a, a2);
}

#[test]
fn output_views_its_bytes() {
    let mut out = eyvara::EyvaraOutput([7u8; 64]);
    assert_eq!(out.as_ref(), &[7u8; 64][..]);
    assert_eq!(out[63], 7);
    out[0] = 1;
    assert_eq!(out.0[0], 1);
}

fn canon(x: i64) -> i64 {
    ((x % Q) + Q) % Q
}

fn schoolbook(a: &Poly, b: &Poly) -> Vec<i64> {
    // sum_j a[j] X^j b in Z[X]/(X^256 + 1), reduced at the end.
    let mut acc = vec![0i128; N];
    for j in 0..N {
        for m in 0..N {
            let prod = a[j] as i128 * b[m] as i128;
            if j + m < N {
                acc[j + m] += prod;
            } else {
                acc[j + m - N] -= prod;
            }
        }
    }
    acc.iter().map(|v| (((v % Q as i128) + Q as i128) % Q as i128) as i64).collect()
}

#[test]
fn product_is_negacyclic_schoolbook() {
    let mut rng = ChaCha20Rng::seed_from_u64(77);
    let mut a = [0i64; N];
    let mut b = [0i64; N];
    for i in 0..N {
        a[i] = (rng.next_u32() % (Q as u32)) as i64 - Q / 2;
        b[i] = (rng.next_u32() % (Q as u32)) as i64 - Q / 2;
    }
    let c = poly_mul(&a, &b);
    let expect = schoolbook(&a, &b);
    for i in 0..N {
        assert_eq!(canon(c[i]), expect[i], "index {i}");
    }
}

#[test]
fn times_x_rotates_with_sign() {
    // X * p moves every coefficient up by one; the top one returns negated.
    let mut x = [0i64; N];
    x[1] = 1;
    let mut p = [0i64; N];
    for i in 0..N {
        p[i] = i as i64 + 1;
    }
    let c = poly_mul(&x, &p);
    assert_eq!(canon(c[0]), canon(-256));
    for i in 1..N {
        assert_eq!(canon(c[i]), i as i64, "index {i}");
    }
}

#[test]
fn challenge_times_short_is_short() {
    // A challenge with tau coefficients of +-1 times a polynomial with
    // coefficients in [-eta, eta] stays within [-tau * eta, tau * eta].
    for (params, seed_byte) in [(EYVARA_128, 3u8), (EYVARA_192, 9u8)] {
        let tau = params.tau();
        let eta = params.eta();
        let c = sample_in_ball(&[seed_byte; 32], tau);
        assert_eq!(c.iter().filter(|&&v| v != 0).count(), tau);
        assert!(c.iter().all(|&v| v == -1 || v == 0 || v == 1));
        // The extreme short polynomial that matches the signs of the challenge
        // at coefficient 0 reaches the bound there.
        let mut e = [0i64; N];
        for m in 0..N {
            // coefficient 0 of c * e is c[0] e[0] - sum_{j >= 1} c[j] e[256 - j].
            e[m] = if m == 0 { c[0] * eta } else { -c[N - m] * eta };
        }
        let prod = poly_mul(&c, &e);
        for m in 0..N {
            let v = canon(prod[m]);
            let centered = if v > Q / 2 { v - Q } else { v };
            assert!(centered.abs() <= params.beta(), "coefficient {m}");
        }
        let v0 = canon(prod[0]);
        assert_eq!(v0, params.beta());
    }
}

#[test]
fn seeds_and_outputs_parse_by_length() {
    let bytes: Vec<u8> = (0..64u8).collect();
    assert_eq!(seed_from_bytes(&bytes[..32]), Some(core::array::from_fn(|i| i as u8)));
    assert_eq!(seed_from_bytes(&bytes[..31]), None);
    assert_eq!(seed_from_bytes(&bytes), None);
    let out = eyvara::EyvaraOutput::from_bytes(&bytes).unwrap();
    assert_eq!(out.0[63], 63);
    assert!(eyvara::EyvaraOutput::from_bytes(&bytes[..63]).is_none());
}

#[test]
fn nested_vectors_roundtrip() {
    let mut v: PolyVec = Vec::new();
    for j in 0..3i64 {
        let mut p = [0i64; N];
        for i in 0..N {
            p[i] = (i as i64 * 31 + j * 1000) % Q - Q / 2;
        }
        v.push(p);
    }
    let nested = polyvec_to_nested_vec(&v);
    assert_eq!(nested.len(), 3);
    assert_eq!(nested[1][5], v[1][5]);
    assert_eq!(nested_vec_to_polyvec(&nested), Some(v));
    // An inner vector of the wrong length is refused.
    let mut short = nested.clone();
    short[2].pop();
    assert_eq!(nested_vec_to_polyvec(&short), None);
}

#[test]
fn matrix_product_with_five_columns() {
    // Each row of A v is sum_j A[i][j] * v[j] in R_q, centered, for any width.
    let rho = [5u8; 32];
    let a = expand_a(&rho, 5);
    let mut v: PolyVec = Vec::new();
    for j in 0..5i64 {
        let mut p = [0i64; N];
        for i in 0..N {
            p[i] = (i as i64 * (j + 3) * 7919) % Q - Q / 2;
        }
        v.push(p);
    }
    let w = poly_matrix_mul_ntt(&a, &v);
    assert_eq!(w.len(), 5);
    // The same product with the columns summed one at a time.
    for i in 0..5 {
        let mut acc = [0i64; N];
        for j in 0..5 {
            let mut col = vec![poly_zero(); 5];
            col[j] = v[j];
            let part = poly_matrix_mul_ntt(&a, &col);
            for m in 0..N {
                acc[m] = canon(acc[m] + part[i][m]);
            }
        }
        for m in 0..N {
            assert!(-(Q - 1) / 2 <= w[i][m] && w[i][m] <= (Q - 1) / 2);
            assert_eq!(canon(w[i][m]), acc[m], "row {i} coefficient {m}");
        }
    }
}
