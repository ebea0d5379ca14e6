use eyvara::keygen::keygen_coins_len;
use eyvara::params::{CHALLENGE_SEED_SIZE, N, OUTPUT_SIZE};
use eyvara::poly::infinity_norm_vec;
use eyvara::{
    eyvara_eval, eyvara_keygen, eyvara_verify, EyvaraError, EyvaraOutput, Params, PublicKey, SecretKey,
    EYVARA_128, EYVARA_192,
};
use eyvara::poly::ZeroizingPoly;
use rand::{RngCore, SeedableRng};
use rand_chacha::ChaCha20Rng;

/// Key generation with the randomness drawn from `rng` in the order the key
/// generator consumes it: the secret seed, the matrix seed, then the coins.
fn keygen_from_rng(params: &Params, rng: &mut ChaCha20Rng) -> (PublicKey, SecretKey) {
    let mut seed = [0u8; 32];
    rng.fill_bytes(&mut seed);
    let mut rho = [0u8; 32];
    rng.fill_bytes(&mut rho);
    let coins: Vec<u32> = (0..keygen_coins_len(params)).map(|_| rng.next_u32()).collect();
    eyvara_keygen(params, seed, rho, &coins)
}

#[test]
fn test_correctness_eyvara_128() {
    // Seeded for determinism; real usage requires OsRng.
    let mut rng = ChaCha20Rng::seed_from_u64(12_345);
    let (pk, sk) = keygen_from_rng(&EYVARA_128, &mut rng);

    for i in 0..5 {
        let input = format!("correctness_test_{i}");
        let (beta, proof) = eyvara_eval(&EYVARA_128, &sk, input.as_bytes()).unwrap();

        assert!(
            eyvara_verify(&EYVARA_128, &pk, input.as_bytes(), &beta, &proof).unwrap(),
            "verification should succeed for input '{input}'"
        );
    }
}

#[test]
fn test_correctness_eyvara_192() {
    // Seeded for determinism; real usage requires OsRng.
    let mut rng = ChaCha20Rng::seed_from_u64(54_321);
    let (pk, sk) = keygen_from_rng(&EYVARA_192, &mut rng);

    let input = b"eyvara_192_correctness";
    let (beta, proof) = eyvara_eval(&EYVARA_192, &sk, input).unwrap();

    assert!(
        eyvara_verify(&EYVARA_192, &pk, input, &beta, &proof).unwrap(),
        "EYVARA_192 verification should succeed"
    );
}

#[test]
fn test_eval_is_deterministic() {
    // Seeded for determinism; real usage requires OsRng.
    let mut rng = ChaCha20Rng::seed_from_u64(42);
    let (pk, sk) = keygen_from_rng(&EYVARA_128, &mut rng);
    let input = b"deterministic_eval";

    let (output1, proof1) = eyvara_eval(&EYVARA_128, &sk, input).unwrap();
    let (output2, proof2) = eyvara_eval(&EYVARA_128, &sk, input).unwrap();

    assert_eq!(output1, output2);
    assert_eq!(proof1.c_tilde, proof2.c_tilde);
    assert_eq!(proof1.z, proof2.z);
    assert!(eyvara_verify(&EYVARA_128, &pk, input, &output1, &proof1).unwrap());
}

#[test]
fn test_eval_different_inputs_differ() {
    // Seeded for determinism; real usage requires OsRng.
    let mut rng = ChaCha20Rng::seed_from_u64(42);
    let (_, sk) = keygen_from_rng(&EYVARA_128, &mut rng);

    let (output_a, _) = eyvara_eval(&EYVARA_128, &sk, b"input_a").unwrap();
    let (output_b, _) = eyvara_eval(&EYVARA_128, &sk, b"input_b").unwrap();

    assert_ne!(output_a, output_b);
}

#[test]
fn test_eval_different_keys_differ() {
    // Seeded for determinism; real usage requires OsRng.
    let mut rng1 = ChaCha20Rng::seed_from_u64(42);
    let (_, sk1) = keygen_from_rng(&EYVARA_128, &mut rng1);
    // Seeded for determinism; real usage requires OsRng.
    let mut rng2 = ChaCha20Rng::seed_from_u64(43);
    let (_, sk2) = keygen_from_rng(&EYVARA_128, &mut rng2);
    let input = b"same_input";

    let (output1, _) = eyvara_eval(&EYVARA_128, &sk1, input).unwrap();
    let (output2, _) = eyvara_eval(&EYVARA_128, &sk2, input).unwrap();

    assert_ne!(output1, output2);
}

#[test]
fn test_wrong_key() {
    // Seeded for determinism; real usage requires OsRng.
    let mut rng = ChaCha20Rng::seed_from_u64(42);
    let (_, sk1) = keygen_from_rng(&EYVARA_128, &mut rng);
    let (beta, proof) = eyvara_eval(&EYVARA_128, &sk1, b"wrong_key_test").unwrap();

    // Seeded for determinism; real usage requires OsRng.
    let mut rng2 = ChaCha20Rng::seed_from_u64(77);
    let (pk2, _) = keygen_from_rng(&EYVARA_128, &mut rng2);

    assert_eq!(
        eyvara_verify(&EYVARA_128, &pk2, b"wrong_key_test", &beta, &proof),
        Err(EyvaraError::ChallengeMismatch)
    );
}

#[test]
fn test_wrong_input() {
    // Seeded for determinism; real usage requires OsRng.
    let mut rng = ChaCha20Rng::seed_from_u64(42);
    let (pk, sk) = keygen_from_rng(&EYVARA_128, &mut rng);
    let (beta, proof) = eyvara_eval(&EYVARA_128, &sk, b"original_input").unwrap();

    assert_eq!(
        eyvara_verify(&EYVARA_128, &pk, b"modified_input", &beta, &proof),
        Err(EyvaraError::ChallengeMismatch)
    );
}

#[test]
fn test_tampered_proof() {
    // Seeded for determinism; real usage requires OsRng.
    let mut rng = ChaCha20Rng::seed_from_u64(42);
    let (pk, sk) = keygen_from_rng(&EYVARA_128, &mut rng);
    let input = b"tamper_test";
    let (beta, proof) = eyvara_eval(&EYVARA_128, &sk, input).unwrap();

    let mut tampered = proof.clone();
    tampered.c_tilde[0] ^= 0xFF;
    assert_eq!(
        eyvara_verify(&EYVARA_128, &pk, input, &beta, &tampered),
        Err(EyvaraError::ChallengeMismatch)
    );

    let mut tampered = proof.clone();
    tampered.z[0][0] = tampered.z[0][0].wrapping_add(1);
    assert!(eyvara_verify(&EYVARA_128, &pk, input, &beta, &tampered).is_err());

    let mut tampered = proof;
    tampered.h[0] ^= 1;
    assert!(eyvara_verify(&EYVARA_128, &pk, input, &beta, &tampered).is_err());
}

#[test]
fn test_tampered_output_rejected() {
    // Seeded for determinism; real usage requires OsRng.
    let mut rng = ChaCha20Rng::seed_from_u64(42);
    let (pk, sk) = keygen_from_rng(&EYVARA_128, &mut rng);
    let input = b"tampered_output";
    let (mut output, proof) = eyvara_eval(&EYVARA_128, &sk, input).unwrap();

    output[0] ^= 1;

    assert_eq!(
        eyvara_verify(&EYVARA_128, &pk, input, &output, &proof),
        Err(EyvaraError::OutputMismatch)
    );
}

#[test]
fn test_wrong_output_all_zeros() {
    // Seeded for determinism; real usage requires OsRng.
    let mut rng = ChaCha20Rng::seed_from_u64(43);
    let (pk, sk) = keygen_from_rng(&EYVARA_128, &mut rng);
    let input = b"zero_output";
    let (_output, proof) = eyvara_eval(&EYVARA_128, &sk, input).unwrap();
    let zero_output = EyvaraOutput([0_u8; OUTPUT_SIZE]);

    assert_eq!(
        eyvara_verify(&EYVARA_128, &pk, input, &zero_output, &proof),
        Err(EyvaraError::OutputMismatch)
    );
}

#[test]
fn test_zeroize_compiles() {
    let mut poly = [0_i64; N];
    poly[0] = 7;
    let _wrapped = ZeroizingPoly(poly);
}

#[test]
fn test_rejection_sampling_terminates() {
    // Seeded for determinism; real usage requires OsRng.
    let mut rng = ChaCha20Rng::seed_from_u64(42);
    let (_, sk) = keygen_from_rng(&EYVARA_128, &mut rng);

    for i in 0..100 {
        let input = format!("rejection_test_{i}");
        let result = eyvara_eval(&EYVARA_128, &sk, input.as_bytes());
        assert!(
            result.is_ok(),
            "evaluation should complete for input '{input}'"
        );
    }
}

#[test]
fn test_output_is_uniform_looking() {
    // Seeded for determinism; real usage requires OsRng.
    let mut rng = ChaCha20Rng::seed_from_u64(42);
    let (_, sk) = keygen_from_rng(&EYVARA_128, &mut rng);

    let num_samples = 50;
    let mut byte_counts = [0_u32; 256];

    for i in 0..num_samples {
        let input = format!("uniformity_test_{i}");
        let (beta, _) = eyvara_eval(&EYVARA_128, &sk, input.as_bytes()).unwrap();
        for &b in beta.as_ref() {
            byte_counts[usize::from(b)] += 1;
        }
    }

    let total_bytes = f64::from(num_samples * OUTPUT_SIZE as u32);
    let expected = total_bytes / 256.0;
    let chi_sq = byte_counts.iter().fold(0.0, |acc, &count| {
        let diff = f64::from(count) - expected;
        acc + diff * diff / expected
    });

    assert!(
        chi_sq < 500.0,
        "output bytes do not look uniform: chi-squared = {chi_sq:.1}"
    );
}

#[test]
fn test_proof_norm_bounds() {
    // Seeded for determinism; real usage requires OsRng.
    let mut rng = ChaCha20Rng::seed_from_u64(42);
    let (_, sk) = keygen_from_rng(&EYVARA_128, &mut rng);

    for i in 0..20 {
        let input = format!("norm_test_{i}");
        let (_, proof) = eyvara_eval(&EYVARA_128, &sk, input.as_bytes()).unwrap();

        let norm = infinity_norm_vec(&proof.z);
        assert!(
            norm < EYVARA_128.rejection_bound(),
            "z norm {norm} exceeds rejection bound {}",
            EYVARA_128.rejection_bound()
        );
    }
}

#[test]
fn test_malformed_proof_returns_err() {
    // Seeded for determinism; real usage requires OsRng.
    let mut rng = ChaCha20Rng::seed_from_u64(42);
    let (pk, sk) = keygen_from_rng(&EYVARA_128, &mut rng);
    let input = b"malformed_test";
    let (beta, proof) = eyvara_eval(&EYVARA_128, &sk, input).unwrap();

    let mut bad = proof.clone();
    bad.z.push([0_i64; N]);
    assert_eq!(
        eyvara_verify(&EYVARA_128, &pk, input, &beta, &bad),
        Err(EyvaraError::MalformedProof)
    );

    let mut bad = proof.clone();
    bad.h.push(0);
    assert_eq!(
        eyvara_verify(&EYVARA_128, &pk, input, &beta, &bad),
        Err(EyvaraError::MalformedProof)
    );

    let mut bad = proof;
    bad.h[0] = 2;
    assert_eq!(
        eyvara_verify(&EYVARA_128, &pk, input, &beta, &bad),
        Err(EyvaraError::MalformedProof)
    );
}

#[test]
fn test_malformed_pubkey_returns_err() {
    // Seeded for determinism; real usage requires OsRng.
    let mut rng = ChaCha20Rng::seed_from_u64(42);
    let (mut pk, sk) = keygen_from_rng(&EYVARA_128, &mut rng);
    let input = b"malformed_public_key";
    let (beta, proof) = eyvara_eval(&EYVARA_128, &sk, input).unwrap();

    pk.t.pop();
    assert_eq!(
        eyvara_verify(&EYVARA_128, &pk, input, &beta, &proof),
        Err(EyvaraError::MalformedPublicKey)
    );
}

#[test]
fn test_empty_input() {
    // Seeded for determinism; real usage requires OsRng.
    let mut rng = ChaCha20Rng::seed_from_u64(42);
    let (pk, sk) = keygen_from_rng(&EYVARA_128, &mut rng);

    let input = b"";
    let (beta, proof) = eyvara_eval(&EYVARA_128, &sk, input).unwrap();

    assert!(eyvara_verify(&EYVARA_128, &pk, input, &beta, &proof).unwrap());
}

#[test]
fn test_long_input() {
    // Seeded for determinism; real usage requires OsRng.
    let mut rng = ChaCha20Rng::seed_from_u64(42);
    let (pk, sk) = keygen_from_rng(&EYVARA_128, &mut rng);

    let input = vec![0xAB_u8; 10_000];
    let (beta, proof) = eyvara_eval(&EYVARA_128, &sk, &input).unwrap();

    assert!(eyvara_verify(&EYVARA_128, &pk, &input, &beta, &proof).unwrap());
}

#[test]
fn test_eval_produces_output() {
    // Seeded for determinism; real usage requires OsRng.
    let mut rng = ChaCha20Rng::seed_from_u64(42);
    let (_, sk) = keygen_from_rng(&EYVARA_128, &mut rng);
    let result = eyvara_eval(&EYVARA_128, &sk, b"test input");
    assert!(result.is_ok(), "evaluation should succeed");
}

#[test]
fn test_eval_different_inputs_different_outputs() {
    // Seeded for determinism; real usage requires OsRng.
    let mut rng = ChaCha20Rng::seed_from_u64(42);
    let (_, sk) = keygen_from_rng(&EYVARA_128, &mut rng);

    let (beta1, _) = eyvara_eval(&EYVARA_128, &sk, b"input1").unwrap();
    let (beta2, _) = eyvara_eval(&EYVARA_128, &sk, b"input2").unwrap();

    assert_ne!(beta1, beta2, "different evaluations should differ");
}

#[test]
fn test_eval_proof_structure() {
    // Seeded for determinism; real usage requires OsRng.
    let mut rng = ChaCha20Rng::seed_from_u64(42);
    let (_, sk) = keygen_from_rng(&EYVARA_128, &mut rng);

    let (_, proof) = eyvara_eval(&EYVARA_128, &sk, b"test").unwrap();

    assert_eq!(proof.c_tilde.len(), CHALLENGE_SEED_SIZE);
    assert_eq!(proof.z.len(), EYVARA_128.k());
    assert_eq!(proof.h.len(), EYVARA_128.k() * N);
    assert!(infinity_norm_vec(&proof.z) < EYVARA_128.rejection_bound());

    let hw = proof.h.iter().filter(|&&b| b != 0).count();
    assert!(hw <= EYVARA_128.omega());
}

#[test]
fn test_verify_honest_proof() {
    let mut rng = ChaCha20Rng::seed_from_u64(42);
    let (pk, sk) = keygen_from_rng(&EYVARA_128, &mut rng);
    let input = b"verify test";
    let (beta, proof) = eyvara_eval(&EYVARA_128, &sk, input).unwrap();

    assert!(
        eyvara_verify(&EYVARA_128, &pk, input, &beta, &proof).unwrap(),
        "honest proof should verify"
    );
}

#[test]
fn test_verify_wrong_input() {
    let mut rng = ChaCha20Rng::seed_from_u64(42);
    let (pk, sk) = keygen_from_rng(&EYVARA_128, &mut rng);
    let (beta, proof) = eyvara_eval(&EYVARA_128, &sk, b"correct input").unwrap();

    assert!(
        eyvara_verify(&EYVARA_128, &pk, b"wrong input", &beta, &proof).is_err(),
        "proof should fail for wrong input"
    );
}

#[test]
fn test_verify_wrong_key() {
    let mut rng = ChaCha20Rng::seed_from_u64(42);
    let (_, sk) = keygen_from_rng(&EYVARA_128, &mut rng);
    let (beta, proof) = eyvara_eval(&EYVARA_128, &sk, b"test").unwrap();

    let mut rng2 = ChaCha20Rng::seed_from_u64(99);
    let (pk2, _) = keygen_from_rng(&EYVARA_128, &mut rng2);

    assert!(
        eyvara_verify(&EYVARA_128, &pk2, b"test", &beta, &proof).is_err(),
        "proof should fail with wrong public key"
    );
}

#[test]
fn test_verify_tampered_proof() {
    let mut rng = ChaCha20Rng::seed_from_u64(42);
    let (pk, sk) = keygen_from_rng(&EYVARA_128, &mut rng);
    let (beta, mut proof) = eyvara_eval(&EYVARA_128, &sk, b"tamper test").unwrap();

    proof.c_tilde[0] ^= 1;

    assert!(
        eyvara_verify(&EYVARA_128, &pk, b"tamper test", &beta, &proof).is_err(),
        "tampered proof should fail verification"
    );
}

#[test]
fn verify_norm_and_weight_errors() {
    let mut rng = ChaCha20Rng::seed_from_u64(42);
    let (pk, sk) = keygen_from_rng(&EYVARA_128, &mut rng);
    let input = b"errors";
    let (beta, proof) = eyvara_eval(&EYVARA_128, &sk, input).unwrap();

    let mut bad = proof.clone();
    bad.z[1][5] = EYVARA_128.rejection_bound();
    assert_eq!(eyvara_verify(&EYVARA_128, &pk, input, &beta, &bad), Err(EyvaraError::NormBoundExceeded));

    let mut bad = proof.clone();
    for i in 0..=EYVARA_128.omega() {
        bad.h[i] = 1;
    }
    assert_eq!(eyvara_verify(&EYVARA_128, &pk, input, &beta, &bad), Err(EyvaraError::HintWeightExceeded));

    // A non-binary hint is reported before the weight.
    bad.h[0] = -1;
    assert_eq!(eyvara_verify(&EYVARA_128, &pk, input, &beta, &bad), Err(EyvaraError::MalformedProof));

    // The key is checked before the proof.
    let mut bad_pk = pk.clone();
    bad_pk.t.push(bad_pk.t[0]);
    let mut bad = proof;
    bad.z.pop();
    assert_eq!(eyvara_verify(&EYVARA_128, &bad_pk, input, &beta, &bad), Err(EyvaraError::MalformedPublicKey));
}

#[test]
fn eval_with_malformed_secret_key() {
    let mut rng = ChaCha20Rng::seed_from_u64(42);
    let (_, sk) = keygen_from_rng(&EYVARA_128, &mut rng);
    let mut s = sk.s().clone();
    s.pop();
    let bad = SecretKey::from_parts(*sk.rho(), s, sk.e().clone(), sk.t().clone(), *sk.seed());
    assert_eq!(eyvara_eval(&EYVARA_128, &bad, b"x").unwrap_err(), EyvaraError::MalformedProof);
}

#[test]
fn error_messages() {
    assert_eq!(EyvaraError::MalformedProof.message(), "malformed proof");
    assert_eq!(EyvaraError::MalformedPublicKey.message(), "malformed public key");
    assert_eq!(EyvaraError::HintWeightExceeded.message(), "hint weight exceeded omega");
    assert_eq!(EyvaraError::NormBoundExceeded.message(), "response norm exceeded bound");
    assert_eq!(EyvaraError::ChallengeMismatch.message(), "Fiat-Shamir challenge mismatch");
    assert_eq!(EyvaraError::OutputMismatch.message(), "VRF output does not match proof");
    assert_eq!(
        EyvaraError::RejectionSamplingFailed.message(),
        "rejection sampling failed after max attempts"
    );
}
