use eyvara::keygen::keygen_coins_len;
use eyvara::poly::{expand_a, infinity_norm_vec, poly_matrix_mul_ntt, poly_vec_add};
use eyvara::{eyvara_keygen, Params, PublicKey, SecretKey, EYVARA_128, EYVARA_192};
use rand::{RngCore, SeedableRng};
use rand_chacha::ChaCha20Rng;

/// Key generation with the randomness drawn from `rng` in the order the key
/// generator consumes it: the secret seed, the matrix seed, then the coins.
fn keygen_from_rng(params: &Params, rng: &mut ChaCha20Rng) -> (PublicKey, SecretKey) {
    let mut seed = [0u8; 32];
    rng.fill_bytes(&mut seed);
    let mut rho = [0u8; 32];
    rng.fill_bytes(&mut rho);
    let coins: Vec<u32> = (0..keygen_coins_len(params)).map(|_| rng.next_u32()).collect();
    eyvara_keygen(params, seed, rho, &coins)
}

#[test]
fn test_keygen_produces_valid_keys() {
    // Seeded for determinism; real usage requires OsRng.
    let mut rng = ChaCha20Rng::seed_from_u64(42);
    let (pk, sk) = keygen_from_rng(&EYVARA_128, &mut rng);

    assert_eq!(pk.t.len(), EYVARA_128.k());
    assert!(infinity_norm_vec(sk.s()) <= EYVARA_128.eta());
    assert!(infinity_norm_vec(sk.e()) <= EYVARA_128.eta());
    assert_eq!(pk.t, *sk.t());
    assert_eq!(pk.rho, *sk.rho());
    assert_eq!(&pk, sk.public_key());
}

#[test]
fn test_keygen_different_seeds_different_keys() {
    // Seeded for determinism; real usage requires OsRng.
    let mut rng1 = ChaCha20Rng::seed_from_u64(1);
    // Seeded for determinism; real usage requires OsRng.
    let mut rng2 = ChaCha20Rng::seed_from_u64(2);
    let (pk1, _) = keygen_from_rng(&EYVARA_128, &mut rng1);
    let (pk2, _) = keygen_from_rng(&EYVARA_128, &mut rng2);

    assert_ne!(pk1.rho, pk2.rho);
}

#[test]
fn test_secret_key_debug_redacts_secret_fields() {
    // Seeded for determinism; real usage requires OsRng.
    let mut rng = ChaCha20Rng::seed_from_u64(42);
    let (_, sk) = keygen_from_rng(&EYVARA_128, &mut rng);
    let debug = sk.redacted_debug();

    assert!(debug.contains("[REDACTED]"));
    assert!(!debug.contains("s: [["));
}

#[test]
fn keygen_coins_len_per_parameter_set() {
    assert_eq!(keygen_coins_len(&EYVARA_128), 2 * 2 * 4 * 256);
    assert_eq!(keygen_coins_len(&EYVARA_192), 2 * 3 * 4 * 256);
}

#[test]
fn public_vector_is_a_s_plus_e() {
    let mut rng = ChaCha20Rng::seed_from_u64(3);
    let (pk, sk) = keygen_from_rng(&EYVARA_192, &mut rng);
    let a = expand_a(&pk.rho, 3);
    let as_ = poly_matrix_mul_ntt(&a, sk.s());
    let t = poly_vec_add(&as_, sk.e()).unwrap();
    assert_eq!(t, pk.t);
    assert_eq!(sk.s().len(), 3);
    assert_eq!(sk.e().len(), 3);
}

#[test]
fn keygen_is_a_function_of_its_randomness() {
    let mut coins = vec![0u32; keygen_coins_len(&EYVARA_128)];
    coins[0] = 1;
    let (pk1, sk1) = eyvara_keygen(&EYVARA_128, [1u8; 32], [2u8; 32], &coins);
    let (pk2, _) = eyvara_keygen(&EYVARA_128, [1u8; 32], [2u8; 32], &coins);
    assert_eq!(pk1, pk2);
    assert_eq!(pk1.rho, [2u8; 32]);
    assert_eq!(*sk1.seed(), [1u8; 32]);
    // Coin 0 is the first "a" coin of s[0][0]: s[0][0] = 1, all else 0.
    assert_eq!(sk1.s()[0][0], 1);
    assert_eq!(infinity_norm_vec(sk1.e()), 0);
}

#[test]
fn secret_key_from_parts_keeps_the_parts() {
    let mut rng = ChaCha20Rng::seed_from_u64(8);
    let (pk, sk) = keygen_from_rng(&EYVARA_128, &mut rng);
    let sk2 = SecretKey::from_parts(*sk.rho(), sk.s().clone(), sk.e().clone(), sk.t().clone(), *sk.seed());
    assert_eq!(sk2.public_key(), &pk);
    assert_eq!(sk2.s(), sk.s());
    assert_eq!(sk2.e(), sk.e());
}

#[test]
fn secret_key_debug_exact_text() {
    let coins = vec![0u32; keygen_coins_len(&EYVARA_128)];
    let (_, sk) = eyvara::eyvara_keygen(&EYVARA_128, [9u8; 32], [1u8; 32], &coins);
    let expected = format!(
        "SecretKey {{ rho: {:?}, seed: \"[REDACTED]\", s: \"[REDACTED]\", e: \"[REDACTED]\", t: \"[REDACTED]\", .. }}",
        [1u8; 32]
    );
    assert_eq!(sk.redacted_debug(), expected);
    assert!(sk.redacted_debug().starts_with("SecretKey { rho: [1, 1, "));
}

#[test]
fn secret_key_debug_multi_digit_bytes() {
    let coins = vec![0u32; keygen_coins_len(&EYVARA_128)];
    let mut rho = [0u8; 32];
    for (i, b) in [0u8, 9, 10, 99, 100, 255, 7, 128].iter().enumerate() {
        rho[i] = *b;
    }
    let (_, sk) = eyvara::eyvara_keygen(&EYVARA_128, [9u8; 32], rho, &coins);
    let expected = format!(
        "SecretKey {{ rho: {:?}, seed: \"[REDACTED]\", s: \"[REDACTED]\", e: \"[REDACTED]\", t: \"[REDACTED]\", .. }}",
        rho
    );
    assert_eq!(sk.redacted_debug(), expected);
    assert!(sk.redacted_debug().starts_with("SecretKey { rho: [0, 9, 10, 99, 100, 255, 7, 128, 0, "));
}
