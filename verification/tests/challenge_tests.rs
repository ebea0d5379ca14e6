use eyvara::challenge::{hash_to_challenge_seed, hash_vrf_output, sample_in_ball};
use eyvara::params::{CHALLENGE_SEED_SIZE, OUTPUT_SIZE};
use eyvara::poly::poly_zero;
use eyvara::EYVARA_128;

#[test]
fn test_sample_in_ball_weight() {
    let seed = [42u8; CHALLENGE_SEED_SIZE];
    let c = sample_in_ball(&seed, EYVARA_128.tau());

    // Count nonzero coefficients
    let weight: usize = c.iter().filter(|&&v| v != 0).count();
    assert_eq!(weight, EYVARA_128.tau(), "challenge should have exactly tau nonzero coefficients");

    // All nonzero coefficients should be ±1
    for &v in c.iter() {
        assert!(v == -1 || v == 0 || v == 1, "coefficient {} not in {{-1, 0, 1}}", v);
    }
}

#[test]
fn test_sample_in_ball_deterministic() {
    let seed = [7u8; CHALLENGE_SEED_SIZE];
    let c1 = sample_in_ball(&seed, 39);
    let c2 = sample_in_ball(&seed, 39);
    assert_eq!(c1, c2);
}

#[test]
fn test_sample_in_ball_different_seeds() {
    let seed1 = [1u8; CHALLENGE_SEED_SIZE];
    let seed2 = [2u8; CHALLENGE_SEED_SIZE];
    let c1 = sample_in_ball(&seed1, 39);
    let c2 = sample_in_ball(&seed2, 39);
    assert_ne!(c1, c2, "different seeds should produce different challenges");
}

#[test]
fn test_hash_vrf_output_deterministic() {
    let s_bytes = b"test_secret_key_bytes";
    let x = b"test_input";
    let o1 = hash_vrf_output(s_bytes, x);
    let o2 = hash_vrf_output(s_bytes, x);
    assert_eq!(o1, o2);
}

#[test]
fn test_hash_vrf_output_different_inputs() {
    let s_bytes = b"test_secret_key_bytes";
    let o1 = hash_vrf_output(s_bytes, b"input1");
    let o2 = hash_vrf_output(s_bytes, b"input2");
    assert_ne!(o1, o2, "different inputs should produce different outputs");
}

#[test]
fn test_hash_vrf_output_size() {
    let o = hash_vrf_output(b"key", b"input");
    assert_eq!(o.len(), OUTPUT_SIZE);
}

#[test]
fn sample_in_ball_weight_for_every_tau() {
    for tau in [0usize, 1, 39, 49, 60] {
        let c = sample_in_ball(&[9u8; 32], tau);
        assert_eq!(c.iter().filter(|&&v| v != 0).count(), tau);
    }
}

#[test]
fn challenge_seed_depends_on_every_part() {
    let w1 = vec![poly_zero(); 2];
    let mut w1b = w1.clone();
    w1b[1][7] = 3;
    let t = vec![poly_zero(); 2];
    let mut tb = t.clone();
    tb[0][0] = 1;
    let a = hash_to_challenge_seed(&w1, &t, b"x");
    assert_eq!(a, hash_to_challenge_seed(&w1, &t, b"x"));
    assert_ne!(a, hash_to_challenge_seed(&w1b, &t, b"x"));
    assert_ne!(a, hash_to_challenge_seed(&w1, &tb, b"x"));
    assert_ne!(a, hash_to_challenge_seed(&w1, &t, b"y"));
    // Not the bare hash of the input: the hash output differs from the
    // output hash of the same bytes.
    assert_ne!(a.to_vec(), hash_vrf_output(b"", b"x")[..32].to_vec());
}

#[test]
fn sample_in_ball_places_exactly_tau() {
    for tau in [39usize, 49, 60] {
        for seed_byte in 0u8..8 {
            let c = sample_in_ball(&[seed_byte; 32], tau);
            assert_eq!(c.iter().filter(|&&v| v != 0).count(), tau);
            assert!(c.iter().all(|&v| v == -1 || v == 0 || v == 1));
        }
    }
}
