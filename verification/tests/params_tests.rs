use eyvara::params::{DOMAIN_CHALLENGE, DOMAIN_MATRIX, DOMAIN_OUTPUT, Q};
use eyvara::{EYVARA_128, EYVARA_192};

#[test]
fn test_eyvara_i_rejection_bound() {
    assert_eq!(EYVARA_128.rejection_bound(), 131_072 - 78);
}

#[test]
fn test_eyvara_iii_rejection_bound() {
    assert_eq!(EYVARA_192.rejection_bound(), 524_288 - 98);
}

#[test]
fn test_gamma2_divides_q_minus_1() {
    assert_eq!((Q - 1) % (2 * EYVARA_128.gamma_2()), 0);
    assert_eq!((Q - 1) % (2 * EYVARA_192.gamma_2()), 0);
}

#[test]
fn test_domain_tags_are_nonempty() {
    assert_eq!(DOMAIN_CHALLENGE.len(), 16);
    assert!(!DOMAIN_OUTPUT.is_empty());
    assert_eq!(DOMAIN_MATRIX.len(), 16);
}

#[test]
fn parameter_sets_match_the_documented_table() {
    assert_eq!(EYVARA_128.n(), 256);
    assert_eq!(EYVARA_128.k(), 2);
    assert_eq!(EYVARA_128.q(), 8_380_417);
    assert_eq!(EYVARA_192.n(), 256);
    assert_eq!(EYVARA_192.k(), 3);
    assert_eq!(EYVARA_192.q(), 8_380_417);
}

#[test]
fn beta_is_tau_times_eta() {
    for p in [EYVARA_128, EYVARA_192] {
        assert_eq!(p.beta(), p.tau() as i64 * p.eta());
        assert!(p.gamma_1() > p.beta());
        assert!(p.omega() > 0);
    }
    assert_eq!(EYVARA_128.tau(), 39);
    assert_eq!(EYVARA_192.tau(), 49);
    assert_eq!(EYVARA_128.omega(), 80);
    assert_eq!(EYVARA_192.omega(), 120);
    assert_eq!(EYVARA_128.gamma_2(), 95_232);
    assert_eq!(EYVARA_192.gamma_2(), 261_888);
}

#[test]
fn params_from_values_only_sealed_sets() {
    for p in [eyvara::EYVARA_128, eyvara::EYVARA_192] {
        let back = eyvara::Params::from_values(
            p.n(),
            p.k(),
            p.q(),
            p.eta(),
            p.gamma_1(),
            p.gamma_2(),
            p.tau(),
            p.beta(),
            p.omega(),
        );
        assert_eq!(back, Some(p));
    }
    let p = eyvara::EYVARA_128;
    assert_eq!(
        eyvara::Params::from_values(p.n(), 5, p.q(), p.eta(), p.gamma_1(), p.gamma_2(), p.tau(), p.beta(), p.omega()),
        None
    );
}
