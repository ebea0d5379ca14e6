use eyvara::ntt::{montgomery_reduce, ntt_forward, ntt_inverse, ntt_pointwise_mul, reduce_coeff, reduce_poly};
use eyvara::params::{N, Q};

#[test]
fn test_montgomery_reduce_identity() {
    // Montgomery reduce of a * R should give a (approximately)
    let a = 12345i64;
    let ar = a * (1i64 << 32) % Q;
    let result = montgomery_reduce(ar);
    // result should be congruent to a mod Q
    assert_eq!((result % Q + Q) % Q, (a % Q + Q) % Q);
}

#[test]
fn test_ntt_roundtrip() {
    // Forward NTT followed by inverse NTT should recover the input polynomial
    let mut a = [0i64; N];
    for i in 0..N {
        a[i] = (i as i64 * 137 + 42) % Q;
        if a[i] > Q / 2 {
            a[i] -= Q;
        }
    }
    let input = a;

    ntt_forward(&mut a);
    ntt_inverse(&mut a);

    for i in 0..N {
        let reduced = montgomery_reduce(a[i]);
        let got = ((reduced % Q) + Q) % Q;
        let expected = ((input[i] % Q) + Q) % Q;
        assert_eq!(got, expected, "mismatch at index {i}");
    }
}

#[test]
fn test_ntt_zero_polynomial() {
    let mut a = [0i64; N];
    ntt_forward(&mut a);
    for &c in a.iter() {
        assert_eq!(c, 0);
    }
    ntt_inverse(&mut a);
    for &c in a.iter() {
        assert_eq!(c, 0);
    }
}

#[test]
fn montgomery_reduce_exact_values() {
    // 2^32 reduces to 1, and 0 to 0.
    assert_eq!(((montgomery_reduce(1i64 << 32) % Q) + Q) % Q, 1);
    assert_eq!(montgomery_reduce(0), 0);
    // (a * 2^32) * 2^-32 == a for a few residues.
    for a in [1i64, 2, 17, Q - 1, -5] {
        let r = montgomery_reduce(a * (1i64 << 32) % Q);
        assert_eq!((r % Q + Q) % Q, (a % Q + Q) % Q);
    }
}

#[test]
fn reduce_coeff_centers_values() {
    assert_eq!(reduce_coeff(0), 0);
    assert_eq!(reduce_coeff(Q), 0);
    assert_eq!(reduce_coeff(Q + 5), 5);
    assert_eq!(reduce_coeff(-Q - 5), -5);
    assert_eq!(reduce_coeff(Q / 2), Q / 2);
    assert_eq!(reduce_coeff(Q / 2 + 1), Q / 2 + 1 - Q);
    assert_eq!(reduce_coeff(3 * Q - 1), -1);
}

#[test]
fn reduce_poly_centers_every_coefficient() {
    let mut a = [0i64; N];
    for i in 0..N {
        a[i] = (i as i64) * Q + (i as i64) - 128;
    }
    reduce_poly(&mut a);
    for i in 0..N {
        assert_eq!(a[i], i as i64 - 128);
    }
}

#[test]
fn ntt_multiplication_by_one() {
    // The transform of X^0 (the constant 1) multiplied pointwise with the
    // transform of a, then brought back, gives a again after the factors of
    // 2^32 are removed: ntt -> pointwise (one factor 2^-32) -> inverse
    // (one factor 2^32), so the product is a * 1 exactly.
    let mut one = [0i64; N];
    one[0] = 1;
    let mut a = [0i64; N];
    for i in 0..N {
        a[i] = (i as i64 * 31 + 7) % 1000 - 500;
    }
    let before = a;
    ntt_forward(&mut one);
    ntt_forward(&mut a);
    let mut c = ntt_pointwise_mul(&one, &a);
    ntt_inverse(&mut c);
    for i in 0..N {
        assert_eq!(reduce_coeff(c[i]), before[i], "index {i}");
    }
}

#[test]
fn inverse_output_is_centered() {
    let mut a = [0i64; N];
    for i in 0..N {
        a[i] = (i as i64 * 104729 + 17) % (12 * Q) - 6 * Q;
    }
    let input = a;
    ntt_inverse(&mut a);
    for i in 0..N {
        assert!(-(Q - 1) / 2 <= a[i] && a[i] <= (Q - 1) / 2, "index {i}");
    }
    // Forward after inverse gives back the input times 2^32, up to one
    // Montgomery reduction: the input itself modulo q.
    ntt_forward(&mut a);
    for i in 0..N {
        let got = ((montgomery_reduce(a[i]) % Q) + Q) % Q;
        assert_eq!(got, ((input[i] % Q) + Q) % Q, "index {i}");
    }
}

#[test]
fn pointwise_accepts_large_factor_times_small() {
    // Only the products are bounded: a coefficient far beyond 12q times 1.
    let mut a = [0i64; N];
    let mut b = [0i64; N];
    for i in 0..N {
        a[i] = 1_000 * Q + i as i64;
        b[i] = 1;
    }
    let c = ntt_pointwise_mul(&a, &b);
    for i in 0..N {
        assert!(-Q < c[i] && c[i] < Q);
        let lhs = (c[i] as i128 * (1i128 << 32) - a[i] as i128 * b[i] as i128) % Q as i128;
        assert_eq!(lhs, 0, "index {i}");
    }
}

#[test]
fn inverse_accepts_wide_inputs() {
    // Inputs up to 1000q are accepted; the result depends only on residues.
    let mut a = [0i64; N];
    let mut b = [0i64; N];
    for i in 0..N {
        b[i] = (i as i64 * 7) % Q;
        a[i] = b[i] + if i % 2 == 0 { 999 * Q } else { -999 * Q };
    }
    ntt_inverse(&mut a);
    ntt_inverse(&mut b);
    assert_eq!(a, b);
}

#[test]
fn montgomery_reduce_near_machine_limit() {
    let a: i64 = 9_205_357_638_345_293_823;
    let r = montgomery_reduce(a);
    let lhs = (r as i128 * (1i128 << 32) - a as i128) % Q as i128;
    assert_eq!(lhs, 0);
    let r0 = montgomery_reduce(-9_205_357_638_345_293_824);
    let lhs0 = (r0 as i128 * (1i128 << 32) + 9_205_357_638_345_293_824i128) % Q as i128;
    assert_eq!(lhs0, 0);
}
