//! VRF verification for the Eyvara VRF.
//!
//! Verification checks the proof transcript and recomputes the expected output
//! from the recovered high-order commitment bits.
use vstd::prelude::*;
use subtle::ConstantTimeEq;
use crate::challenge::{
    challenge_input, hash_to_challenge_seed, hash_vrf_output, output_input, sample_in_ball,
    sample_in_ball_spec,
};
use crate::error::EyvaraError;
use crate::eval::{
    attempt_spec, eval_spec, lemma_eval_from_attempt, mask_key_spec, mask_vec_spec, residual, EyvaraOutput,
    EyvaraProof,
};
use crate::keygen::{keygen_t, SecretKey};
use crate::ntt::{centered, mq};
use crate::hash::shake256_spec;
use crate::keygen::PublicKey;
use crate::params::{Params, CHALLENGE_SEED_SIZE, CHALLENGE_XOF_MAX_BYTES, N, OUTPUT_SIZE};
use crate::poly::{
    add_vec_spec, high_bits_vec_spec, lemma_hint_recovers, lemma_residual_row, make_hint_flat, make_hint_spec,
    matrix_row, matrix_row_spec, neg_vec_spec, binary_hints, expand_a, expands, hint_weight, infinity_norm_vec, mat_vec_spec, poly_vec_bytes,
    poly_vec_to_bytes, scalar_mul_vec_spec, sub_vec_spec, use_hint_vec, use_hint_vec_spec, vec_norm,
    vec_bounded, vseq, weight,
};

verus! {

/// The high bits that verification recovers from a proof: `UseHint(h, r)` for
/// the residual `r = A(rho) z - c t` and the challenge `c` of `c_tilde`.
pub open spec fn recovered_high_bits(
    p: Params,
    rho: Seq<u8>,
    t: Seq<Seq<int>>,
    c_tilde: Seq<u8>,
    z: Seq<Seq<int>>,
    h: Seq<i8>,
) -> Seq<Seq<int>> {
    let c = sample_in_ball_spec(c_tilde, p.spec_tau() as int);
    let r = sub_vec_spec(mat_vec_spec(rho, p.spec_k() as int, z), scalar_mul_vec_spec(c, t));
    use_hint_vec_spec(h, r, p.spec_gamma_2() as int)
}

/// The outcome of verifying the output `out` and the proof `(c_tilde, z, h)`
/// for input `x` under the public key `(rho, t)`: the first check that fails
/// gives its error, and `Ok(true)` when all pass.
pub open spec fn verify_spec(
    p: Params,
    rho: Seq<u8>,
    t: Seq<Seq<int>>,
    x: Seq<u8>,
    out: Seq<u8>,
    c_tilde: Seq<u8>,
    z: Seq<Seq<int>>,
    h: Seq<i8>,
) -> Result<bool, EyvaraError> {
    let k = p.spec_k() as int;
    if t.len() != k {
        Err(EyvaraError::MalformedPublicKey)
    } else if z.len() != k {
        Err(EyvaraError::MalformedProof)
    } else if h.len() != k * 256 {
        Err(EyvaraError::MalformedProof)
    } else if vec_norm(z) >= p.spec_rejection_bound() {
        Err(EyvaraError::NormBoundExceeded)
    } else if !binary_hints(h) {
        Err(EyvaraError::MalformedProof)
    } else if weight(h) > p.spec_omega() {
        Err(EyvaraError::HintWeightExceeded)
    } else {
        let w1 = recovered_high_bits(p, rho, t, c_tilde, z, h);
        if shake256_spec(challenge_input(w1, t, x), CHALLENGE_SEED_SIZE as nat) != c_tilde {
            Err(EyvaraError::ChallengeMismatch)
        } else if shake256_spec(output_input(poly_vec_bytes(w1), x), OUTPUT_SIZE as nat) != out {
            Err(EyvaraError::OutputMismatch)
        } else {
            Ok(true)
        }
    }
}

/// Calls `<[u8] as subtle::ConstantTimeEq>::ct_eq` and converts the `Choice`
/// into a `bool`: the slices are equal exactly when they have the same length
/// and the same bytes, compared in time independent of their contents.
#[verifier::external_body]
fn bytes_ct_eq(a: &[u8], b: &[u8]) -> (eq: bool)
    ensures
        eq == (a@ == b@),
{
    a.ct_eq(b).into()
}

/// Whether every hint is 0 or 1.
fn hints_are_binary(h: &[i8]) -> (b: bool)
    ensures
        b == binary_hints(h@),
{
    let mut i: usize = 0;
    while i < h.len()
        invariant
            i <= h.len(),
            forall|m: int| 0 <= m < i ==> #[trigger] h@[m] == 0 || h@[m] == 1,
        decreases h.len() - i,
    {
        if h[i] != 0 && h[i] != 1 {
            return false;
        }
        i += 1;
    }
    true
}

/// Whether two 32-byte seeds are equal.
fn seeds_equal(a: &[u8; 32], b: &[u8; 32]) -> (eq: bool)
    ensures
        eq == (a@ == b@),
{
    let mut i: usize = 0;
    while i < 32
        invariant
            i <= 32,
            forall|m: int| 0 <= m < i ==> #[trigger] a@[m] == b@[m],
        decreases 32 - i,
    {
        if a[i] != b[i] {
            return false;
        }
        i += 1;
    }
    assert(a@ =~= b@);
    true
}

/// Verify an Eyvara VRF proof and its claimed output.
///
/// Verification performs, in this order:
///
/// 1. The public key vector has `k` polynomials.
/// 2. The response vector has `k` polynomials and norm below `gamma_1 - beta`.
/// 3. The hint vector has `k * N` entries, all binary, of Hamming weight at
///    most `omega`.
/// 4. The verifier recomputes `r = A z - c t` and recovers `w1_prime` with
///    `UseHint`.
/// 5. The Fiat-Shamir challenge seed is recomputed from `w1_prime`, the public
///    key vector and the input, then compared with the proof's challenge.
/// 6. The expected output `SHAKE-256(DOMAIN_OUTPUT || bytes(w1_prime) || x)`
///    is recomputed and compared with the claimed output in constant time.
///
/// Returns `Ok(true)` only if every check succeeds, and otherwise the error of
/// the first check that fails.
pub fn eyvara_verify(
    params: &Params,
    pk: &PublicKey,
    x: &[u8],
    output: &EyvaraOutput,
    proof: &EyvaraProof,
) -> (res: Result<bool, EyvaraError>)
    ensures
        res == verify_spec(*params, pk.rho@, vseq(pk.t@), x@, output.0@, proof.c_tilde@, vseq(proof.z@), proof.h@),
{
    proof {
        crate::params::lemma_params_wf(*params);
    }
    let k = params.k();
    if pk.t.len() != k {
        return Err(EyvaraError::MalformedPublicKey);
    }
    if proof.z.len() != k {
        return Err(EyvaraError::MalformedProof);
    }
    if proof.h.len() != k * N {
        return Err(EyvaraError::MalformedProof);
    }
    if infinity_norm_vec(proof.z.as_slice()) >= params.rejection_bound() {
        return Err(EyvaraError::NormBoundExceeded);
    }
    if !hints_are_binary(proof.h.as_slice()) {
        return Err(EyvaraError::MalformedProof);
    }
    if hint_weight(proof.h.as_slice()) > params.omega() {
        return Err(EyvaraError::HintWeightExceeded);
    }
    let a_ntt = expand_a(&pk.rho, k);
    assert(expands(a_ntt@, pk.rho@, k as int));
    let c = sample_in_ball(&proof.c_tilde, params.tau());
    let r = match residual(&a_ntt, &proof.z, &c, &pk.t, Ghost(pk.rho@)) {
        Ok(r) => r,
        Err(e) => {
            return Err(e);
        },
    };
    let g2 = params.gamma_2();
    let w1 = match use_hint_vec(proof.h.as_slice(), r.as_slice(), g2) {
        Ok(w) => w,
        Err(e) => {
            return Err(e);
        },
    };
    let ghost w1_spec = recovered_high_bits(
        *params,
        pk.rho@,
        vseq(pk.t@),
        proof.c_tilde@,
        vseq(proof.z@),
        proof.h@,
    );
    assert(vseq(w1@) =~= w1_spec) by {
        assert forall|j: int| 0 <= j < w1.len() implies #[trigger] vseq(w1@)[j] =~= w1_spec[j] by {
            assert forall|m: int| 0 <= m < 256 implies #[trigger] vseq(w1@)[j][m] == w1_spec[j][m] by {
                assert(w1[j][m] == crate::poly::use_hint_spec(proof.h@[j * 256 + m], r[j][m] as int, g2 as int));
                assert(vseq(r@)[j][m] == r[j][m]);
            }
        }
    }
    let c_tilde_prime = hash_to_challenge_seed(w1.as_slice(), pk.t.as_slice(), x);
    if !seeds_equal(&c_tilde_prime, &proof.c_tilde) {
        return Err(EyvaraError::ChallengeMismatch);
    }
    let w1_bytes = poly_vec_to_bytes(w1.as_slice());
    let expected = hash_vrf_output(w1_bytes.as_slice(), x);
    if !bytes_ct_eq(expected.as_slice(), output.0.as_slice()) {
        return Err(EyvaraError::OutputMismatch);
    }
    Ok(true)
}

/// Verification never answers `Ok(false)`: it accepts with `Ok(true)` or
/// rejects with an error.
pub proof fn lemma_verify_never_false(
    p: Params,
    rho: Seq<u8>,
    t: Seq<Seq<int>>,
    x: Seq<u8>,
    out: Seq<u8>,
    c_tilde: Seq<u8>,
    z: Seq<Seq<int>>,
    h: Seq<i8>,
)
    ensures
        verify_spec(p, rho, t, x, out, c_tilde, z, h) != Result::<bool, EyvaraError>::Ok(false),
{
}

/// A proof binds its input to one output: two outputs that verify under the
/// same key with the same input and proof are equal.
pub proof fn lemma_verify_output_unique(
    p: Params,
    rho: Seq<u8>,
    t: Seq<Seq<int>>,
    x: Seq<u8>,
    out1: Seq<u8>,
    out2: Seq<u8>,
    c_tilde: Seq<u8>,
    z: Seq<Seq<int>>,
    h: Seq<i8>,
)
    requires
        verify_spec(p, rho, t, x, out1, c_tilde, z, h) == Result::<bool, EyvaraError>::Ok(true),
        verify_spec(p, rho, t, x, out2, c_tilde, z, h) == Result::<bool, EyvaraError>::Ok(true),
    ensures
        out1 == out2,
{
}

/// For `t = A s + e` and `z = y + c s`, the residual `A z - c t` that
/// verification recomputes has the residues of `A y - c e`.
pub proof fn lemma_residual_identity(
    rho: Seq<u8>,
    k: int,
    y: Seq<Seq<int>>,
    s: Seq<Seq<int>>,
    e: Seq<Seq<int>>,
    c: Seq<int>,
)
    requires
        y.len() == k,
        s.len() == k,
        e.len() == k,
        forall|j: int| 0 <= j < k ==> (#[trigger] y[j]).len() == 256,
        forall|j: int| 0 <= j < k ==> (#[trigger] e[j]).len() == 256,
    ensures
        forall|i: int, m: int|
            0 <= i < k && 0 <= m < 256 ==> mq(
                #[trigger] sub_vec_spec(
                    mat_vec_spec(rho, k, add_vec_spec(y, scalar_mul_vec_spec(c, s))),
                    scalar_mul_vec_spec(c, keygen_t(rho, k, s, e)),
                )[i][m],
            ) == mq(mat_vec_spec(rho, k, y)[i][m] - scalar_mul_vec_spec(c, e)[i][m]),
{
    let z = add_vec_spec(y, scalar_mul_vec_spec(c, s));
    let t = keygen_t(rho, k, s, e);
    assert forall|i: int, m: int| 0 <= i < k && 0 <= m < 256 implies mq(
        #[trigger] sub_vec_spec(mat_vec_spec(rho, k, z), scalar_mul_vec_spec(c, t))[i][m],
    ) == mq(mat_vec_spec(rho, k, y)[i][m] - scalar_mul_vec_spec(c, e)[i][m]) by {
        lemma_residual_row(rho, k, i, y, s, e, c);
        let az = matrix_row_spec(matrix_row(rho, i, k), z);
        let ct = crate::poly::poly_mul_spec(c, t[i]);
        assert(sub_vec_spec(mat_vec_spec(rho, k, z), scalar_mul_vec_spec(c, t))[i][m] == centered(az[m] - ct[m]));
        crate::ntt::lemma_centered_bound(az[m] - ct[m]);
    }
}

/// Honest proofs verify. For a secret key as key generation makes it, whose
/// public vector is `t = A s + e` with `e` short (coefficients in
/// `[-eta, eta]`), the output and proof that evaluation returns pass
/// verification under the matching public key `(rho, t)`.
pub proof fn lemma_honest_proof_verifies(p: Params, sk: SecretKey, x: Seq<u8>)
    requires
        eval_spec(p, sk, x) is Ok,
        sk.spec_t() == keygen_t(sk.spec_rho(), p.spec_k() as int, sk.spec_s(), sk.spec_e()),
        vec_bounded(sk.spec_e(), p.spec_eta() as int),
    ensures
        ({
            let v = eval_spec(p, sk, x)->Ok_0;
            verify_spec(p, sk.spec_rho(), sk.spec_t(), x, v.0, v.1, v.2, v.3) == Result::<bool, EyvaraError>::Ok(true)
        }),
{
    crate::params::lemma_params_wf(p);
    sk.lemma_polys_have_n_coefficients();
    let k = p.spec_k() as int;
    let g2 = p.spec_gamma_2() as int;
    let rho = sk.spec_rho();
    let s = sk.spec_s();
    let e = sk.spec_e();
    let t = sk.spec_t();
    let key = mask_key_spec(sk.spec_seed(), x);
    let n = lemma_eval_from_attempt(p, rho, s, e, t, key, x, 0);
    let v = eval_spec(p, sk, x)->Ok_0;
    assert(attempt_spec(p, rho, s, e, t, key, x, n) == Some(eval_spec(p, sk, x)));
    let y = mask_vec_spec(key, n, k, p.spec_gamma_1() as int);
    let w = mat_vec_spec(rho, k, y);
    let w1 = high_bits_vec_spec(w, g2);
    let c_tilde = shake256_spec(challenge_input(w1, t, x), CHALLENGE_SEED_SIZE as nat);
    let c = sample_in_ball_spec(c_tilde, p.spec_tau() as int);
    let tau = p.spec_tau() as int;
    let eta = p.spec_eta() as int;
    crate::challenge::lemma_challenge_weight(shake256_spec(c_tilde, CHALLENGE_XOF_MAX_BYTES as nat), tau);
    assert(s.len() == k);
    let z = add_vec_spec(y, scalar_mul_vec_spec(c, s));
    assert(t.len() == k);
    assert(e.len() == k);
    let ce = scalar_mul_vec_spec(c, e);
    let h = make_hint_flat(neg_vec_spec(ce), w, g2);
    assert(v.1 == c_tilde && v.2 == z && v.3 == h);
    assert(v.0 == shake256_spec(output_input(poly_vec_bytes(w1), x), OUTPUT_SIZE as nat));
    assert forall|j: int| 0 <= j < k implies (#[trigger] y[j]).len() == 256 by {}
    lemma_residual_identity(rho, k, y, s, e, c);
    let r = sub_vec_spec(mat_vec_spec(rho, k, z), scalar_mul_vec_spec(c, t));
    let w1p = recovered_high_bits(p, rho, t, c_tilde, z, h);
    assert(w1p == use_hint_vec_spec(h, r, g2));
    assert forall|j: int| 0 <= j < k implies #[trigger] w1p[j] =~= w1[j] by {
        assert forall|m: int| 0 <= m < 256 implies #[trigger] w1p[j][m] == w1[j][m] by {
            let idx = j * 256 + m;
            vstd::arithmetic::div_mod::lemma_fundamental_div_mod_converse(idx, 256, j, m);
            assert(0 <= idx < k * 256) by (nonlinear_arith)
                requires
                    idx == j * 256 + m,
                    0 <= j < k,
                    0 <= m < 256,
            ;
            assert(h[idx] == make_hint_spec(neg_vec_spec(ce)[j][m], w[j][m], g2));
            assert(neg_vec_spec(ce)[j][m] == -ce[j][m]);
            assert(mq(r[j][m]) == mq(w[j][m] - ce[j][m]));
            assert(-g2 <= centered(ce[j][m]) <= g2) by {
                assert forall|mm: int| 0 <= mm < 256 implies -eta <= #[trigger] e[j][mm] <= eta by {}
                crate::negacyclic::lemma_sparse_product_bound(c, e[j], tau, eta);
            }
            lemma_hint_recovers(w[j][m], ce[j][m], r[j][m], g2);
        }
    }
    assert(w1p =~= w1);
    assert(binary_hints(h)) by {
        assert forall|i: int| 0 <= i < h.len() implies #[trigger] h[i] == 0 || h[i] == 1 by {}
    }
}

} // verus!
