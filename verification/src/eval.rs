//! VRF evaluation with Fiat-Shamir with Aborts.
//!
//! Evaluation is deterministic: the masking vectors of the successive attempts
//! are derived from the secret seed and the input. The VRF output is bound to
//! the high bits of the commitment, which verification recovers from the
//! proof.
use vstd::prelude::*;
use crate::challenge::{
    challenge_input, hash_to_challenge_seed, hash_vrf_output, output_input, sample_in_ball,
    sample_in_ball_spec,
};
use crate::error::EyvaraError;
use crate::hash::{shake256, shake256_spec};
use crate::keygen::SecretKey;
use crate::ntt::{bounded, congruent, iseq, mq, lemma_mq_mq, lemma_pair_congr};
use crate::params::{
    Params, CHALLENGE_SEED_SIZE, DOMAIN_MASK, MASK_XOF_BYTES, MASK_XOF_MAX_BYTES, MAX_ATTEMPTS, N, OUTPUT_SIZE, Q,
    Q_HALF,
};
use crate::poly::{
    add_fits, add_vec_spec, expand_a, expands, high_bits_vec, high_bits_vec_spec, infinity_norm_vec,
    low_bits_vec, low_bits_vec_spec, make_hint_flat, make_hint_spec, make_hint_vec, mat_vec,
    mat_vec_spec, neg_vec_spec, poly_vec_add, poly_vec_bytes, poly_vec_sub, poly_vec_to_bytes,
    sample_uniform_from, scalar_mul_vec, scalar_mul_vec_spec, sub_fits, sub_vec_spec,
    uniform_gamma1_spec, vec_bounded, vec_norm, vseq, weight, zeroize_poly_vec, Poly, PolyVec,
};

verus! {

/// VRF output: a 64-byte pseudorandom value.
#[derive(Debug, Clone, Copy, PartialEq, Eq)]
pub struct EyvaraOutput(pub [u8; 64]);

impl EyvaraOutput {
    /// An output from its bytes: `None` exactly when the string does not hold
    /// 64 bytes.
    pub fn from_bytes(b: &[u8]) -> (r: Option<EyvaraOutput>)
        ensures
            r is Some <==> b@.len() == 64,
            r matches Some(o) ==> o.0@ == b@,
    {
        if b.len() != 64 {
            return None;
        }
        let mut out = [0u8; 64];
        let mut i: usize = 0;
        while i < 64
            invariant
                b@.len() == 64,
                i <= 64,
                forall|m: int| 0 <= m < i ==> #[trigger] out[m] == b@[m],
            decreases 64 - i,
        {
            out[i] = b[i];
            i += 1;
        }
        assert(out@ =~= b@);
        Some(EyvaraOutput(out))
    }
}

impl AsRef<[u8]> for EyvaraOutput {
    /// The output's bytes.
    fn as_ref(&self) -> (r: &[u8])
        ensures
            r@ == self.0@,
    {
        self.0.as_slice()
    }
}

impl core::ops::Deref for EyvaraOutput {
    type Target = [u8; 64];

    /// The output's bytes.
    fn deref(&self) -> (r: &[u8; 64])
        ensures
            r@ == self.0@,
    {
        &self.0
    }
}

impl core::ops::DerefMut for EyvaraOutput {
    /// The output's bytes, for modification.
    fn deref_mut(&mut self) -> (r: &mut [u8; 64])
        ensures
            *r == old(self).0,
            final(self).0 == *final(r),
    {
        &mut self.0
    }
}

/// VRF proof enabling public verification of the output.
#[derive(Debug, Clone, PartialEq, Eq)]
pub struct EyvaraProof {
    /// Challenge seed `c_tilde = H_1(w1 || t || x)`.
    pub c_tilde: [u8; 32],
    /// Response vector `z = y + c * s`.
    pub z: PolyVec,
    /// Flattened hint vector used to recover the commitment high bits.
    pub h: Vec<i8>,
}

/// Alias for the VRF output type.
pub type VrfOutput = EyvaraOutput;

/// Alias for the VRF proof type.
pub type VrfProof = EyvaraProof;

// ---------------------------------------------------------------------------
// Masking vectors
// ---------------------------------------------------------------------------

/// The input of the hash that derives the masking key from the secret seed
/// and the VRF input.
pub open spec fn mask_key_input(seed: Seq<u8>, x: Seq<u8>) -> Seq<u8> {
    DOMAIN_MASK@ + seed + x
}

/// The 64-byte masking key of an evaluation.
pub open spec fn mask_key_spec(seed: Seq<u8>, x: Seq<u8>) -> Seq<u8> {
    shake256_spec(mask_key_input(seed, x), 64)
}

/// The input of the hash behind masking polynomial `nonce`: the key and the
/// nonce as two little-endian bytes.
pub open spec fn mask_input(key: Seq<u8>, nonce: int) -> Seq<u8> {
    key + seq![(nonce % 256) as u8, (nonce / 256) as u8]
}

/// The little-endian 64-bit word made of the eight bytes at `8 * j`.
pub open spec fn le_word(b: Seq<u8>, j: int) -> u64 {
    let o = 8 * j;
    (b[o] as int + 256 * (b[o + 1] as int + 256 * (b[o + 2] as int + 256 * (b[o + 3] as int + 256 * (
    b[o + 4] as int + 256 * (b[o + 5] as int + 256 * (b[o + 6] as int + 256 * (b[o + 7] as int)))))))) as u64
}

/// A byte string read as little-endian 64-bit words (a trailing partial word
/// is dropped).
pub open spec fn le_words(b: Seq<u8>) -> Seq<u64> {
    Seq::new(b.len() / 8, |j: int| le_word(b, j))
}

/// Masking polynomial `nonce` of a key: uniform in `[-gamma1 + 1, gamma1]`,
/// sampled from the words of `SHAKE-256(key || nonce)`.
pub open spec fn mask_poly_spec(key: Seq<u8>, nonce: int, gamma1: int) -> Seq<int> {
    uniform_gamma1_spec(le_words(shake256_spec(mask_input(key, nonce), MASK_XOF_MAX_BYTES as nat)), gamma1, 0)
}

/// The words of a prefix of a byte string are a prefix of its words.
proof fn lemma_le_words_prefix(b: Seq<u8>, b2: Seq<u8>)
    requires
        b.len() <= b2.len(),
        b == b2.subrange(0, b.len() as int),
    ensures
        le_words(b).len() <= le_words(b2).len(),
        le_words(b) == le_words(b2).subrange(0, le_words(b).len() as int),
{
    vstd::arithmetic::div_mod::lemma_div_is_ordered(b.len() as int, b2.len() as int, 8);
    assert forall|j: int| 0 <= j < le_words(b).len() implies #[trigger] le_words(b)[j] == le_words(b2)[j] by {
        vstd::arithmetic::div_mod::lemma_fundamental_div_mod(b.len() as int, 8);
        assert(8 * j + 7 < b.len());
        assert forall|k: int| 0 <= k < 8 implies #[trigger] b[8 * j + k] == b2[8 * j + k] by {}
        assert(b[8 * j] == b2[8 * j] && b[8 * j + 1] == b2[8 * j + 1] && b[8 * j + 2] == b2[8 * j + 2]
            && b[8 * j + 3] == b2[8 * j + 3] && b[8 * j + 4] == b2[8 * j + 4] && b[8 * j + 5] == b2[8 * j + 5]
            && b[8 * j + 6] == b2[8 * j + 6] && b[8 * j + 7] == b2[8 * j + 7]);
    }
    assert(le_words(b) =~= le_words(b2).subrange(0, le_words(b).len() as int));
}

/// Masking polynomial sampled from `SHAKE-256(input)`: the first
/// `MASK_XOF_BYTES` bytes are read, and the read is doubled until 256 words
/// are accepted, up to `MASK_XOF_MAX_BYTES` bytes.
fn mask_poly(input: &[u8], gamma1: i64) -> (p: Poly)
    requires
        0 < gamma1 <= 0x1000_0000_0000_0000,
    ensures
        iseq(p@) == uniform_gamma1_spec(le_words(shake256_spec(input@, MASK_XOF_MAX_BYTES as nat)), gamma1 as int, 0),
        forall|i: int| 0 <= i < N ==> -gamma1 < #[trigger] p[i] <= gamma1,
{
    let ghost full = le_words(shake256_spec(input@, MASK_XOF_MAX_BYTES as nat));
    let mut len: usize = MASK_XOF_BYTES;
    loop
        invariant
            MASK_XOF_BYTES <= len <= MASK_XOF_MAX_BYTES,
            0 < gamma1 <= 0x1000_0000_0000_0000,
            full == le_words(shake256_spec(input@, MASK_XOF_MAX_BYTES as nat)),
        decreases MASK_XOF_MAX_BYTES - len,
    {
        let bytes = shake256(input, len);
        let words = bytes_to_words(bytes.as_slice());
        let (p, _, count) = sample_uniform_from(words.as_slice(), 0, gamma1);
        if len == MASK_XOF_MAX_BYTES {
            return p;
        }
        if count == N {
            proof {
                crate::hash::lemma_shake256_prefix(input@, len as nat, MASK_XOF_MAX_BYTES as nat);
                lemma_le_words_prefix(bytes@, shake256_spec(input@, MASK_XOF_MAX_BYTES as nat));
                crate::poly::lemma_uniform_scan_prefix(words@, full, gamma1 as int, 0, Seq::empty());
            }
            return p;
        }
        len = if len <= MASK_XOF_MAX_BYTES / 2 {
            2 * len
        } else {
            MASK_XOF_MAX_BYTES
        };
    }
}

/// The masking vector of attempt `attempt`: polynomials `attempt * k + i`.
pub open spec fn mask_vec_spec(key: Seq<u8>, attempt: int, k: int, gamma1: int) -> Seq<Seq<int>> {
    Seq::new(k as nat, |i: int| mask_poly_spec(key, attempt * k + i, gamma1))
}

/// Derive the masking key `SHAKE-256(DOMAIN_MASK || seed || x)`, 64 bytes.
fn mask_key(seed: &[u8; 32], x: &[u8]) -> (key: Vec<u8>)
    ensures
        key@ == mask_key_spec(seed@, x@),
        key.len() == 64,
{
    let mut input: Vec<u8> = Vec::new();
    input.extend_from_slice(DOMAIN_MASK.as_slice());
    input.extend_from_slice(seed.as_slice());
    input.extend_from_slice(x);
    assert(input@ =~= mask_key_input(seed@, x@));
    shake256(input.as_slice(), 64)
}

/// Read a byte string as little-endian 64-bit words.
pub fn bytes_to_words(b: &[u8]) -> (w: Vec<u64>)
    ensures
        w@ == le_words(b@),
{
    let mut w: Vec<u64> = Vec::new();
    let n = b.len() / 8;
    let mut j: usize = 0;
    while j < n
        invariant
            j <= n,
            n == b.len() / 8,
            w.len() == j,
            forall|m: int| 0 <= m < j ==> #[trigger] w[m] == le_word(b@, m),
        decreases n - j,
    {
        let o = 8 * j;
        let v: u64 = b[o] as u64 + 256 * (b[o + 1] as u64 + 256 * (b[o + 2] as u64 + 256 * (b[o + 3] as u64
            + 256 * (b[o + 4] as u64 + 256 * (b[o + 5] as u64 + 256 * (b[o + 6] as u64 + 256 * (b[o + 7] as u64)))))));
        w.push(v);
        j += 1;
    }
    assert(w@ =~= le_words(b@));
    w
}

/// The masking vector of attempt `attempt`.
fn mask_vector(key: &Vec<u8>, attempt: usize, k: usize, gamma1: i64) -> (y: PolyVec)
    requires
        attempt < MAX_ATTEMPTS,
        k <= 3,
        0 < gamma1 <= 0x1000_0000_0000_0000,
    ensures
        y.len() == k,
        vseq(y@) == mask_vec_spec(key@, attempt as int, k as int, gamma1 as int),
        forall|j: int, m: int| 0 <= j < k && 0 <= m < N ==> -gamma1 < #[trigger] y[j][m] <= gamma1,
{
    let mut y: PolyVec = Vec::new();
    let mut i: usize = 0;
    while i < k
        invariant
            i <= k,
            k <= 3,
            attempt < MAX_ATTEMPTS,
            0 < gamma1 <= 0x1000_0000_0000_0000,
            y.len() == i,
            forall|m: int| 0 <= m < i ==> iseq((#[trigger] y[m])@) == mask_poly_spec(key@, attempt * k + m, gamma1 as int),
            forall|j: int, m: int| 0 <= j < i && 0 <= m < N ==> -gamma1 < #[trigger] y[j][m] <= gamma1,
        decreases k - i,
    {
        assert(attempt * k + i < 1024) by (nonlinear_arith)
            requires
                attempt < 256,
                k <= 3,
                i < k,
        ;
        let nonce = attempt * k + i;
        let mut input: Vec<u8> = Vec::new();
        input.extend_from_slice(key.as_slice());
        input.push((nonce % 256) as u8);
        input.push((nonce / 256) as u8);
        assert(input@ =~= mask_input(key@, nonce as int));
        let p = mask_poly(input.as_slice(), gamma1);
        y.push(p);
        i += 1;
    }
    assert(vseq(y@) =~= mask_vec_spec(key@, attempt as int, k as int, gamma1 as int));
    y
}

// ---------------------------------------------------------------------------
// The steps of an attempt
// ---------------------------------------------------------------------------

/// The response `z = y + c * s`, coefficient-wise centered.
///
/// Returns `MalformedProof` exactly when `s` and `y` differ in length.
fn response(y: &PolyVec, c: &Poly, s: &PolyVec) -> (res: Result<PolyVec, EyvaraError>)
    requires
        bounded(c@, 1),
        vec_bounded(vseq(y@), Q as int),
    ensures
        match res {
            Ok(z) => {
                &&& s.len() == y.len()
                &&& vseq(z@) == add_vec_spec(vseq(y@), scalar_mul_vec_spec(iseq(c@), vseq(s@)))
            },
            Err(e) => s.len() != y.len() && e == EyvaraError::MalformedProof,
        },
{
    let mut cs = scalar_mul_vec(c, s.as_slice());
    assert forall|j: int| 0 <= j < y.len() && j < cs.len() implies add_fits((#[trigger] y[j])@, cs[j]@) by {
        assert forall|m: int| 0 <= m < 256 implies i64::MIN <= #[trigger] y[j]@[m] + cs[j]@[m] <= i64::MAX by {
            assert(vseq(y@)[j][m] == y[j][m]);
        }
    }
    let res = poly_vec_add(y.as_slice(), cs.as_slice());
    proof {
        if res is Ok {
            let z = res->Ok_0;
            let ps = scalar_mul_vec_spec(iseq(c@), vseq(s@));
            let spec = add_vec_spec(vseq(y@), ps);
            assert forall|j: int| 0 <= j < y.len() implies #[trigger] vseq(z@)[j] == spec[j] by {
                assert forall|m: int| 0 <= m < 256 implies #[trigger] vseq(z@)[j][m] == spec[j][m] by {
                    assert(z[j][m] == crate::ntt::centered(y[j][m] + cs[j][m]));
                    assert(mq(iseq(cs[j]@)[m]) == mq(ps[j][m]));
                    lemma_pair_congr(y[j][m] as int, cs[j][m] as int, y[j][m] as int, ps[j][m]);
                }
                assert(vseq(z@)[j] =~= spec[j]);
            }
            assert(vseq(z@) =~= spec);
        }
    }
    // c * s reveals the secret: wipe it.
    zeroize_poly_vec(&mut cs);
    res
}

/// The residual `r = A(rho) z - c * t`, coefficient-wise centered.
///
/// Returns `MalformedProof` exactly when `t` and `z` differ in length.
pub(crate) fn residual(
    a_ntt: &Vec<Vec<Poly>>,
    z: &PolyVec,
    c: &Poly,
    t: &PolyVec,
    Ghost(rho): Ghost<Seq<u8>>,
) -> (res: Result<PolyVec, EyvaraError>)
    requires
        expands(a_ntt@, rho, a_ntt.len() as int),
        a_ntt.len() <= 3,
        z.len() == a_ntt.len(),
        bounded(c@, 1),
    ensures
        match res {
            Ok(r) => {
                &&& t.len() == z.len()
                &&& vseq(r@) == sub_vec_spec(
                    mat_vec_spec(rho, z.len() as int, vseq(z@)),
                    scalar_mul_vec_spec(iseq(c@), vseq(t@)),
                )
            },
            Err(e) => t.len() != z.len() && e == EyvaraError::MalformedProof,
        },
{
    let az = mat_vec(a_ntt, z.as_slice(), Ghost(rho));
    let ct = scalar_mul_vec(c, t.as_slice());
    assert forall|j: int| 0 <= j < az.len() && j < ct.len() implies sub_fits((#[trigger] az[j])@, ct[j]@) by {
        assert forall|m: int| 0 <= m < 256 implies i64::MIN <= #[trigger] az[j]@[m] - ct[j]@[m] <= i64::MAX by {
            assert(vseq(az@)[j][m] == az[j][m]);
        }
    }
    let res = poly_vec_sub(az.as_slice(), ct.as_slice());
    proof {
        if res is Ok {
            let r = res->Ok_0;
            let ps = scalar_mul_vec_spec(iseq(c@), vseq(t@));
            let av = mat_vec_spec(rho, z.len() as int, vseq(z@));
            let spec = sub_vec_spec(av, ps);
            assert forall|j: int| 0 <= j < az.len() implies #[trigger] vseq(r@)[j] == spec[j] by {
                assert forall|m: int| 0 <= m < 256 implies #[trigger] vseq(r@)[j][m] == spec[j][m] by {
                    assert(r[j][m] == crate::ntt::centered(az[j][m] - ct[j][m]));
                    assert(mq(iseq(ct[j]@)[m]) == mq(ps[j][m]));
                    assert(vseq(az@)[j][m] == av[j][m]);
                    lemma_pair_congr(az[j][m] as int, ct[j][m] as int, az[j][m] as int, ps[j][m]);
                }
                assert(vseq(r@)[j] =~= spec[j]);
            }
            assert(vseq(r@) =~= spec);
        }
    }
    res
}

/// The hints that let the verifier move from the high bits of `w - c * e` back
/// to those of `w`, with their number.
///
/// Returns `MalformedProof` exactly when `e` and `w` differ in length.
fn hint_vector(c: &Poly, e: &PolyVec, w: &PolyVec, gamma2: i64) -> (res: Result<(Vec<i8>, usize), EyvaraError>)
    requires
        bounded(c@, 1),
        crate::poly::gamma2_ok(gamma2),
        vec_bounded(vseq(w@), Q_HALF as int),
    ensures
        match res {
            Ok((h, wt)) => {
                &&& e.len() == w.len()
                &&& h@ == make_hint_flat(
                    neg_vec_spec(scalar_mul_vec_spec(iseq(c@), vseq(e@))),
                    vseq(w@),
                    gamma2 as int,
                )
                &&& wt == weight(h@)
            },
            Err(err) => e.len() != w.len() && err == EyvaraError::MalformedProof,
        },
{
    let ce = scalar_mul_vec(c, e.as_slice());
    let mut neg: PolyVec = Vec::new();
    let mut j: usize = 0;
    while j < ce.len()
        invariant
            j <= ce.len(),
            neg.len() == j,
            forall|m: int| 0 <= m < ce.len() ==> bounded((#[trigger] ce[m])@, Q - 1),
            forall|m: int, i: int| 0 <= m < j && 0 <= i < N ==> #[trigger] neg[m][i] == crate::ntt::centered(-ce[m][i]),
        decreases ce.len() - j,
    {
        assert(bounded(ce[j as int]@, Q - 1));
        let p = crate::poly::poly_neg(&ce[j]);
        neg.push(p);
        j += 1;
    }
    assert forall|m: int| 0 <= m < neg.len() && m < w.len() implies add_fits((#[trigger] w[m])@, neg[m]@) by {
        assert forall|i: int| 0 <= i < 256 implies i64::MIN <= #[trigger] w[m]@[i] + neg[m]@[i] <= i64::MAX by {
            assert(vseq(w@)[m][i] == w[m][i]);
            crate::ntt::lemma_centered_bound(-ce[m][i]);
        }
    }
    let res = make_hint_vec(neg.as_slice(), w.as_slice(), gamma2);
    proof {
        if res is Ok {
            let ps = scalar_mul_vec_spec(iseq(c@), vseq(e@));
            let spec = make_hint_flat(neg_vec_spec(ps), vseq(w@), gamma2 as int);
            let got = make_hint_flat(vseq(neg@), vseq(w@), gamma2 as int);
            assert forall|t: int| 0 <= t < got.len() implies #[trigger] got[t] == spec[t] by {
                let jj = t / 256;
                let ii = t % 256;
                assert(0 <= jj < neg.len()) by {
                    vstd::arithmetic::div_mod::lemma_div_pos_is_pos(t, 256);
                    vstd::arithmetic::div_mod::lemma_div_by_multiple_is_strongly_ordered(t, (neg.len() * 256) as int, neg.len() as int, 256);
                }
                vstd::arithmetic::div_mod::lemma_mod_bound(t, 256);
                let wv = w[jj][ii] as int;
                let nv = neg[jj][ii] as int;
                assert(mq(iseq(ce[jj]@)[ii]) == mq(ps[jj][ii]));
                crate::ntt::lemma_centered_bound(-ce[jj][ii]);
                lemma_pair_congr(0, ce[jj][ii] as int, 0, ps[jj][ii]);
                lemma_pair_congr(wv, nv, wv, -ps[jj][ii]);
                assert(vseq(neg@)[jj][ii] == nv);
                assert(neg_vec_spec(ps)[jj][ii] == -ps[jj][ii]);
            }
            assert(got =~= spec);
        }
    }
    res
}

// ---------------------------------------------------------------------------
// Evaluation
// ---------------------------------------------------------------------------

/// What an evaluation gives as plain values: the output, the challenge seed,
/// the response and the hints, or an error.
pub type EvalView = Result<(Seq<u8>, Seq<u8>, Seq<Seq<int>>, Seq<i8>), EyvaraError>;

/// Attempt `n` of an evaluation with the key `(rho, s, e, t)`, masking key
/// `key` and input `x`: `None` when rejection sampling discards it, otherwise
/// its result.
pub open spec fn attempt_spec(
    p: Params,
    rho: Seq<u8>,
    s: Seq<Seq<int>>,
    e: Seq<Seq<int>>,
    t: Seq<Seq<int>>,
    key: Seq<u8>,
    x: Seq<u8>,
    n: int,
) -> Option<EvalView> {
    let k = p.spec_k() as int;
    let g2 = p.spec_gamma_2() as int;
    let y = mask_vec_spec(key, n, k, p.spec_gamma_1() as int);
    let w = mat_vec_spec(rho, k, y);
    let w1 = high_bits_vec_spec(w, g2);
    let c_tilde = shake256_spec(challenge_input(w1, t, x), CHALLENGE_SEED_SIZE as nat);
    let c = sample_in_ball_spec(c_tilde, p.spec_tau() as int);
    if s.len() != k {
        Some(Err(EyvaraError::MalformedProof))
    } else {
        let z = add_vec_spec(y, scalar_mul_vec_spec(c, s));
        if vec_norm(z) >= p.spec_rejection_bound() {
            None
        } else if t.len() != k {
            Some(Err(EyvaraError::MalformedProof))
        } else {
            let r = sub_vec_spec(mat_vec_spec(rho, k, z), scalar_mul_vec_spec(c, t));
            if vec_norm(low_bits_vec_spec(r, g2)) >= g2 - p.spec_beta() {
                None
            } else if e.len() != k {
                Some(Err(EyvaraError::MalformedProof))
            } else {
                let h = make_hint_flat(neg_vec_spec(scalar_mul_vec_spec(c, e)), w, g2);
                if weight(h) > p.spec_omega() {
                    None
                } else {
                    Some(Ok((shake256_spec(output_input(poly_vec_bytes(w1), x), OUTPUT_SIZE as nat), c_tilde, z, h)))
                }
            }
        }
    }
}

/// The result of the attempts from `n` on: the first one that is not
/// discarded, or `RejectionSamplingFailed` when all are.
pub open spec fn eval_from(
    p: Params,
    rho: Seq<u8>,
    s: Seq<Seq<int>>,
    e: Seq<Seq<int>>,
    t: Seq<Seq<int>>,
    key: Seq<u8>,
    x: Seq<u8>,
    n: int,
) -> EvalView
    decreases MAX_ATTEMPTS - n,
{
    if n >= MAX_ATTEMPTS {
        Err(EyvaraError::RejectionSamplingFailed)
    } else {
        match attempt_spec(p, rho, s, e, t, key, x, n) {
            Some(r) => r,
            None => eval_from(p, rho, s, e, t, key, x, n + 1),
        }
    }
}

/// The evaluation of the VRF on `x` with the secret key `sk`.
pub open spec fn eval_spec(p: Params, sk: SecretKey, x: Seq<u8>) -> EvalView {
    eval_from(
        p,
        sk.spec_rho(),
        sk.spec_s(),
        sk.spec_e(),
        sk.spec_t(),
        mask_key_spec(sk.spec_seed(), x),
        x,
        0,
    )
}

/// An evaluation result agrees with its description by plain values.
pub open spec fn eval_matches(r: Result<(EyvaraOutput, EyvaraProof), EyvaraError>, v: EvalView) -> bool {
    match r {
        Ok((out, proof)) => {
            &&& v is Ok
            &&& out.0@ == v->Ok_0.0
            &&& proof.c_tilde@ == v->Ok_0.1
            &&& vseq(proof.z@) == v->Ok_0.2
            &&& proof.h@ == v->Ok_0.3
        },
        Err(e) => v == EvalView::Err(e),
    }
}

/// One attempt of the evaluation loop.
fn eval_attempt(
    params: &Params,
    sk: &SecretKey,
    a_ntt: &Vec<Vec<Poly>>,
    key: &Vec<u8>,
    x: &[u8],
    attempt: usize,
) -> (res: Option<Result<(EyvaraOutput, EyvaraProof), EyvaraError>>)
    requires
        attempt < MAX_ATTEMPTS,
        expands(a_ntt@, sk.spec_rho(), params.spec_k() as int),
    ensures
        match attempt_spec(*params, sk.spec_rho(), sk.spec_s(), sk.spec_e(), sk.spec_t(), key@, x@, attempt as int) {
            None => res is None,
            Some(v) => res is Some && eval_matches(res->Some_0, v),
        },
{
    proof {
        crate::params::lemma_params_wf(*params);
    }
    let ghost rho = sk.spec_rho();
    let k = params.k();
    let g2 = params.gamma_2();
    let mut y = mask_vector(key, attempt, k, params.gamma_1());
    let w = mat_vec(a_ntt, y.as_slice(), Ghost(rho));
    let w1 = high_bits_vec(w.as_slice(), g2);
    assert(vseq(w1@) =~= high_bits_vec_spec(vseq(w@), g2 as int)) by {
        assert forall|j: int| 0 <= j < w1.len() implies #[trigger] vseq(w1@)[j] =~= high_bits_vec_spec(vseq(w@), g2 as int)[j] by {
            assert forall|m: int| 0 <= m < 256 implies #[trigger] vseq(w1@)[j][m] == high_bits_vec_spec(vseq(w@), g2 as int)[j][m] by {
                assert(w1[j][m] == crate::poly::high_bits_spec(w[j][m] as int, g2 as int));
            }
        }
    }
    let t = sk.t();
    let c_tilde = hash_to_challenge_seed(w1.as_slice(), t.as_slice(), x);
    let c = sample_in_ball(&c_tilde, params.tau());
    assert(vec_bounded(vseq(y@), Q as int));
    let z = match response(&y, &c, sk.s()) {
        Ok(z) => z,
        Err(e) => {
            zeroize_poly_vec(&mut y);
            return Some(Err(e));
        },
    };
    // The mask hides c * s in z: wipe it once z is known.
    zeroize_poly_vec(&mut y);
    if infinity_norm_vec(z.as_slice()) >= params.rejection_bound() {
        return None;
    }
    let r = match residual(a_ntt, &z, &c, t, Ghost(rho)) {
        Ok(r) => r,
        Err(e) => {
            return Some(Err(e));
        },
    };
    let low_r = low_bits_vec(r.as_slice(), g2);
    assert(vseq(low_r@) =~= low_bits_vec_spec(vseq(r@), g2 as int)) by {
        assert forall|j: int| 0 <= j < low_r.len() implies #[trigger] vseq(low_r@)[j] =~= low_bits_vec_spec(vseq(r@), g2 as int)[j] by {
            assert forall|m: int| 0 <= m < 256 implies #[trigger] vseq(low_r@)[j][m] == low_bits_vec_spec(vseq(r@), g2 as int)[j][m] by {
                assert(low_r[j][m] == crate::poly::low_bits_spec(r[j][m] as int, g2 as int));
            }
        }
    }
    if infinity_norm_vec(low_r.as_slice()) >= g2 - params.beta() {
        return None;
    }
    let (h, hint_w) = match hint_vector(&c, sk.e(), &w, g2) {
        Ok(p) => p,
        Err(e) => {
            return Some(Err(e));
        },
    };
    if hint_w > params.omega() {
        return None;
    }
    let w1_bytes = poly_vec_to_bytes(w1.as_slice());
    let output = EyvaraOutput(hash_vrf_output(w1_bytes.as_slice(), x));
    Some(Ok((output, EyvaraProof { c_tilde, z, h })))
}

/// Evaluates the VRF on `x` and returns the output plus a publicly verifiable
/// proof.
///
/// Evaluation is deterministic: attempt `n` masks with the vector derived from
/// `SHAKE-256(DOMAIN_MASK || seed || x)` and `n`, and the first attempt that
/// rejection sampling keeps gives the result. The output is
/// `SHAKE-256(DOMAIN_OUTPUT || bytes(w1) || x)` for the high bits `w1` of the
/// commitment `A y`.
///
/// # Errors
///
/// Returns [`EyvaraError::RejectionSamplingFailed`] if all `MAX_ATTEMPTS`
/// attempts are rejected, and [`EyvaraError::MalformedProof`] if a secret
/// vector that an attempt uses does not hold `k` polynomials.
pub fn eyvara_eval(params: &Params, sk: &SecretKey, x: &[u8]) -> (res: Result<(EyvaraOutput, EyvaraProof), EyvaraError>)
    ensures
        eval_matches(res, eval_spec(*params, *sk, x@)),
{
    proof {
        crate::params::lemma_params_wf(*params);
    }
    let k = params.k();
    let a_ntt = expand_a(sk.rho(), k);
    let key = mask_key(sk.seed(), x);
    let ghost rho = sk.spec_rho();
    let ghost s = sk.spec_s();
    let ghost e = sk.spec_e();
    let ghost t = sk.spec_t();
    assert(expands(a_ntt@, rho, k as int));
    let mut attempt: usize = 0;
    while attempt < MAX_ATTEMPTS
        invariant
            attempt <= MAX_ATTEMPTS,
            k == params.spec_k(),
            rho == sk.spec_rho(),
            s == sk.spec_s(),
            e == sk.spec_e(),
            t == sk.spec_t(),
            key@ == mask_key_spec(sk.spec_seed(), x@),
            expands(a_ntt@, rho, k as int),
            eval_spec(*params, *sk, x@) == eval_from(*params, rho, s, e, t, key@, x@, attempt as int),
        decreases MAX_ATTEMPTS - attempt,
    {
        let res = eval_attempt(params, sk, &a_ntt, &key, x, attempt);
        if let Some(r) = res {
            return r;
        }
        attempt += 1;
    }
    Err(EyvaraError::RejectionSamplingFailed)
}

// ---------------------------------------------------------------------------
// Laws
// ---------------------------------------------------------------------------

/// Evaluation is deterministic: two results that `eyvara_eval` may return for
/// the same parameters, key and input are the same.
pub proof fn lemma_eval_deterministic(
    p: Params,
    sk: SecretKey,
    x: Seq<u8>,
    r1: Result<(EyvaraOutput, EyvaraProof), EyvaraError>,
    r2: Result<(EyvaraOutput, EyvaraProof), EyvaraError>,
)
    requires
        eval_matches(r1, eval_spec(p, sk, x)),
        eval_matches(r2, eval_spec(p, sk, x)),
    ensures
        r1 is Ok <==> r2 is Ok,
        r1 is Ok ==> {
            &&& r1->Ok_0.0.0@ == r2->Ok_0.0.0@
            &&& r1->Ok_0.1.c_tilde@ == r2->Ok_0.1.c_tilde@
            &&& vseq(r1->Ok_0.1.z@) == vseq(r2->Ok_0.1.z@)
            &&& r1->Ok_0.1.h@ == r2->Ok_0.1.h@
        },
        r1 is Err ==> r1 == r2,
{
}

/// The shape of the proofs from attempt `n` on.
proof fn lemma_eval_from_shape(
    p: Params,
    rho: Seq<u8>,
    s: Seq<Seq<int>>,
    e: Seq<Seq<int>>,
    t: Seq<Seq<int>>,
    key: Seq<u8>,
    x: Seq<u8>,
    n: int,
)
    requires
        eval_from(p, rho, s, e, t, key, x, n) is Ok,
    ensures
        ({
            let v = eval_from(p, rho, s, e, t, key, x, n)->Ok_0;
            &&& v.2.len() == p.spec_k()
            &&& vec_norm(v.2) < p.spec_rejection_bound()
            &&& v.3.len() == p.spec_k() * 256
            &&& crate::poly::binary_hints(v.3)
            &&& weight(v.3) <= p.spec_omega()
        }),
    decreases MAX_ATTEMPTS - n,
{
    if n < MAX_ATTEMPTS {
        match attempt_spec(p, rho, s, e, t, key, x, n) {
            Some(r) => {
                let v = r->Ok_0;
                assert forall|i: int| 0 <= i < v.3.len() implies #[trigger] v.3[i] == 0 || v.3[i] == 1 by {}
            },
            None => {
                lemma_eval_from_shape(p, rho, s, e, t, key, x, n + 1);
            },
        }
    }
}

/// The attempt whose result an evaluation returns, from attempt `n` on.
pub proof fn lemma_eval_from_attempt(
    p: Params,
    rho: Seq<u8>,
    s: Seq<Seq<int>>,
    e: Seq<Seq<int>>,
    t: Seq<Seq<int>>,
    key: Seq<u8>,
    x: Seq<u8>,
    n: int,
) -> (m: int)
    requires
        0 <= n,
        eval_from(p, rho, s, e, t, key, x, n) is Ok,
    ensures
        n <= m < MAX_ATTEMPTS,
        attempt_spec(p, rho, s, e, t, key, x, m) == Some(eval_from(p, rho, s, e, t, key, x, n)),
    decreases MAX_ATTEMPTS - n,
{
    match attempt_spec(p, rho, s, e, t, key, x, n) {
        Some(r) => n,
        None => lemma_eval_from_attempt(p, rho, s, e, t, key, x, n + 1),
    }
}

/// Every proof that evaluation returns passes the structural checks of
/// verification: `k` response polynomials of norm below `gamma_1 - beta`, and
/// `k * N` binary hints of Hamming weight at most `omega`.
pub proof fn lemma_eval_proof_shape(p: Params, sk: SecretKey, x: Seq<u8>)
    requires
        eval_spec(p, sk, x) is Ok,
    ensures
        ({
            let v = eval_spec(p, sk, x)->Ok_0;
            &&& v.2.len() == p.spec_k()
            &&& vec_norm(v.2) < p.spec_rejection_bound()
            &&& v.3.len() == p.spec_k() * 256
            &&& crate::poly::binary_hints(v.3)
            &&& weight(v.3) <= p.spec_omega()
        }),
{
    lemma_eval_from_shape(
        p,
        sk.spec_rho(),
        sk.spec_s(),
        sk.spec_e(),
        sk.spec_t(),
        mask_key_spec(sk.spec_seed(), x),
        x,
        0,
    );
}

/// The residual `A(rho) z - c t` that a verifier recomputes from a proof's
/// response `z` and challenge seed `c_tilde`, for the public key `(rho, t)`.
pub open spec fn proof_residual(p: Params, rho: Seq<u8>, t: Seq<Seq<int>>, c_tilde: Seq<u8>, z: Seq<Seq<int>>) -> Seq<
    Seq<int>,
> {
    let c = sample_in_ball_spec(c_tilde, p.spec_tau() as int);
    sub_vec_spec(mat_vec_spec(rho, p.spec_k() as int, z), scalar_mul_vec_spec(c, t))
}

/// An attempt that is kept passes the three rejection tests.
proof fn lemma_kept_attempt(
    p: Params,
    rho: Seq<u8>,
    s: Seq<Seq<int>>,
    e: Seq<Seq<int>>,
    t: Seq<Seq<int>>,
    key: Seq<u8>,
    x: Seq<u8>,
    n: int,
)
    requires
        attempt_spec(p, rho, s, e, t, key, x, n) matches Some(Ok(_)),
    ensures
        ({
            let v = attempt_spec(p, rho, s, e, t, key, x, n)->Some_0->Ok_0;
            let g2 = p.spec_gamma_2() as int;
            &&& vec_norm(v.2) < p.spec_rejection_bound()
            &&& vec_norm(low_bits_vec_spec(proof_residual(p, rho, t, v.1, v.2), g2)) < g2 - p.spec_beta()
            &&& weight(v.3) <= p.spec_omega()
        }),
{
    let k = p.spec_k() as int;
    let g2 = p.spec_gamma_2() as int;
    let y = mask_vec_spec(key, n, k, p.spec_gamma_1() as int);
    let w = mat_vec_spec(rho, k, y);
    let w1 = high_bits_vec_spec(w, g2);
    let c_tilde = shake256_spec(challenge_input(w1, t, x), CHALLENGE_SEED_SIZE as nat);
    let c = sample_in_ball_spec(c_tilde, p.spec_tau() as int);
    let v = attempt_spec(p, rho, s, e, t, key, x, n)->Some_0->Ok_0;
    assert(s.len() == k);
    let z = add_vec_spec(y, scalar_mul_vec_spec(c, s));
    assert(vec_norm(z) < p.spec_rejection_bound());
    assert(t.len() == k);
    let r = sub_vec_spec(mat_vec_spec(rho, k, z), scalar_mul_vec_spec(c, t));
    assert(vec_norm(low_bits_vec_spec(r, g2)) < g2 - p.spec_beta());
    assert(e.len() == k);
    let h = make_hint_flat(neg_vec_spec(scalar_mul_vec_spec(c, e)), w, g2);
    assert(weight(h) <= p.spec_omega());
    assert(v.1 == c_tilde && v.2 == z && v.3 == h);
    assert(proof_residual(p, rho, t, v.1, v.2) == r);
}

proof fn lemma_eval_from_accepted(
    p: Params,
    rho: Seq<u8>,
    s: Seq<Seq<int>>,
    e: Seq<Seq<int>>,
    t: Seq<Seq<int>>,
    key: Seq<u8>,
    x: Seq<u8>,
    n: int,
)
    requires
        0 <= n,
        eval_from(p, rho, s, e, t, key, x, n) is Ok,
    ensures
        ({
            let v = eval_from(p, rho, s, e, t, key, x, n)->Ok_0;
            let g2 = p.spec_gamma_2() as int;
            &&& vec_norm(v.2) < p.spec_rejection_bound()
            &&& vec_norm(low_bits_vec_spec(proof_residual(p, rho, t, v.1, v.2), g2)) < g2 - p.spec_beta()
            &&& weight(v.3) <= p.spec_omega()
        }),
        exists|m: int|
            n <= m < MAX_ATTEMPTS && attempt_spec(p, rho, s, e, t, key, x, m) == Some(eval_from(p, rho, s, e, t, key, x, n))
                && forall|j: int| n <= j < m ==> (#[trigger] attempt_spec(p, rho, s, e, t, key, x, j)) is None,
    decreases MAX_ATTEMPTS - n,
{
    if n < MAX_ATTEMPTS {
        match attempt_spec(p, rho, s, e, t, key, x, n) {
            Some(r) => {
                assert(attempt_spec(p, rho, s, e, t, key, x, n) == Some(eval_from(p, rho, s, e, t, key, x, n)));
                lemma_kept_attempt(p, rho, s, e, t, key, x, n);
            },
            None => {
                lemma_eval_from_accepted(p, rho, s, e, t, key, x, n + 1);
                let m = choose|m: int|
                    n + 1 <= m < MAX_ATTEMPTS && attempt_spec(p, rho, s, e, t, key, x, m) == Some(
                        eval_from(p, rho, s, e, t, key, x, n + 1),
                    ) && forall|j: int| n + 1 <= j < m ==> (#[trigger] attempt_spec(p, rho, s, e, t, key, x, j)) is None;
                assert forall|j: int| n <= j < m implies (#[trigger] attempt_spec(p, rho, s, e, t, key, x, j)) is None by {}
            },
        }
    }
}

/// Every proof that evaluation returns passes all three rejection tests of
/// Fiat-Shamir with aborts, checked against the public key `(rho, t)` and the
/// proof itself: the response `z` has norm below `gamma_1 - beta`; the low
/// bits of the residual `A z - c t` (with `c` the challenge of `c_tilde`) have
/// norm below `gamma_2 - beta`; and the hint weight is at most `omega`. The
/// result is that of the first attempt that is not discarded.
pub proof fn lemma_eval_passes_rejection_tests(p: Params, sk: SecretKey, x: Seq<u8>)
    requires
        eval_spec(p, sk, x) is Ok,
    ensures
        ({
            let v = eval_spec(p, sk, x)->Ok_0;
            let g2 = p.spec_gamma_2() as int;
            &&& vec_norm(v.2) < p.spec_gamma_1() - p.spec_beta()
            &&& vec_norm(low_bits_vec_spec(proof_residual(p, sk.spec_rho(), sk.spec_t(), v.1, v.2), g2)) < g2
                - p.spec_beta()
            &&& weight(v.3) <= p.spec_omega()
        }),
        exists|m: int|
            0 <= m < MAX_ATTEMPTS && attempt_spec(
                p,
                sk.spec_rho(),
                sk.spec_s(),
                sk.spec_e(),
                sk.spec_t(),
                mask_key_spec(sk.spec_seed(), x),
                x,
                m,
            ) == Some(eval_spec(p, sk, x)) && forall|j: int|
                0 <= j < m ==> (#[trigger] attempt_spec(
                    p,
                    sk.spec_rho(),
                    sk.spec_s(),
                    sk.spec_e(),
                    sk.spec_t(),
                    mask_key_spec(sk.spec_seed(), x),
                    x,
                    j,
                )) is None,
{
    crate::params::lemma_params_wf(p);
    lemma_eval_from_accepted(
        p,
        sk.spec_rho(),
        sk.spec_s(),
        sk.spec_e(),
        sk.spec_t(),
        mask_key_spec(sk.spec_seed(), x),
        x,
        0,
    );
}

} // verus!
