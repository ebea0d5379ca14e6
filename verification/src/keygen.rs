//! Key generation for the Eyvara VRF.
//!
//! The public key holds the matrix seed `rho` and `t = A s + e`; the secret key
//! keeps the short vectors `s` and `e` private.
use vstd::prelude::*;
use zeroize::Zeroize;
use crate::ntt::{centered, intt_spec, iseq};
use crate::params::{Params, N, SEED_SIZE};
use crate::poly::{
    vec_bounded, zeroize_poly_vec, centered_sum, cbd_poly, copy_poly_vec, expand_a, lemma_expanded_row, matrix_row, matrix_row_spec,
    poly_add, poly_matrix_mul_ntt, sample_cbd_vec_from, vseq, Poly, PolyVec,
};

verus! {

/// Public key for the Eyvara VRF.
#[derive(Debug, Clone, PartialEq, Eq)]
pub struct PublicKey {
    /// Seed for the deterministic matrix expansion `ExpandA`.
    pub rho: [u8; 32],
    /// Public vector `t = A s + e mod q`, where `s` and `e` are short secret
    /// vectors.
    pub t: PolyVec,
}

/// Secret key for the Eyvara VRF.
///
/// The key is not cloneable; its fields are reached through getters. It
/// carries its public key, which holds the matrix seed `rho` and the public
/// vector `t`, and it wipes all of its fields when it is dropped.
pub struct SecretKey {
    seed: [u8; 32],
    s: PolyVec,
    e: PolyVec,
    public_key: PublicKey,
}

/// The `s` vector sampled at key generation: `k` polynomials from `CBD(eta)`
/// from the first `k * 2 * eta * N` coins.
pub open spec fn keygen_s(p: Params, coins: Seq<u32>) -> Seq<Seq<int>> {
    let per = 2 * p.spec_eta() * 256;
    Seq::new(p.spec_k() as nat, |j: int| cbd_poly(coins, j * per, p.spec_eta() as int))
}

/// The `e` vector sampled at key generation, from the next `k * 2 * eta * N`
/// coins.
pub open spec fn keygen_e(p: Params, coins: Seq<u32>) -> Seq<Seq<int>> {
    let per = 2 * p.spec_eta() * 256;
    Seq::new(
        p.spec_k() as nat,
        |j: int| cbd_poly(coins, p.spec_k() * per + j * per, p.spec_eta() as int),
    )
}

/// `t = A(rho) s + e`, centered.
pub open spec fn keygen_t(rho: Seq<u8>, k: int, s: Seq<Seq<int>>, e: Seq<Seq<int>>) -> Seq<Seq<int>> {
    Seq::new(k as nat, |i: int| centered_sum(matrix_row_spec(matrix_row(rho, i, k), s), e[i]))
}

/// Every coefficient of the secret vectors is the sum of the parities of two
/// coins minus those of two others: coefficient `m` of polynomial `j` of `s`
/// reads coins `1024 j + 4 m .. 1024 j + 4 m + 4`, and `e` reads the coins that
/// follow the `1024 k` of `s`. Coins with even values contribute nothing, odd
/// ones contribute exactly one.
pub proof fn lemma_keygen_coin_parities(p: Params, coins: Seq<u32>)
    ensures
        forall|j: int, m: int|
            0 <= j < p.spec_k() && 0 <= m < 256 ==> {
                let b = 1024 * j + 4 * m;
                #[trigger] keygen_s(p, coins)[j][m] == (coins[b] as int) % 2 + (coins[b + 2] as int) % 2 - (coins[b
                    + 1] as int) % 2 - (coins[b + 3] as int) % 2
            },
        forall|j: int, m: int|
            0 <= j < p.spec_k() && 0 <= m < 256 ==> {
                let b = 1024 * p.spec_k() + 1024 * j + 4 * m;
                #[trigger] keygen_e(p, coins)[j][m] == (coins[b] as int) % 2 + (coins[b + 2] as int) % 2 - (coins[b
                    + 1] as int) % 2 - (coins[b + 3] as int) % 2
            },
{
    crate::params::lemma_params_wf(p);
    assert(p.spec_eta() == 2);
    assert forall|j: int, m: int| 0 <= j < p.spec_k() && 0 <= m < 256 implies {
        let b = 1024 * j + 4 * m;
        #[trigger] keygen_s(p, coins)[j][m] == (coins[b] as int) % 2 + (coins[b + 2] as int) % 2 - (coins[b + 1] as int)
            % 2 - (coins[b + 3] as int) % 2
    } by {
        assert(keygen_s(p, coins)[j] == cbd_poly(coins, j * 1024, 2));
        crate::poly::lemma_cbd_two(coins, j * 1024 + 2 * 2 * m);
    }
    assert forall|j: int, m: int| 0 <= j < p.spec_k() && 0 <= m < 256 implies {
        let b = 1024 * p.spec_k() + 1024 * j + 4 * m;
        #[trigger] keygen_e(p, coins)[j][m] == (coins[b] as int) % 2 + (coins[b + 2] as int) % 2 - (coins[b + 1] as int)
            % 2 - (coins[b + 3] as int) % 2
    } by {
        assert(keygen_e(p, coins)[j] == cbd_poly(coins, p.spec_k() * 1024 + j * 1024, 2));
        crate::poly::lemma_cbd_two(coins, p.spec_k() * 1024 + j * 1024 + 2 * 2 * m);
    }
}

/// The number of 32-bit coins that key generation consumes.
pub open spec fn keygen_coin_count(p: Params) -> int {
    2 * p.spec_k() * (2 * p.spec_eta() * 256)
}

impl SecretKey {
    pub closed spec fn spec_seed(&self) -> Seq<u8> {
        self.seed@
    }

    pub closed spec fn spec_rho(&self) -> Seq<u8> {
        self.public_key.rho@
    }

    pub closed spec fn spec_s(&self) -> Seq<Seq<int>> {
        vseq(self.s@)
    }

    pub closed spec fn spec_e(&self) -> Seq<Seq<int>> {
        vseq(self.e@)
    }

    pub closed spec fn spec_t(&self) -> Seq<Seq<int>> {
        vseq(self.public_key.t@)
    }

    /// Every polynomial of the key's vectors has `N` coefficients.
    pub proof fn lemma_polys_have_n_coefficients(&self)
        ensures
            forall|j: int| 0 <= j < self.spec_s().len() ==> (#[trigger] self.spec_s()[j]).len() == 256,
            forall|j: int| 0 <= j < self.spec_e().len() ==> (#[trigger] self.spec_e()[j]).len() == 256,
            forall|j: int| 0 <= j < self.spec_t().len() ==> (#[trigger] self.spec_t()[j]).len() == 256,
    {
    }

    /// Reconstructs a `SecretKey` from its serialized components.
    ///
    /// The components are meant to come from a prior key generation; the
    /// cryptographic relation between them is not checked.
    pub fn from_parts(rho: [u8; 32], s: PolyVec, e: PolyVec, t: PolyVec, seed: [u8; 32]) -> (sk: Self)
        ensures
            sk.spec_rho() == rho@,
            sk.spec_s() == vseq(s@),
            sk.spec_e() == vseq(e@),
            sk.spec_t() == vseq(t@),
            sk.spec_seed() == seed@,
    {
        SecretKey { seed, s, e, public_key: PublicKey { rho, t } }
    }

    /// Returns the public matrix seed. Safe to expose.
    pub fn rho(&self) -> (r: &[u8; 32])
        ensures
            r@ == self.spec_rho(),
    {
        &self.public_key.rho
    }

    /// Returns the public key that belongs to this secret key. It does not
    /// expose the secret vectors `s` or `e`.
    pub fn public_key(&self) -> (pk: &PublicKey)
        ensures
            pk.rho@ == self.spec_rho(),
            vseq(pk.t@) == self.spec_t(),
    {
        &self.public_key
    }

    /// Returns the secret vector `s`.
    pub fn s(&self) -> (s: &PolyVec)
        ensures
            vseq(s@) == self.spec_s(),
    {
        &self.s
    }

    /// Returns the secret error vector `e`.
    pub fn e(&self) -> (e: &PolyVec)
        ensures
            vseq(e@) == self.spec_e(),
    {
        &self.e
    }

    /// Returns the public vector `t`.
    pub fn t(&self) -> (t: &PolyVec)
        ensures
            vseq(t@) == self.spec_t(),
    {
        &self.public_key.t
    }

    /// Returns the secret seed from which evaluation derives its masking
    /// vectors.
    pub fn seed(&self) -> (seed: &[u8; 32])
        ensures
            seed@ == self.spec_seed(),
    {
        &self.seed
    }

    /// The key's debug representation, with every secret component redacted:
    /// `SecretKey { rho: <rho>, seed: "[REDACTED]", s: "[REDACTED]",
    /// e: "[REDACTED]", t: "[REDACTED]", .. }`, where `<rho>` is the `Debug`
    /// rendering of the public matrix seed.
    pub fn redacted_debug(&self) -> (r: String)
        ensures
            r@ == "SecretKey { rho: "@ + byte_array_debug(self.spec_rho()) + REDACTED_TAIL@,
    {
        let head = String::from_str("SecretKey { rho: ");
        let rho = debug_bytes(&self.public_key.rho);
        let with_rho = head.concat(rho.as_str());
        with_rho.concat(REDACTED_TAIL)
    }
}

/// What follows the matrix seed in the debug representation of a secret key.
pub const REDACTED_TAIL: &'static str = ", seed: \"[REDACTED]\", s: \"[REDACTED]\", e: \"[REDACTED]\", t: \"[REDACTED]\", .. }";

/// The decimal digit `d`.
pub open spec fn digit_char(d: int) -> char {
    (48 + d) as char
}

/// A byte in decimal, without leading zeros.
pub open spec fn decimal_u8(b: u8) -> Seq<char> {
    if b < 10 {
        seq![digit_char(b as int)]
    } else if b < 100 {
        seq![digit_char((b / 10) as int), digit_char((b % 10) as int)]
    } else {
        seq![digit_char((b / 100) as int), digit_char(((b / 10) % 10) as int), digit_char((b % 10) as int)]
    }
}

/// The bytes from position `i` on, in decimal, each preceded by `", "`.
pub open spec fn decimal_tail(bytes: Seq<u8>, i: int) -> Seq<char>
    decreases bytes.len() - i,
{
    if i < 0 || i >= bytes.len() {
        Seq::empty()
    } else {
        seq![',', ' '] + decimal_u8(bytes[i]) + decimal_tail(bytes, i + 1)
    }
}

/// The `Debug` rendering of a byte array: the bytes in decimal, separated by
/// `", "`, between square brackets.
pub open spec fn byte_array_debug(bytes: Seq<u8>) -> Seq<char> {
    if bytes.len() == 0 {
        seq!['[', ']']
    } else {
        seq!['['] + decimal_u8(bytes[0]) + decimal_tail(bytes, 1) + seq![']']
    }
}

/// Calls `format!` with `{:?}` on the matrix seed. std's `Debug` for an array
/// writes its elements as a list, `[a, b, ...]`, and `Debug` for an integer
/// writes it in decimal, as `Display` does.
#[verifier::external_body]
fn debug_bytes(rho: &[u8; 32]) -> (s: String)
    ensures
        s@ == byte_array_debug(rho@),
{
    format!("{:?}", rho)
}

/// Calls `<[u8; 32] as zeroize::Zeroize>::zeroize`, which overwrites every
/// byte with zero through volatile writes.
#[verifier::external_body]
fn zeroize_bytes(b: &mut [u8; 32])
    ensures
        forall|i: int| 0 <= i < 32 ==> #[trigger] final(b)[i] == 0,
    opens_invariants none
    no_unwind
{
    b.zeroize();
}

impl Drop for SecretKey {
    /// Wipes every field of the key: the secret seed, the matrix seed and the
    /// vectors `s`, `e` and `t`.
    fn drop(&mut self)
        opens_invariants none
        no_unwind
    {
        zeroize_bytes(&mut self.seed);
        zeroize_poly_vec(&mut self.s);
        zeroize_poly_vec(&mut self.e);
        zeroize_bytes(&mut self.public_key.rho);
        zeroize_poly_vec(&mut self.public_key.t);
    }
}

/// Returns the number of 32-bit coins that key generation consumes for
/// `params`: `2 * eta` per coefficient of `s` and of `e`.
pub fn keygen_coins_len(params: &Params) -> (n: usize)
    ensures
        n == keygen_coin_count(*params),
{
    2 * params.k() * (2 * (params.eta() as usize) * N)
}

/// Generates a public key and a secret key from the randomness that a
/// cryptographic random number generator supplies: the secret `seed` and the
/// public matrix seed `rho` (32 bytes each, drawn in that order), then the
/// 32-bit `coins` from which the short vectors `s` and `e` are sampled.
///
/// The public vector is `t = A(rho) s + e`, centered.
pub fn eyvara_keygen(params: &Params, seed: [u8; 32], rho: [u8; 32], coins: &[u32]) -> (res: (
    PublicKey,
    SecretKey,
))
    requires
        coins.len() >= keygen_coin_count(*params),
    ensures
        res.0.rho@ == rho@,
        vseq(res.0.t@) == keygen_t(rho@, params.spec_k() as int, keygen_s(*params, coins@), keygen_e(*params, coins@)),
        res.1.spec_seed() == seed@,
        res.1.spec_rho() == rho@,
        res.1.spec_s() == keygen_s(*params, coins@),
        res.1.spec_e() == keygen_e(*params, coins@),
        res.1.spec_t() == vseq(res.0.t@),
        vec_bounded(res.1.spec_s(), params.spec_eta() as int),
        vec_bounded(res.1.spec_e(), params.spec_eta() as int),
{
    let k = params.k();
    let eta = params.eta();
    proof {
        crate::params::lemma_params_wf(*params);
    }
    let per = 2 * (eta as usize) * N;
    assert(per == 1024 && k * (2 * eta * 256) == k * 1024 && keygen_coin_count(*params) == 2 * k * 1024)
        by (nonlinear_arith)
        requires
            eta == 2,
            per == 2 * eta * 256,
            keygen_coin_count(*params) == 2 * k * (2 * eta * 256),
    ;
    let a_ntt = expand_a(&rho, k);
    let s = sample_cbd_vec_from(coins, 0, k, eta);
    let e = sample_cbd_vec_from(coins, k * per, k, eta);
    let as_ = poly_matrix_mul_ntt(&a_ntt, &s);
    let mut t: PolyVec = Vec::new();
    let mut i: usize = 0;
    let ghost s_spec = keygen_s(*params, coins@);
    let ghost e_spec = keygen_e(*params, coins@);
    assert(vseq(s@) =~= s_spec);
    assert(vseq(e@) =~= e_spec) by {
        assert forall|j: int| 0 <= j < k implies #[trigger] vseq(e@)[j] == e_spec[j] by {
            assert(k * per + j * per == k * (2 * params.spec_eta() * 256) + j * (2 * params.spec_eta() * 256));
        }
    }
    while i < k
        invariant
            i <= k,
            k == params.spec_k(),
            k <= 3,
            as_.len() == k,
            e.len() == k,
            a_ntt.len() == k,
            forall|m: int| 0 <= m < k ==> (#[trigger] a_ntt[m]).len() == k,
            forall|m: int, j: int|
                0 <= m < k && 0 <= j < k ==> crate::ntt::congruent(
                    iseq((#[trigger] a_ntt[m][j])@),
                    crate::poly::matrix_entry_spec(rho@, m, j),
                ),
            s.len() == k,
            vseq(s@) == s_spec,
            vseq(e@) == e_spec,
            forall|m: int, c: int|
                0 <= m < k && 0 <= c < N ==> #[trigger] as_[m][c] == matrix_row_spec(vseq(a_ntt[m]@), vseq(s@))[c],
            forall|m: int| 0 <= m < k ==> crate::ntt::bounded((#[trigger] e[m])@, 2),
            t.len() == i,
            forall|m: int| 0 <= m < i ==> iseq((#[trigger] t[m])@) == keygen_t(rho@, k as int, s_spec, e_spec)[m],
        decreases k - i,
    {
        proof {
            lemma_expanded_row(a_ntt@, rho@, k as int, i as int, vseq(s@));
            assert forall|c: int| 0 <= c < 256 implies i64::MIN <= #[trigger] as_[i as int][c] + e[i as int][c]
                <= i64::MAX by {
                crate::ntt::lemma_centered_bound(
                    intt_spec(crate::poly::row_acc(vseq(a_ntt[i as int]@), vseq(s@), s.len() as int))[c],
                );
            }
        }
        let acc = poly_add(&as_[i], &e[i]);
        proof {
            assert(iseq(acc@) =~= keygen_t(rho@, k as int, s_spec, e_spec)[i as int]);
        }
        t.push(acc);
        i += 1;
    }
    assert(vseq(t@) =~= keygen_t(rho@, k as int, s_spec, e_spec));
    assert(vec_bounded(vseq(s@), eta as int)) by {
        assert forall|j: int, m: int| 0 <= j < k && 0 <= m < 256 implies -(eta as int) <= #[trigger] vseq(s@)[j][m]
            <= eta as int by {
            assert(crate::ntt::bounded(s[j]@, eta as int));
        }
    }
    assert(vec_bounded(vseq(e@), eta as int)) by {
        assert forall|j: int, m: int| 0 <= j < k && 0 <= m < 256 implies -(eta as int) <= #[trigger] vseq(e@)[j][m]
            <= eta as int by {
            assert(crate::ntt::bounded(e[j]@, eta as int));
        }
    }
    let pk = PublicKey { rho, t: copy_poly_vec(&t) };
    let sk = SecretKey { seed, s, e, public_key: PublicKey { rho, t } };
    (pk, sk)
}

} // verus!
