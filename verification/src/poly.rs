//! Polynomial arithmetic over `R_q = Z_q[X]/(X^N + 1)`, norms, rounding into
//! high and low bits, hints, serialization and sampling.
use vstd::prelude::*;
use vstd::arithmetic::div_mod::*;
use vstd::arithmetic::mul::*;
use crate::error::EyvaraError;
use crate::ntt::{
    bounded, centered, congruent, intt_spec, iseq, lemma_intt_congr, lemma_layers_canonical, lemma_mq_mq,
    lemma_pointwise_congr, mq, ntt_forward, ntt_inverse, ntt_pointwise_mul, ntt_spec, pointwise_spec,
    reduce_coeff, fwd_upto, reduce_poly, lemma_ntt_congr, lemma_pair_congr, inv_upto, lemma_mq_add, lemma_mq_mul,
    lemma_intt_ntt_roundtrip, lemma_ntt_add, add_seq,
};
use crate::params::{N, Q, Q_HALF, MONT_R, MONT_R_INV, DOMAIN_MATRIX, MATRIX_XOF_BYTES, MATRIX_XOF_MAX_BYTES};
use crate::hash::{shake256, shake256_spec};
use zeroize::Zeroize;

verus! {

/// A polynomial in `R_q`, as its `N` coefficients.
pub type Poly = [i64; 256];

/// A vector of polynomials, an element of `R_q^k`.
pub type PolyVec = Vec<Poly>;

/// A polynomial vector's coefficients as integers.
pub open spec fn vseq(v: Seq<Poly>) -> Seq<Seq<int>> {
    v.map_values(|p: Poly| iseq(p@))
}

/// A polynomial that is wiped when it is dropped.
pub struct ZeroizingPoly(pub Poly);

/// Calls `<[i64; 256] as zeroize::Zeroize>::zeroize`, which overwrites every
/// coefficient with zero (the default of `i64`) through volatile writes that
/// the compiler does not remove.
#[verifier::external_body]
fn zeroize_poly(p: &mut Poly)
    ensures
        forall|i: int| 0 <= i < N ==> #[trigger] final(p)[i] == 0,
    opens_invariants none
    no_unwind
{
    p.zeroize();
}

/// Calls `<Vec<[i64; 256]> as zeroize::Zeroize>::zeroize`, which overwrites
/// the elements and the spare capacity with zeros and then empties the
/// vector.
#[verifier::external_body]
pub(crate) fn zeroize_poly_vec(v: &mut Vec<Poly>)
    ensures
        final(v)@.len() == 0,
    opens_invariants none
    no_unwind
{
    v.zeroize();
}

impl Drop for ZeroizingPoly {
    /// Wipes the coefficients.
    fn drop(&mut self)
        opens_invariants none
        no_unwind
    {
        zeroize_poly(&mut self.0);
    }
}

/// The product in `R_q` that the transform-based multiplication computes:
/// transform both factors, multiply pointwise, transform back.
pub open spec fn poly_mul_spec(a: Seq<int>, b: Seq<int>) -> Seq<int> {
    intt_spec(pointwise_spec(ntt_spec(a), ntt_spec(b)))
}

/// `|x|`.
pub open spec fn abs(x: int) -> int {
    if x < 0 {
        -x
    } else {
        x
    }
}

/// The largest `|centered(p[i])|` over the first `n` coefficients (0 when
/// `n <= 0`).
pub open spec fn norm_prefix(p: Seq<int>, n: int) -> int
    decreases n,
{
    if n <= 0 {
        0
    } else {
        let m = norm_prefix(p, n - 1);
        let c = abs(centered(p[n - 1]));
        if c > m {
            c
        } else {
            m
        }
    }
}

/// The infinity norm of a polynomial, coefficients taken centered mod `q`.
pub open spec fn poly_norm(p: Seq<int>) -> int {
    norm_prefix(p, p.len() as int)
}

/// The infinity norm of the first `n` polynomials of a vector (0 when
/// `n <= 0`).
pub open spec fn vec_norm_prefix(v: Seq<Seq<int>>, n: int) -> int
    decreases n,
{
    if n <= 0 {
        0
    } else {
        let m = vec_norm_prefix(v, n - 1);
        let c = poly_norm(v[n - 1]);
        if c > m {
            c
        } else {
            m
        }
    }
}

/// The infinity norm of a polynomial vector.
pub open spec fn vec_norm(v: Seq<Seq<int>>) -> int {
    vec_norm_prefix(v, v.len() as int)
}

/// `x` reduced into `(-q/2, q/2]` for an arbitrary positive modulus `q`.
pub open spec fn centered_mod(x: int, q: int) -> int {
    let c = x % q;
    if c > q / 2 {
        c - q
    } else {
        c
    }
}

/// The largest `|centered_mod(p[i], q)|` over the first `n` coefficients.
pub open spec fn norm_mod_prefix(p: Seq<int>, q: int, n: int) -> int
    decreases n,
{
    if n <= 0 {
        0
    } else {
        let m = norm_mod_prefix(p, q, n - 1);
        let c = abs(centered_mod(p[n - 1], q));
        if c > m {
            c
        } else {
            m
        }
    }
}

/// Coefficient-wise sums stay within `i64`.
pub open spec fn add_fits(a: Seq<i64>, b: Seq<i64>) -> bool {
    forall|i: int| 0 <= i < 256 ==> i64::MIN <= #[trigger] a[i] + b[i] <= i64::MAX
}

/// Coefficient-wise differences stay within `i64`.
pub open spec fn sub_fits(a: Seq<i64>, b: Seq<i64>) -> bool {
    forall|i: int| 0 <= i < 256 ==> i64::MIN <= #[trigger] a[i] - b[i] <= i64::MAX
}

/// Create the zero polynomial.
pub fn poly_zero() -> (p: Poly)
    ensures
        forall|i: int| 0 <= i < N ==> #[trigger] p[i] == 0,
{
    [0i64; 256]
}

/// Add two polynomials coefficient-wise: `c = a + b mod q`, centered.
pub fn poly_add(a: &Poly, b: &Poly) -> (c: Poly)
    requires
        add_fits(a@, b@),
    ensures
        forall|i: int| 0 <= i < N ==> #[trigger] c[i] == centered(a[i] + b[i]),
{
    let mut c = [0i64; 256];
    let mut i: usize = 0;
    while i < N
        invariant
            i <= N,
            add_fits(a@, b@),
            forall|m: int| 0 <= m < i ==> #[trigger] c[m] == centered(a[m] + b[m]),
        decreases N - i,
    {
        assert(i64::MIN <= a[i as int] + b[i as int] <= i64::MAX);
        c[i] = reduce_coeff(a[i] + b[i]);
        i += 1;
    }
    c
}

/// Subtract two polynomials coefficient-wise: `c = a - b mod q`, centered.
pub fn poly_sub(a: &Poly, b: &Poly) -> (c: Poly)
    requires
        sub_fits(a@, b@),
    ensures
        forall|i: int| 0 <= i < N ==> #[trigger] c[i] == centered(a[i] - b[i]),
{
    let mut c = [0i64; 256];
    let mut i: usize = 0;
    while i < N
        invariant
            i <= N,
            sub_fits(a@, b@),
            forall|m: int| 0 <= m < i ==> #[trigger] c[m] == centered(a[m] - b[m]),
        decreases N - i,
    {
        assert(i64::MIN <= a[i as int] - b[i as int] <= i64::MAX);
        c[i] = reduce_coeff(a[i] - b[i]);
        i += 1;
    }
    c
}

/// The coefficients of the transform of a polynomial are canonical residues.
pub proof fn lemma_ntt_spec_canonical(p: Seq<int>)
    ensures
        ntt_spec(p).len() == 256,
        forall|i: int| 0 <= i < 256 ==> 0 <= #[trigger] ntt_spec(p)[i] < Q && mq(ntt_spec(p)[i]) == ntt_spec(p)[i],
{
    lemma_layers_canonical(fwd_upto(p, 7), 7);
    assert forall|i: int| 0 <= i < 256 implies 0 <= #[trigger] ntt_spec(p)[i] < Q && mq(ntt_spec(p)[i]) == ntt_spec(p)[i] by {
        lemma_mq_mq(ntt_spec(p)[i]);
        lemma_small_mod(ntt_spec(p)[i] as nat, Q as nat);
    }
}

/// Multiply two polynomials in `R_q` through the number theoretic transform.
/// Coefficients must satisfy `|a[i]|, |b[i]| <= 4q`; the product's
/// coefficients are the centered representatives, in `[-(q-1)/2, (q-1)/2]`.
pub fn poly_mul(a: &Poly, b: &Poly) -> (c: Poly)
    requires
        bounded(a@, 4 * Q),
        bounded(b@, 4 * Q),
    ensures
        bounded(c@, Q - 1),
        forall|i: int| 0 <= i < N ==> mq(#[trigger] c[i] as int) == poly_mul_spec(iseq(a@), iseq(b@))[i],
        forall|i: int| 0 <= i < N ==> #[trigger] c[i] == centered(poly_mul_spec(iseq(a@), iseq(b@))[i]),
{
    let mut a_ntt = *a;
    let mut b_ntt = *b;
    ntt_forward(&mut a_ntt);
    ntt_forward(&mut b_ntt);
    proof {
        crate::ntt::lemma_products_fit(a_ntt@, b_ntt@);
    }
    let mut c = ntt_pointwise_mul(&a_ntt, &b_ntt);
    proof {
        let fa = ntt_spec(iseq(a@));
        let fb = ntt_spec(iseq(b@));
        lemma_ntt_spec_canonical(iseq(a@));
        lemma_ntt_spec_canonical(iseq(b@));
        assert(congruent(iseq(a_ntt@), fa));
        assert(congruent(iseq(b_ntt@), fb));
        lemma_pointwise_congr(iseq(a_ntt@), iseq(b_ntt@), fa, fb);
        let pw = pointwise_spec(fa, fb);
        assert forall|i: int| 0 <= i < 256 implies mq(#[trigger] iseq(c@)[i]) == mq(pw[i]) by {
            lemma_mq_mq(pointwise_spec(iseq(a_ntt@), iseq(b_ntt@))[i]);
        }
        lemma_intt_congr(iseq(c@), pw);
    }
    let ghost pre = iseq(c@);
    ntt_inverse(&mut c);
    proof {
        let ps = poly_mul_spec(iseq(a@), iseq(b@));
        assert forall|i: int| 0 <= i < N implies #[trigger] c[i] == centered(ps[i]) by {
            let x = intt_spec(pre)[i];
            assert(c[i] == centered(x));
            assert(mq(c[i] as int) == ps[i]);
            lemma_mod_bound(c[i] as int, Q as int);
            lemma_small_mod(ps[i] as nat, Q as nat);
            crate::ntt::lemma_centered_bound(x);
            lemma_centered_congr(c[i] as int, x);
            lemma_centered_congr(c[i] as int, ps[i]);
        }
    }
    c
}

/// Multiply a polynomial by a scalar polynomial (the challenge).
pub fn poly_scalar_mul(c: &Poly, s: &Poly) -> (r: Poly)
    requires
        bounded(c@, 4 * Q),
        bounded(s@, 4 * Q),
    ensures
        bounded(r@, Q - 1),
        forall|i: int| 0 <= i < N ==> mq(#[trigger] r[i] as int) == poly_mul_spec(iseq(c@), iseq(s@))[i],
        forall|i: int| 0 <= i < N ==> #[trigger] r[i] == centered(poly_mul_spec(iseq(c@), iseq(s@))[i]),
{
    poly_mul(c, s)
}

/// Negate a polynomial: `c = -a mod q`, centered.
pub fn poly_neg(a: &Poly) -> (c: Poly)
    requires
        forall|i: int| 0 <= i < N ==> #[trigger] a[i] > i64::MIN,
    ensures
        forall|i: int| 0 <= i < N ==> #[trigger] c[i] == centered(-a[i]),
{
    let mut c = [0i64; 256];
    let mut i: usize = 0;
    while i < N
        invariant
            i <= N,
            forall|m: int| 0 <= m < N ==> #[trigger] a[m] > i64::MIN,
            forall|m: int| 0 <= m < i ==> #[trigger] c[m] == centered(-a[m]),
        decreases N - i,
    {
        assert(a[i as int] > i64::MIN);
        c[i] = reduce_coeff(-a[i]);
        i += 1;
    }
    c
}

proof fn lemma_abs_centered(x: int)
    ensures
        0 <= abs(centered(x)) <= Q_HALF,
{
    lemma_mod_bound(x, Q as int);
}

proof fn lemma_norm_prefix_bounds(p: Seq<int>, n: int)
    ensures
        0 <= norm_prefix(p, n) <= Q_HALF,
    decreases n,
{
    if n > 0 {
        lemma_norm_prefix_bounds(p, n - 1);
        lemma_abs_centered(p[n - 1]);
    }
}

proof fn lemma_norm_mod_prefix_centered(p: Seq<int>, n: int)
    ensures
        norm_mod_prefix(p, Q as int, n) == norm_prefix(p, n),
    decreases n,
{
    if n > 0 {
        lemma_norm_mod_prefix_centered(p, n - 1);
    }
}

/// The masked norm taken modulo `q` is the infinity norm: for every
/// polynomial, `infinity_norm_ct(p, Q)` and `infinity_norm(p)` agree.
pub proof fn lemma_norm_ct_is_norm(p: Seq<int>)
    requires
        p.len() == 256,
    ensures
        norm_mod_prefix(p, Q as int, 256) == poly_norm(p),
{
    lemma_norm_mod_prefix_centered(p, 256);
}

/// Subtracting what was added gives back a centered polynomial:
/// `poly_sub(poly_add(a, b), b) == a` whenever every coefficient of `a` lies
/// in `[-(q-1)/2, (q-1)/2]`.
pub proof fn lemma_add_sub_inverse(a: Seq<int>, b: Seq<int>)
    requires
        a.len() == 256,
        b.len() == 256,
        forall|i: int| 0 <= i < 256 ==> -Q_HALF <= #[trigger] a[i] <= Q_HALF,
    ensures
        forall|i: int| 0 <= i < 256 ==> #[trigger] centered(centered(a[i] + b[i]) - b[i]) == a[i],
{
    assert forall|i: int| 0 <= i < 256 implies #[trigger] centered(centered(a[i] + b[i]) - b[i]) == a[i] by {
        let q = Q as int;
        crate::ntt::lemma_centered_bound(a[i] + b[i]);
        let c = centered(a[i] + b[i]);
        lemma_pair_congr(c, b[i], a[i] + b[i], b[i]);
        assert(mq(c - b[i]) == mq(a[i]));
        lemma_fundamental_div_mod(a[i], q);
        lemma_mod_bound(a[i], q);
        if a[i] >= 0 {
            lemma_small_mod(a[i] as nat, q as nat);
        } else {
            lemma_mod_add_multiples_vanish(a[i], q);
            lemma_small_mod((a[i] + q) as nat, q as nat);
        }
    }
}

/// Computes the infinity norm of a polynomial, coefficients taken in centered
/// representation.
///
/// This function branches on the coefficients and is not constant-time: the
/// response vector it is applied to during evaluation depends on the secret
/// key.
pub fn infinity_norm(a: &Poly) -> (r: i64)
    ensures
        r == poly_norm(iseq(a@)),
        0 <= r <= Q_HALF,
{
    let mut max: i64 = 0;
    let mut i: usize = 0;
    while i < N
        invariant
            i <= N,
            max == norm_prefix(iseq(a@), i as int),
            0 <= max <= Q_HALF,
        decreases N - i,
    {
        let coeff = a[i];
        proof {
            lemma_fundamental_div_mod(coeff as int, Q as int);
            lemma_mod_bound(coeff as int, Q as int);
        }
        let mut c = coeff % Q;
        if c > Q / 2 {
            c -= Q;
        }
        if c < -(Q / 2) {
            c += Q;
        }
        assert(c == centered(coeff as int));
        let abs_c = if c < 0 {
            -c
        } else {
            c
        };
        if abs_c > max {
            max = abs_c;
        }
        proof {
            lemma_abs_centered(coeff as int);
        }
        i += 1;
    }
    max
}

/// `!((x) >> 63)` is all ones exactly when `x >= 0`.
proof fn lemma_sign_mask(x: i64)
    ensures
        x >= 0 ==> !(x >> 63u64) == -1i64,
        x < 0 ==> !(x >> 63u64) == 0i64,
{
    assert(x >= 0 ==> !(x >> 63u64) == -1i64) by (bit_vector);
    assert(x < 0 ==> !(x >> 63u64) == 0i64) by (bit_vector);
}

proof fn lemma_and_masks(x: i64)
    ensures
        x & -1i64 == x,
        x & 0i64 == 0,
{
    assert(x & -1i64 == x) by (bit_vector);
    assert(x & 0i64 == 0) by (bit_vector);
}

/// The branch-free absolute value.
proof fn lemma_branchless_abs(x: i64)
    requires
        x > i64::MIN,
    ensures
        x >= 0 ==> x >> 63u64 == 0 && x ^ (x >> 63u64) == x,
        x < 0 ==> x >> 63u64 == -1 && x ^ (x >> 63u64) == -x - 1,
{
    assert(x >= 0 ==> x >> 63u64 == 0 && x ^ (x >> 63u64) == x) by (bit_vector);
    assert(x < 0 ==> x >> 63u64 == -1 && x ^ (x >> 63u64) == -x - 1) by (bit_vector);
}

/// Compute the infinity norm with arithmetic masking in place of the
/// data-dependent branches; the coefficients are reduced into `(-q/2, q/2]`.
///
/// The `%` reductions may still compile to variable-latency division on some
/// CPUs, so this function is not claimed as a constant-time primitive.
pub fn infinity_norm_ct(poly: &Poly, q: i64) -> (r: i64)
    requires
        0 < q <= 0x1000_0000_0000_0000,
    ensures
        r == norm_mod_prefix(iseq(poly@), q as int, 256),
        0 <= r <= q,
{
    let mut max_val: i64 = 0;
    let half_q = q / 2;
    let mut i: usize = 0;
    while i < N
        invariant
            i <= N,
            0 < q <= 0x1000_0000_0000_0000,
            half_q == q / 2,
            max_val == norm_mod_prefix(iseq(poly@), q as int, i as int),
            0 <= max_val <= q,
        decreases N - i,
    {
        let coeff = poly[i];
        proof {
            lemma_mod_bound(coeff as int, q as int);
            lemma_fundamental_div_mod(coeff as int, q as int);
        }
        let t = coeff % q;
        assert((t as int) % (q as int) == (coeff as int) % (q as int)) by {
            if coeff >= 0 {
                assert(t as int == (coeff as int) % (q as int));
                lemma_mod_twice(coeff as int, q as int);
            } else {
                let m = (-coeff) % (q as int);
                assert(t as int == -m);
                lemma_fundamental_div_mod(-coeff, q as int);
                let d = (-coeff) / (q as int);
                assert(t as int == coeff + d * q) by (nonlinear_arith)
                    requires
                        -coeff == q * d + m,
                        t as int == -m,
                ;
                lemma_mod_multiples_vanish(d, coeff as int, q as int);
            }
        }
        assert(((t + q) as int) % (q as int) == (t as int) % (q as int)) by {
            lemma_mod_add_multiples_vanish(t as int, q as int);
        }
        let c = (t + q) % q;
        assert(c == (coeff as int) % (q as int));
        let gt_half_mask = !((c - half_q - 1) >> 63);
        proof {
            lemma_sign_mask((c - half_q - 1) as i64);
            lemma_and_masks(q);
        }
        let centered = c - (q & gt_half_mask);
        assert(centered == centered_mod(coeff as int, q as int));
        proof {
            lemma_branchless_abs(centered);
        }
        let abs_val = (centered ^ (centered >> 63)) - (centered >> 63);
        assert(abs_val == abs(centered as int));
        let diff = abs_val - max_val;
        let gt_mask = !((diff - 1) >> 63);
        proof {
            lemma_sign_mask((diff - 1) as i64);
            lemma_and_masks(diff);
        }
        max_val += diff & gt_mask;
        i += 1;
    }
    max_val
}

/// Compute the infinity norm of a polynomial vector (0 for the empty vector).
pub fn infinity_norm_vec(v: &[Poly]) -> (r: i64)
    ensures
        r == vec_norm(vseq(v@)),
        0 <= r <= Q_HALF,
{
    let mut max: i64 = 0;
    let mut j: usize = 0;
    while j < v.len()
        invariant
            j <= v.len(),
            max == vec_norm_prefix(vseq(v@), j as int),
            0 <= max <= Q_HALF,
        decreases v.len() - j,
    {
        let n = infinity_norm(&v[j]);
        if n > max {
            max = n;
        }
        j += 1;
    }
    max
}

/// Add two polynomial vectors component-wise.
///
/// Returns `MalformedProof` exactly when the lengths differ.
pub fn poly_vec_add(a: &[Poly], b: &[Poly]) -> (r: Result<PolyVec, EyvaraError>)
    requires
        a.len() == b.len() ==> forall|j: int| 0 <= j < a.len() ==> add_fits((#[trigger] a[j])@, b[j]@),
    ensures
        match r {
            Ok(v) => {
                &&& a.len() == b.len()
                &&& v.len() == a.len()
                &&& forall|j: int, i: int|
                    0 <= j < v.len() && 0 <= i < N ==> #[trigger] v[j][i] == centered(a[j][i] + b[j][i])
            },
            Err(e) => a.len() != b.len() && e == EyvaraError::MalformedProof,
        },
{
    if a.len() != b.len() {
        return Err(EyvaraError::MalformedProof);
    }
    let mut out: PolyVec = Vec::new();
    let mut j: usize = 0;
    while j < a.len()
        invariant
            j <= a.len(),
            a.len() == b.len(),
            out.len() == j,
            forall|m: int| 0 <= m < a.len() && m < b.len() ==> add_fits((#[trigger] a[m])@, b[m]@),
            forall|m: int, i: int|
                0 <= m < j && 0 <= i < N ==> #[trigger] out[m][i] == centered(a[m][i] + b[m][i]),
        decreases a.len() - j,
    {
        let s = poly_add(&a[j], &b[j]);
        out.push(s);
        j += 1;
    }
    Ok(out)
}

/// Subtract two polynomial vectors component-wise.
///
/// Returns `MalformedProof` exactly when the lengths differ.
pub fn poly_vec_sub(a: &[Poly], b: &[Poly]) -> (r: Result<PolyVec, EyvaraError>)
    requires
        a.len() == b.len() ==> forall|j: int| 0 <= j < a.len() ==> sub_fits((#[trigger] a[j])@, b[j]@),
    ensures
        match r {
            Ok(v) => {
                &&& a.len() == b.len()
                &&& v.len() == a.len()
                &&& forall|j: int, i: int|
                    0 <= j < v.len() && 0 <= i < N ==> #[trigger] v[j][i] == centered(a[j][i] - b[j][i])
            },
            Err(e) => a.len() != b.len() && e == EyvaraError::MalformedProof,
        },
{
    if a.len() != b.len() {
        return Err(EyvaraError::MalformedProof);
    }
    let mut out: PolyVec = Vec::new();
    let mut j: usize = 0;
    while j < a.len()
        invariant
            j <= a.len(),
            a.len() == b.len(),
            out.len() == j,
            forall|m: int| 0 <= m < a.len() && m < b.len() ==> sub_fits((#[trigger] a[m])@, b[m]@),
            forall|m: int, i: int|
                0 <= m < j && 0 <= i < N ==> #[trigger] out[m][i] == centered(a[m][i] - b[m][i]),
        decreases a.len() - j,
    {
        let s = poly_sub(&a[j], &b[j]);
        out.push(s);
        j += 1;
    }
    Ok(out)
}

/// The residues of `sum_{j < n} row[j] o ntt(v[j])`, the Montgomery products of
/// a matrix row (already transformed) with the transformed vector.
pub open spec fn row_acc(row: Seq<Seq<int>>, v: Seq<Seq<int>>, n: int) -> Seq<int>
    decreases n,
{
    if n <= 0 {
        Seq::new(256, |i: int| 0)
    } else {
        let prev = row_acc(row, v, n - 1);
        let pw = pointwise_spec(row[n - 1], ntt_spec(v[n - 1]));
        Seq::new(256, |i: int| mq(prev[i] + pw[i]))
    }
}

/// Row `row` of the matrix (in the transform domain) times the vector `v` (in
/// coefficient form), back in coefficient form with centered coefficients.
pub open spec fn matrix_row_spec(row: Seq<Seq<int>>, v: Seq<Seq<int>>) -> Seq<int> {
    let s = intt_spec(row_acc(row, v, v.len() as int));
    Seq::new(256, |i: int| centered(s[i]))
}

/// The matrix entries are bounded as the forward transform leaves them.
pub open spec fn matrix_bounded(a: Seq<Vec<Poly>>) -> bool {
    forall|i: int, j: int| 0 <= i < a.len() && 0 <= j < a[i].len() ==> bounded((#[trigger] a[i][j])@, 12 * Q)
}

/// `acc += product`, coefficient-wise.
fn add_into(acc: &mut Poly, product: &Poly, Ghost(b): Ghost<int>)
    requires
        0 <= b <= 3 * Q,
        bounded(old(acc)@, b),
        bounded(product@, Q - 1),
    ensures
        bounded(final(acc)@, b + Q - 1),
        forall|m: int| 0 <= m < N ==> #[trigger] final(acc)[m] == old(acc)[m] + product[m],
{
    let ghost before = acc@;
    let mut idx: usize = 0;
    while idx < N
        invariant
            idx <= N,
            0 <= b <= 3 * Q,
            before.len() == N,
            bounded(before, b),
            bounded(product@, Q - 1),
            forall|m: int| idx <= m < N ==> #[trigger] acc[m] == before[m],
            forall|m: int| 0 <= m < idx ==> #[trigger] acc[m] == before[m] + product[m],
        decreases N - idx,
    {
        assert(-b <= before[idx as int] <= b);
        acc[idx] = acc[idx] + product[idx];
        idx += 1;
    }
    assert forall|m: int| 0 <= m < N implies -(b + Q - 1) <= #[trigger] acc[m] <= b + Q - 1 by {
        assert(acc[m] == before[m] + product[m]);
    }
}

/// One more term of a row sum.
proof fn lemma_row_acc_step(
    row: Seq<Seq<int>>,
    v: Seq<Seq<int>>,
    jj: int,
    acc_before: Seq<i64>,
    product: Seq<i64>,
    acc: Seq<i64>,
)
    requires
        0 <= jj < v.len(),
        jj < row.len(),
        forall|m: int| 0 <= m < N ==> mq(#[trigger] acc_before[m] as int) == row_acc(row, v, jj)[m],
        forall|m: int|
            0 <= m < N ==> mq(#[trigger] product[m] as int) == pointwise_spec(row[jj], ntt_spec(v[jj]))[m],
        forall|m: int| 0 <= m < N ==> #[trigger] acc[m] == acc_before[m] + product[m],
    ensures
        forall|m: int| 0 <= m < N ==> mq(#[trigger] acc[m] as int) == row_acc(row, v, jj + 1)[m],
{
    let pw = pointwise_spec(row[jj], ntt_spec(v[jj]));
    assert forall|m: int| 0 <= m < N implies mq(#[trigger] acc[m] as int) == row_acc(row, v, jj + 1)[m] by {
        lemma_mq_mq(row_acc(row, v, jj)[m]);
        lemma_mq_mq(pw[m]);
        lemma_pair_congr(acc_before[m] as int, product[m] as int, row_acc(row, v, jj)[m], pw[m]);
    }
}

/// Multiply a matrix `A` given in the transform domain by a vector `v` given in
/// coefficient form; the result is in coefficient form, centered.
///
/// The coefficients of `v` are reduced before they are transformed, and each
/// row's accumulator is reduced after every addition, which leaves the product
/// unchanged and keeps every step within its bounds for any input and any
/// number of columns.
pub fn poly_matrix_mul_ntt(a_ntt: &[Vec<Poly>], v: &[Poly]) -> (result: PolyVec)
    requires
        forall|i: int| 0 <= i < a_ntt.len() ==> (#[trigger] a_ntt[i]).len() >= v.len(),
        matrix_bounded(a_ntt@),
    ensures
        result.len() == a_ntt.len(),
        forall|i: int, m: int|
            0 <= i < result.len() && 0 <= m < N ==> #[trigger] result[i][m] == matrix_row_spec(vseq(a_ntt[i]@), vseq(v@))[m],
{
    let k = a_ntt.len();
    let mut v_ntt: Vec<Poly> = Vec::new();
    let mut j: usize = 0;
    while j < v.len()
        invariant
            j <= v.len(),
            v_ntt.len() == j,
            forall|m: int| 0 <= m < j ==> bounded((#[trigger] v_ntt[m])@, 12 * Q),
            forall|m: int| 0 <= m < j ==> congruent(iseq((#[trigger] v_ntt[m])@), ntt_spec(iseq(v[m]@))),
        decreases v.len() - j,
    {
        let mut pn = v[j];
        reduce_poly(&mut pn);
        proof {
            assert forall|i: int| 0 <= i < 256 implies mq(#[trigger] iseq(pn@)[i]) == mq(iseq(v[j as int]@)[i]) by {
                lemma_mod_twice(v[j as int][i] as int, Q as int);
                lemma_mod_bound(v[j as int][i] as int, Q as int);
                lemma_mod_add_multiples_vanish((v[j as int][i] as int) % (Q as int) - Q, Q as int);
            }
            lemma_ntt_congr(iseq(pn@), iseq(v[j as int]@), 8);
        }
        ntt_forward(&mut pn);
        proof {
            lemma_ntt_spec_canonical(iseq(v[j as int]@));
        }
        v_ntt.push(pn);
        j += 1;
    }
    let mut result: PolyVec = Vec::new();
    let mut i: usize = 0;
    while i < k
        invariant
            i <= k,
            k == a_ntt.len(),
            v_ntt.len() == v.len(),
            forall|m: int| 0 <= m < a_ntt.len() ==> (#[trigger] a_ntt[m]).len() >= v.len(),
            matrix_bounded(a_ntt@),
            forall|m: int| 0 <= m < v_ntt.len() ==> bounded((#[trigger] v_ntt[m])@, 12 * Q),
            forall|m: int| 0 <= m < v_ntt.len() ==> congruent(iseq((#[trigger] v_ntt[m])@), ntt_spec(iseq(v[m]@))),
            result.len() == i,
            forall|r: int, m: int|
                0 <= r < i && 0 <= m < N ==> #[trigger] result[r][m] == matrix_row_spec(vseq(a_ntt[r]@), vseq(v@))[m],
        decreases k - i,
    {
        let mut acc = poly_zero();
        let ghost row = vseq(a_ntt[i as int]@);
        let mut jj: usize = 0;
        while jj < v_ntt.len()
            invariant
                i < k,
                k == a_ntt.len(),
                row == vseq(a_ntt[i as int]@),
                jj <= v_ntt.len(),
                v_ntt.len() == v.len(),
                a_ntt[i as int].len() >= v.len(),
                matrix_bounded(a_ntt@),
                forall|m: int| 0 <= m < v_ntt.len() ==> bounded((#[trigger] v_ntt[m])@, 12 * Q),
                forall|m: int|
                    0 <= m < v_ntt.len() ==> congruent(iseq((#[trigger] v_ntt[m])@), ntt_spec(iseq(v[m]@))),
                bounded(acc@, Q - 1),
                forall|m: int| 0 <= m < N ==> mq(#[trigger] acc[m] as int) == row_acc(row, vseq(v@), jj as int)[m],
            decreases v_ntt.len() - jj,
        {
            assert(bounded(a_ntt[i as int][jj as int]@, 12 * Q));
            proof {
                crate::ntt::lemma_products_fit(a_ntt[i as int][jj as int]@, v_ntt[jj as int]@);
            }
            let product = ntt_pointwise_mul(&a_ntt[i][jj], &v_ntt[jj]);
            proof {
                lemma_ntt_spec_canonical(iseq(v[jj as int]@));
                lemma_pointwise_congr(
                    row[jj as int],
                    iseq(v_ntt[jj as int]@),
                    row[jj as int],
                    ntt_spec(iseq(v[jj as int]@)),
                );
            }
            let ghost acc_before = acc@;
            add_into(&mut acc, &product, Ghost(Q - 1));
            proof {
                lemma_row_acc_step(row, vseq(v@), jj as int, acc_before, product@, acc@);
            }
            // Reducing after each addition keeps the sum within `q` for any
            // number of terms.
            let ghost sum = acc@;
            reduce_poly(&mut acc);
            proof {
                assert forall|m: int| 0 <= m < N implies mq(#[trigger] acc[m] as int) == row_acc(
                    row,
                    vseq(v@),
                    jj + 1,
                )[m] && -(Q - 1) <= acc[m] <= Q - 1 by {
                    crate::ntt::lemma_centered_bound(sum[m] as int);
                }
            }
            jj += 1;
        }
        proof {
            let ra = row_acc(row, vseq(v@), v.len() as int);
            assert forall|m: int| 0 <= m < 256 implies mq(#[trigger] iseq(acc@)[m]) == mq(ra[m]) by {
                lemma_mq_mq(ra[m]);
            }
            lemma_intt_congr(iseq(acc@), ra);
        }
        ntt_inverse(&mut acc);
        let ghost inv = acc@;
        reduce_poly(&mut acc);
        proof {
            let s = intt_spec(row_acc(row, vseq(v@), v.len() as int));
            assert forall|m: int| 0 <= m < N implies #[trigger] acc[m] == matrix_row_spec(row, vseq(v@))[m] by {
                lemma_mq_mq(s[m]);
            }
        }
        result.push(acc);
        i += 1;
    }
    result
}

// ---------------------------------------------------------------------------
// Rounding into high and low bits, hints
// ---------------------------------------------------------------------------

/// `r` split as `r1 * 2 * gamma2 + r0 (mod q)` with `r0` in `(-gamma2, gamma2]`,
/// except at the top of the range where `r1` wraps to 0 and `r0` is lowered
/// by one.
pub open spec fn decompose_spec(r: int, gamma2: int) -> (int, int) {
    let r_pos = r % (Q as int);
    let r0a = r_pos % (2 * gamma2);
    let r0 = if r0a > gamma2 {
        r0a - 2 * gamma2
    } else {
        r0a
    };
    if r_pos - r0 == Q - 1 {
        (0, r0 - 1)
    } else {
        ((r_pos - r0) / (2 * gamma2), r0)
    }
}

/// The high-order part of `r`.
pub open spec fn high_bits_spec(r: int, gamma2: int) -> int {
    decompose_spec(r, gamma2).0
}

/// The low-order part of `r`.
pub open spec fn low_bits_spec(r: int, gamma2: int) -> int {
    decompose_spec(r, gamma2).1
}

/// The hint bit of a coefficient pair: whether adding `z` to `r` changes the
/// high-order part.
pub open spec fn make_hint_spec(z: int, r: int, gamma2: int) -> i8 {
    if high_bits_spec(r, gamma2) != high_bits_spec(mq(r + z), gamma2) {
        1
    } else {
        0
    }
}

/// The high-order part of `r`, moved by one step (modulo `(q - 1) / (2 * gamma2)`)
/// in the direction of the low-order part when the hint is set.
pub open spec fn use_hint_spec(hint: i8, r: int, gamma2: int) -> int {
    let (r1, r0) = decompose_spec(r, gamma2);
    let m = (Q - 1) / (2 * gamma2);
    if hint == 0 {
        r1
    } else if r0 > 0 {
        (r1 + 1) % m
    } else {
        (r1 - 1 + m) % m
    }
}

/// Valid rounding divisors: `2 * gamma2` is positive and at most `q - 1`.
pub open spec fn gamma2_ok(gamma2: i64) -> bool {
    0 < gamma2 && 2 * gamma2 <= Q - 1
}

proof fn lemma_decompose_facts(r: int, gamma2: int)
    requires
        0 < gamma2,
        2 * gamma2 <= Q - 1,
    ensures
        0 <= decompose_spec(r, gamma2).0 <= 2 * Q,
        -gamma2 <= decompose_spec(r, gamma2).1 <= gamma2,
{
    let r_pos = r % (Q as int);
    lemma_mod_bound(r, Q as int);
    lemma_mod_bound(r_pos, 2 * gamma2);
    let r0a = r_pos % (2 * gamma2);
    lemma_fundamental_div_mod(r_pos, 2 * gamma2);
    let r0 = if r0a > gamma2 {
        r0a - 2 * gamma2
    } else {
        r0a
    };
    if r_pos - r0 != Q - 1 {
        lemma_div_pos_is_pos(r_pos - r0, 2 * gamma2);
        lemma_div_nonincreasing(r_pos - r0, 2 * gamma2);
    }
}

/// The high and low parts put back together give the coefficient again:
/// `HighBits(r) * 2 * gamma2 + LowBits(r) == r (mod q)`, with
/// `|LowBits(r)| <= gamma2`.
pub proof fn lemma_high_low_reconstruction(r: int, gamma2: int)
    requires
        0 < gamma2,
        2 * gamma2 <= Q - 1,
    ensures
        mq(high_bits_spec(r, gamma2) * (2 * gamma2) + low_bits_spec(r, gamma2)) == mq(r),
        -gamma2 <= low_bits_spec(r, gamma2) <= gamma2,
{
    lemma_decompose_facts(r, gamma2);
    let q = Q as int;
    let r_pos = r % q;
    lemma_mod_bound(r, q);
    lemma_mod_twice(r, q);
    lemma_fundamental_div_mod(r_pos, 2 * gamma2);
    lemma_mod_bound(r_pos, 2 * gamma2);
    let r0a = r_pos % (2 * gamma2);
    let r0 = if r0a > gamma2 {
        r0a - 2 * gamma2
    } else {
        r0a
    };
    assert(mq(r_pos) == mq(r));
    if r_pos - r0 == Q - 1 {
        assert(high_bits_spec(r, gamma2) == 0);
        assert(low_bits_spec(r, gamma2) == r0 - 1);
        assert(high_bits_spec(r, gamma2) * (2 * gamma2) + low_bits_spec(r, gamma2) == r_pos - q);
        lemma_mod_add_multiples_vanish(r_pos - q, q);
    } else {
        assert(high_bits_spec(r, gamma2) == (r_pos - r0) / (2 * gamma2));
        assert(low_bits_spec(r, gamma2) == r0);
        let d = r_pos / (2 * gamma2);
        if r0a > gamma2 {
            assert(r_pos - r0 == (2 * gamma2) * (d + 1)) by (nonlinear_arith)
                requires
                    r_pos == (2 * gamma2) * d + r0a,
                    r0 == r0a - 2 * gamma2,
            ;
            lemma_div_by_multiple(d + 1, 2 * gamma2);
            assert((2 * gamma2) * (d + 1) / (2 * gamma2) == d + 1) by {
                lemma_mul_is_commutative(2 * gamma2, d + 1);
            }
            assert((d + 1) * (2 * gamma2) == (2 * gamma2) * (d + 1)) by {
                lemma_mul_is_commutative(2 * gamma2, d + 1);
            }
        } else {
            assert(r_pos - r0 == (2 * gamma2) * d);
            lemma_div_by_multiple(d, 2 * gamma2);
            assert((2 * gamma2) * d / (2 * gamma2) == d) by {
                lemma_mul_is_commutative(2 * gamma2, d);
            }
            assert(d * (2 * gamma2) == (2 * gamma2) * d) by {
                lemma_mul_is_commutative(2 * gamma2, d);
            }
        }
    }
}

/// The decomposition of `u` in `[0, q)` written as `a * 2 * gamma2 + b` with
/// `b` in `(-gamma2, gamma2]` and `0 <= a <= m`, where `m * 2 * gamma2 = q - 1`:
/// the high part is `a` (0 when `a = m`), the low part is `b` (`b - 1` when
/// `a = m`).
proof fn lemma_decompose_of(u: int, a: int, b: int, gamma2: int)
    requires
        0 < gamma2,
        2 * gamma2 <= Q - 1,
        0 <= u < Q,
        u == a * (2 * gamma2) + b,
        -gamma2 < b <= gamma2,
        0 <= a,
    ensures
        u - b == Q - 1 ==> high_bits_spec(u, gamma2) == 0 && low_bits_spec(u, gamma2) == b - 1,
        u - b != Q - 1 ==> high_bits_spec(u, gamma2) == a && low_bits_spec(u, gamma2) == b,
{
    let al = 2 * gamma2;
    lemma_small_mod(u as nat, Q as nat);
    if b >= 0 {
        lemma_fundamental_div_mod_converse(u, al, a, b);
    } else {
        assert(u == (a - 1) * al + (b + al)) by (nonlinear_arith)
            requires
                u == a * al + b,
        ;
        lemma_fundamental_div_mod_converse(u, al, a - 1, b + al);
    }
    if u - b != Q - 1 {
        lemma_div_by_multiple(a, al);
    }
}

/// The high part of `mq(u + z)` for `|z| <= gamma2` is the high part of `u` or
/// the one next to it in the direction that `UseHint` takes.
proof fn lemma_high_bits_step(u: int, z: int, gamma2: int)
    requires
        0 < gamma2,
        (Q - 1) % (2 * gamma2) == 0,
        4 * gamma2 <= Q - 1,
        0 <= u < Q,
        -gamma2 <= z <= gamma2,
    ensures
        high_bits_spec(mq(u + z), gamma2) == high_bits_spec(u, gamma2)
            || high_bits_spec(mq(u + z), gamma2) == use_hint_spec(1, u, gamma2),
{
    let q = Q as int;
    let al = 2 * gamma2;
    let m = (q - 1) / al;
    lemma_fundamental_div_mod(q - 1, al);
    assert(q - 1 == m * al);
    assert(m >= 2) by (nonlinear_arith)
        requires
            q - 1 == m * al,
            2 * al <= q - 1,
            al > 0,
    ;
    // The decomposition of u.
    lemma_fundamental_div_mod(u, al);
    lemma_mod_bound(u, al);
    let r0a = u % al;
    let d = u / al;
    let b = if r0a > gamma2 {
        r0a - al
    } else {
        r0a
    };
    let a = if r0a > gamma2 {
        d + 1
    } else {
        d
    };
    assert(u == a * al + b) by (nonlinear_arith)
        requires
            u == al * d + r0a,
            r0a > gamma2 ==> a == d + 1 && b == r0a - al,
            r0a <= gamma2 ==> a == d && b == r0a,
    ;
    lemma_div_pos_is_pos(u, al);
    assert(a <= m) by (nonlinear_arith)
        requires
            u == a * al + b,
            u <= q - 1,
            q - 1 == m * al,
            b > -gamma2,
            al == 2 * gamma2,
            gamma2 > 0,
    ;
    lemma_decompose_of(u, a, b, gamma2);
    assert(u - b == q - 1 <==> a == m) by (nonlinear_arith)
        requires
            u == a * al + b,
            q - 1 == m * al,
            al > 0,
    ;
    let hu = high_bits_spec(u, gamma2);
    let dir = use_hint_spec(1, u, gamma2);
    let t = u + z;
    let c = b + z;
    let v = mq(t);
    lemma_mod_bound(t, q);
    lemma_div_basics(m);
    if -gamma2 < c && c <= gamma2 {
        if 0 <= t && t < q {
            lemma_small_mod(t as nat, q as nat);
            assert(t == a * al + c);
            assert(t - c == q - 1 <==> a == m);
            lemma_decompose_of(t, a, c, gamma2);
        } else if t < 0 {
            assert(a == 0) by (nonlinear_arith)
                requires
                    u == a * al + b,
                    u + z < 0,
                    z >= -gamma2,
                    b > -gamma2,
                    al == 2 * gamma2,
                    gamma2 > 0,
                    0 <= a,
            ;
            lemma_mod_add_multiples_vanish(t, q);
            lemma_small_mod((t + q) as nat, q as nat);
            assert(v == t + q);
            assert(v == m * al + (c + 1));
            lemma_decompose_of(v, m, c + 1, gamma2);
        } else {
            assert((a - m + 1) * al >= 1) by (nonlinear_arith)
                requires
                    u == a * al + b,
                    u + z >= q,
                    z <= gamma2,
                    b <= gamma2,
                    al == 2 * gamma2,
                    q - 1 == m * al,
            ;
            assert(a == m) by (nonlinear_arith)
                requires
                    (a - m + 1) * al >= 1,
                    al > 0,
                    a <= m,
            ;
            lemma_mod_sub_multiples_vanish(t, q);
            lemma_small_mod((t - q) as nat, q as nat);
            assert(v == t - q);
            assert(v == 0 * al + (c - 1));
            lemma_decompose_of(v, 0, c - 1, gamma2);
        }
    } else if c > gamma2 {
        assert(b > 0);
        assert(a < m);
        assert(t == (a + 1) * al + (c - al)) by (nonlinear_arith)
            requires
                t == a * al + c,
        ;
        assert(t < q) by (nonlinear_arith)
            requires
                t == (a + 1) * al + (c - al),
                a + 1 <= m,
                c - al <= 0,
                q - 1 == m * al,
                al > 0,
        ;
        lemma_small_mod(t as nat, q as nat);
        lemma_decompose_of(t, a + 1, c - al, gamma2);
        assert(t - (c - al) == q - 1 <==> a + 1 == m) by (nonlinear_arith)
            requires
                t == (a + 1) * al + (c - al),
                q - 1 == m * al,
                al > 0,
        ;
        if a + 1 < m {
            lemma_small_mod((a + 1) as nat, m as nat);
        } else {
            lemma_mod_self_0(m);
        }
    } else {
        assert(b <= 0);
        assert(t == (a - 1) * al + (c + al)) by (nonlinear_arith)
            requires
                t == a * al + c,
        ;
        // The direction of UseHint is down by one, modulo m.
        assert(dir == (a - 1 + m) % m) by {
            if a == m {
                assert(dir == (0 - 1 + m) % m);
                lemma_small_mod((m - 1) as nat, m as nat);
                lemma_mod_add_multiples_vanish(m - 1, m);
            }
        }
        if a >= 1 {
            assert(0 <= t < q) by (nonlinear_arith)
                requires
                    t == (a - 1) * al + (c + al),
                    a - 1 >= 0,
                    a <= m,
                    0 < c + al <= gamma2,
                    q - 1 == m * al,
                    al == 2 * gamma2,
                    gamma2 > 0,
            ;
            lemma_small_mod(t as nat, q as nat);
            assert(t - (c + al) != q - 1) by (nonlinear_arith)
                requires
                    t == (a - 1) * al + (c + al),
                    a - 1 < m,
                    q - 1 == m * al,
                    al > 0,
            ;
            lemma_decompose_of(t, a - 1, c + al, gamma2);
            lemma_mod_add_multiples_vanish(a - 1, m);
            lemma_small_mod((a - 1) as nat, m as nat);
        } else {
            assert(a == 0);
            lemma_mod_add_multiples_vanish(t, q);
            lemma_small_mod((t + q) as nat, q as nat);
            assert(v == t + q);
            assert(v == (m - 1) * al + (c + al + 1)) by (nonlinear_arith)
                requires
                    v == t + q,
                    t == (a - 1) * al + (c + al),
                    a == 0,
                    q == m * al + 1,
            ;
            lemma_small_mod((m - 1) as nat, m as nat);
            if c + al + 1 <= gamma2 {
                assert(v - (c + al + 1) != q - 1) by (nonlinear_arith)
                    requires
                        v == (m - 1) * al + (c + al + 1),
                        q - 1 == m * al,
                        al > 0,
                ;
                lemma_decompose_of(v, m - 1, c + al + 1, gamma2);
            } else {
                assert(v == m * al + (c + al + 1 - al)) by (nonlinear_arith)
                    requires
                        v == (m - 1) * al + (c + al + 1),
                ;
                lemma_decompose_of(v, m, c + 1, gamma2);
            }
        }
    }
}

/// UseHint recovers the high bits that MakeHint compared: for every `r` and
/// every `z` with `|z| <= gamma2`,
/// `UseHint(MakeHint(z, r), r) == HighBits(r + z)`.
pub proof fn lemma_use_make_hint(z: int, r: int, gamma2: int)
    requires
        0 < gamma2,
        (Q - 1) % (2 * gamma2) == 0,
        4 * gamma2 <= Q - 1,
        -gamma2 <= z <= gamma2,
    ensures
        use_hint_spec(make_hint_spec(z, r, gamma2), r, gamma2) == high_bits_spec(r + z, gamma2),
{
    let q = Q as int;
    let u = mq(r);
    lemma_mq_mq(r);
    lemma_mq_mq(r + z);
    assert(decompose_spec(r, gamma2) == decompose_spec(u, gamma2));
    assert(decompose_spec(r + z, gamma2) == decompose_spec(mq(r + z), gamma2));
    lemma_pair_congr(u, z, r, z);
    assert(mq(u + z) == mq(r + z));
    lemma_high_bits_step(u, z, gamma2);
}

/// Split a coefficient into its high-order and low-order parts.
fn decompose(r: i64, gamma2: i64) -> (res: (i64, i64))
    requires
        gamma2_ok(gamma2),
    ensures
        res.0 == decompose_spec(r as int, gamma2 as int).0,
        res.1 == decompose_spec(r as int, gamma2 as int).1,
{
    proof {
        lemma_fundamental_div_mod(r as int, Q as int);
        lemma_mod_bound(r as int, Q as int);
    }
    let r_pos = ((r % Q) + Q) % Q;
    assert(r_pos == (r as int) % (Q as int));
    proof {
        lemma_mod_bound(r_pos as int, 2 * gamma2);
        lemma_fundamental_div_mod(r_pos as int, 2 * gamma2);
    }
    let mut r0 = r_pos % (2 * gamma2);
    if r0 > gamma2 {
        r0 -= 2 * gamma2;
    }
    if r_pos - r0 == Q - 1 {
        (0, r0 - 1)
    } else {
        proof {
            lemma_div_pos_is_pos(r_pos - r0, 2 * gamma2);
        }
        ((r_pos - r0) / (2 * gamma2), r0)
    }
}

/// Extract the high-order bits of a coefficient.
pub fn high_bits(r: i64, gamma2: i64) -> (r1: i64)
    requires
        gamma2_ok(gamma2),
    ensures
        r1 == high_bits_spec(r as int, gamma2 as int),
{
    decompose(r, gamma2).0
}

/// Extract the low-order bits of a coefficient.
pub fn low_bits(r: i64, gamma2: i64) -> (r0: i64)
    requires
        gamma2_ok(gamma2),
    ensures
        r0 == low_bits_spec(r as int, gamma2 as int),
{
    decompose(r, gamma2).1
}

/// Compute HighBits for each coefficient of a polynomial.
pub fn high_bits_poly(a: &Poly, gamma2: i64) -> (result: Poly)
    requires
        gamma2_ok(gamma2),
    ensures
        forall|i: int| 0 <= i < N ==> #[trigger] result[i] == high_bits_spec(a[i] as int, gamma2 as int),
{
    let mut result = poly_zero();
    let mut i: usize = 0;
    while i < N
        invariant
            i <= N,
            gamma2_ok(gamma2),
            forall|m: int| 0 <= m < i ==> #[trigger] result[m] == high_bits_spec(a[m] as int, gamma2 as int),
        decreases N - i,
    {
        result[i] = high_bits(a[i], gamma2);
        i += 1;
    }
    result
}

/// Compute LowBits for each coefficient of a polynomial.
pub fn low_bits_poly(a: &Poly, gamma2: i64) -> (result: Poly)
    requires
        gamma2_ok(gamma2),
    ensures
        forall|i: int| 0 <= i < N ==> #[trigger] result[i] == low_bits_spec(a[i] as int, gamma2 as int),
{
    let mut result = poly_zero();
    let mut i: usize = 0;
    while i < N
        invariant
            i <= N,
            gamma2_ok(gamma2),
            forall|m: int| 0 <= m < i ==> #[trigger] result[m] == low_bits_spec(a[m] as int, gamma2 as int),
        decreases N - i,
    {
        result[i] = low_bits(a[i], gamma2);
        i += 1;
    }
    result
}

/// Compute HighBits for each coefficient of a polynomial vector.
pub fn high_bits_vec(v: &[Poly], gamma2: i64) -> (result: PolyVec)
    requires
        gamma2_ok(gamma2),
    ensures
        result.len() == v.len(),
        forall|j: int, i: int|
            0 <= j < v.len() && 0 <= i < N ==> #[trigger] result[j][i] == high_bits_spec(v[j][i] as int, gamma2 as int),
{
    let mut result: PolyVec = Vec::new();
    let mut j: usize = 0;
    while j < v.len()
        invariant
            j <= v.len(),
            gamma2_ok(gamma2),
            result.len() == j,
            forall|m: int, i: int|
                0 <= m < j && 0 <= i < N ==> #[trigger] result[m][i] == high_bits_spec(v[m][i] as int, gamma2 as int),
        decreases v.len() - j,
    {
        result.push(high_bits_poly(&v[j], gamma2));
        j += 1;
    }
    result
}

/// Compute LowBits for each coefficient of a polynomial vector.
pub fn low_bits_vec(v: &[Poly], gamma2: i64) -> (result: PolyVec)
    requires
        gamma2_ok(gamma2),
    ensures
        result.len() == v.len(),
        forall|j: int, i: int|
            0 <= j < v.len() && 0 <= i < N ==> #[trigger] result[j][i] == low_bits_spec(v[j][i] as int, gamma2 as int),
{
    let mut result: PolyVec = Vec::new();
    let mut j: usize = 0;
    while j < v.len()
        invariant
            j <= v.len(),
            gamma2_ok(gamma2),
            result.len() == j,
            forall|m: int, i: int|
                0 <= m < j && 0 <= i < N ==> #[trigger] result[m][i] == low_bits_spec(v[m][i] as int, gamma2 as int),
        decreases v.len() - j,
    {
        result.push(low_bits_poly(&v[j], gamma2));
        j += 1;
    }
    result
}

/// Compute the hint bit for a single coefficient pair.
pub fn make_hint_coeff(z: i64, r: i64, gamma2: i64) -> (h: i8)
    requires
        gamma2_ok(gamma2),
        i64::MIN <= r + z <= i64::MAX,
    ensures
        h == make_hint_spec(z as int, r as int, gamma2 as int),
{
    let r1 = high_bits(r, gamma2);
    proof {
        lemma_fundamental_div_mod((r + z) as int, Q as int);
        lemma_mod_bound((r + z) as int, Q as int);
    }
    let s = ((r + z) % Q + Q) % Q;
    assert(s == mq(r + z));
    let v1 = high_bits(s, gamma2);
    if r1 != v1 {
        1
    } else {
        0
    }
}

/// Apply the hint to recover high bits from a coefficient.
pub fn use_hint_coeff(hint: i8, r: i64, gamma2: i64) -> (r1: i64)
    requires
        gamma2_ok(gamma2),
    ensures
        r1 == use_hint_spec(hint, r as int, gamma2 as int),
{
    let (r1, r0) = decompose(r, gamma2);
    proof {
        lemma_decompose_facts(r as int, gamma2 as int);
    }
    if hint == 0 {
        return r1;
    }
    let m = (Q - 1) / (2 * gamma2);
    proof {
        lemma_div_pos_is_pos(Q - 1, 2 * gamma2);
        lemma_div_is_ordered(2 * gamma2, Q - 1, 2 * gamma2);
        lemma_div_basics(2 * gamma2);
    }
    if r0 > 0 {
        (r1 + 1) % m
    } else {
        (r1 - 1 + m) % m
    }
}

/// Compute MakeHint for an entire polynomial pair.
pub fn make_hint_poly(z: &Poly, r: &Poly, gamma2: i64) -> (hints: Vec<i8>)
    requires
        gamma2_ok(gamma2),
        add_fits(r@, z@),
    ensures
        hints.len() == N,
        forall|i: int| 0 <= i < N ==> #[trigger] hints[i] == make_hint_spec(z[i] as int, r[i] as int, gamma2 as int),
{
    let mut hints: Vec<i8> = Vec::new();
    let mut i: usize = 0;
    while i < N
        invariant
            i <= N,
            gamma2_ok(gamma2),
            add_fits(r@, z@),
            hints.len() == i,
            forall|m: int| 0 <= m < i ==> #[trigger] hints[m] == make_hint_spec(z[m] as int, r[m] as int, gamma2 as int),
        decreases N - i,
    {
        assert(i64::MIN <= r[i as int] + z[i as int] <= i64::MAX);
        hints.push(make_hint_coeff(z[i], r[i], gamma2));
        i += 1;
    }
    hints
}

/// UseHint on the `N` hints that start at `off`.
fn use_hint_range(hints: &[i8], off: usize, r: &Poly, gamma2: i64) -> (result: Poly)
    requires
        gamma2_ok(gamma2),
        off + N <= hints.len(),
    ensures
        forall|i: int| 0 <= i < N ==> #[trigger] result[i] == use_hint_spec(hints[off + i], r[i] as int, gamma2 as int),
{
    let mut result = poly_zero();
    let mut i: usize = 0;
    while i < N
        invariant
            i <= N,
            gamma2_ok(gamma2),
            off + N <= hints.len(),
            forall|m: int| 0 <= m < i ==> #[trigger] result[m] == use_hint_spec(hints[off + m], r[m] as int, gamma2 as int),
        decreases N - i,
    {
        result[i] = use_hint_coeff(hints[off + i], r[i], gamma2);
        i += 1;
    }
    result
}

/// Compute UseHint for an entire polynomial with hint vector.
///
/// Returns `MalformedProof` exactly when the hint vector does not hold `N`
/// entries.
pub fn use_hint_poly(hints: &[i8], r: &Poly, gamma2: i64) -> (res: Result<Poly, EyvaraError>)
    requires
        gamma2_ok(gamma2),
    ensures
        match res {
            Ok(p) => hints.len() == N && forall|i: int|
                0 <= i < N ==> #[trigger] p[i] == use_hint_spec(hints[i], r[i] as int, gamma2 as int),
            Err(e) => hints.len() != N && e == EyvaraError::MalformedProof,
        },
{
    if hints.len() != N {
        return Err(EyvaraError::MalformedProof);
    }
    let p = use_hint_range(hints, 0, r, gamma2);
    assert forall|i: int| 0 <= i < N implies #[trigger] p[i] == use_hint_spec(hints[i], r[i] as int, gamma2 as int) by {
        assert(hints[0 + i] == hints[i]);
    }
    Ok(p)
}

/// The number of nonzero entries among the first `n` hints.
pub open spec fn weight_prefix(h: Seq<i8>, n: int) -> nat
    decreases n,
{
    if n <= 0 {
        0
    } else if h[n - 1] != 0 {
        weight_prefix(h, n - 1) + 1
    } else {
        weight_prefix(h, n - 1)
    }
}

/// The number of nonzero entries of a hint vector.
pub open spec fn weight(h: Seq<i8>) -> nat {
    weight_prefix(h, h.len() as int)
}

/// Every hint is 0 or 1.
pub open spec fn binary_hints(h: Seq<i8>) -> bool {
    forall|i: int| 0 <= i < h.len() ==> #[trigger] h[i] == 0 || h[i] == 1
}

proof fn lemma_weight_prefix_le(h: Seq<i8>, n: int)
    requires
        0 <= n,
    ensures
        weight_prefix(h, n) <= n,
    decreases n,
{
    if n > 0 {
        lemma_weight_prefix_le(h, n - 1);
    }
}

/// Count the number of nonzero entries in a hint vector.
pub fn hint_weight(hints: &[i8]) -> (w: usize)
    ensures
        w == weight(hints@),
{
    let mut w: usize = 0;
    let mut i: usize = 0;
    while i < hints.len()
        invariant
            i <= hints.len(),
            w == weight_prefix(hints@, i as int),
        decreases hints.len() - i,
    {
        proof {
            lemma_weight_prefix_le(hints@, i as int);
        }
        if hints[i] != 0 {
            w += 1;
        }
        i += 1;
    }
    w
}

/// The hints of a pair of vectors, polynomial after polynomial.
pub open spec fn make_hint_flat(z: Seq<Seq<int>>, r: Seq<Seq<int>>, gamma2: int) -> Seq<i8> {
    Seq::new((z.len() * 256) as nat, |t: int| make_hint_spec(z[t / 256][t % 256], r[t / 256][t % 256], gamma2))
}

/// Compute MakeHint for polynomial vectors, with the number of set hints.
///
/// Returns `MalformedProof` exactly when the vectors differ in length.
pub fn make_hint_vec(z: &[Poly], r: &[Poly], gamma2: i64) -> (res: Result<(Vec<i8>, usize), EyvaraError>)
    requires
        gamma2_ok(gamma2),
        forall|j: int| 0 <= j < z.len() && j < r.len() ==> add_fits((#[trigger] r[j])@, z[j]@),
    ensures
        match res {
            Ok((h, w)) => {
                &&& z.len() == r.len()
                &&& h@ == make_hint_flat(vseq(z@), vseq(r@), gamma2 as int)
                &&& w == weight(h@)
            },
            Err(e) => z.len() != r.len() && e == EyvaraError::MalformedProof,
        },
{
    if z.len() != r.len() {
        return Err(EyvaraError::MalformedProof);
    }
    let mut hints: Vec<i8> = Vec::new();
    let mut j: usize = 0;
    while j < z.len()
        invariant
            j <= z.len(),
            z.len() == r.len(),
            gamma2_ok(gamma2),
            forall|m: int| 0 <= m < z.len() && m < r.len() ==> add_fits((#[trigger] r[m])@, z[m]@),
            hints.len() == j * 256,
            forall|t: int|
                0 <= t < j * 256 ==> #[trigger] hints[t] == make_hint_spec(
                    z[t / 256][t % 256] as int,
                    r[t / 256][t % 256] as int,
                    gamma2 as int,
                ),
        decreases z.len() - j,
    {
        let h = make_hint_poly(&z[j], &r[j], gamma2);
        let ghost before = hints@;
        let mut i: usize = 0;
        while i < N
            invariant
                i <= N,
                j < z.len(),
                h.len() == N,
                before.len() == j * 256,
                hints.len() == j * 256 + i,
                forall|t: int| 0 <= t < j * 256 ==> #[trigger] hints[t] == before[t],
                forall|t: int| 0 <= t < i ==> #[trigger] hints[j * 256 + t] == h[t],
            decreases N - i,
        {
            hints.push(h[i]);
            i += 1;
        }
        proof {
            assert forall|t: int| 0 <= t < (j + 1) * 256 implies #[trigger] hints[t] == make_hint_spec(
                z[t / 256][t % 256] as int,
                r[t / 256][t % 256] as int,
                gamma2 as int,
            ) by {
                if t >= j * 256 {
                    let o = t - j * 256;
                    lemma_fundamental_div_mod_converse(t, 256, j as int, o);
                    assert(hints[j * 256 + o] == h[o]);
                } else {
                    assert(hints[t] == before[t]);
                }
            }
        }
        j += 1;
    }
    assert(hints@ =~= make_hint_flat(vseq(z@), vseq(r@), gamma2 as int));
    let weight = hint_weight(&hints);
    Ok((hints, weight))
}

/// Compute UseHint for polynomial vectors.
///
/// Returns `MalformedProof` exactly when the hint vector does not hold
/// `N` entries per polynomial.
pub fn use_hint_vec(hints: &[i8], r: &[Poly], gamma2: i64) -> (res: Result<PolyVec, EyvaraError>)
    requires
        gamma2_ok(gamma2),
        r.len() * 256 <= usize::MAX,
    ensures
        match res {
            Ok(v) => {
                &&& hints.len() == r.len() * 256
                &&& v.len() == r.len()
                &&& forall|j: int, i: int|
                    0 <= j < r.len() && 0 <= i < N ==> #[trigger] v[j][i] == use_hint_spec(
                        hints[j * 256 + i],
                        r[j][i] as int,
                        gamma2 as int,
                    )
            },
            Err(e) => hints.len() != r.len() * 256 && e == EyvaraError::MalformedProof,
        },
{
    let k = r.len();
    if hints.len() != k * N {
        return Err(EyvaraError::MalformedProof);
    }
    let mut result: PolyVec = Vec::new();
    let mut j: usize = 0;
    while j < k
        invariant
            j <= k,
            k == r.len(),
            hints.len() == k * 256,
            gamma2_ok(gamma2),
            result.len() == j,
            forall|m: int, i: int|
                0 <= m < j && 0 <= i < N ==> #[trigger] result[m][i] == use_hint_spec(
                    hints[m * 256 + i],
                    r[m][i] as int,
                    gamma2 as int,
                ),
        decreases k - j,
    {
        assert(j * 256 + 256 <= k * 256) by (nonlinear_arith)
            requires
                j < k,
        ;
        result.push(use_hint_range(hints, j * N, &r[j], gamma2));
        j += 1;
    }
    Ok(result)
}

// ---------------------------------------------------------------------------
// Serialization
// ---------------------------------------------------------------------------

/// Byte `b` (little-endian) of `x`.
pub open spec fn le_byte(x: int, b: int) -> u8 {
    if b == 0 {
        (x % 256) as u8
    } else if b == 1 {
        ((x / 256) % 256) as u8
    } else if b == 2 {
        ((x / 65536) % 256) as u8
    } else {
        ((x / 16777216) % 256) as u8
    }
}

/// Every coefficient as the four little-endian bytes of its canonical residue.
pub open spec fn poly_bytes(p: Seq<int>) -> Seq<u8> {
    Seq::new(1024, |t: int| le_byte(mq(p[t / 4]), t % 4))
}

/// The serializations of the polynomials of a vector, one after the other.
pub open spec fn poly_vec_bytes(v: Seq<Seq<int>>) -> Seq<u8>
    decreases v.len(),
{
    if v.len() == 0 {
        Seq::empty()
    } else {
        poly_vec_bytes(v.drop_last()) + poly_bytes(v.last())
    }
}

/// Serialize a polynomial's coefficients to bytes for hashing.
pub fn poly_to_bytes(p: &Poly) -> (bytes: Vec<u8>)
    ensures
        bytes@ == poly_bytes(iseq(p@)),
{
    let mut bytes: Vec<u8> = Vec::with_capacity(N * 4);
    let mut i: usize = 0;
    while i < N
        invariant
            i <= N,
            bytes.len() == 4 * i,
            forall|t: int| 0 <= t < 4 * i ==> #[trigger] bytes[t] == le_byte(mq(p[t / 4] as int), t % 4),
        decreases N - i,
    {
        let c = p[i];
        proof {
            lemma_fundamental_div_mod(c as int, Q as int);
            lemma_mod_bound(c as int, Q as int);
        }
        let c_pos = ((c % Q) + Q) % Q;
        assert(c_pos == mq(c as int));
        let v = c_pos as u32;
        let ghost before = bytes@;
        bytes.push((v % 256) as u8);
        bytes.push(((v / 256) % 256) as u8);
        bytes.push(((v / 65536) % 256) as u8);
        bytes.push(((v / 16777216) % 256) as u8);
        proof {
            assert forall|t: int| 0 <= t < 4 * (i + 1) implies #[trigger] bytes[t] == le_byte(
                mq(p[t / 4] as int),
                t % 4,
            ) by {
                if t >= 4 * i {
                    lemma_fundamental_div_mod_converse(t, 4, i as int, t - 4 * i);
                } else {
                    assert(bytes[t] == before[t]);
                }
            }
        }
        i += 1;
    }
    assert(bytes@ =~= poly_bytes(iseq(p@)));
    bytes
}

/// Serialize a polynomial vector to bytes for hashing.
pub fn poly_vec_to_bytes(v: &[Poly]) -> (bytes: Vec<u8>)
    ensures
        bytes@ == poly_vec_bytes(vseq(v@)),
{
    let mut bytes: Vec<u8> = Vec::new();
    let mut j: usize = 0;
    while j < v.len()
        invariant
            j <= v.len(),
            bytes@ == poly_vec_bytes(vseq(v@.subrange(0, j as int))),
        decreases v.len() - j,
    {
        let pb = poly_to_bytes(&v[j]);
        bytes.extend_from_slice(pb.as_slice());
        proof {
            let s = vseq(v@.subrange(0, j + 1));
            assert(s.drop_last() =~= vseq(v@.subrange(0, j as int)));
            assert(s.last() == iseq(v@[j as int]@));
            assert(bytes@ =~= poly_vec_bytes(vseq(v@.subrange(0, j as int))) + pb@);
        }
        j += 1;
    }
    assert(vseq(v@.subrange(0, v.len() as int)) =~= vseq(v@));
    bytes
}

/// A polynomial vector as nested vectors of coefficients, for encodings that
/// have no fixed-size arrays.
pub fn polyvec_to_nested_vec(v: &[Poly]) -> (r: Vec<Vec<i64>>)
    ensures
        r.len() == v.len(),
        forall|j: int| 0 <= j < v.len() ==> (#[trigger] r[j])@ == v[j]@,
{
    let mut r: Vec<Vec<i64>> = Vec::new();
    let mut j: usize = 0;
    while j < v.len()
        invariant
            j <= v.len(),
            r.len() == j,
            forall|m: int| 0 <= m < j ==> (#[trigger] r[m])@ == v[m]@,
        decreases v.len() - j,
    {
        let mut p: Vec<i64> = Vec::new();
        let mut i: usize = 0;
        while i < N
            invariant
                i <= N,
                j < v.len(),
                p@ == v[j as int]@.subrange(0, i as int),
            decreases N - i,
        {
            p.push(v[j][i]);
            i += 1;
            assert(p@ =~= v[j as int]@.subrange(0, i as int));
        }
        assert(p@ =~= v[j as int]@);
        r.push(p);
        j += 1;
    }
    r
}

/// Decoding what encoding gives back is the identity: nested vectors that
/// hold the coefficients of the polynomials of `v` all hold `N` coefficients,
/// so `nested_vec_to_polyvec` accepts them, and what it returns holds the
/// polynomials of `v`.
pub proof fn lemma_nested_vec_roundtrip(v: Seq<Poly>, r: Seq<Vec<i64>>, back: Seq<Poly>)
    requires
        r.len() == v.len(),
        forall|j: int| 0 <= j < v.len() ==> (#[trigger] r[j])@ == v[j]@,
        back.len() == r.len(),
        forall|j: int| 0 <= j < r.len() ==> (#[trigger] back[j])@ == r[j]@,
    ensures
        !(exists|j: int| 0 <= j < r.len() && (#[trigger] r[j]).len() != N),
        back.len() == v.len(),
        forall|j: int| 0 <= j < v.len() ==> (#[trigger] back[j])@ == v[j]@,
        vseq(back) == vseq(v),
{
    assert forall|j: int| 0 <= j < v.len() implies (#[trigger] back[j])@ == v[j]@ by {
        assert(back[j]@ == r[j]@);
    }
    assert(vseq(back) =~= vseq(v)) by {
        assert forall|j: int| 0 <= j < v.len() implies #[trigger] vseq(back)[j] == vseq(v)[j] by {
            assert(back[j]@ == v[j]@);
        }
    }
}

/// A 32-byte seed from a byte string: `None` exactly when the string does not
/// hold 32 bytes.
pub fn seed_from_bytes(b: &[u8]) -> (r: Option<[u8; 32]>)
    ensures
        r is Some <==> b@.len() == 32,
        r is Some ==> r->0@ == b@,
{
    if b.len() != 32 {
        return None;
    }
    let mut out = [0u8; 32];
    let mut i: usize = 0;
    while i < 32
        invariant
            b@.len() == 32,
            i <= 32,
            forall|m: int| 0 <= m < i ==> #[trigger] out[m] == b@[m],
        decreases 32 - i,
    {
        out[i] = b[i];
        i += 1;
    }
    assert(out@ =~= b@);
    Some(out)
}

/// Nested vectors of coefficients as a polynomial vector: `None` exactly when
/// some inner vector does not hold `N` coefficients.
pub fn nested_vec_to_polyvec(v: &Vec<Vec<i64>>) -> (r: Option<PolyVec>)
    ensures
        match r {
            Some(p) => {
                &&& p.len() == v.len()
                &&& forall|j: int| 0 <= j < v.len() ==> (#[trigger] p[j])@ == v[j]@
            },
            None => exists|j: int| 0 <= j < v.len() && (#[trigger] v[j]).len() != N,
        },
{
    let mut out: PolyVec = Vec::new();
    let mut j: usize = 0;
    while j < v.len()
        invariant
            j <= v.len(),
            out.len() == j,
            forall|m: int| 0 <= m < j ==> (#[trigger] out[m])@ == v[m]@,
        decreases v.len() - j,
    {
        if v[j].len() != N {
            assert(v[j as int].len() != N);
            return None;
        }
        let mut arr = poly_zero();
        let mut i: usize = 0;
        while i < N
            invariant
                i <= N,
                j < v.len(),
                v[j as int].len() == N,
                forall|m: int| 0 <= m < i ==> #[trigger] arr[m] == v[j as int][m],
            decreases N - i,
        {
            arr[i] = v[j][i];
            i += 1;
        }
        assert(arr@ =~= v[j as int]@);
        out.push(arr);
        j += 1;
    }
    Some(out)
}

// ---------------------------------------------------------------------------
// Sampling
// ---------------------------------------------------------------------------

/// The first 256 entries of `acc` as a polynomial, zeros past its end.
pub open spec fn pad_poly(acc: Seq<int>) -> Seq<int> {
    Seq::new(256, |i: int| if i < acc.len() { acc[i] } else { 0 })
}

/// The 23-bit candidate read from the three bytes at `pos`, little-endian.
pub open spec fn chunk_value(b: Seq<u8>, pos: int) -> int {
    b[pos] as int + 256 * (b[pos + 1] as int) + 65536 * ((b[pos + 2] as int) % 128)
}

/// Rejection sampling mod `q`: from position `pos` on, the candidates below
/// `q` are appended to `acc`, centered, until `acc` holds 256 values or fewer
/// than three bytes remain.
pub open spec fn rej_scan(b: Seq<u8>, pos: int, acc: Seq<int>) -> Seq<int>
    decreases b.len() - pos,
{
    if acc.len() >= 256 || pos < 0 || pos + 3 > b.len() {
        acc
    } else if chunk_value(b, pos) < Q {
        rej_scan(b, pos + 3, acc.push(centered(chunk_value(b, pos))))
    } else {
        rej_scan(b, pos + 3, acc)
    }
}

/// The polynomial sampled uniformly mod `q` from a byte stream.
pub open spec fn uniform_poly_spec(b: Seq<u8>) -> Seq<int> {
    pad_poly(rej_scan(b, 0, Seq::empty()))
}

proof fn lemma_chunk_bits(b0: u8, b1: u8, b2: u8)
    ensures
        ((b0 as i64) | ((b1 as i64) << 8u64) | ((b2 as i64) << 16u64)) & 0x7F_FFFFi64 == b0 as int + 256
            * (b1 as int) + 65536 * ((b2 as int) % 128),
{
    assert(((b0 as i64) | ((b1 as i64) << 8u64) | ((b2 as i64) << 16u64)) & 0x7F_FFFFi64 == b0 as i64 + 256
        * (b1 as i64) + 65536 * ((b2 as i64) % 128)) by (bit_vector);
}

/// The poly holds `acc` in its first entries and zeros after them.
pub open spec fn holds_prefix(p: Seq<i64>, acc: Seq<int>) -> bool {
    &&& acc.len() <= 256
    &&& forall|i: int| 0 <= i < acc.len() ==> #[trigger] p[i] as int == acc[i]
    &&& forall|i: int| acc.len() <= i < 256 ==> #[trigger] p[i] == 0
}

proof fn lemma_holds_prefix_pad(p: Seq<i64>, acc: Seq<int>)
    requires
        p.len() == 256,
        holds_prefix(p, acc),
    ensures
        iseq(p) == pad_poly(acc),
{
    assert(iseq(p) =~= pad_poly(acc));
}

/// `rej_uniform` together with the number of candidates it accepted.
fn rej_uniform_count(bytes: &[u8]) -> (res: (Poly, usize))
    ensures
        iseq(res.0@) == uniform_poly_spec(bytes@),
        bounded(res.0@, Q_HALF as int),
        res.1 == rej_scan(bytes@, 0, Seq::empty()).len(),
{
    let mut poly = poly_zero();
    let mut idx: usize = 0;
    let mut pos: usize = 0;
    let ghost mut acc: Seq<int> = Seq::empty();
    while idx < N && bytes.len() - pos >= 3
        invariant
            idx <= N,
            pos <= bytes.len(),
            idx == acc.len(),
            holds_prefix(poly@, acc),
            bounded(poly@, Q_HALF as int),
            rej_scan(bytes@, pos as int, acc) == rej_scan(bytes@, 0, Seq::empty()),
        decreases bytes.len() - pos,
    {
        let b0 = bytes[pos];
        let b1 = bytes[pos + 1];
        let b2 = bytes[pos + 2];
        proof {
            lemma_chunk_bits(b0, b1, b2);
        }
        let val = ((b0 as i64) | ((b1 as i64) << 8) | ((b2 as i64) << 16)) & 0x7F_FFFF;
        assert(val == chunk_value(bytes@, pos as int));
        if val < Q {
            poly[idx] = val;
            if poly[idx] > Q / 2 {
                poly[idx] -= Q;
            }
            proof {
                lemma_small_mod(val as nat, Q as nat);
                acc = acc.push(centered(val as int));
            }
            idx += 1;
        }
        pos += 3;
    }
    proof {
        lemma_holds_prefix_pad(poly@, acc);
    }
    (poly, idx)
}

/// Rejection sampling of a polynomial with coefficients uniform mod `q` from
/// the bytes of an extendable-output function: each three-byte candidate,
/// masked to 23 bits, is kept when it is below `q`; coefficients past the
/// accepted candidates stay zero.
pub fn rej_uniform(bytes: &[u8]) -> (poly: Poly)
    ensures
        iseq(poly@) == uniform_poly_spec(bytes@),
        bounded(poly@, Q_HALF as int),
{
    rej_uniform_count(bytes).0
}

/// Once 256 candidates are accepted from a string of bytes, reading further
/// bytes changes nothing.
proof fn lemma_rej_scan_prefix(b: Seq<u8>, b2: Seq<u8>, pos: int, acc: Seq<int>)
    requires
        b.len() <= b2.len(),
        b == b2.subrange(0, b.len() as int),
        0 <= pos,
        rej_scan(b, pos, acc).len() >= 256,
    ensures
        rej_scan(b, pos, acc) == rej_scan(b2, pos, acc),
    decreases b.len() - pos,
{
    if acc.len() < 256 {
        assert(pos + 3 <= b.len());
        assert(b[pos] == b2[pos] && b[pos + 1] == b2[pos + 1] && b[pos + 2] == b2[pos + 2]);
        assert(chunk_value(b, pos) == chunk_value(b2, pos));
        if chunk_value(b, pos) < Q {
            lemma_rej_scan_prefix(b, b2, pos + 3, acc.push(centered(chunk_value(b, pos))));
        } else {
            lemma_rej_scan_prefix(b, b2, pos + 3, acc);
        }
    }
}

/// Matrix entry sampled uniformly mod `q` from `SHAKE-256(input)`: the first
/// `MATRIX_XOF_BYTES` bytes are read, and the read is doubled until 256
/// candidates are accepted, up to `MATRIX_XOF_MAX_BYTES` bytes.
fn sample_uniform_entry(input: &[u8]) -> (poly: Poly)
    ensures
        iseq(poly@) == uniform_poly_spec(shake256_spec(input@, MATRIX_XOF_MAX_BYTES as nat)),
        bounded(poly@, Q_HALF as int),
{
    let ghost full = shake256_spec(input@, MATRIX_XOF_MAX_BYTES as nat);
    let mut len: usize = MATRIX_XOF_BYTES;
    loop
        invariant
            MATRIX_XOF_BYTES <= len <= MATRIX_XOF_MAX_BYTES,
            full == shake256_spec(input@, MATRIX_XOF_MAX_BYTES as nat),
        decreases MATRIX_XOF_MAX_BYTES - len,
    {
        let bytes = shake256(input, len);
        let (poly, count) = rej_uniform_count(bytes.as_slice());
        if len == MATRIX_XOF_MAX_BYTES {
            return poly;
        }
        if count == N {
            proof {
                crate::hash::lemma_shake256_prefix(input@, len as nat, MATRIX_XOF_MAX_BYTES as nat);
                lemma_rej_scan_prefix(bytes@, full, 0, Seq::empty());
            }
            return poly;
        }
        len = if len <= MATRIX_XOF_MAX_BYTES / 2 {
            2 * len
        } else {
            MATRIX_XOF_MAX_BYTES
        };
    }
}

// Centered binomial distribution.

/// The sum of the low bits of the coins at `base + 2 * t + second`, `t < n`.
pub open spec fn cbd_half(coins: Seq<u32>, base: int, n: int, second: int) -> int
    decreases n,
{
    if n <= 0 {
        0
    } else {
        cbd_half(coins, base, n - 1, second) + (coins[base + 2 * (n - 1) + second] & 1) as int
    }
}

/// A centered binomial coefficient: the low bits of `eta` coins minus those of
/// the `eta` coins interleaved with them.
pub open spec fn cbd_coeff(coins: Seq<u32>, base: int, eta: int) -> int {
    cbd_half(coins, base, eta, 0) - cbd_half(coins, base, eta, 1)
}

/// The polynomial sampled from the coins that start at `off`, `2 * eta` coins
/// per coefficient.
pub open spec fn cbd_poly(coins: Seq<u32>, off: int, eta: int) -> Seq<int> {
    Seq::new(256, |c: int| cbd_coeff(coins, off + 2 * eta * c, eta))
}

/// The low bit of a coin is its parity.
proof fn lemma_low_bit_parity(x: u32)
    ensures
        (x & 1) as int == (x as int) % 2,
{
    assert((x & 1) as int == (x as int) % 2) by (bit_vector);
}

/// Each coin contributes its parity: with `eta = 2`, a coefficient is the sum
/// of the parities of coins `0` and `2` of its group minus those of coins `1`
/// and `3`.
pub proof fn lemma_cbd_two(coins: Seq<u32>, base: int)
    ensures
        cbd_coeff(coins, base, 2) == (coins[base] as int) % 2 + (coins[base + 2] as int) % 2 - (coins[base + 1] as int)
            % 2 - (coins[base + 3] as int) % 2,
{
    lemma_low_bit_parity(coins[base]);
    lemma_low_bit_parity(coins[base + 1]);
    lemma_low_bit_parity(coins[base + 2]);
    lemma_low_bit_parity(coins[base + 3]);
    reveal_with_fuel(cbd_half, 3);
    assert(cbd_half(coins, base, 2, 0) == (coins[base] & 1) as int + (coins[base + 2] & 1) as int);
    assert(cbd_half(coins, base, 2, 1) == (coins[base + 1] & 1) as int + (coins[base + 3] & 1) as int);
}

proof fn lemma_cbd_half_parity(coins: Seq<u32>, coins2: Seq<u32>, base: int, n: int, second: int)
    requires
        forall|i: int| #![trigger coins[i]] base <= i < base + 2 * n ==> (coins[i] as int) % 2 == (coins2[i] as int) % 2,
        0 <= second <= 1,
    ensures
        cbd_half(coins, base, n, second) == cbd_half(coins2, base, n, second),
    decreases n,
{
    if n > 0 {
        lemma_cbd_half_parity(coins, coins2, base, n - 1, second);
        let i = base + 2 * (n - 1) + second;
        assert((coins[i] as int) % 2 == (coins2[i] as int) % 2);
        lemma_low_bit_parity(coins[i]);
        lemma_low_bit_parity(coins2[i]);
    }
}

/// A sampled polynomial depends only on the parities of its coins: coin
/// strings that agree in parity give the same polynomial.
pub proof fn lemma_cbd_depends_on_parity(coins: Seq<u32>, coins2: Seq<u32>, off: int, eta: int)
    requires
        0 <= eta,
        forall|i: int| #![trigger coins[i]] off <= i < off + 2 * eta * 256 ==> (coins[i] as int) % 2 == (coins2[i] as int) % 2,
    ensures
        cbd_poly(coins, off, eta) == cbd_poly(coins2, off, eta),
{
    assert forall|c: int| 0 <= c < 256 implies #[trigger] cbd_poly(coins, off, eta)[c] == cbd_poly(coins2, off, eta)[c] by {
        let base = off + 2 * eta * c;
        assert(off <= base && base + 2 * eta <= off + 2 * eta * 256) by (nonlinear_arith)
            requires
                base == off + 2 * eta * c,
                0 <= c < 256,
                0 <= eta,
        ;
        lemma_cbd_half_parity(coins, coins2, base, eta, 0);
        lemma_cbd_half_parity(coins, coins2, base, eta, 1);
    }
    assert(cbd_poly(coins, off, eta) =~= cbd_poly(coins2, off, eta));
}

proof fn lemma_low_bit(x: u32)
    ensures
        x & 1 <= 1,
{
    assert(x & 1 <= 1) by (bit_vector);
}

fn sample_cbd_at(coins: &[u32], off: usize, eta: i64) -> (poly: Poly)
    requires
        0 <= eta <= 1024,
        off + 2 * eta * 256 <= coins.len(),
    ensures
        iseq(poly@) == cbd_poly(coins@, off as int, eta as int),
        bounded(poly@, eta as int),
{
    let mut poly = poly_zero();
    let eta_u = eta as u32;
    let mut c: usize = 0;
    let mut pos: usize = off;
    while c < N
        invariant
            c <= N,
            0 <= eta <= 1024,
            eta_u == eta,
            off + 2 * eta * 256 <= coins.len(),
            pos == off + 2 * eta * c,
            forall|m: int| 0 <= m < c ==> #[trigger] poly[m] as int == cbd_coeff(coins@, off + 2 * eta * m, eta as int),
            forall|m: int| 0 <= m < c ==> -eta <= #[trigger] poly[m] <= eta,
        decreases N - c,
    {
        assert(pos + 2 * eta <= off + 2 * eta * 256) by (nonlinear_arith)
            requires
                pos == off + 2 * eta * c,
                c < 256,
                eta >= 0,
        ;
        let mut a_sum: i64 = 0;
        let mut b_sum: i64 = 0;
        let mut t: u32 = 0;
        while t < eta_u
            invariant
                t <= eta_u,
                eta_u == eta,
                0 <= eta <= 1024,
                pos + 2 * eta <= coins.len(),
                a_sum == cbd_half(coins@, pos as int, t as int, 0),
                b_sum == cbd_half(coins@, pos as int, t as int, 1),
                0 <= a_sum <= t,
                0 <= b_sum <= t,
            decreases eta_u - t,
        {
            let x = coins[pos + 2 * (t as usize)];
            let y = coins[pos + 2 * (t as usize) + 1];
            proof {
                lemma_low_bit(x);
                lemma_low_bit(y);
            }
            a_sum += (x & 1) as i64;
            b_sum += (y & 1) as i64;
            t += 1;
        }
        poly[c] = a_sum - b_sum;
        pos = pos + 2 * (eta_u as usize);
        proof {
            assert(pos == off + 2 * eta * (c + 1)) by (nonlinear_arith)
                requires
                    pos == off + 2 * eta * c + 2 * eta,
            ;
        }
        c += 1;
    }
    assert(iseq(poly@) =~= cbd_poly(coins@, off as int, eta as int));
    poly
}

/// Sample a polynomial from the centered binomial distribution `CBD(eta)`.
///
/// `coins` are the successive 32-bit outputs of a random number generator;
/// each coefficient consumes `2 * eta` of them, alternately added and
/// subtracted by their low bit.
pub fn sample_cbd(coins: &[u32], eta: i64) -> (poly: Poly)
    requires
        0 <= eta <= 1024,
        2 * eta * 256 <= coins.len(),
    ensures
        iseq(poly@) == cbd_poly(coins@, 0, eta as int),
        bounded(poly@, eta as int),
{
    sample_cbd_at(coins, 0, eta)
}

/// Sample `k` polynomials from `CBD(eta)` from the coins that start at `off`;
/// polynomial `j` consumes the coins from `off + j * 2 * eta * N` on.
pub(crate) fn sample_cbd_vec_from(coins: &[u32], off: usize, k: usize, eta: i64) -> (v: PolyVec)
    requires
        0 <= eta <= 1024,
        off + k * (2 * eta * 256) <= coins.len(),
    ensures
        v.len() == k,
        forall|j: int| 0 <= j < k ==> iseq((#[trigger] v[j])@) == cbd_poly(coins@, off + j * (2 * eta * 256), eta as int),
        forall|j: int| 0 <= j < k ==> bounded((#[trigger] v[j])@, eta as int),
{
    let mut v: PolyVec = Vec::new();
    let per = 2 * (eta as usize) * N;
    let mut j: usize = 0;
    while j < k
        invariant
            j <= k,
            0 <= eta <= 1024,
            per == 2 * eta * 256,
            off + k * (2 * eta * 256) <= coins.len(),
            v.len() == j,
            forall|m: int|
                0 <= m < j ==> iseq((#[trigger] v[m])@) == cbd_poly(coins@, off + m * (2 * eta * 256), eta as int),
            forall|m: int| 0 <= m < j ==> bounded((#[trigger] v[m])@, eta as int),
        decreases k - j,
    {
        assert(j * per + per <= k * per) by (nonlinear_arith)
            requires
                j < k,
                per >= 0,
        ;
        v.push(sample_cbd_at(coins, off + j * per, eta));
        j += 1;
    }
    v
}

/// Sample a polynomial vector with each component from `CBD(eta)`; polynomial
/// `j` consumes the coins from `j * 2 * eta * N` on.
pub fn sample_cbd_vec(coins: &[u32], k: usize, eta: i64) -> (v: PolyVec)
    requires
        0 <= eta <= 1024,
        k * (2 * eta * 256) <= coins.len(),
    ensures
        v.len() == k,
        forall|j: int| 0 <= j < k ==> iseq((#[trigger] v[j])@) == cbd_poly(coins@, j * (2 * eta * 256), eta as int),
        forall|j: int| 0 <= j < k ==> bounded((#[trigger] v[j])@, eta as int),
{
    let v = sample_cbd_vec_from(coins, 0, k, eta);
    assert forall|j: int| 0 <= j < k implies iseq((#[trigger] v[j])@) == cbd_poly(coins@, j * (2 * eta * 256), eta as int) by {
        assert(0 + j * (2 * eta * 256) == j * (2 * eta * 256));
    }
    v
}

// Uniform masking coefficients.

/// The largest multiple of `2 * gamma1` that fits below `2^64`: candidates
/// from there on are rejected so that the accepted ones are uniform.
pub open spec fn uniform_bound(gamma1: int) -> int {
    (u64::MAX as int / (2 * gamma1)) * (2 * gamma1)
}

/// The coefficient in `[-gamma1 + 1, gamma1]` that an accepted word gives.
pub open spec fn word_coeff(w: u64, gamma1: int) -> int {
    (w as int) % (2 * gamma1) - gamma1 + 1
}

/// Rejection sampling of masking coefficients from 64-bit words: from position
/// `pos` on, the accepted words' coefficients are appended to `acc` until it
/// holds 256 values or the words run out.
pub open spec fn uniform_scan(w: Seq<u64>, gamma1: int, pos: int, acc: Seq<int>) -> Seq<int>
    decreases w.len() - pos,
{
    if acc.len() >= 256 || pos < 0 || pos >= w.len() {
        acc
    } else if (w[pos] as int) < uniform_bound(gamma1) {
        uniform_scan(w, gamma1, pos + 1, acc.push(word_coeff(w[pos], gamma1)))
    } else {
        uniform_scan(w, gamma1, pos + 1, acc)
    }
}

/// Where that scan stops reading, having started with `n` values.
pub open spec fn uniform_end(w: Seq<u64>, gamma1: int, pos: int, n: int) -> int
    decreases w.len() - pos,
{
    if n >= 256 || pos < 0 || pos >= w.len() {
        pos
    } else if (w[pos] as int) < uniform_bound(gamma1) {
        uniform_end(w, gamma1, pos + 1, n + 1)
    } else {
        uniform_end(w, gamma1, pos + 1, n)
    }
}

/// The masking polynomial sampled from the words that start at `pos`.
pub open spec fn uniform_gamma1_spec(w: Seq<u64>, gamma1: int, pos: int) -> Seq<int> {
    pad_poly(uniform_scan(w, gamma1, pos, Seq::empty()))
}

/// Where polynomial `j` of a masking vector starts reading.
pub open spec fn uniform_start(w: Seq<u64>, gamma1: int, j: int) -> int
    decreases j,
{
    if j <= 0 {
        0
    } else {
        uniform_end(w, gamma1, uniform_start(w, gamma1, j - 1), 0)
    }
}

pub(crate) fn sample_uniform_from(words: &[u64], start: usize, gamma1: i64) -> (res: (Poly, usize, usize))
    requires
        0 < gamma1 <= 0x1000_0000_0000_0000,
        start <= words.len(),
    ensures
        iseq(res.0@) == uniform_gamma1_spec(words@, gamma1 as int, start as int),
        res.2 == uniform_scan(words@, gamma1 as int, start as int, Seq::empty()).len(),
        res.1 == uniform_end(words@, gamma1 as int, start as int, 0),
        start <= res.1 <= words.len(),
        forall|i: int| 0 <= i < N ==> -gamma1 < #[trigger] res.0[i] <= gamma1,
{
    let mut poly = poly_zero();
    let range = 2 * gamma1;
    let range_u64 = range as u64;
    proof {
        lemma_fundamental_div_mod(u64::MAX as int, range as int);
        lemma_mod_bound(u64::MAX as int, range as int);
        lemma_mul_is_commutative(range as int, u64::MAX as int / range as int);
    }
    let bound = (u64::MAX / range_u64) * range_u64;
    assert(bound == uniform_bound(gamma1 as int));
    let mut idx: usize = 0;
    let mut pos: usize = start;
    let ghost mut acc: Seq<int> = Seq::empty();
    while idx < N && pos < words.len()
        invariant
            idx <= N,
            idx == acc.len(),
            0 < gamma1 <= 0x1000_0000_0000_0000,
            range == 2 * gamma1,
            range_u64 == 2 * gamma1,
            bound == uniform_bound(gamma1 as int),
            start <= pos <= words.len(),
            holds_prefix(poly@, acc),
            forall|i: int| 0 <= i < N ==> -gamma1 < #[trigger] poly[i] <= gamma1,
            uniform_scan(words@, gamma1 as int, pos as int, acc) == uniform_scan(
                words@,
                gamma1 as int,
                start as int,
                Seq::empty(),
            ),
            uniform_end(words@, gamma1 as int, pos as int, idx as int) == uniform_end(
                words@,
                gamma1 as int,
                start as int,
                0,
            ),
        decreases words.len() - pos,
    {
        let r = words[pos];
        if r < bound {
            proof {
                lemma_mod_bound(r as int, range as int);
            }
            poly[idx] = (r % range_u64) as i64 - gamma1 + 1;
            proof {
                acc = acc.push(word_coeff(r, gamma1 as int));
            }
            idx += 1;
        }
        pos += 1;
    }
    proof {
        lemma_holds_prefix_pad(poly@, acc);
    }
    (poly, pos, idx)
}

/// The acceptance bound of the masking sampler is the largest multiple of
/// `2 * gamma1` that is at most `2^64 - 1`: every word below it is accepted,
/// and fewer than `2 * gamma1` of the `2^64` words are rejected.
pub proof fn lemma_uniform_bound(gamma1: int)
    requires
        0 < gamma1 <= 0x1000_0000_0000_0000,
    ensures
        uniform_bound(gamma1) % (2 * gamma1) == 0,
        18446744073709551615 - 2 * gamma1 < uniform_bound(gamma1) <= 18446744073709551615,
{
    let m = 2 * gamma1;
    let top = 18446744073709551615int;
    lemma_fundamental_div_mod(top, m);
    lemma_mod_bound(top, m);
    assert(uniform_bound(gamma1) == (top / m) * m);
    assert((top / m) * m == top - top % m) by (nonlinear_arith)
        requires
            top == m * (top / m) + top % m,
    ;
    lemma_mod_multiples_basic(top / m, m);
}

/// The scan keeps what it has accumulated and appends to it.
proof fn lemma_uniform_scan_keeps(w: Seq<u64>, gamma1: int, pos: int, acc: Seq<int>)
    ensures
        uniform_scan(w, gamma1, pos, acc).len() >= acc.len(),
        forall|i: int| 0 <= i < acc.len() ==> #[trigger] uniform_scan(w, gamma1, pos, acc)[i] == acc[i],
    decreases w.len() - pos,
{
    if !(acc.len() >= 256 || pos < 0 || pos >= w.len()) {
        if (w[pos] as int) < uniform_bound(gamma1) {
            let a2 = acc.push(word_coeff(w[pos], gamma1));
            lemma_uniform_scan_keeps(w, gamma1, pos + 1, a2);
            assert forall|i: int| 0 <= i < acc.len() implies #[trigger] uniform_scan(w, gamma1, pos, acc)[i] == acc[i] by {
                assert(a2[i] == acc[i]);
            }
        } else {
            lemma_uniform_scan_keeps(w, gamma1, pos + 1, acc);
        }
    }
}

/// A first word at most `2^64 - 1 - 2 * gamma1` is always accepted, and gives
/// the first coefficient of the masking polynomial: its residue modulo
/// `2 * gamma1`, shifted into `[-gamma1 + 1, gamma1]`.
pub proof fn lemma_uniform_first_word(w: Seq<u64>, gamma1: int)
    requires
        0 < gamma1 <= 0x1000_0000_0000_0000,
        w.len() >= 1,
        w[0] as int <= 18446744073709551615 - 2 * gamma1,
    ensures
        uniform_gamma1_spec(w, gamma1, 0)[0] == (w[0] as int) % (2 * gamma1) - gamma1 + 1,
{
    lemma_uniform_bound(gamma1);
    let a1 = Seq::<int>::empty().push(word_coeff(w[0], gamma1));
    assert(uniform_scan(w, gamma1, 0, Seq::empty()) == uniform_scan(w, gamma1, 1, a1));
    lemma_uniform_scan_keeps(w, gamma1, 1, a1);
}

/// Once 256 words are accepted from a sequence, further words change nothing.
pub proof fn lemma_uniform_scan_prefix(w: Seq<u64>, w2: Seq<u64>, gamma1: int, pos: int, acc: Seq<int>)
    requires
        w.len() <= w2.len(),
        w == w2.subrange(0, w.len() as int),
        0 <= pos,
        uniform_scan(w, gamma1, pos, acc).len() >= 256,
    ensures
        uniform_scan(w, gamma1, pos, acc) == uniform_scan(w2, gamma1, pos, acc),
    decreases w.len() - pos,
{
    if acc.len() < 256 {
        assert(pos < w.len());
        assert(w[pos] == w2[pos]);
        if (w[pos] as int) < uniform_bound(gamma1) {
            lemma_uniform_scan_prefix(w, w2, gamma1, pos + 1, acc.push(word_coeff(w[pos], gamma1)));
        } else {
            lemma_uniform_scan_prefix(w, w2, gamma1, pos + 1, acc);
        }
    }
}

/// Sample a polynomial with coefficients uniform in `[-gamma1 + 1, gamma1]`.
///
/// `words` are the successive 64-bit outputs of a random number generator; a
/// word is kept when it lies below the largest multiple of `2 * gamma1` under
/// `2^64`. Coefficients beyond the accepted words stay zero.
pub fn sample_uniform_gamma1(words: &[u64], gamma1: i64) -> (poly: Poly)
    requires
        0 < gamma1 <= 0x1000_0000_0000_0000,
    ensures
        iseq(poly@) == uniform_gamma1_spec(words@, gamma1 as int, 0),
        forall|i: int| 0 <= i < N ==> -gamma1 < #[trigger] poly[i] <= gamma1,
{
    sample_uniform_from(words, 0, gamma1).0
}

/// Sample a polynomial vector with each component uniform in
/// `[-gamma1 + 1, gamma1]`; each polynomial continues reading the words where
/// the previous one stopped.
pub fn sample_uniform_gamma1_vec(words: &[u64], k: usize, gamma1: i64) -> (v: PolyVec)
    requires
        0 < gamma1 <= 0x1000_0000_0000_0000,
    ensures
        v.len() == k,
        forall|j: int|
            0 <= j < k ==> iseq((#[trigger] v[j])@) == uniform_gamma1_spec(
                words@,
                gamma1 as int,
                uniform_start(words@, gamma1 as int, j),
            ),
        forall|j: int, i: int| 0 <= j < k && 0 <= i < N ==> -gamma1 < #[trigger] v[j][i] <= gamma1,
{
    let mut v: PolyVec = Vec::new();
    let mut pos: usize = 0;
    let mut j: usize = 0;
    while j < k
        invariant
            j <= k,
            0 < gamma1 <= 0x1000_0000_0000_0000,
            pos <= words.len(),
            pos == uniform_start(words@, gamma1 as int, j as int),
            v.len() == j,
            forall|m: int|
                0 <= m < j ==> iseq((#[trigger] v[m])@) == uniform_gamma1_spec(
                    words@,
                    gamma1 as int,
                    uniform_start(words@, gamma1 as int, m),
                ),
            forall|m: int, i: int| 0 <= m < j && 0 <= i < N ==> -gamma1 < #[trigger] v[m][i] <= gamma1,
        decreases k - j,
    {
        let (p, next, _) = sample_uniform_from(words, pos, gamma1);
        v.push(p);
        pos = next;
        j += 1;
    }
    v
}

/// The input that seeds matrix entry `(i, j)`: the domain tag, the seed and
/// the two indices as bytes, each taken modulo 256.
pub open spec fn matrix_input(rho: Seq<u8>, i: int, j: int) -> Seq<u8> {
    DOMAIN_MATRIX@ + rho + seq![i as u8, j as u8]
}

/// The residues of matrix entry `(i, j)` in the transform domain.
pub open spec fn matrix_entry_spec(rho: Seq<u8>, i: int, j: int) -> Seq<int> {
    ntt_spec(uniform_poly_spec(shake256_spec(matrix_input(rho, i, j), MATRIX_XOF_MAX_BYTES as nat)))
}

/// Expand a seed `rho` into the public `k x k` matrix `A`, in the transform
/// domain.
///
/// Entry `(i, j)` is sampled uniformly mod `q` from
/// `SHAKE-256(DOMAIN_MATRIX || rho || i || j)`, reading more output until 256
/// coefficients are accepted (up to `MATRIX_XOF_MAX_BYTES` bytes).
pub fn expand_a(rho: &[u8; 32], k: usize) -> (a: Vec<Vec<Poly>>)
    ensures
        a.len() == k,
        forall|i: int| 0 <= i < k ==> (#[trigger] a[i]).len() == k,
        matrix_bounded(a@),
        forall|i: int, j: int|
            0 <= i < k && 0 <= j < k ==> congruent(iseq((#[trigger] a[i][j])@), matrix_entry_spec(rho@, i, j)),
{
    let mut a: Vec<Vec<Poly>> = Vec::new();
    let mut i: usize = 0;
    while i < k
        invariant
            i <= k,
            a.len() == i,
            forall|m: int| 0 <= m < i ==> (#[trigger] a[m]).len() == k,
            forall|m: int, j: int| 0 <= m < i && 0 <= j < a[m].len() ==> bounded((#[trigger] a[m][j])@, 12 * Q),
            forall|m: int, j: int|
                0 <= m < i && 0 <= j < k ==> congruent(iseq((#[trigger] a[m][j])@), matrix_entry_spec(rho@, m, j)),
        decreases k - i,
    {
        let mut row: Vec<Poly> = Vec::new();
        let mut j: usize = 0;
        while j < k
            invariant
                i < k,
                j <= k,
                    row.len() == j,
                forall|m: int| 0 <= m < j ==> bounded((#[trigger] row[m])@, 12 * Q),
                forall|m: int| 0 <= m < j ==> congruent(iseq((#[trigger] row[m])@), matrix_entry_spec(rho@, i as int, m)),
            decreases k - j,
        {
            let mut input: Vec<u8> = Vec::new();
            input.extend_from_slice(DOMAIN_MATRIX.as_slice());
            input.extend_from_slice(rho.as_slice());
            input.push(i as u8);
            input.push(j as u8);
            assert(input@ =~= matrix_input(rho@, i as int, j as int));
            let mut poly = sample_uniform_entry(input.as_slice());
            ntt_forward(&mut poly);
            proof {
                lemma_ntt_spec_canonical(uniform_poly_spec(shake256_spec(input@, MATRIX_XOF_MAX_BYTES as nat)));
            }
            row.push(poly);
            j += 1;
        }
        a.push(row);
        i += 1;
    }
    a
}

/// Row `i` of the `k x k` matrix expanded from `rho`, in the transform domain.
pub open spec fn matrix_row(rho: Seq<u8>, i: int, k: int) -> Seq<Seq<int>> {
    Seq::new(k as nat, |j: int| matrix_entry_spec(rho, i, j))
}

/// Row sums depend only on the residues of the matrix entries.
pub proof fn lemma_row_acc_congr(row: Seq<Seq<int>>, row2: Seq<Seq<int>>, v: Seq<Seq<int>>, n: int)
    requires
        forall|j: int| 0 <= j < n ==> congruent(#[trigger] row[j], row2[j]),
    ensures
        row_acc(row, v, n) == row_acc(row2, v, n),
    decreases n,
{
    if n > 0 {
        lemma_row_acc_congr(row, row2, v, n - 1);
        lemma_ntt_spec_canonical(v[n - 1]);
        assert(congruent(ntt_spec(v[n - 1]), ntt_spec(v[n - 1])));
        lemma_pointwise_congr(row[n - 1], ntt_spec(v[n - 1]), row2[n - 1], ntt_spec(v[n - 1]));
    }
}

/// A row of an expanded matrix computes the same product as the matrix row
/// that `rho` defines.
pub proof fn lemma_expanded_row(a: Seq<Vec<Poly>>, rho: Seq<u8>, k: int, i: int, v: Seq<Seq<int>>)
    requires
        0 <= i < k,
        a.len() == k,
        a[i].len() == k,
        v.len() <= k,
        forall|m: int, j: int|
            0 <= m < k && 0 <= j < k ==> congruent(iseq((#[trigger] a[m][j])@), matrix_entry_spec(rho, m, j)),
    ensures
        matrix_row_spec(vseq(a[i]@), v) == matrix_row_spec(matrix_row(rho, i, k), v),
{
    let row = vseq(a[i]@);
    let row2 = matrix_row(rho, i, k);
    assert forall|j: int| 0 <= j < v.len() implies congruent(#[trigger] row[j], row2[j]) by {
        assert(congruent(iseq(a[i][j]@), matrix_entry_spec(rho, i, j)));
    }
    lemma_row_acc_congr(row, row2, v, v.len() as int);
}

/// Copy a polynomial vector.
pub fn copy_poly_vec(v: &Vec<Poly>) -> (r: Vec<Poly>)
    ensures
        r@ == v@,
{
    let mut r: Vec<Poly> = Vec::new();
    let mut j: usize = 0;
    while j < v.len()
        invariant
            j <= v.len(),
            r@ == v@.subrange(0, j as int),
        decreases v.len() - j,
    {
        r.push(v[j]);
        j += 1;
        assert(r@ =~= v@.subrange(0, j as int));
    }
    assert(v@.subrange(0, v.len() as int) =~= v@);
    r
}

// ---------------------------------------------------------------------------
// Vector-level descriptions
// ---------------------------------------------------------------------------

/// `A(rho) v`, every row centered.
pub open spec fn mat_vec_spec(rho: Seq<u8>, k: int, v: Seq<Seq<int>>) -> Seq<Seq<int>> {
    Seq::new(k as nat, |i: int| matrix_row_spec(matrix_row(rho, i, k), v))
}

/// The high parts of every coefficient of a vector.
pub open spec fn high_bits_vec_spec(v: Seq<Seq<int>>, gamma2: int) -> Seq<Seq<int>> {
    Seq::new(v.len(), |j: int| Seq::new(256, |m: int| high_bits_spec(v[j][m], gamma2)))
}

/// The low parts of every coefficient of a vector.
pub open spec fn low_bits_vec_spec(v: Seq<Seq<int>>, gamma2: int) -> Seq<Seq<int>> {
    Seq::new(v.len(), |j: int| Seq::new(256, |m: int| low_bits_spec(v[j][m], gamma2)))
}

/// Every polynomial of `v` multiplied by `c`, as residues.
pub open spec fn scalar_mul_vec_spec(c: Seq<int>, v: Seq<Seq<int>>) -> Seq<Seq<int>> {
    Seq::new(v.len(), |j: int| poly_mul_spec(c, v[j]))
}

/// Coefficient-wise centered sum of two polynomials.
pub open spec fn centered_sum(a: Seq<int>, b: Seq<int>) -> Seq<int> {
    Seq::new(256, |m: int| centered(a[m] + b[m]))
}

/// Coefficient-wise centered difference of two polynomials.
pub open spec fn centered_diff(a: Seq<int>, b: Seq<int>) -> Seq<int> {
    Seq::new(256, |m: int| centered(a[m] - b[m]))
}

/// Coefficient-wise centered sums of two vectors.
pub open spec fn add_vec_spec(a: Seq<Seq<int>>, b: Seq<Seq<int>>) -> Seq<Seq<int>> {
    Seq::new(a.len(), |j: int| centered_sum(a[j], b[j]))
}

/// Coefficient-wise centered differences of two vectors.
pub open spec fn sub_vec_spec(a: Seq<Seq<int>>, b: Seq<Seq<int>>) -> Seq<Seq<int>> {
    Seq::new(a.len(), |j: int| centered_diff(a[j], b[j]))
}

/// Coefficient-wise negation of a vector.
pub open spec fn neg_vec_spec(v: Seq<Seq<int>>) -> Seq<Seq<int>> {
    Seq::new(v.len(), |j: int| Seq::new(256, |m: int| -v[j][m]))
}

/// UseHint over a vector, hints taken `N` per polynomial.
pub open spec fn use_hint_vec_spec(h: Seq<i8>, r: Seq<Seq<int>>, gamma2: int) -> Seq<Seq<int>> {
    Seq::new(r.len(), |j: int| Seq::new(256, |m: int| use_hint_spec(h[j * 256 + m], r[j][m], gamma2)))
}

/// Every coefficient of every polynomial lies in `[-b, b]`.
pub open spec fn vec_bounded(v: Seq<Seq<int>>, b: int) -> bool {
    forall|j: int, m: int| 0 <= j < v.len() && 0 <= m < 256 ==> -b <= #[trigger] v[j][m] <= b
}

/// The residues of `c * v[j]` for every `j`, coefficients in `(-q, q)`.
///
/// Each polynomial of `v` is reduced before it is multiplied, which leaves the
/// product unchanged and keeps the transform within its bounds for any input.
pub fn scalar_mul_vec(c: &Poly, v: &[Poly]) -> (r: PolyVec)
    requires
        bounded(c@, 4 * Q),
    ensures
        r.len() == v.len(),
        forall|j: int| 0 <= j < r.len() ==> bounded((#[trigger] r[j])@, Q - 1),
        forall|j: int|
            0 <= j < r.len() ==> congruent(iseq((#[trigger] r[j])@), scalar_mul_vec_spec(iseq(c@), vseq(v@))[j]),
{
    let mut r: PolyVec = Vec::new();
    let mut j: usize = 0;
    while j < v.len()
        invariant
            j <= v.len(),
            bounded(c@, 4 * Q),
            r.len() == j,
            forall|m: int| 0 <= m < j ==> bounded((#[trigger] r[m])@, Q - 1),
            forall|m: int|
                0 <= m < j ==> congruent(iseq((#[trigger] r[m])@), scalar_mul_vec_spec(iseq(c@), vseq(v@))[m]),
        decreases v.len() - j,
    {
        let mut pr = v[j];
        reduce_poly(&mut pr);
        proof {
            assert forall|m: int| 0 <= m < 256 implies -(4 * Q) <= #[trigger] pr@[m] <= 4 * Q
                && mq(iseq(pr@)[m]) == mq(iseq(v[j as int]@)[m]) by {
                crate::ntt::lemma_centered_bound(v[j as int][m] as int);
            }
            lemma_poly_mul_spec_congr(iseq(c@), iseq(pr@), iseq(c@), iseq(v[j as int]@));
        }
        let p = poly_scalar_mul(c, &pr);
        proof {
            let ps = poly_mul_spec(iseq(c@), iseq(v[j as int]@));
            assert(ps == scalar_mul_vec_spec(iseq(c@), vseq(v@))[j as int]);
            assert forall|m: int| 0 <= m < 256 implies mq(#[trigger] iseq(p@)[m]) == mq(ps[m]) by {
                lemma_mq_mq(inv_upto(pointwise_spec(ntt_spec(iseq(c@)), ntt_spec(iseq(v[j as int]@))), 8)[m] * crate::ntt::inv_scale());
            }
        }
        r.push(p);
        j += 1;
    }
    r
}

/// `a` is the matrix that `rho` expands to: `k x k` entries in the transform
/// domain, bounded as the transform leaves them, with the residues of
/// `matrix_entry_spec(rho, i, j)`.
pub open spec fn expands(a: Seq<Vec<Poly>>, rho: Seq<u8>, k: int) -> bool {
    &&& a.len() == k
    &&& forall|i: int| 0 <= i < k ==> (#[trigger] a[i]).len() == k
    &&& matrix_bounded(a)
    &&& forall|i: int, j: int|
        0 <= i < k && 0 <= j < k ==> congruent(iseq((#[trigger] a[i][j])@), matrix_entry_spec(rho, i, j))
}

/// `A(rho) v` from the expanded matrix, every coefficient centered.
pub fn mat_vec(a_ntt: &Vec<Vec<Poly>>, v: &[Poly], Ghost(rho): Ghost<Seq<u8>>) -> (w: PolyVec)
    requires
        expands(a_ntt@, rho, a_ntt.len() as int),
        v.len() <= a_ntt.len(),
    ensures
        w.len() == a_ntt.len(),
        vseq(w@) == mat_vec_spec(rho, a_ntt.len() as int, vseq(v@)),
        vec_bounded(vseq(w@), Q_HALF as int),
{
    let w = poly_matrix_mul_ntt(a_ntt.as_slice(), v);
    proof {
        let k = a_ntt.len() as int;
        let mv = mat_vec_spec(rho, k, vseq(v@));
        assert forall|i: int| 0 <= i < k implies #[trigger] vseq(w@)[i] == mv[i] by {
            lemma_expanded_row(a_ntt@, rho, k, i, vseq(v@));
            assert forall|m: int| 0 <= m < 256 implies #[trigger] vseq(w@)[i][m] == mv[i][m] by {
                assert(w[i][m] == matrix_row_spec(vseq(a_ntt[i]@), vseq(v@))[m]);
            }
            assert(vseq(w@)[i] =~= mv[i]);
        }
        assert(vseq(w@) =~= mv);
        assert forall|j: int, m: int| 0 <= j < k && 0 <= m < 256 implies -(Q_HALF as int) <= #[trigger] vseq(w@)[j][m]
            <= Q_HALF as int by {
            assert(w[j][m] == matrix_row_spec(vseq(a_ntt[j]@), vseq(v@))[m]);
            crate::ntt::lemma_centered_bound(intt_spec(row_acc(vseq(a_ntt[j]@), vseq(v@), v.len() as int))[m]);
        }
    }
    w
}

/// `centered` depends only on the residue.
pub proof fn lemma_centered_congr(a: int, b: int)
    requires
        mq(a) == mq(b),
    ensures
        centered(a) == centered(b),
{
}

/// The product in `R_q` depends only on the residues of the factors.
pub proof fn lemma_poly_mul_spec_congr(a: Seq<int>, b: Seq<int>, a2: Seq<int>, b2: Seq<int>)
    requires
        congruent(a, a2),
        congruent(b, b2),
    ensures
        poly_mul_spec(a, b) == poly_mul_spec(a2, b2),
{
    lemma_ntt_congr(a, a2, 8);
    lemma_ntt_congr(b, b2, 8);
}

// ---------------------------------------------------------------------------
// Ring arithmetic through the transform
// ---------------------------------------------------------------------------

/// `x * 2^32 * 2^-32 == x (mod q)`.
pub proof fn lemma_mont_cancel(x: int)
    ensures
        mq(x * MONT_R_INV * MONT_R) == mq(x),
{
    assert(x * MONT_R_INV * MONT_R == x + (Q as int) * (x * 4136447)) by (nonlinear_arith);
    lemma_mod_multiples_vanish(x * 4136447, x, Q as int);
}

/// The transform of a product is the coefficient-wise product of the
/// transforms: `ntt(c * s) == ntt(c) o ntt(s)`.
pub proof fn lemma_ntt_of_product(c: Seq<int>, s: Seq<int>)
    ensures
        forall|i: int| 0 <= i < 256 ==> #[trigger] ntt_spec(poly_mul_spec(c, s))[i] == mq(ntt_spec(c)[i] * ntt_spec(s)[i]),
{
    let pw = pointwise_spec(ntt_spec(c), ntt_spec(s));
    lemma_intt_ntt_roundtrip(pw);
    assert forall|i: int| 0 <= i < 256 implies #[trigger] ntt_spec(poly_mul_spec(c, s))[i] == mq(ntt_spec(c)[i] * ntt_spec(s)[i]) by {
        let x = ntt_spec(c)[i] * ntt_spec(s)[i];
        lemma_mq_mul(MONT_R as int, x * MONT_R_INV);
        assert(MONT_R * (x * MONT_R_INV) == x * MONT_R_INV * MONT_R) by (nonlinear_arith);
        lemma_mont_cancel(x);
    }
}

/// The transform of a centered coefficient-wise sum is the sum of the
/// transforms.
pub proof fn lemma_ntt_centered_sum(y: Seq<int>, u: Seq<int>)
    requires
        y.len() == 256,
        u.len() == 256,
    ensures
        forall|i: int|
            0 <= i < 256 ==> #[trigger] ntt_spec(centered_sum(y, u))[i] == mq(ntt_spec(y)[i] + ntt_spec(u)[i]),
{
    let cs = centered_sum(y, u);
    assert(congruent(cs, add_seq(y, u))) by {
        assert forall|m: int| 0 <= m < 256 implies mq(#[trigger] cs[m]) == mq(add_seq(y, u)[m]) by {
            crate::ntt::lemma_centered_bound(y[m] + u[m]);
        }
    }
    lemma_ntt_congr(cs, add_seq(y, u), 8);
    lemma_ntt_add(y, u);
    assert forall|i: int| 0 <= i < 256 implies #[trigger] ntt_spec(centered_sum(y, u))[i] == mq(ntt_spec(y)[i] + ntt_spec(u)[i]) by {
        assert(ntt_spec(add_seq(y, u))[i] == mq(ntt_spec(y)[i] + ntt_spec(u)[i]));
    }
}

/// `(a r)(b + d c) == a b r + d (a c r)`.
proof fn lemma_scaled_sum(a: int, r: int, b: int, c: int, d: int)
    ensures
        (a * r) * (b + d * c) == a * b * r + d * (a * c * r),
{
    vstd::arithmetic::mul::lemma_mul_is_distributive_add(a * r, b, d * c);
    assert((a * r) * b == a * b * r) by (nonlinear_arith);
    assert((a * r) * (d * c) == d * (a * c * r)) by (nonlinear_arith);
}

proof fn lemma_row_step_arith(pz: int, py: int, ps: int, a: int, b: int, c: int, d: int, zv: int)
    requires
        mq(pz) == mq(py + d * ps),
        mq(zv) == mq(b + d * c),
    ensures
        mq(pz + mq(a * zv * MONT_R_INV)) == mq(mq(py + mq(a * b * MONT_R_INV)) + d * mq(ps + mq(a * c * MONT_R_INV))),
{
    let ri = MONT_R_INV as int;
    let x = a * zv * ri;
    let ab = a * b * ri;
    let ac = a * c * ri;
    // The new term.
    assert(x == (a * ri) * zv) by (nonlinear_arith)
        requires
            x == a * zv * ri,
    ;
    crate::ntt::lemma_mul_congr(a * ri, zv, b + d * c);
    lemma_scaled_sum(a, ri, b, c, d);
    lemma_mq_mq(x);
    lemma_pair_congr(pz, mq(x), py + d * ps, ab + d * ac);
    // The two row sums.
    lemma_mq_mq(ab);
    lemma_pair_congr(py, mq(ab), py, ab);
    let y1 = mq(py + mq(ab));
    lemma_mq_mq(py + mq(ab));
    lemma_mq_mq(ac);
    lemma_pair_congr(ps, mq(ac), ps, ac);
    let y2 = mq(ps + mq(ac));
    lemma_mq_mq(ps + mq(ac));
    crate::ntt::lemma_mul_congr(d, y2, ps + ac);
    lemma_pair_congr(y1, d * y2, py + ab, d * (ps + ac));
    assert(d * (ps + ac) == d * ps + d * ac) by (nonlinear_arith);
}

/// Row sums are linear in the vector: when `ntt(z[j]) == ntt(y[j]) + d o ntt(s[j])`
/// for every `j < n`, the row sum of `z` is that of `y` plus `d` times that of
/// `s`.
pub proof fn lemma_row_acc_linear(row: Seq<Seq<int>>, z: Seq<Seq<int>>, y: Seq<Seq<int>>, s: Seq<Seq<int>>, d: Seq<int>, n: int)
    requires
        forall|j: int, i: int|
            0 <= j < n && 0 <= i < 256 ==> mq(#[trigger] ntt_spec(z[j])[i]) == mq(ntt_spec(y[j])[i] + d[i] * ntt_spec(s[j])[i]),
    ensures
        forall|i: int|
            0 <= i < 256 ==> #[trigger] row_acc(row, z, n)[i] == mq(row_acc(row, y, n)[i] + d[i] * row_acc(row, s, n)[i]),
    decreases n,
{
    if n <= 0 {
        assert forall|i: int| 0 <= i < 256 implies #[trigger] row_acc(row, z, n)[i] == mq(row_acc(row, y, n)[i] + d[i] * row_acc(row, s, n)[i]) by {
            assert(d[i] * 0 == 0) by (nonlinear_arith);
        }
    } else {
        lemma_row_acc_linear(row, z, y, s, d, n - 1);
        assert forall|i: int| 0 <= i < 256 implies #[trigger] row_acc(row, z, n)[i] == mq(row_acc(row, y, n)[i] + d[i] * row_acc(row, s, n)[i]) by {
            let pz = row_acc(row, z, n - 1)[i];
            let py = row_acc(row, y, n - 1)[i];
            let ps = row_acc(row, s, n - 1)[i];
            lemma_mq_mq(py + d[i] * ps);
            lemma_row_step_arith(pz, py, ps, row[n - 1][i], ntt_spec(y[n - 1])[i], ntt_spec(s[n - 1])[i], d[i], ntt_spec(z[n - 1])[i]);
            lemma_mq_mq(row_acc(row, y, n)[i] + d[i] * row_acc(row, s, n)[i]);
        }
    }
}

/// The transform of `z = y + c s` is `ntt(y) + ntt(c) o ntt(s)`, polynomial by
/// polynomial.
proof fn lemma_ntt_response(y: Seq<Seq<int>>, s: Seq<Seq<int>>, c: Seq<int>)
    requires
        s.len() == y.len(),
        forall|j: int| 0 <= j < y.len() ==> (#[trigger] y[j]).len() == 256,
    ensures
        forall|j: int, i: int|
            0 <= j < y.len() && 0 <= i < 256 ==> mq(#[trigger] ntt_spec(add_vec_spec(y, scalar_mul_vec_spec(c, s))[j])[i])
                == mq(ntt_spec(y[j])[i] + ntt_spec(c)[i] * ntt_spec(s[j])[i]),
{
    let cs = scalar_mul_vec_spec(c, s);
    let z = add_vec_spec(y, cs);
    assert forall|j: int, i: int| 0 <= j < y.len() && 0 <= i < 256 implies mq(#[trigger] ntt_spec(z[j])[i])
        == mq(ntt_spec(y[j])[i] + ntt_spec(c)[i] * ntt_spec(s[j])[i]) by {
        assert(z[j] == centered_sum(y[j], cs[j]));
        assert(cs[j] == poly_mul_spec(c, s[j]));
        lemma_ntt_centered_sum(y[j], cs[j]);
        lemma_ntt_of_product(c, s[j]);
        lemma_mq_mq(ntt_spec(y[j])[i] + ntt_spec(cs[j])[i]);
        lemma_mq_mq(ntt_spec(c)[i] * ntt_spec(s[j])[i]);
        lemma_pair_congr(ntt_spec(y[j])[i], ntt_spec(cs[j])[i], ntt_spec(y[j])[i], ntt_spec(c)[i] * ntt_spec(s[j])[i]);
    }
}

/// The coefficient-wise product of two transformed polynomials, without the
/// Montgomery factor.
pub open spec fn mul_seq(a: Seq<int>, b: Seq<int>) -> Seq<int> {
    Seq::new(256, |i: int| a[i] * b[i])
}

proof fn lemma_expand_product(a: int, b: int, c: int, d: int, e: int)
    ensures
        (a * b) * (c * d + e) == (a * d) * b * c + a * e * b,
{
    lemma_mul_is_distributive_add(a * b, c * d, e);
    assert((a * b) * (c * d) == (a * d) * b * c) by (nonlinear_arith);
    assert((a * b) * e == a * e * b) by (nonlinear_arith);
}

proof fn lemma_pointwise_split(ncv: int, nt: int, rs: int, ne: int)
    requires
        mq(nt) == mq(MONT_R * rs + ne),
    ensures
        mq(mq(ncv * nt * MONT_R_INV)) == mq(ncv * rs + mq(ncv * ne * MONT_R_INV)),
{
    let ri = MONT_R_INV as int;
    let r = MONT_R as int;
    lemma_mq_mq(ncv * nt * ri);
    assert(ncv * nt * ri == (ncv * ri) * nt) by (nonlinear_arith);
    crate::ntt::lemma_mul_congr(ncv * ri, nt, r * rs + ne);
    lemma_expand_product(ncv, ri, r, rs, ne);
    lemma_mont_cancel(ncv * rs);
    lemma_mq_mq(ncv * ne * ri);
    lemma_pair_congr((ncv * rs) * ri * r, ncv * ne * ri, ncv * rs, mq(ncv * ne * ri));
}

/// `intt(row sum of z) == intt(row sum of y) + intt(ntt(c) o row sum of s)`.
proof fn lemma_az_split(row: Seq<Seq<int>>, k: int, y: Seq<Seq<int>>, s: Seq<Seq<int>>, c: Seq<int>)
    requires
        0 <= k,
        y.len() == k,
        s.len() == k,
        forall|j: int| 0 <= j < k ==> (#[trigger] y[j]).len() == 256,
    ensures
        forall|m: int|
            0 <= m < 256 ==> #[trigger] intt_spec(row_acc(row, add_vec_spec(y, scalar_mul_vec_spec(c, s)), k))[m] == mq(
                intt_spec(row_acc(row, y, k))[m] + intt_spec(mul_seq(ntt_spec(c), row_acc(row, s, k)))[m],
            ),
{
    let nc = ntt_spec(c);
    let z = add_vec_spec(y, scalar_mul_vec_spec(c, s));
    lemma_ntt_response(y, s, c);
    lemma_row_acc_linear(row, z, y, s, nc, k);
    let rz = row_acc(row, z, k);
    let ry = row_acc(row, y, k);
    let rs = row_acc(row, s, k);
    let ncrs = mul_seq(nc, rs);
    assert(congruent(rz, add_seq(ry, ncrs))) by {
        assert forall|m: int| 0 <= m < 256 implies mq(#[trigger] rz[m]) == mq(add_seq(ry, ncrs)[m]) by {
            lemma_mq_mq(ry[m] + nc[m] * rs[m]);
        }
    }
    crate::ntt::lemma_intt_congr(rz, add_seq(ry, ncrs));
    crate::ntt::lemma_intt_add(ry, ncrs);
}

/// `c * t == intt(ntt(c) o row sum of s) + c * e` for `t = centered(A s + e)`.
proof fn lemma_ct_split(row: Seq<Seq<int>>, s: Seq<Seq<int>>, e_i: Seq<int>, c: Seq<int>)
    requires
        e_i.len() == 256,
    ensures
        forall|m: int|
            0 <= m < 256 ==> #[trigger] poly_mul_spec(c, centered_sum(matrix_row_spec(row, s), e_i))[m] == mq(
                intt_spec(mul_seq(ntt_spec(c), row_acc(row, s, s.len() as int)))[m] + poly_mul_spec(c, e_i)[m],
            ),
{
    let nc = ntt_spec(c);
    let rs = row_acc(row, s, s.len() as int);
    let ncrs = mul_seq(nc, rs);
    let as_i = matrix_row_spec(row, s);
    let t_i = centered_sum(as_i, e_i);
    lemma_ntt_centered_sum(as_i, e_i);
    assert(congruent(as_i, intt_spec(rs))) by {
        assert forall|m: int| 0 <= m < 256 implies mq(#[trigger] as_i[m]) == mq(intt_spec(rs)[m]) by {
            crate::ntt::lemma_centered_bound(intt_spec(rs)[m]);
        }
    }
    lemma_ntt_congr(as_i, intt_spec(rs), 8);
    lemma_intt_ntt_roundtrip(rs);
    let nt = ntt_spec(t_i);
    let ne = ntt_spec(e_i);
    let pe = pointwise_spec(nc, ne);
    let pw = pointwise_spec(nc, nt);
    assert(congruent(pw, add_seq(ncrs, pe))) by {
        assert forall|m: int| 0 <= m < 256 implies mq(#[trigger] pw[m]) == mq(add_seq(ncrs, pe)[m]) by {
            assert(nt[m] == mq(ntt_spec(as_i)[m] + ne[m]));
            assert(ntt_spec(intt_spec(rs))[m] == mq(MONT_R * rs[m]));
            assert(ntt_spec(as_i)[m] == mq(MONT_R * rs[m]));
            lemma_mq_mq(MONT_R * rs[m]);
            lemma_mq_mq(ntt_spec(as_i)[m] + ne[m]);
            lemma_pair_congr(ntt_spec(as_i)[m], ne[m], MONT_R * rs[m], ne[m]);
            lemma_pointwise_split(nc[m], nt[m], rs[m], ne[m]);
        }
    }
    crate::ntt::lemma_intt_congr(pw, add_seq(ncrs, pe));
    crate::ntt::lemma_intt_add(ncrs, pe);
}

/// Row `i` of the residual identity: for `t_i = centered(A_i s + e_i)` and
/// `z = y + c s`, `A_i z - c t_i == A_i y - c e_i (mod q)`.
pub proof fn lemma_residual_row(rho: Seq<u8>, k: int, i: int, y: Seq<Seq<int>>, s: Seq<Seq<int>>, e: Seq<Seq<int>>, c: Seq<int>)
    requires
        0 <= i < k,
        y.len() == k,
        s.len() == k,
        e.len() == k,
        forall|j: int| 0 <= j < k ==> (#[trigger] y[j]).len() == 256,
        forall|j: int| 0 <= j < k ==> (#[trigger] e[j]).len() == 256,
    ensures
        ({
            let z = add_vec_spec(y, scalar_mul_vec_spec(c, s));
            let az = matrix_row_spec(matrix_row(rho, i, k), z);
            let t_i = centered_sum(matrix_row_spec(matrix_row(rho, i, k), s), e[i]);
            let w = matrix_row_spec(matrix_row(rho, i, k), y);
            forall|m: int| 0 <= m < 256 ==> mq(#[trigger] az[m] - poly_mul_spec(c, t_i)[m]) == mq(w[m] - poly_mul_spec(c, e[i])[m])
        }),
{
    let row = matrix_row(rho, i, k);
    let z = add_vec_spec(y, scalar_mul_vec_spec(c, s));
    lemma_az_split(row, k, y, s, c);
    lemma_ct_split(row, s, e[i], c);
    let ry = row_acc(row, y, k);
    let rz = row_acc(row, z, k);
    let ncrs = mul_seq(ntt_spec(c), row_acc(row, s, k));
    let az = matrix_row_spec(row, z);
    let w = matrix_row_spec(row, y);
    let ct = poly_mul_spec(c, centered_sum(matrix_row_spec(row, s), e[i]));
    let ce = poly_mul_spec(c, e[i]);
    assert forall|m: int| 0 <= m < 256 implies mq(#[trigger] az[m] - ct[m]) == mq(w[m] - ce[m]) by {
        let x = intt_spec(ncrs)[m];
        crate::ntt::lemma_centered_bound(intt_spec(rz)[m]);
        crate::ntt::lemma_centered_bound(intt_spec(ry)[m]);
        assert(intt_spec(rz)[m] == mq(intt_spec(ry)[m] + x));
        assert(ct[m] == mq(x + ce[m]));
        lemma_mq_mq(intt_spec(ry)[m] + x);
        lemma_mq_mq(x + ce[m]);
        lemma_pair_congr(az[m], ct[m], intt_spec(ry)[m] + x, x + ce[m]);
        lemma_pair_congr(w[m], ce[m], intt_spec(ry)[m], ce[m]);
    }
}

/// The decomposition depends only on the residue.
proof fn lemma_decompose_residue(a: int, b: int, gamma2: int)
    requires
        mq(a) == mq(b),
    ensures
        decompose_spec(a, gamma2) == decompose_spec(b, gamma2),
{
}

/// The hint that evaluation makes from the commitment coefficient `w` and the
/// product coefficient `ce` lets verification, which only sees
/// `r = w - ce (mod q)`, recover the high bits of `w`, as long as the centered
/// `ce` lies in `[-gamma2, gamma2]`.
pub proof fn lemma_hint_recovers(w: int, ce: int, r: int, gamma2: int)
    requires
        0 < gamma2,
        (Q - 1) % (2 * gamma2) == 0,
        4 * gamma2 <= Q - 1,
        mq(r) == mq(w - ce),
        -gamma2 <= centered(ce) <= gamma2,
    ensures
        use_hint_spec(make_hint_spec(-ce, w, gamma2), r, gamma2) == high_bits_spec(w, gamma2),
{
    let zz = centered(ce);
    crate::ntt::lemma_centered_bound(ce);
    lemma_use_make_hint(zz, r, gamma2);
    lemma_pair_congr(r, zz, w - ce, ce);
    assert(w - ce + ce == w);
    lemma_mq_mq(r + zz);
    lemma_decompose_residue(r + zz, w, gamma2);
    lemma_decompose_residue(mq(r + zz), w, gamma2);
    lemma_mq_mq(w + -ce);
    lemma_decompose_residue(mq(w + -ce), r, gamma2);
}

} // verus!
