//! Number theoretic transform over `Z_q` for `q = 8380417`.
//!
//! The forward transform uses Cooley-Tukey butterflies and the inverse uses
//! Gentleman-Sande butterflies; both multiply by twiddle factors through
//! Montgomery reduction. The transforms are specified layer by layer over the
//! residues mod `q` (`fwd_layer`, `inv_layer`), and `lemma_ntt_roundtrip` shows
//! that the inverse undoes the forward transform up to the Montgomery factor.
use vstd::prelude::*;
use vstd::arithmetic::div_mod::*;
use vstd::arithmetic::mul::*;
use crate::params::{N, Q, Q_HALF, Q_INV, MONT_R, MONT_R_INV};

verus! {

/// Twiddle factors: the powers `zeta^brv(k)` of the primitive 512th root of
/// unity `zeta = 1753`, in bit-reversed order and in Montgomery form
/// (multiplied by `2^32 mod q`).
pub const ZETAS: [i64; 256] = [
    0, 25847, -2608894, -518909, 237124, -777960, -876248, 466468,
    1826347, 2353451, -359251, -2091905, 3119733, -2884855, 3111497, 2680103,
    2725464, 1024112, -1079900, 3585928, -549488, -1119584, 2619752, -2108549,
    -2118186, -3859737, -1399561, -3277672, 1757237, -19422, 4010497, 280005,
    2706023, 95776, 3077325, 3530437, -1661693, -3592148, -2537516, 3915439,
    -3861115, -3043716, 3574422, -2867647, 3539968, -300467, 2348700, -539299,
    -1699267, -1643818, 3505694, -3821735, 3507263, -2140649, -1600420, 3699596,
    811944, 531354, 954230, 3881043, 3900724, -2556880, 2071892, -2797779,
    -3930395, -1528703, -3677745, -3041255, -1452451, 3475950, 2176455, -1585221,
    -1257611, 1939314, -4083598, -1000202, -3190144, -3157330, -3632928, 126922,
    3412210, -983419, 2147896, 2715295, -2967645, -3693493, -411027, -2477047,
    -671102, -1228525, -22981, -1308169, -381987, 1349076, 1852771, -1430430,
    -3343383, 264944, 508951, 3097992, 44288, -1100098, 904516, 3958618,
    -3724342, -8578, 1653064, -3249728, 2389356, -210977, 759969, -1316856,
    189548, -3553272, 3159746, -1851402, -2409325, -177440, 1315589, 1341330,
    1285669, -1584928, -812732, -1439742, -3019102, -3881060, -3628969, 3839961,
    2091667, 3407706, 2316500, 3817976, -3342478, 2244091, -2446433, -3562462,
    266997, 2434439, -1235728, 3513181, -3520352, -3759364, -1197226, -3193378,
    900702, 1859098, 909542, 819034, 495491, -1613174, -43260, -522500,
    -655327, -3122442, 2031748, 3207046, -3556995, -525098, -768622, -3595838,
    342297, 286988, -2437823, 4108315, 3437287, -3342277, 1735879, 203044,
    2842341, 2691481, -2590150, 1265009, 4055324, 1247620, 2486353, 1595974,
    -3767016, 1250494, 2635921, -3548272, -2994039, 1869119, 1903435, -1050970,
    -1333058, 1237275, -3318210, -1430225, -451100, 1312455, 3306115, -1962642,
    -1279661, 1917081, -2546312, -1374803, 1500165, 777191, 2235880, 3406031,
    -542412, -2831860, -1671176, -1846953, -2584293, -3724270, 594136, -3776993,
    -2013608, 2432395, 2454455, -164721, 1957272, 3369112, 185531, -1207385,
    -3183426, 162844, 1616392, 3014001, 810149, 1652634, -3694233, -1799107,
    -3038916, 3523897, 3866901, 269760, 2213111, -975884, 1717735, 472078,
    -426683, 1723600, -1803090, 1910376, -1667432, -1104333, -260646, -3833893,
    -2939036, -2235985, -420899, -2286327, 183443, -976891, 1612842, -3545687,
    -554416, 3919660, -48306, -1362209, 3937738, 1400424, -846154, 1976782,
];

/// The canonical residue of `x` modulo `q`, in `[0, q)`.
pub open spec fn mq(x: int) -> int {
    x % (Q as int)
}

/// The centered representative of `x` modulo `q`, in `[-(q-1)/2, (q-1)/2]`.
pub open spec fn centered(x: int) -> int {
    let r = x % (Q as int);
    if r > Q_HALF as int {
        r - Q as int
    } else {
        r
    }
}

/// A polynomial's coefficients as integers.
pub open spec fn iseq(a: Seq<i64>) -> Seq<int> {
    a.map_values(|x: i64| x as int)
}

/// Every coefficient lies in `[-b, b]`.
pub open spec fn bounded(a: Seq<i64>, b: int) -> bool {
    forall|i: int| 0 <= i < a.len() ==> -b <= #[trigger] a[i] <= b
}

/// The forward twiddle factor of block `k`, without the Montgomery factor.
pub open spec fn zeta_f(k: int) -> int {
    ZETAS[k] as int * MONT_R_INV as int
}

/// The inverse twiddle factor of block `k`, without the Montgomery factor.
pub open spec fn zeta_i(k: int) -> int {
    -(ZETAS[k] as int) * MONT_R_INV as int
}

/// Half the block size at forward layer `l`: `128 >> l`.
pub open spec fn half_len(l: int) -> int {
    if l <= 0 {
        128
    } else if l == 1 {
        64
    } else if l == 2 {
        32
    } else if l == 3 {
        16
    } else if l == 4 {
        8
    } else if l == 5 {
        4
    } else if l == 6 {
        2
    } else {
        1
    }
}

/// Forward layer `l`: Cooley-Tukey butterflies on blocks of size
/// `2 * half_len(l)`, block `b` using twiddle `zeta_f(2^l + b)`.
pub open spec fn fwd_layer(p: Seq<int>, l: int) -> Seq<int> {
    let len = half_len(l);
    Seq::new(
        256,
        |i: int|
            {
                let o = i % (2 * len);
                let k = 128int / len + i / (2 * len);
                if o < len {
                    mq(p[i] + zeta_f(k) * p[i + len])
                } else {
                    mq(p[i - len] - zeta_f(k) * p[i])
                }
            },
    )
}

/// Inverse layer `l`: Gentleman-Sande butterflies on blocks of size
/// `2 * half_len(7 - l)`, block `b` using twiddle `zeta_i(2 * half_len(l) - 1 - b)`.
pub open spec fn inv_layer(p: Seq<int>, l: int) -> Seq<int> {
    let len = half_len(7 - l);
    Seq::new(
        256,
        |i: int|
            {
                let o = i % (2 * len);
                let k = 2 * half_len(l) - 1 - i / (2 * len);
                if o < len {
                    mq(p[i] + p[i + len])
                } else {
                    mq(zeta_i(k) * (p[i - len] - p[i]))
                }
            },
    )
}

/// The first `l` forward layers applied to `p`.
pub open spec fn fwd_upto(p: Seq<int>, l: nat) -> Seq<int>
    decreases l,
{
    if l == 0 {
        p
    } else {
        fwd_layer(fwd_upto(p, (l - 1) as nat), l - 1)
    }
}

/// The first `l` inverse layers applied to `p`.
pub open spec fn inv_upto(p: Seq<int>, l: nat) -> Seq<int>
    decreases l,
{
    if l == 0 {
        p
    } else {
        inv_layer(inv_upto(p, (l - 1) as nat), l - 1)
    }
}

/// The forward transform, as residues modulo `q`.
pub open spec fn ntt_spec(p: Seq<int>) -> Seq<int> {
    fwd_upto(p, 8)
}

/// The scaling factor that ends the inverse transform: `41978 * 2^-32`, that is
/// `2^32 / 256` modulo `q`.
pub open spec fn inv_scale() -> int {
    41978 * MONT_R_INV as int
}

/// The inverse transform, as residues modulo `q`.
pub open spec fn intt_spec(p: Seq<int>) -> Seq<int> {
    Seq::new(256, |i: int| mq(inv_scale() * inv_upto(p, 8)[i]))
}

/// The Montgomery product of two transformed polynomials, as residues modulo `q`.
pub open spec fn pointwise_spec(a: Seq<int>, b: Seq<int>) -> Seq<int> {
    Seq::new(256, |i: int| mq(a[i] * b[i] * MONT_R_INV as int))
}

// ---------------------------------------------------------------------------
// Modular arithmetic helpers
// ---------------------------------------------------------------------------

/// A Montgomery residue: `r * 2^32 == a (mod q)` means `r == a * 2^-32 (mod q)`.
pub proof fn lemma_mont_residue(a: int, r: int)
    requires
        (r * 4294967296) % (Q as int) == a % (Q as int),
    ensures
        mq(r) == mq(a * MONT_R_INV as int),
{
    let q = Q as int;
    // 2^32 * MONT_R_INV == 1 + 4236238847 * q
    assert(r * 4294967296 * 8265825 == r + (r * 4236238847) * 8380417) by (nonlinear_arith);
    lemma_mod_multiples_vanish(r * 4236238847, r, q);
    lemma_mul_mod_noop_left(r * 4294967296, 8265825, q);
    lemma_mul_mod_noop_left(a, 8265825, q);
}

/// Butterfly sums and differences respect residues.
pub proof fn lemma_pair_congr(x: int, y: int, x2: int, y2: int)
    requires
        mq(x) == mq(x2),
        mq(y) == mq(y2),
    ensures
        mq(x + y) == mq(x2 + y2),
        mq(x - y) == mq(x2 - y2),
{
    let q = Q as int;
    lemma_add_mod_noop(x, y, q);
    lemma_add_mod_noop(x2, y2, q);
    lemma_sub_mod_noop(x, y, q);
    lemma_sub_mod_noop(x2, y2, q);
}

/// Products respect residues.
pub proof fn lemma_mul_congr(c: int, y: int, y2: int)
    requires
        mq(y) == mq(y2),
    ensures
        mq(c * y) == mq(c * y2),
{
    lemma_mul_mod_noop_right(c, y, Q as int);
    lemma_mul_mod_noop_right(c, y2, Q as int);
}

pub proof fn lemma_centered_bound(x: int)
    ensures
        -Q_HALF <= centered(x) <= Q_HALF,
        mq(centered(x)) == mq(x),
{
    lemma_mod_bound(x, Q as int);
    lemma_mod_twice(x, Q as int);
    lemma_mod_add_multiples_vanish(x % (Q as int) - Q, Q as int);
}

pub proof fn lemma_mq_mq(x: int)
    ensures
        mq(mq(x)) == mq(x),
        0 <= mq(x) < Q,
{
    lemma_mod_twice(x, Q as int);
    lemma_mod_bound(x, Q as int);
}

/// `x = b * w + o` with `0 <= o < w` determines block and offset.
pub proof fn lemma_block_index(b: int, o: int, w: int)
    requires
        0 <= o < w,
        0 <= b,
    ensures
        (b * w + o) / w == b,
        (b * w + o) % w == o,
{
    lemma_fundamental_div_mod_converse(b * w + o, w, b, o);
}

/// Congruent polynomials: the same residues at every coefficient.
pub open spec fn congruent(p: Seq<int>, p2: Seq<int>) -> bool {
    &&& p.len() == 256
    &&& p2.len() == 256
    &&& forall|i: int| 0 <= i < 256 ==> mq(#[trigger] p[i]) == mq(p2[i])
}

pub proof fn lemma_layer_cases(l: int)
    requires
        0 <= l < 8,
    ensures
        l == 0 || l == 1 || l == 2 || l == 3 || l == 4 || l == 5 || l == 6 || l == 7,
{
}

/// Butterfly partners stay inside the polynomial.
pub proof fn lemma_partner_in_range(i: int, l: int)
    requires
        0 <= i < 256,
        0 <= l < 8,
    ensures
        i % (2 * half_len(l)) < half_len(l) ==> i + half_len(l) < 256,
        i % (2 * half_len(l)) >= half_len(l) ==> i - half_len(l) >= 0,
{
    let len = half_len(l);
    lemma_layer_cases(l);
    lemma_fundamental_div_mod(i, 2 * len);
    lemma_mod_bound(i, 2 * len);
    let q = i / (2 * len);
    if l == 0 {
        assert(len == 128);
    } else if l == 1 {
        assert(len == 64);
    } else if l == 2 {
        assert(len == 32);
    } else if l == 3 {
        assert(len == 16);
    } else if l == 4 {
        assert(len == 8);
    } else if l == 5 {
        assert(len == 4);
    } else if l == 6 {
        assert(len == 2);
    } else {
        assert(len == 1);
    }
}

/// A forward layer depends only on the residues of its input.
pub proof fn lemma_fwd_layer_congr(p: Seq<int>, p2: Seq<int>, l: int)
    requires
        congruent(p, p2),
        0 <= l < 8,
    ensures
        fwd_layer(p, l) == fwd_layer(p2, l),
{
    let len = half_len(l);
    lemma_layer_cases(l);
    assert forall|i: int| 0 <= i < 256 implies #[trigger] fwd_layer(p, l)[i] == fwd_layer(p2, l)[i] by {
        let o = i % (2 * len);
        let k = 128int / len + i / (2 * len);
        lemma_partner_in_range(i, l);
        if o < len {
            lemma_mul_congr(zeta_f(k), p[i + len], p2[i + len]);
            lemma_pair_congr(p[i], zeta_f(k) * p[i + len], p2[i], zeta_f(k) * p2[i + len]);
        } else {
            lemma_mul_congr(zeta_f(k), p[i], p2[i]);
            lemma_pair_congr(p[i - len], zeta_f(k) * p[i], p2[i - len], zeta_f(k) * p2[i]);
        }
    }
    assert(fwd_layer(p, l) =~= fwd_layer(p2, l));
}

/// An inverse layer depends only on the residues of its input.
pub proof fn lemma_inv_layer_congr(p: Seq<int>, p2: Seq<int>, l: int)
    requires
        congruent(p, p2),
        0 <= l < 8,
    ensures
        inv_layer(p, l) == inv_layer(p2, l),
{
    let len = half_len(7 - l);
    lemma_layer_cases(l);
    assert forall|i: int| 0 <= i < 256 implies #[trigger] inv_layer(p, l)[i] == inv_layer(p2, l)[i] by {
        let o = i % (2 * len);
        let k = 2 * half_len(l) - 1 - i / (2 * len);
        lemma_partner_in_range(i, 7 - l);
        if o < len {
            lemma_pair_congr(p[i], p[i + len], p2[i], p2[i + len]);
        } else {
            lemma_pair_congr(p[i - len], p[i], p2[i - len], p2[i]);
            lemma_mul_congr(zeta_i(k), p[i - len] - p[i], p2[i - len] - p2[i]);
        }
    }
    assert(inv_layer(p, l) =~= inv_layer(p2, l));
}

/// A layer's output is made of canonical residues.
pub proof fn lemma_layers_canonical(p: Seq<int>, l: int)
    requires
        0 <= l < 8,
    ensures
        fwd_layer(p, l).len() == 256,
        inv_layer(p, l).len() == 256,
        forall|i: int| 0 <= i < 256 ==> 0 <= #[trigger] fwd_layer(p, l)[i] < Q,
        forall|i: int| 0 <= i < 256 ==> 0 <= #[trigger] inv_layer(p, l)[i] < Q,
{
}

/// The forward transform depends only on the residues of its input.
pub proof fn lemma_ntt_congr(p: Seq<int>, p2: Seq<int>, l: nat)
    requires
        congruent(p, p2),
        1 <= l <= 8,
    ensures
        fwd_upto(p, l) == fwd_upto(p2, l),
    decreases l,
{
    if l == 1 {
        assert(fwd_upto(p, 0) == p && fwd_upto(p2, 0) == p2);
        lemma_fwd_layer_congr(p, p2, 0);
    } else {
        lemma_ntt_congr(p, p2, (l - 1) as nat);
    }
}

/// The inverse transform depends only on the residues of its input.
pub proof fn lemma_inv_upto_congr(p: Seq<int>, p2: Seq<int>, l: nat)
    requires
        congruent(p, p2),
        1 <= l <= 8,
    ensures
        inv_upto(p, l) == inv_upto(p2, l),
    decreases l,
{
    if l == 1 {
        assert(inv_upto(p, 0) == p && inv_upto(p2, 0) == p2);
        lemma_inv_layer_congr(p, p2, 0);
    } else {
        lemma_inv_upto_congr(p, p2, (l - 1) as nat);
    }
}

pub proof fn lemma_intt_congr(p: Seq<int>, p2: Seq<int>)
    requires
        congruent(p, p2),
    ensures
        intt_spec(p) == intt_spec(p2),
{
    lemma_inv_upto_congr(p, p2, 8);
}

pub proof fn lemma_pointwise_congr(a: Seq<int>, b: Seq<int>, a2: Seq<int>, b2: Seq<int>)
    requires
        congruent(a, a2),
        congruent(b, b2),
    ensures
        pointwise_spec(a, b) == pointwise_spec(a2, b2),
{
    assert forall|i: int| 0 <= i < 256 implies #[trigger] pointwise_spec(a, b)[i] == pointwise_spec(a2, b2)[i] by {
        lemma_mul_mod_noop(a[i], b[i], Q as int);
        lemma_mul_mod_noop(a2[i], b2[i], Q as int);
        lemma_mul_mod_noop(a[i] * b[i], MONT_R_INV as int, Q as int);
        lemma_mul_mod_noop(a2[i] * b2[i], MONT_R_INV as int, Q as int);
    }
    assert(pointwise_spec(a, b) =~= pointwise_spec(a2, b2));
}

// ---------------------------------------------------------------------------
// Montgomery reduction
// ---------------------------------------------------------------------------

proof fn lemma_trunc_i32(a: i64, ai: i32)
    requires
        ai == a as i32,
    ensures
        (a - ai) % 4294967296 == 0,
{
    assert((a - ai) % 4294967296 == 0) by (bit_vector)
        requires
            ai == a as i32,
    ;
}

proof fn lemma_shift_exact(d: i64)
    requires
        d % 4294967296 == 0,
    ensures
        (d >> 32u64) * 4294967296 == d,
{
    assert((d >> 32u64) * 4294967296 == d) by (bit_vector)
        requires
            d % 4294967296 == 0,
    ;
}

proof fn lemma_mont_divisible(a: int, ai: int, t: int, p: int)
    requires
        (a - ai) % 4294967296 == 0,
        p == ai * 58728449,
        (t - p) % 4294967296 == 0,
    ensures
        (a - t * 8380417) % 4294967296 == 0,
{
    let k1: int = (a - ai) / 4294967296;
    let k2: int = (t - p) / 4294967296;
    assert(a == ai + k1 * 4294967296);
    assert(t == p + k2 * 4294967296);
    // Q_INV * Q == 114592 * 2^32 + 1
    assert(a - t * 8380417 == (k1 - ai * 114592 - k2 * 8380417) * 4294967296);
}

/// Montgomery reduction: returns `r` with `r * 2^32 == a (mod q)`.
///
/// `r * 2^32` differs from `a` by `t * q` for some `t` in `[-2^31, 2^31)`, so
/// `|a| < 2^31 * q` gives `|r| < q`. Every `a` with `|a| < 2^63 - 2^54` is
/// accepted: `a - t * q` then fits in an `i64`.
pub fn montgomery_reduce(a: i64) -> (r: i64)
    requires
        -9205357638345293824 <= a <= 9205357638345293823,
    ensures
        a - 2147483647 * Q <= r * 4294967296 <= a + 2147483648 * Q,
        (r * 4294967296) % (Q as int) == (a as int) % (Q as int),
        mq(r as int) == mq(a * MONT_R_INV as int),
        a == 0 ==> r == 0,
{
    let ai: i32 = a as i32;
    let t32: i32 = ai.wrapping_mul(Q_INV as i32);
    let t: i64 = t32 as i64;
    let d: i64 = a - t * Q;
    proof {
        lemma_trunc_i32(a, ai);
        lemma_mont_divisible(a as int, ai as int, t as int, ai * 58728449);
        lemma_shift_exact(d);
        lemma_mod_multiples_vanish(-(t as int), a as int, Q as int);
    }
    let r = d >> 32;
    proof {
        lemma_mont_residue(a as int, r as int);
        if a == 0 {
            assert(ai == 0);
            assert(t32 == 0);
            assert(d == 0);
            assert(r == 0) by (bit_vector)
                requires
                    d == 0,
                    r == d >> 32,
            ;
        }
    }
    r
}

/// Every entry is zero.
pub open spec fn all_zero(s: Seq<i64>) -> bool {
    forall|i: int| 0 <= i < s.len() ==> #[trigger] s[i] == 0
}

// ---------------------------------------------------------------------------
// Forward transform
// ---------------------------------------------------------------------------

/// The forward butterfly at offset `o` of the block `[start, start + 2 * len)`
/// took `(x, y)` in `old` to residues of `(x + zeta * y, x - zeta * y)` in `new`,
/// with `zeta` in Montgomery form.
pub open spec fn fwd_pair_ok(new: Seq<i64>, old: Seq<i64>, start: int, len: int, zeta: int, o: int) -> bool {
    &&& mq(new[start + o] as int) == mq(old[start + o] + zeta * MONT_R_INV * old[start + len + o])
    &&& mq(new[start + len + o] as int) == mq(old[start + o] - zeta * MONT_R_INV * old[start + len + o])
}

/// Cooley-Tukey butterflies on the block `[start, start + 2 * len)` with
/// Montgomery twiddle `zeta`.
fn fwd_block(a: &mut [i64; 256], start: usize, len: usize, zeta: i64, Ghost(bnd): Ghost<int>)
    requires
        1 <= len,
        start + 2 * len <= N,
        -Q_HALF <= zeta <= Q_HALF,
        0 <= bnd <= 12 * Q,
        forall|i: int| start <= i < start + 2 * len ==> -bnd <= #[trigger] old(a)[i] <= bnd,
    ensures
        forall|i: int|
            start <= i < start + 2 * len ==> -bnd - Q < #[trigger] final(a)[i] < bnd + Q,
        forall|i: int|
            0 <= i < N && !(start <= i < start + 2 * len) ==> #[trigger] final(a)[i] == old(a)[i],
        forall|o: int|
            0 <= o < len ==> #[trigger] fwd_pair_ok(final(a)@, old(a)@, start as int, len as int, zeta as int, o),
        all_zero(old(a)@) ==> all_zero(final(a)@),
{
    let ghost old_a = a@;
    let mut j = start;
    while j < start + len
        invariant
            1 <= len,
            start <= j <= start + len,
            start + 2 * len <= N,
            -Q_HALF <= zeta <= Q_HALF,
            0 <= bnd <= 12 * Q,
            old_a.len() == N,
            forall|i: int| start <= i < start + 2 * len ==> -bnd <= #[trigger] old_a[i] <= bnd,
            forall|i: int|
                0 <= i < N && !(start <= i < j) && !(start + len <= i < j + len)
                    ==> #[trigger] a[i] == old_a[i],
            forall|i: int|
                (start <= i < j || start + len <= i < j + len) ==> -bnd - Q < #[trigger] a[i] < bnd
                    + Q,
            forall|o: int|
                0 <= o < j - start ==> #[trigger] fwd_pair_ok(a@, old_a, start as int, len as int, zeta as int, o),
            a@.len() == N,
            all_zero(old_a) ==> all_zero(a@),
        decreases start + len - j,
    {
        let x = a[j];
        let y = a[j + len];
        assert(x == old_a[j as int]);
        assert(y == old_a[j + len]);
        proof {
            assert(-(Q_HALF * bnd) <= zeta * y <= Q_HALF * bnd) by (nonlinear_arith)
                requires
                    -Q_HALF <= zeta <= Q_HALF,
                    -bnd <= y <= bnd,
                    0 <= bnd,
            ;
        }
        proof {
            if all_zero(old_a) {
                assert(y == 0 && x == 0);
                assert(zeta * y == 0) by (nonlinear_arith)
                    requires
                        y == 0,
                ;
            }
        }
        let t = montgomery_reduce(zeta * y);
        proof {
            lemma_mul_is_associative(zeta as int, MONT_R_INV as int, y as int);
            lemma_mul_is_associative(zeta as int, y as int, MONT_R_INV as int);
            lemma_mul_is_commutative(y as int, MONT_R_INV as int);
            lemma_pair_congr(x as int, t as int, x as int, zeta * MONT_R_INV * y);
        }
        let ghost prev = a@;
        a[j + len] = x - t;
        a[j] = x + t;
        proof {
            assert forall|o: int| 0 <= o < j + 1 - start implies #[trigger] fwd_pair_ok(
                a@,
                old_a,
                start as int,
                len as int,
                zeta as int,
                o,
            ) by {
                if o < j - start {
                    assert(fwd_pair_ok(prev, old_a, start as int, len as int, zeta as int, o));
                }
            }
        }
        j += 1;
    }
}

/// Combines the butterflies of block `b` of forward layer `l` with the
/// residues of the layer's input `p`.
proof fn lemma_fwd_layer_block(
    p: Seq<int>,
    l: int,
    len: int,
    b: int,
    zeta: int,
    before: Seq<i64>,
    after: Seq<i64>,
)
    requires
        0 <= l < 8,
        len == half_len(l),
        0 <= b,
        (b + 1) * (2 * len) <= 256,
        zeta == ZETAS[128int / len + b],
        p.len() == 256,
        before.len() == 256,
        forall|i: int|
            b * (2 * len) <= i < (b + 1) * (2 * len) ==> mq(#[trigger] before[i] as int) == mq(p[i]),
        forall|o: int| 0 <= o < len ==> #[trigger] fwd_pair_ok(after, before, b * (2 * len), len, zeta, o),
    ensures
        forall|i: int|
            b * (2 * len) <= i < (b + 1) * (2 * len) ==> mq(#[trigger] after[i] as int) == fwd_layer(p, l)[i],
{
    let start = b * (2 * len);
    assert((b + 1) * (2 * len) == start + 2 * len) by (nonlinear_arith)
        requires
            start == b * (2 * len),
    ;
    assert(1 <= len) by {
        assert(l == 0 || l == 1 || l == 2 || l == 3 || l == 4 || l == 5 || l == 6 || l == 7);
    }
    let k = 128int / len + b;
    assert forall|i: int| start <= i < start + 2 * len implies mq(#[trigger] after[i] as int) == fwd_layer(
        p,
        l,
    )[i] by {
        let o = if i < start + len {
            i - start
        } else {
            i - start - len
        };
        assert(fwd_pair_ok(after, before, start, len, zeta, o));
        let i1 = start + o;
        let i2 = start + len + o;
        lemma_block_index(b, o, 2 * len);
        lemma_block_index(b, len + o, 2 * len);
        assert(i2 == b * (2 * len) + (len + o));
        lemma_mul_congr(zeta * MONT_R_INV, before[i2] as int, p[i2]);
        lemma_pair_congr(before[i1] as int, zeta * MONT_R_INV * before[i2], p[i1], zeta_f(k) * p[i2]);
    }
}

/// Forward layer `l`, congruent to `fwd_layer(p, l)` when `a` is congruent to `p`.
fn fwd_layer_exec(a: &mut [i64; 256], l: usize, len: usize, Ghost(p): Ghost<Seq<int>>)
    requires
        l < 8,
        len == half_len(l as int),
        p.len() == 256,
        bounded(old(a)@, (4 + l) * Q),
        forall|i: int| 0 <= i < N ==> mq(#[trigger] old(a)[i] as int) == mq(p[i]),
    ensures
        bounded(final(a)@, (5 + l) * Q),
        forall|i: int| 0 <= i < N ==> mq(#[trigger] final(a)[i] as int) == fwd_layer(p, l as int)[i],
        all_zero(old(a)@) ==> all_zero(final(a)@),
{
    let ghost bnd: int = (4 + l) * Q;
    let ghost old_a = a@;
    let nb: usize = 128 / len;
    assert(nb * len == 128 && 1 <= len) by {
        assert(l == 0 || l == 1 || l == 2 || l == 3 || l == 4 || l == 5 || l == 6 || l == 7);
    }
    let mut b: usize = 0;
    let mut start: usize = 0;
    while b < nb
        invariant
            l < 8,
            len == half_len(l as int),
            1 <= len,
            nb == 128int / (len as int),
            nb * len == 128,
            b <= nb,
            start == b * (2 * len),
            p.len() == 256,
            old_a.len() == 256,
            bnd == (4 + l) * Q,
            bounded(old_a, bnd),
            forall|i: int| 0 <= i < N ==> mq(#[trigger] old_a[i] as int) == mq(p[i]),
            forall|i: int| start <= i < N ==> #[trigger] a[i] == old_a[i],
            forall|i: int| 0 <= i < start ==> -bnd - Q < #[trigger] a[i] < bnd + Q,
            forall|i: int| 0 <= i < start ==> mq(#[trigger] a[i] as int) == fwd_layer(p, l as int)[i],
            all_zero(old_a) ==> all_zero(a@),
        decreases nb - b,
    {
        assert(start + 2 * len <= N && start + 2 * len == (b + 1) * (2 * len)) by (nonlinear_arith)
            requires
                start == b * (2 * len),
                b < nb,
                nb * len == 128,
        ;
        let k = nb + b;
        assert(k < 256) by {
            assert(l == 0 || l == 1 || l == 2 || l == 3 || l == 4 || l == 5 || l == 6 || l == 7);
        }
        let zeta = ZETAS[k];
        assert(-Q_HALF <= zeta <= Q_HALF);
        let ghost before = a@;
        fwd_block(a, start, len, zeta, Ghost(bnd));
        proof {
            lemma_fwd_layer_block(p, l as int, len as int, b as int, zeta as int, before, a@);
        }
        start = start + 2 * len;
        b = b + 1;
    }
    assert(start == N) by (nonlinear_arith)
        requires
            start == b * (2 * len),
            b == nb,
            nb * len == 128,
    ;
}

/// Forward NTT: converts a polynomial from coefficient form into the NTT
/// domain. Coefficients must satisfy `|a[i]| <= 4q`; the results satisfy
/// `|a[i]| <= 12q` and are congruent to `ntt_spec` of the input.
pub fn ntt_forward(a: &mut [i64; 256])
    requires
        bounded(old(a)@, 4 * Q),
    ensures
        bounded(final(a)@, 12 * Q),
        forall|i: int| 0 <= i < N ==> mq(#[trigger] final(a)[i] as int) == ntt_spec(iseq(old(a)@))[i],
        all_zero(old(a)@) ==> all_zero(final(a)@),
{
    let ghost orig = iseq(a@);
    let ghost orig_a = a@;
    let mut len: usize = 128;
    let mut l: usize = 0;
    proof {
        assert forall|i: int| 0 <= i < N implies mq(#[trigger] a[i] as int) == mq(fwd_upto(orig, 0)[i]) by {}
    }
    while l < 8
        invariant
            l <= 8,
            l < 8 ==> len == half_len(l as int),
            orig.len() == 256,
            bounded(a@, (4 + l) * Q),
            forall|i: int| 0 <= i < N ==> mq(#[trigger] a[i] as int) == mq(fwd_upto(orig, l as nat)[i]),
            forall|i: int| 0 <= i < N ==> 0 <= #[trigger] fwd_upto(orig, l as nat)[i] < Q || l == 0,
            all_zero(orig_a) ==> all_zero(a@),
        decreases 8 - l,
    {
        let ghost cur = fwd_upto(orig, l as nat);
        fwd_layer_exec(a, l, len, Ghost(cur));
        proof {
            assert forall|i: int| 0 <= i < N implies mq(#[trigger] a[i] as int) == mq(fwd_upto(orig, (l + 1) as nat)[i]) by {
                lemma_mq_mq(fwd_upto(orig, (l + 1) as nat)[i]);
            }
        }
        len = len / 2;
        l = l + 1;
    }
    proof {
        assert forall|i: int| 0 <= i < N implies mq(#[trigger] a[i] as int) == ntt_spec(orig)[i] by {
            lemma_mq_mq(fwd_layer(fwd_upto(orig, 7), 7)[i]);
        }
    }
}

// ---------------------------------------------------------------------------
// Inverse transform
// ---------------------------------------------------------------------------

/// The inverse butterfly at offset `o` of the block `[start, start + 2 * len)`
/// took `(x, y)` in `old` to residues of `(x + y, zeta * (x - y))` in `new`,
/// with `zeta` in Montgomery form.
pub open spec fn inv_pair_ok(new: Seq<i64>, old: Seq<i64>, start: int, len: int, zeta: int, o: int) -> bool {
    &&& mq(new[start + o] as int) == mq(old[start + o] + old[start + len + o])
    &&& mq(new[start + len + o] as int) == mq(zeta * MONT_R_INV * (old[start + o] - old[start + len + o]))
}

/// The growth factor of the coefficient bound after `l` inverse layers: `2^l`.
pub open spec fn inv_growth(l: int) -> int {
    if l <= 0 {
        1
    } else if l == 1 {
        2
    } else if l == 2 {
        4
    } else if l == 3 {
        8
    } else if l == 4 {
        16
    } else if l == 5 {
        32
    } else if l == 6 {
        64
    } else if l == 7 {
        128
    } else {
        256
    }
}

/// Gentleman-Sande butterflies on the block `[start, start + 2 * len)` with
/// Montgomery twiddle `zeta`.
fn inv_block(a: &mut [i64; 256], start: usize, len: usize, zeta: i64, Ghost(bnd): Ghost<int>)
    requires
        1 <= len,
        start + 2 * len <= N,
        -Q_HALF <= zeta <= Q_HALF,
        Q <= bnd <= 128000 * Q,
        forall|i: int| start <= i < start + 2 * len ==> -bnd <= #[trigger] old(a)[i] <= bnd,
    ensures
        forall|i: int| start <= i < start + 2 * len ==> -2 * bnd <= #[trigger] final(a)[i] <= 2 * bnd,
        forall|i: int|
            0 <= i < N && !(start <= i < start + 2 * len) ==> #[trigger] final(a)[i] == old(a)[i],
        forall|o: int|
            0 <= o < len ==> #[trigger] inv_pair_ok(final(a)@, old(a)@, start as int, len as int, zeta as int, o),
{
    let ghost old_a = a@;
    let mut j = start;
    while j < start + len
        invariant
            1 <= len,
            start <= j <= start + len,
            start + 2 * len <= N,
            -Q_HALF <= zeta <= Q_HALF,
            Q <= bnd <= 128000 * Q,
            old_a.len() == N,
            forall|i: int| start <= i < start + 2 * len ==> -bnd <= #[trigger] old_a[i] <= bnd,
            forall|i: int|
                0 <= i < N && !(start <= i < j) && !(start + len <= i < j + len)
                    ==> #[trigger] a[i] == old_a[i],
            forall|i: int|
                (start <= i < j || start + len <= i < j + len) ==> -2 * bnd <= #[trigger] a[i] <= 2 * bnd,
            forall|o: int|
                0 <= o < j - start ==> #[trigger] inv_pair_ok(a@, old_a, start as int, len as int, zeta as int, o),
        decreases start + len - j,
    {
        let ghost prev = a@;
        let t = a[j];
        assert(t == old_a[j as int]);
        assert(a[j + len] == old_a[j + len]);
        a[j] = t + a[j + len];
        a[j + len] = t - a[j + len];
        let d = a[j + len];
        proof {
            assert(-(Q_HALF * (2 * bnd)) <= zeta * d <= Q_HALF * (2 * bnd)) by (nonlinear_arith)
                requires
                    -Q_HALF <= zeta <= Q_HALF,
                    -2 * bnd <= d <= 2 * bnd,
                    0 <= bnd,
            ;
        }
        a[j + len] = montgomery_reduce(zeta * d);
        proof {
            lemma_mul_is_associative(zeta as int, MONT_R_INV as int, d as int);
            lemma_mul_is_associative(zeta as int, d as int, MONT_R_INV as int);
            lemma_mul_is_commutative(d as int, MONT_R_INV as int);
            assert forall|o: int| 0 <= o < j + 1 - start implies #[trigger] inv_pair_ok(
                a@,
                old_a,
                start as int,
                len as int,
                zeta as int,
                o,
            ) by {
                if o < j - start {
                    assert(inv_pair_ok(prev, old_a, start as int, len as int, zeta as int, o));
                }
            }
        }
        j += 1;
    }
}

/// Combines the butterflies of block `b` of inverse layer `l` with the
/// residues of the layer's input `p`.
proof fn lemma_inv_layer_block(
    p: Seq<int>,
    l: int,
    len: int,
    b: int,
    zeta: int,
    before: Seq<i64>,
    after: Seq<i64>,
)
    requires
        0 <= l < 8,
        len == half_len(7 - l),
        0 <= b,
        (b + 1) * (2 * len) <= 256,
        zeta == -ZETAS[2 * half_len(l) - 1 - b],
        p.len() == 256,
        before.len() == 256,
        forall|i: int|
            b * (2 * len) <= i < (b + 1) * (2 * len) ==> mq(#[trigger] before[i] as int) == mq(p[i]),
        forall|o: int| 0 <= o < len ==> #[trigger] inv_pair_ok(after, before, b * (2 * len), len, zeta, o),
    ensures
        forall|i: int|
            b * (2 * len) <= i < (b + 1) * (2 * len) ==> mq(#[trigger] after[i] as int) == inv_layer(p, l)[i],
{
    let start = b * (2 * len);
    assert((b + 1) * (2 * len) == start + 2 * len) by (nonlinear_arith)
        requires
            start == b * (2 * len),
    ;
    assert(1 <= len) by {
        assert(l == 0 || l == 1 || l == 2 || l == 3 || l == 4 || l == 5 || l == 6 || l == 7);
    }
    let k = 2 * half_len(l) - 1 - b;
    assert forall|i: int| start <= i < start + 2 * len implies mq(#[trigger] after[i] as int) == inv_layer(
        p,
        l,
    )[i] by {
        let o = if i < start + len {
            i - start
        } else {
            i - start - len
        };
        assert(inv_pair_ok(after, before, start, len, zeta, o));
        let i1 = start + o;
        let i2 = start + len + o;
        lemma_block_index(b, o, 2 * len);
        lemma_block_index(b, len + o, 2 * len);
        assert(i2 == b * (2 * len) + (len + o));
        lemma_pair_congr(before[i1] as int, before[i2] as int, p[i1], p[i2]);
        lemma_mul_congr(zeta * MONT_R_INV, before[i1] - before[i2], p[i1] - p[i2]);
        assert(zeta * MONT_R_INV == zeta_i(k));
    }
}

/// Inverse layer `l`, congruent to `inv_layer(p, l)` when `a` is congruent to `p`.
fn inv_layer_exec(a: &mut [i64; 256], l: usize, len: usize, Ghost(p): Ghost<Seq<int>>, Ghost(bnd): Ghost<int>)
    requires
        l < 8,
        len == half_len(7 - l),
        p.len() == 256,
        Q <= bnd <= 128000 * Q,
        bounded(old(a)@, bnd),
        forall|i: int| 0 <= i < N ==> mq(#[trigger] old(a)[i] as int) == mq(p[i]),
    ensures
        bounded(final(a)@, 2 * bnd),
        forall|i: int| 0 <= i < N ==> mq(#[trigger] final(a)[i] as int) == inv_layer(p, l as int)[i],
{
    let ghost old_a = a@;
    let nb: usize = 128 / len;
    assert(nb * len == 128 && 1 <= len && nb == half_len(l as int)) by {
        assert(l == 0 || l == 1 || l == 2 || l == 3 || l == 4 || l == 5 || l == 6 || l == 7);
    }
    let mut b: usize = 0;
    let mut start: usize = 0;
    while b < nb
        invariant
            l < 8,
            len == half_len(7 - l),
            1 <= len,
            nb == half_len(l as int),
            nb * len == 128,
            b <= nb,
            start == b * (2 * len),
            p.len() == 256,
            old_a.len() == 256,
            Q <= bnd <= 128000 * Q,
            bounded(old_a, bnd),
            forall|i: int| 0 <= i < N ==> mq(#[trigger] old_a[i] as int) == mq(p[i]),
            forall|i: int| start <= i < N ==> #[trigger] a[i] == old_a[i],
            forall|i: int| 0 <= i < start ==> -2 * bnd <= #[trigger] a[i] <= 2 * bnd,
            forall|i: int| 0 <= i < start ==> mq(#[trigger] a[i] as int) == inv_layer(p, l as int)[i],
        decreases nb - b,
    {
        assert(start + 2 * len <= N && start + 2 * len == (b + 1) * (2 * len)) by (nonlinear_arith)
            requires
                start == b * (2 * len),
                b < nb,
                nb * len == 128,
        ;
        let k = 2 * nb - 1 - b;
        assert(k < 256) by {
            assert(l == 0 || l == 1 || l == 2 || l == 3 || l == 4 || l == 5 || l == 6 || l == 7);
        }
        let zeta = -ZETAS[k];
        assert(-Q_HALF <= zeta <= Q_HALF);
        let ghost before = a@;
        inv_block(a, start, len, zeta, Ghost(bnd));
        proof {
            lemma_inv_layer_block(p, l as int, len as int, b as int, zeta as int, before, a@);
        }
        start = start + 2 * len;
        b = b + 1;
    }
    assert(start == N) by (nonlinear_arith)
        requires
            start == b * (2 * len),
            b == nb,
            nb * len == 128,
    ;
}

/// Inverse NTT: converts a polynomial from the NTT domain back to coefficient
/// form and multiplies it by `2^32` (mod q). Coefficients must satisfy
/// `|a[i]| <= 1000q`, so that the butterflies of every layer stay within the
/// range of the Montgomery reduction (the forward transform leaves `12q`); the results
/// are the centered representatives, in `[-(q-1)/2, (q-1)/2]`, of `intt_spec`
/// of the input.
pub fn ntt_inverse(a: &mut [i64; 256])
    requires
        bounded(old(a)@, 1000 * Q),
    ensures
        bounded(final(a)@, Q - 1),
        bounded(final(a)@, Q_HALF as int),
        forall|i: int| 0 <= i < N ==> mq(#[trigger] final(a)[i] as int) == intt_spec(iseq(old(a)@))[i],
        forall|i: int| 0 <= i < N ==> #[trigger] final(a)[i] == centered(intt_spec(iseq(old(a)@))[i]),
{
    let ghost orig = iseq(a@);
    let ghost mut bnd: int = 1000 * Q;
    let mut len: usize = 1;
    let mut l: usize = 0;
    while l < 8
        invariant
            l <= 8,
            l < 8 ==> len == half_len(7 - l),
            orig.len() == 256,
            bnd == 1000 * Q * inv_growth(l as int),
            bounded(a@, bnd),
            forall|i: int| 0 <= i < N ==> mq(#[trigger] a[i] as int) == mq(inv_upto(orig, l as nat)[i]),
        decreases 8 - l,
    {
        let ghost cur = inv_upto(orig, l as nat);
        inv_layer_exec(a, l, len, Ghost(cur), Ghost(bnd));
        proof {
            assert forall|i: int| 0 <= i < N implies mq(#[trigger] a[i] as int) == mq(
                inv_upto(orig, (l + 1) as nat)[i],
            ) by {
                lemma_mq_mq(inv_upto(orig, (l + 1) as nat)[i]);
            }
            bnd = 2 * bnd;
        }
        len = len * 2;
        l = l + 1;
    }
    // Multiply by 2^32 / 256 (mod q), in Montgomery form.
    let f: i64 = 41978;
    let ghost before = a@;
    let mut i: usize = 0;
    while i < N
        invariant
            i <= N,
            f == 41978,
            bnd == 256000 * Q,
            orig.len() == 256,
            before.len() == 256,
            bounded(before, bnd),
            forall|m: int| i <= m < N ==> #[trigger] a[m] == before[m],
            forall|m: int| 0 <= m < N ==> mq(#[trigger] before[m] as int) == mq(inv_upto(orig, 8)[m]),
            forall|m: int| 0 <= m < i ==> -Q_HALF <= #[trigger] a[m] <= Q_HALF,
            forall|m: int| 0 <= m < i ==> mq(#[trigger] a[m] as int) == intt_spec(orig)[m],
            forall|m: int| 0 <= m < i ==> #[trigger] a[m] == centered(intt_spec(orig)[m]),
        decreases N - i,
    {
        let x = a[i];
        assert(x == before[i as int]);
        assert(-256000 * Q <= x <= 256000 * Q);
        assert(-256000 * 41978 * Q <= f * x <= 256000 * 41978 * Q && f * x * MONT_R_INV == inv_scale() * x)
            by (nonlinear_arith)
            requires
                f == 41978,
                -256000 * Q <= x <= 256000 * Q,
        ;
        let r = montgomery_reduce(f * x);
        a[i] = reduce_coeff(r);
        proof {
            lemma_mul_congr(inv_scale(), x as int, inv_upto(orig, 8)[i as int]);
            lemma_centered_bound(r as int);
            lemma_mq_mq(intt_spec(orig)[i as int]);
            assert(centered(r as int) == centered(intt_spec(orig)[i as int]));
        }
        i += 1;
    }
}

/// Every coefficient-wise product is below `2^31 * q` in absolute value, the
/// range in which one Montgomery reduction returns a value in `(-q, q)`.
pub open spec fn products_fit(a: Seq<i64>, b: Seq<i64>) -> bool {
    forall|i: int|
        0 <= i < a.len() ==> -2147483648 * Q < #[trigger] (a[i] * b[i]) < 2147483648 * Q
}

/// Factors within `12 q` have products that fit.
pub proof fn lemma_products_fit(a: Seq<i64>, b: Seq<i64>)
    requires
        bounded(a, 12 * Q),
        bounded(b, 12 * Q),
        a.len() == b.len(),
    ensures
        products_fit(a, b),
{
    assert forall|i: int| 0 <= i < a.len() implies -2147483648 * Q < #[trigger] (a[i] * b[i]) < 2147483648 * Q by {
        let x = a[i] as int;
        let y = b[i] as int;
        assert(-(144 * Q * Q) <= x * y <= 144 * Q * Q) by (nonlinear_arith)
            requires
                -12 * Q <= x <= 12 * Q,
                -12 * Q <= y <= 12 * Q,
        ;
    }
}

/// Pointwise Montgomery multiplication of two polynomials in the NTT domain:
/// `c[i] * 2^32 == a[i] * b[i] (mod q)`, with `|c[i]| < q` whenever every
/// product is below `2^31 * q` in absolute value.
pub fn ntt_pointwise_mul(a: &[i64; 256], b: &[i64; 256]) -> (c: [i64; 256])
    requires
        products_fit(a@, b@),
    ensures
        bounded(c@, Q - 1),
        forall|i: int| 0 <= i < N ==> mq(#[trigger] c[i] as int) == pointwise_spec(iseq(a@), iseq(b@))[i],
        forall|i: int| 0 <= i < N ==> ((#[trigger] c[i]) * 4294967296 - a[i] * b[i]) % (Q as int) == 0,
{
    let mut c = [0i64; 256];
    let mut i: usize = 0;
    while i < N
        invariant
            i <= N,
            products_fit(a@, b@),
            forall|m: int| 0 <= m < i ==> -Q < #[trigger] c[m] < Q,
            forall|m: int| 0 <= m < i ==> mq(#[trigger] c[m] as int) == pointwise_spec(iseq(a@), iseq(b@))[m],
            forall|m: int| 0 <= m < i ==> ((#[trigger] c[m]) * 4294967296 - a[m] * b[m]) % (Q as int) == 0,
        decreases N - i,
    {
        let x = a[i];
        let y = b[i];
        assert(-2147483648 * Q < a@[i as int] * b@[i as int] < 2147483648 * Q);
        let prod = x * y;
        let r = montgomery_reduce(prod);
        proof {
            vstd::arithmetic::div_mod::lemma_sub_mod_noop(r * 4294967296, prod as int, Q as int);
            assert(((r * 4294967296) % (Q as int) - (prod as int) % (Q as int)) % (Q as int) == 0) by {
                assert((r * 4294967296) % (Q as int) == (prod as int) % (Q as int));
            }
        }
        c[i] = r;
        i += 1;
    }
    c
}

/// Reduces a coefficient to its centered representative in
/// `[-(q-1)/2, (q-1)/2]`.
pub fn reduce_coeff(a: i64) -> (r: i64)
    ensures
        r == centered(a as int),
        -Q_HALF <= r <= Q_HALF,
{
    proof {
        lemma_fundamental_div_mod(a as int, Q as int);
        lemma_mod_bound(a as int, Q as int);
    }
    let mut t = a % Q;
    if t > Q / 2 {
        t -= Q;
    }
    if t < -(Q / 2) {
        t += Q;
    }
    t
}

/// Reduces every coefficient of a polynomial to its centered representative.
pub fn reduce_poly(a: &mut [i64; 256])
    ensures
        forall|i: int| 0 <= i < N ==> #[trigger] final(a)[i] == centered(old(a)[i] as int),
{
    let ghost before = a@;
    let mut i: usize = 0;
    while i < N
        invariant
            i <= N,
            before.len() == N,
            forall|m: int| i <= m < N ==> #[trigger] a[m] == before[m],
            forall|m: int| 0 <= m < i ==> #[trigger] a[m] == centered(before[m] as int),
        decreases N - i,
    {
        let x = a[i];
        a[i] = reduce_coeff(x);
        i += 1;
    }
}

// ---------------------------------------------------------------------------
// The inverse transform undoes the forward transform
// ---------------------------------------------------------------------------

/// `2^64 mod q`: the square of the Montgomery factor.
pub open spec fn mont_r2() -> int {
    2365951
}

/// The twiddles of block `b` of the forward layer with `kk` blocks and of the
/// inverse layer that undoes it multiply to `-2^64 (mod q)`, so that their
/// twiddle factors without the Montgomery factor multiply to 1.
pub open spec fn zeta_pair_ok(kk: int, b: int) -> bool {
    zeta_pair_at(kk + b, 2 * kk - 1 - b)
}

/// The table entries at `k1` and `k2` multiply to `-2^64 (mod q)`.
pub open spec fn zeta_pair_at(k1: int, k2: int) -> bool {
    (ZETAS[k1] as int * ZETAS[k2] as int + mont_r2()) % (Q as int) == 0
}

#[verifier::rlimit(50)]
proof fn lemma_pairs_1_from_0()
    ensures
        forall|b: int| 0 <= b < 1 ==> #[trigger] zeta_pair_ok(1, b),
{
    assert(zeta_pair_at(1, 1));
    assert(zeta_pair_ok(1, 0));
    assert forall|b: int| 0 <= b < 1 implies #[trigger] zeta_pair_ok(1, b) by {
        {
            assert(b == 0);
        }
    }
}

#[verifier::rlimit(50)]
proof fn lemma_pairs_2_from_0()
    ensures
        forall|b: int| 0 <= b < 2 ==> #[trigger] zeta_pair_ok(2, b),
{
    assert(ZETAS[2] == -2608894 && ZETAS[3] == -518909);
    assert((-2608894int * -518909int + 2365951) % 8380417 == 0);
    assert(zeta_pair_at(2, 3));
    assert(zeta_pair_ok(2, 0));
    assert(ZETAS[3] == -518909 && ZETAS[2] == -2608894);
    assert((-518909int * -2608894int + 2365951) % 8380417 == 0);
    assert(zeta_pair_at(3, 2));
    assert(zeta_pair_ok(2, 1));
    assert forall|b: int| 0 <= b < 2 implies #[trigger] zeta_pair_ok(2, b) by {
        if b == 0 {} else {
            assert(b == 1);
        }
    }
}

#[verifier::rlimit(50)]
proof fn lemma_pairs_4_from_0()
    ensures
        forall|b: int| 0 <= b < 4 ==> #[trigger] zeta_pair_ok(4, b),
{
    assert(zeta_pair_at(4, 7));
    assert(zeta_pair_ok(4, 0));
    assert(ZETAS[5] == -777960 && ZETAS[6] == -876248);
    assert((-777960int * -876248int + 2365951) % 8380417 == 0);
    assert(zeta_pair_at(5, 6));
    assert(zeta_pair_ok(4, 1));
    assert(ZETAS[6] == -876248 && ZETAS[5] == -777960);
    assert((-876248int * -777960int + 2365951) % 8380417 == 0);
    assert(zeta_pair_at(6, 5));
    assert(zeta_pair_ok(4, 2));
    assert(zeta_pair_at(7, 4));
    assert(zeta_pair_ok(4, 3));
    assert forall|b: int| 0 <= b < 4 implies #[trigger] zeta_pair_ok(4, b) by {
        if b == 0 {} else if b == 1 {} else if b == 2 {} else {
            assert(b == 3);
        }
    }
}

#[verifier::rlimit(50)]
proof fn lemma_pairs_8_from_0()
    ensures
        forall|b: int| 0 <= b < 8 ==> #[trigger] zeta_pair_ok(8, b),
{
    assert(zeta_pair_at(8, 15));
    assert(zeta_pair_ok(8, 0));
    assert(zeta_pair_at(9, 14));
    assert(zeta_pair_ok(8, 1));
    assert(ZETAS[10] == -359251 && ZETAS[13] == -2884855);
    assert((-359251int * -2884855int + 2365951) % 8380417 == 0);
    assert(zeta_pair_at(10, 13));
    assert(zeta_pair_ok(8, 2));
    assert(zeta_pair_at(11, 12));
    assert(zeta_pair_ok(8, 3));
    assert(zeta_pair_at(12, 11));
    assert(zeta_pair_ok(8, 4));
    assert(ZETAS[13] == -2884855 && ZETAS[10] == -359251);
    assert((-2884855int * -359251int + 2365951) % 8380417 == 0);
    assert(zeta_pair_at(13, 10));
    assert(zeta_pair_ok(8, 5));
    assert(zeta_pair_at(14, 9));
    assert(zeta_pair_ok(8, 6));
    assert(zeta_pair_at(15, 8));
    assert(zeta_pair_ok(8, 7));
    assert forall|b: int| 0 <= b < 8 implies #[trigger] zeta_pair_ok(8, b) by {
        if b == 0 {} else if b == 1 {} else if b == 2 {} else if b == 3 {} else if b == 4 {} else if b == 5 {} else if b == 6 {} else {
            assert(b == 7);
        }
    }
}

#[verifier::rlimit(50)]
proof fn lemma_pairs_16_from_0()
    ensures
        forall|b: int| 0 <= b < 16 ==> #[trigger] zeta_pair_ok(16, b),
{
    assert(zeta_pair_at(16, 31));
    assert(zeta_pair_ok(16, 0));
    assert(zeta_pair_at(17, 30));
    assert(zeta_pair_ok(16, 1));
    assert(ZETAS[18] == -1079900 && ZETAS[29] == -19422);
    assert((-1079900int * -19422int + 2365951) % 8380417 == 0);
    assert(zeta_pair_at(18, 29));
    assert(zeta_pair_ok(16, 2));
    assert(zeta_pair_at(19, 28));
    assert(zeta_pair_ok(16, 3));
    assert(ZETAS[20] == -549488 && ZETAS[27] == -3277672);
    assert((-549488int * -3277672int + 2365951) % 8380417 == 0);
    assert(zeta_pair_at(20, 27));
    assert(zeta_pair_ok(16, 4));
    assert(ZETAS[21] == -1119584 && ZETAS[26] == -1399561);
    assert((-1119584int * -1399561int + 2365951) % 8380417 == 0);
    assert(zeta_pair_at(21, 26));
    assert(zeta_pair_ok(16, 5));
    assert(zeta_pair_at(22, 25));
    assert(zeta_pair_ok(16, 6));
    assert(ZETAS[23] == -2108549 && ZETAS[24] == -2118186);
    assert((-2108549int * -2118186int + 2365951) % 8380417 == 0);
    assert(zeta_pair_at(23, 24));
    assert(zeta_pair_ok(16, 7));
    assert(ZETAS[24] == -2118186 && ZETAS[23] == -2108549);
    assert((-2118186int * -2108549int + 2365951) % 8380417 == 0);
    assert(zeta_pair_at(24, 23));
    assert(zeta_pair_ok(16, 8));
    assert(zeta_pair_at(25, 22));
    assert(zeta_pair_ok(16, 9));
    assert(ZETAS[26] == -1399561 && ZETAS[21] == -1119584);
    assert((-1399561int * -1119584int + 2365951) % 8380417 == 0);
    assert(zeta_pair_at(26, 21));
    assert(zeta_pair_ok(16, 10));
    assert(ZETAS[27] == -3277672 && ZETAS[20] == -549488);
    assert((-3277672int * -549488int + 2365951) % 8380417 == 0);
    assert(zeta_pair_at(27, 20));
    assert(zeta_pair_ok(16, 11));
    assert(zeta_pair_at(28, 19));
    assert(zeta_pair_ok(16, 12));
    assert(ZETAS[29] == -19422 && ZETAS[18] == -1079900);
    assert((-19422int * -1079900int + 2365951) % 8380417 == 0);
    assert(zeta_pair_at(29, 18));
    assert(zeta_pair_ok(16, 13));
    assert(zeta_pair_at(30, 17));
    assert(zeta_pair_ok(16, 14));
    assert(zeta_pair_at(31, 16));
    assert(zeta_pair_ok(16, 15));
    assert forall|b: int| 0 <= b < 16 implies #[trigger] zeta_pair_ok(16, b) by {
        if b == 0 {} else if b == 1 {} else if b == 2 {} else if b == 3 {} else if b == 4 {} else if b == 5 {} else if b == 6 {} else if b == 7 {} else if b == 8 {} else if b == 9 {} else if b == 10 {} else if b == 11 {} else if b == 12 {} else if b == 13 {} else if b == 14 {} else {
            assert(b == 15);
        }
    }
}

#[verifier::rlimit(50)]
proof fn lemma_pairs_32_from_0()
    ensures
        forall|b: int| 0 <= b < 16 ==> #[trigger] zeta_pair_ok(32, b),
{
    assert(zeta_pair_at(32, 63));
    assert(zeta_pair_ok(32, 0));
    assert(zeta_pair_at(33, 62));
    assert(zeta_pair_ok(32, 1));
    assert(zeta_pair_at(34, 61));
    assert(zeta_pair_ok(32, 2));
    assert(zeta_pair_at(35, 60));
    assert(zeta_pair_ok(32, 3));
    assert(zeta_pair_at(36, 59));
    assert(zeta_pair_ok(32, 4));
    assert(zeta_pair_at(37, 58));
    assert(zeta_pair_ok(32, 5));
    assert(zeta_pair_at(38, 57));
    assert(zeta_pair_ok(32, 6));
    assert(zeta_pair_at(39, 56));
    assert(zeta_pair_ok(32, 7));
    assert(zeta_pair_at(40, 55));
    assert(zeta_pair_ok(32, 8));
    assert(ZETAS[41] == -3043716 && ZETAS[54] == -1600420);
    assert((-3043716int * -1600420int + 2365951) % 8380417 == 0);
    assert(zeta_pair_at(41, 54));
    assert(zeta_pair_ok(32, 9));
    assert(zeta_pair_at(42, 53));
    assert(zeta_pair_ok(32, 10));
    assert(zeta_pair_at(43, 52));
    assert(zeta_pair_ok(32, 11));
    assert(zeta_pair_at(44, 51));
    assert(zeta_pair_ok(32, 12));
    assert(zeta_pair_at(45, 50));
    assert(zeta_pair_ok(32, 13));
    assert(zeta_pair_at(46, 49));
    assert(zeta_pair_ok(32, 14));
    assert(ZETAS[47] == -539299 && ZETAS[48] == -1699267);
    assert((-539299int * -1699267int + 2365951) % 8380417 == 0);
    assert(zeta_pair_at(47, 48));
    assert(zeta_pair_ok(32, 15));
    assert forall|b: int| 0 <= b < 16 implies #[trigger] zeta_pair_ok(32, b) by {
        if b == 0 {} else if b == 1 {} else if b == 2 {} else if b == 3 {} else if b == 4 {} else if b == 5 {} else if b == 6 {} else if b == 7 {} else if b == 8 {} else if b == 9 {} else if b == 10 {} else if b == 11 {} else if b == 12 {} else if b == 13 {} else if b == 14 {} else {
            assert(b == 15);
        }
    }
}

#[verifier::rlimit(50)]
proof fn lemma_pairs_32_from_16()
    ensures
        forall|b: int| 16 <= b < 32 ==> #[trigger] zeta_pair_ok(32, b),
{
    assert(ZETAS[48] == -1699267 && ZETAS[47] == -539299);
    assert((-1699267int * -539299int + 2365951) % 8380417 == 0);
    assert(zeta_pair_at(48, 47));
    assert(zeta_pair_ok(32, 16));
    assert(zeta_pair_at(49, 46));
    assert(zeta_pair_ok(32, 17));
    assert(zeta_pair_at(50, 45));
    assert(zeta_pair_ok(32, 18));
    assert(zeta_pair_at(51, 44));
    assert(zeta_pair_ok(32, 19));
    assert(zeta_pair_at(52, 43));
    assert(zeta_pair_ok(32, 20));
    assert(zeta_pair_at(53, 42));
    assert(zeta_pair_ok(32, 21));
    assert(ZETAS[54] == -1600420 && ZETAS[41] == -3043716);
    assert((-1600420int * -3043716int + 2365951) % 8380417 == 0);
    assert(zeta_pair_at(54, 41));
    assert(zeta_pair_ok(32, 22));
    assert(zeta_pair_at(55, 40));
    assert(zeta_pair_ok(32, 23));
    assert(zeta_pair_at(56, 39));
    assert(zeta_pair_ok(32, 24));
    assert(zeta_pair_at(57, 38));
    assert(zeta_pair_ok(32, 25));
    assert(zeta_pair_at(58, 37));
    assert(zeta_pair_ok(32, 26));
    assert(zeta_pair_at(59, 36));
    assert(zeta_pair_ok(32, 27));
    assert(zeta_pair_at(60, 35));
    assert(zeta_pair_ok(32, 28));
    assert(zeta_pair_at(61, 34));
    assert(zeta_pair_ok(32, 29));
    assert(zeta_pair_at(62, 33));
    assert(zeta_pair_ok(32, 30));
    assert(zeta_pair_at(63, 32));
    assert(zeta_pair_ok(32, 31));
    assert forall|b: int| 16 <= b < 32 implies #[trigger] zeta_pair_ok(32, b) by {
        if b == 16 {} else if b == 17 {} else if b == 18 {} else if b == 19 {} else if b == 20 {} else if b == 21 {} else if b == 22 {} else if b == 23 {} else if b == 24 {} else if b == 25 {} else if b == 26 {} else if b == 27 {} else if b == 28 {} else if b == 29 {} else if b == 30 {} else {
            assert(b == 31);
        }
    }
}

#[verifier::rlimit(50)]
proof fn lemma_pairs_64_from_0()
    ensures
        forall|b: int| 0 <= b < 16 ==> #[trigger] zeta_pair_ok(64, b),
{
    assert(zeta_pair_at(64, 127));
    assert(zeta_pair_ok(64, 0));
    assert(ZETAS[65] == -1528703 && ZETAS[126] == -3628969);
    assert((-1528703int * -3628969int + 2365951) % 8380417 == 0);
    assert(zeta_pair_at(65, 126));
    assert(zeta_pair_ok(64, 1));
    assert(ZETAS[66] == -3677745 && ZETAS[125] == -3881060);
    assert((-3677745int * -3881060int + 2365951) % 8380417 == 0);
    assert(zeta_pair_at(66, 125));
    assert(zeta_pair_ok(64, 2));
    assert(ZETAS[67] == -3041255 && ZETAS[124] == -3019102);
    assert((-3041255int * -3019102int + 2365951) % 8380417 == 0);
    assert(zeta_pair_at(67, 124));
    assert(zeta_pair_ok(64, 3));
    assert(ZETAS[68] == -1452451 && ZETAS[123] == -1439742);
    assert((-1452451int * -1439742int + 2365951) % 8380417 == 0);
    assert(zeta_pair_at(68, 123));
    assert(zeta_pair_ok(64, 4));
    assert(zeta_pair_at(69, 122));
    assert(zeta_pair_ok(64, 5));
    assert(zeta_pair_at(70, 121));
    assert(zeta_pair_ok(64, 6));
    assert(zeta_pair_at(71, 120));
    assert(zeta_pair_ok(64, 7));
    assert(zeta_pair_at(72, 119));
    assert(zeta_pair_ok(64, 8));
    assert(zeta_pair_at(73, 118));
    assert(zeta_pair_ok(64, 9));
    assert(ZETAS[74] == -4083598 && ZETAS[117] == -177440);
    assert((-4083598int * -177440int + 2365951) % 8380417 == 0);
    assert(zeta_pair_at(74, 117));
    assert(zeta_pair_ok(64, 10));
    assert(ZETAS[75] == -1000202 && ZETAS[116] == -2409325);
    assert((-1000202int * -2409325int + 2365951) % 8380417 == 0);
    assert(zeta_pair_at(75, 116));
    assert(zeta_pair_ok(64, 11));
    assert(ZETAS[76] == -3190144 && ZETAS[115] == -1851402);
    assert((-3190144int * -1851402int + 2365951) % 8380417 == 0);
    assert(zeta_pair_at(76, 115));
    assert(zeta_pair_ok(64, 12));
    assert(zeta_pair_at(77, 114));
    assert(zeta_pair_ok(64, 13));
    assert(ZETAS[78] == -3632928 && ZETAS[113] == -3553272);
    assert((-3632928int * -3553272int + 2365951) % 8380417 == 0);
    assert(zeta_pair_at(78, 113));
    assert(zeta_pair_ok(64, 14));
    assert(zeta_pair_at(79, 112));
    assert(zeta_pair_ok(64, 15));
    assert forall|b: int| 0 <= b < 16 implies #[trigger] zeta_pair_ok(64, b) by {
        if b == 0 {} else if b == 1 {} else if b == 2 {} else if b == 3 {} else if b == 4 {} else if b == 5 {} else if b == 6 {} else if b == 7 {} else if b == 8 {} else if b == 9 {} else if b == 10 {} else if b == 11 {} else if b == 12 {} else if b == 13 {} else if b == 14 {} else {
            assert(b == 15);
        }
    }
}

#[verifier::rlimit(50)]
proof fn lemma_pairs_64_from_16()
    ensures
        forall|b: int| 16 <= b < 32 ==> #[trigger] zeta_pair_ok(64, b),
{
    assert(zeta_pair_at(80, 111));
    assert(zeta_pair_ok(64, 16));
    assert(zeta_pair_at(81, 110));
    assert(zeta_pair_ok(64, 17));
    assert(zeta_pair_at(82, 109));
    assert(zeta_pair_ok(64, 18));
    assert(zeta_pair_at(83, 108));
    assert(zeta_pair_ok(64, 19));
    assert(ZETAS[84] == -2967645 && ZETAS[107] == -3249728);
    assert((-2967645int * -3249728int + 2365951) % 8380417 == 0);
    assert(zeta_pair_at(84, 107));
    assert(zeta_pair_ok(64, 20));
    assert(zeta_pair_at(85, 106));
    assert(zeta_pair_ok(64, 21));
    assert(ZETAS[86] == -411027 && ZETAS[105] == -8578);
    assert((-411027int * -8578int + 2365951) % 8380417 == 0);
    assert(zeta_pair_at(86, 105));
    assert(zeta_pair_ok(64, 22));
    assert(ZETAS[87] == -2477047 && ZETAS[104] == -3724342);
    assert((-2477047int * -3724342int + 2365951) % 8380417 == 0);
    assert(zeta_pair_at(87, 104));
    assert(zeta_pair_ok(64, 23));
    assert(zeta_pair_at(88, 103));
    assert(zeta_pair_ok(64, 24));
    assert(zeta_pair_at(89, 102));
    assert(zeta_pair_ok(64, 25));
    assert(ZETAS[90] == -22981 && ZETAS[101] == -1100098);
    assert((-22981int * -1100098int + 2365951) % 8380417 == 0);
    assert(zeta_pair_at(90, 101));
    assert(zeta_pair_ok(64, 26));
    assert(zeta_pair_at(91, 100));
    assert(zeta_pair_ok(64, 27));
    assert(zeta_pair_at(92, 99));
    assert(zeta_pair_ok(64, 28));
    assert(zeta_pair_at(93, 98));
    assert(zeta_pair_ok(64, 29));
    assert(zeta_pair_at(94, 97));
    assert(zeta_pair_ok(64, 30));
    assert(ZETAS[95] == -1430430 && ZETAS[96] == -3343383);
    assert((-1430430int * -3343383int + 2365951) % 8380417 == 0);
    assert(zeta_pair_at(95, 96));
    assert(zeta_pair_ok(64, 31));
    assert forall|b: int| 16 <= b < 32 implies #[trigger] zeta_pair_ok(64, b) by {
        if b == 16 {} else if b == 17 {} else if b == 18 {} else if b == 19 {} else if b == 20 {} else if b == 21 {} else if b == 22 {} else if b == 23 {} else if b == 24 {} else if b == 25 {} else if b == 26 {} else if b == 27 {} else if b == 28 {} else if b == 29 {} else if b == 30 {} else {
            assert(b == 31);
        }
    }
}

#[verifier::rlimit(50)]
proof fn lemma_pairs_64_from_32()
    ensures
        forall|b: int| 32 <= b < 48 ==> #[trigger] zeta_pair_ok(64, b),
{
    assert(ZETAS[96] == -3343383 && ZETAS[95] == -1430430);
    assert((-3343383int * -1430430int + 2365951) % 8380417 == 0);
    assert(zeta_pair_at(96, 95));
    assert(zeta_pair_ok(64, 32));
    assert(zeta_pair_at(97, 94));
    assert(zeta_pair_ok(64, 33));
    assert(zeta_pair_at(98, 93));
    assert(zeta_pair_ok(64, 34));
    assert(zeta_pair_at(99, 92));
    assert(zeta_pair_ok(64, 35));
    assert(zeta_pair_at(100, 91));
    assert(zeta_pair_ok(64, 36));
    assert(ZETAS[101] == -1100098 && ZETAS[90] == -22981);
    assert((-1100098int * -22981int + 2365951) % 8380417 == 0);
    assert(zeta_pair_at(101, 90));
    assert(zeta_pair_ok(64, 37));
    assert(zeta_pair_at(102, 89));
    assert(zeta_pair_ok(64, 38));
    assert(zeta_pair_at(103, 88));
    assert(zeta_pair_ok(64, 39));
    assert(ZETAS[104] == -3724342 && ZETAS[87] == -2477047);
    assert((-3724342int * -2477047int + 2365951) % 8380417 == 0);
    assert(zeta_pair_at(104, 87));
    assert(zeta_pair_ok(64, 40));
    assert(ZETAS[105] == -8578 && ZETAS[86] == -411027);
    assert((-8578int * -411027int + 2365951) % 8380417 == 0);
    assert(zeta_pair_at(105, 86));
    assert(zeta_pair_ok(64, 41));
    assert(zeta_pair_at(106, 85));
    assert(zeta_pair_ok(64, 42));
    assert(ZETAS[107] == -3249728 && ZETAS[84] == -2967645);
    assert((-3249728int * -2967645int + 2365951) % 8380417 == 0);
    assert(zeta_pair_at(107, 84));
    assert(zeta_pair_ok(64, 43));
    assert(zeta_pair_at(108, 83));
    assert(zeta_pair_ok(64, 44));
    assert(zeta_pair_at(109, 82));
    assert(zeta_pair_ok(64, 45));
    assert(zeta_pair_at(110, 81));
    assert(zeta_pair_ok(64, 46));
    assert(zeta_pair_at(111, 80));
    assert(zeta_pair_ok(64, 47));
    assert forall|b: int| 32 <= b < 48 implies #[trigger] zeta_pair_ok(64, b) by {
        if b == 32 {} else if b == 33 {} else if b == 34 {} else if b == 35 {} else if b == 36 {} else if b == 37 {} else if b == 38 {} else if b == 39 {} else if b == 40 {} else if b == 41 {} else if b == 42 {} else if b == 43 {} else if b == 44 {} else if b == 45 {} else if b == 46 {} else {
            assert(b == 47);
        }
    }
}

#[verifier::rlimit(50)]
proof fn lemma_pairs_64_from_48()
    ensures
        forall|b: int| 48 <= b < 64 ==> #[trigger] zeta_pair_ok(64, b),
{
    assert(zeta_pair_at(112, 79));
    assert(zeta_pair_ok(64, 48));
    assert(ZETAS[113] == -3553272 && ZETAS[78] == -3632928);
    assert((-3553272int * -3632928int + 2365951) % 8380417 == 0);
    assert(zeta_pair_at(113, 78));
    assert(zeta_pair_ok(64, 49));
    assert(zeta_pair_at(114, 77));
    assert(zeta_pair_ok(64, 50));
    assert(ZETAS[115] == -1851402 && ZETAS[76] == -3190144);
    assert((-1851402int * -3190144int + 2365951) % 8380417 == 0);
    assert(zeta_pair_at(115, 76));
    assert(zeta_pair_ok(64, 51));
    assert(ZETAS[116] == -2409325 && ZETAS[75] == -1000202);
    assert((-2409325int * -1000202int + 2365951) % 8380417 == 0);
    assert(zeta_pair_at(116, 75));
    assert(zeta_pair_ok(64, 52));
    assert(ZETAS[117] == -177440 && ZETAS[74] == -4083598);
    assert((-177440int * -4083598int + 2365951) % 8380417 == 0);
    assert(zeta_pair_at(117, 74));
    assert(zeta_pair_ok(64, 53));
    assert(zeta_pair_at(118, 73));
    assert(zeta_pair_ok(64, 54));
    assert(zeta_pair_at(119, 72));
    assert(zeta_pair_ok(64, 55));
    assert(zeta_pair_at(120, 71));
    assert(zeta_pair_ok(64, 56));
    assert(zeta_pair_at(121, 70));
    assert(zeta_pair_ok(64, 57));
    assert(zeta_pair_at(122, 69));
    assert(zeta_pair_ok(64, 58));
    assert(ZETAS[123] == -1439742 && ZETAS[68] == -1452451);
    assert((-1439742int * -1452451int + 2365951) % 8380417 == 0);
    assert(zeta_pair_at(123, 68));
    assert(zeta_pair_ok(64, 59));
    assert(ZETAS[124] == -3019102 && ZETAS[67] == -3041255);
    assert((-3019102int * -3041255int + 2365951) % 8380417 == 0);
    assert(zeta_pair_at(124, 67));
    assert(zeta_pair_ok(64, 60));
    assert(ZETAS[125] == -3881060 && ZETAS[66] == -3677745);
    assert((-3881060int * -3677745int + 2365951) % 8380417 == 0);
    assert(zeta_pair_at(125, 66));
    assert(zeta_pair_ok(64, 61));
    assert(ZETAS[126] == -3628969 && ZETAS[65] == -1528703);
    assert((-3628969int * -1528703int + 2365951) % 8380417 == 0);
    assert(zeta_pair_at(126, 65));
    assert(zeta_pair_ok(64, 62));
    assert(zeta_pair_at(127, 64));
    assert(zeta_pair_ok(64, 63));
    assert forall|b: int| 48 <= b < 64 implies #[trigger] zeta_pair_ok(64, b) by {
        if b == 48 {} else if b == 49 {} else if b == 50 {} else if b == 51 {} else if b == 52 {} else if b == 53 {} else if b == 54 {} else if b == 55 {} else if b == 56 {} else if b == 57 {} else if b == 58 {} else if b == 59 {} else if b == 60 {} else if b == 61 {} else if b == 62 {} else {
            assert(b == 63);
        }
    }
}

#[verifier::rlimit(50)]
proof fn lemma_pairs_128_from_0()
    ensures
        forall|b: int| 0 <= b < 16 ==> #[trigger] zeta_pair_ok(128, b),
{
    assert(zeta_pair_at(128, 255));
    assert(zeta_pair_ok(128, 0));
    assert(zeta_pair_at(129, 254));
    assert(zeta_pair_ok(128, 1));
    assert(zeta_pair_at(130, 253));
    assert(zeta_pair_ok(128, 2));
    assert(zeta_pair_at(131, 252));
    assert(zeta_pair_ok(128, 3));
    assert(ZETAS[132] == -3342478 && ZETAS[251] == -1362209);
    assert((-3342478int * -1362209int + 2365951) % 8380417 == 0);
    assert(zeta_pair_at(132, 251));
    assert(zeta_pair_ok(128, 4));
    assert(zeta_pair_at(133, 250));
    assert(zeta_pair_ok(128, 5));
    assert(zeta_pair_at(134, 249));
    assert(zeta_pair_ok(128, 6));
    assert(ZETAS[135] == -3562462 && ZETAS[248] == -554416);
    assert((-3562462int * -554416int + 2365951) % 8380417 == 0);
    assert(zeta_pair_at(135, 248));
    assert(zeta_pair_ok(128, 7));
    assert(zeta_pair_at(136, 247));
    assert(zeta_pair_ok(128, 8));
    assert(zeta_pair_at(137, 246));
    assert(zeta_pair_ok(128, 9));
    assert(ZETAS[138] == -1235728 && ZETAS[245] == -976891);
    assert((-1235728int * -976891int + 2365951) % 8380417 == 0);
    assert(zeta_pair_at(138, 245));
    assert(zeta_pair_ok(128, 10));
    assert(zeta_pair_at(139, 244));
    assert(zeta_pair_ok(128, 11));
    assert(ZETAS[140] == -3520352 && ZETAS[243] == -2286327);
    assert((-3520352int * -2286327int + 2365951) % 8380417 == 0);
    assert(zeta_pair_at(140, 243));
    assert(zeta_pair_ok(128, 12));
    assert(ZETAS[141] == -3759364 && ZETAS[242] == -420899);
    assert((-3759364int * -420899int + 2365951) % 8380417 == 0);
    assert(zeta_pair_at(141, 242));
    assert(zeta_pair_ok(128, 13));
    assert(ZETAS[142] == -1197226 && ZETAS[241] == -2235985);
    assert((-1197226int * -2235985int + 2365951) % 8380417 == 0);
    assert(zeta_pair_at(142, 241));
    assert(zeta_pair_ok(128, 14));
    assert(ZETAS[143] == -3193378 && ZETAS[240] == -2939036);
    assert((-3193378int * -2939036int + 2365951) % 8380417 == 0);
    assert(zeta_pair_at(143, 240));
    assert(zeta_pair_ok(128, 15));
    assert forall|b: int| 0 <= b < 16 implies #[trigger] zeta_pair_ok(128, b) by {
        if b == 0 {} else if b == 1 {} else if b == 2 {} else if b == 3 {} else if b == 4 {} else if b == 5 {} else if b == 6 {} else if b == 7 {} else if b == 8 {} else if b == 9 {} else if b == 10 {} else if b == 11 {} else if b == 12 {} else if b == 13 {} else if b == 14 {} else {
            assert(b == 15);
        }
    }
}

#[verifier::rlimit(50)]
proof fn lemma_pairs_128_from_16()
    ensures
        forall|b: int| 16 <= b < 32 ==> #[trigger] zeta_pair_ok(128, b),
{
    assert(zeta_pair_at(144, 239));
    assert(zeta_pair_ok(128, 16));
    assert(zeta_pair_at(145, 238));
    assert(zeta_pair_ok(128, 17));
    assert(zeta_pair_at(146, 237));
    assert(zeta_pair_ok(128, 18));
    assert(zeta_pair_at(147, 236));
    assert(zeta_pair_ok(128, 19));
    assert(zeta_pair_at(148, 235));
    assert(zeta_pair_ok(128, 20));
    assert(ZETAS[149] == -1613174 && ZETAS[234] == -1803090);
    assert((-1613174int * -1803090int + 2365951) % 8380417 == 0);
    assert(zeta_pair_at(149, 234));
    assert(zeta_pair_ok(128, 21));
    assert(zeta_pair_at(150, 233));
    assert(zeta_pair_ok(128, 22));
    assert(ZETAS[151] == -522500 && ZETAS[232] == -426683);
    assert((-522500int * -426683int + 2365951) % 8380417 == 0);
    assert(zeta_pair_at(151, 232));
    assert(zeta_pair_ok(128, 23));
    assert(zeta_pair_at(152, 231));
    assert(zeta_pair_ok(128, 24));
    assert(zeta_pair_at(153, 230));
    assert(zeta_pair_ok(128, 25));
    assert(zeta_pair_at(154, 229));
    assert(zeta_pair_ok(128, 26));
    assert(zeta_pair_at(155, 228));
    assert(zeta_pair_ok(128, 27));
    assert(zeta_pair_at(156, 227));
    assert(zeta_pair_ok(128, 28));
    assert(zeta_pair_at(157, 226));
    assert(zeta_pair_ok(128, 29));
    assert(zeta_pair_at(158, 225));
    assert(zeta_pair_ok(128, 30));
    assert(ZETAS[159] == -3595838 && ZETAS[224] == -3038916);
    assert((-3595838int * -3038916int + 2365951) % 8380417 == 0);
    assert(zeta_pair_at(159, 224));
    assert(zeta_pair_ok(128, 31));
    assert forall|b: int| 16 <= b < 32 implies #[trigger] zeta_pair_ok(128, b) by {
        if b == 16 {} else if b == 17 {} else if b == 18 {} else if b == 19 {} else if b == 20 {} else if b == 21 {} else if b == 22 {} else if b == 23 {} else if b == 24 {} else if b == 25 {} else if b == 26 {} else if b == 27 {} else if b == 28 {} else if b == 29 {} else if b == 30 {} else {
            assert(b == 31);
        }
    }
}

#[verifier::rlimit(50)]
proof fn lemma_pairs_128_from_32()
    ensures
        forall|b: int| 32 <= b < 48 ==> #[trigger] zeta_pair_ok(128, b),
{
    assert(zeta_pair_at(160, 223));
    assert(zeta_pair_ok(128, 32));
    assert(zeta_pair_at(161, 222));
    assert(zeta_pair_ok(128, 33));
    assert(zeta_pair_at(162, 221));
    assert(zeta_pair_ok(128, 34));
    assert(zeta_pair_at(163, 220));
    assert(zeta_pair_ok(128, 35));
    assert(zeta_pair_at(164, 219));
    assert(zeta_pair_ok(128, 36));
    assert(zeta_pair_at(165, 218));
    assert(zeta_pair_ok(128, 37));
    assert(zeta_pair_at(166, 217));
    assert(zeta_pair_ok(128, 38));
    assert(zeta_pair_at(167, 216));
    assert(zeta_pair_ok(128, 39));
    assert(zeta_pair_at(168, 215));
    assert(zeta_pair_ok(128, 40));
    assert(zeta_pair_at(169, 214));
    assert(zeta_pair_ok(128, 41));
    assert(zeta_pair_at(170, 213));
    assert(zeta_pair_ok(128, 42));
    assert(zeta_pair_at(171, 212));
    assert(zeta_pair_ok(128, 43));
    assert(zeta_pair_at(172, 211));
    assert(zeta_pair_ok(128, 44));
    assert(zeta_pair_at(173, 210));
    assert(zeta_pair_ok(128, 45));
    assert(zeta_pair_at(174, 209));
    assert(zeta_pair_ok(128, 46));
    assert(zeta_pair_at(175, 208));
    assert(zeta_pair_ok(128, 47));
    assert forall|b: int| 32 <= b < 48 implies #[trigger] zeta_pair_ok(128, b) by {
        if b == 32 {} else if b == 33 {} else if b == 34 {} else if b == 35 {} else if b == 36 {} else if b == 37 {} else if b == 38 {} else if b == 39 {} else if b == 40 {} else if b == 41 {} else if b == 42 {} else if b == 43 {} else if b == 44 {} else if b == 45 {} else if b == 46 {} else {
            assert(b == 47);
        }
    }
}

#[verifier::rlimit(50)]
proof fn lemma_pairs_128_from_48()
    ensures
        forall|b: int| 48 <= b < 64 ==> #[trigger] zeta_pair_ok(128, b),
{
    assert(ZETAS[176] == -3767016 && ZETAS[207] == -3776993);
    assert((-3767016int * -3776993int + 2365951) % 8380417 == 0);
    assert(zeta_pair_at(176, 207));
    assert(zeta_pair_ok(128, 48));
    assert(zeta_pair_at(177, 206));
    assert(zeta_pair_ok(128, 49));
    assert(zeta_pair_at(178, 205));
    assert(zeta_pair_ok(128, 50));
    assert(ZETAS[179] == -3548272 && ZETAS[204] == -2584293);
    assert((-3548272int * -2584293int + 2365951) % 8380417 == 0);
    assert(zeta_pair_at(179, 204));
    assert(zeta_pair_ok(128, 51));
    assert(ZETAS[180] == -2994039 && ZETAS[203] == -1846953);
    assert((-2994039int * -1846953int + 2365951) % 8380417 == 0);
    assert(zeta_pair_at(180, 203));
    assert(zeta_pair_ok(128, 52));
    assert(zeta_pair_at(181, 202));
    assert(zeta_pair_ok(128, 53));
    assert(zeta_pair_at(182, 201));
    assert(zeta_pair_ok(128, 54));
    assert(ZETAS[183] == -1050970 && ZETAS[200] == -542412);
    assert((-1050970int * -542412int + 2365951) % 8380417 == 0);
    assert(zeta_pair_at(183, 200));
    assert(zeta_pair_ok(128, 55));
    assert(zeta_pair_at(184, 199));
    assert(zeta_pair_ok(128, 56));
    assert(zeta_pair_at(185, 198));
    assert(zeta_pair_ok(128, 57));
    assert(zeta_pair_at(186, 197));
    assert(zeta_pair_ok(128, 58));
    assert(zeta_pair_at(187, 196));
    assert(zeta_pair_ok(128, 59));
    assert(ZETAS[188] == -451100 && ZETAS[195] == -1374803);
    assert((-451100int * -1374803int + 2365951) % 8380417 == 0);
    assert(zeta_pair_at(188, 195));
    assert(zeta_pair_ok(128, 60));
    assert(zeta_pair_at(189, 194));
    assert(zeta_pair_ok(128, 61));
    assert(zeta_pair_at(190, 193));
    assert(zeta_pair_ok(128, 62));
    assert(ZETAS[191] == -1962642 && ZETAS[192] == -1279661);
    assert((-1962642int * -1279661int + 2365951) % 8380417 == 0);
    assert(zeta_pair_at(191, 192));
    assert(zeta_pair_ok(128, 63));
    assert forall|b: int| 48 <= b < 64 implies #[trigger] zeta_pair_ok(128, b) by {
        if b == 48 {} else if b == 49 {} else if b == 50 {} else if b == 51 {} else if b == 52 {} else if b == 53 {} else if b == 54 {} else if b == 55 {} else if b == 56 {} else if b == 57 {} else if b == 58 {} else if b == 59 {} else if b == 60 {} else if b == 61 {} else if b == 62 {} else {
            assert(b == 63);
        }
    }
}

#[verifier::rlimit(50)]
proof fn lemma_pairs_128_from_64()
    ensures
        forall|b: int| 64 <= b < 80 ==> #[trigger] zeta_pair_ok(128, b),
{
    assert(ZETAS[192] == -1279661 && ZETAS[191] == -1962642);
    assert((-1279661int * -1962642int + 2365951) % 8380417 == 0);
    assert(zeta_pair_at(192, 191));
    assert(zeta_pair_ok(128, 64));
    assert(zeta_pair_at(193, 190));
    assert(zeta_pair_ok(128, 65));
    assert(zeta_pair_at(194, 189));
    assert(zeta_pair_ok(128, 66));
    assert(ZETAS[195] == -1374803 && ZETAS[188] == -451100);
    assert((-1374803int * -451100int + 2365951) % 8380417 == 0);
    assert(zeta_pair_at(195, 188));
    assert(zeta_pair_ok(128, 67));
    assert(zeta_pair_at(196, 187));
    assert(zeta_pair_ok(128, 68));
    assert(zeta_pair_at(197, 186));
    assert(zeta_pair_ok(128, 69));
    assert(zeta_pair_at(198, 185));
    assert(zeta_pair_ok(128, 70));
    assert(zeta_pair_at(199, 184));
    assert(zeta_pair_ok(128, 71));
    assert(ZETAS[200] == -542412 && ZETAS[183] == -1050970);
    assert((-542412int * -1050970int + 2365951) % 8380417 == 0);
    assert(zeta_pair_at(200, 183));
    assert(zeta_pair_ok(128, 72));
    assert(zeta_pair_at(201, 182));
    assert(zeta_pair_ok(128, 73));
    assert(zeta_pair_at(202, 181));
    assert(zeta_pair_ok(128, 74));
    assert(ZETAS[203] == -1846953 && ZETAS[180] == -2994039);
    assert((-1846953int * -2994039int + 2365951) % 8380417 == 0);
    assert(zeta_pair_at(203, 180));
    assert(zeta_pair_ok(128, 75));
    assert(ZETAS[204] == -2584293 && ZETAS[179] == -3548272);
    assert((-2584293int * -3548272int + 2365951) % 8380417 == 0);
    assert(zeta_pair_at(204, 179));
    assert(zeta_pair_ok(128, 76));
    assert(zeta_pair_at(205, 178));
    assert(zeta_pair_ok(128, 77));
    assert(zeta_pair_at(206, 177));
    assert(zeta_pair_ok(128, 78));
    assert(ZETAS[207] == -3776993 && ZETAS[176] == -3767016);
    assert((-3776993int * -3767016int + 2365951) % 8380417 == 0);
    assert(zeta_pair_at(207, 176));
    assert(zeta_pair_ok(128, 79));
    assert forall|b: int| 64 <= b < 80 implies #[trigger] zeta_pair_ok(128, b) by {
        if b == 64 {} else if b == 65 {} else if b == 66 {} else if b == 67 {} else if b == 68 {} else if b == 69 {} else if b == 70 {} else if b == 71 {} else if b == 72 {} else if b == 73 {} else if b == 74 {} else if b == 75 {} else if b == 76 {} else if b == 77 {} else if b == 78 {} else {
            assert(b == 79);
        }
    }
}

#[verifier::rlimit(50)]
proof fn lemma_pairs_128_from_80()
    ensures
        forall|b: int| 80 <= b < 96 ==> #[trigger] zeta_pair_ok(128, b),
{
    assert(zeta_pair_at(208, 175));
    assert(zeta_pair_ok(128, 80));
    assert(zeta_pair_at(209, 174));
    assert(zeta_pair_ok(128, 81));
    assert(zeta_pair_at(210, 173));
    assert(zeta_pair_ok(128, 82));
    assert(zeta_pair_at(211, 172));
    assert(zeta_pair_ok(128, 83));
    assert(zeta_pair_at(212, 171));
    assert(zeta_pair_ok(128, 84));
    assert(zeta_pair_at(213, 170));
    assert(zeta_pair_ok(128, 85));
    assert(zeta_pair_at(214, 169));
    assert(zeta_pair_ok(128, 86));
    assert(zeta_pair_at(215, 168));
    assert(zeta_pair_ok(128, 87));
    assert(zeta_pair_at(216, 167));
    assert(zeta_pair_ok(128, 88));
    assert(zeta_pair_at(217, 166));
    assert(zeta_pair_ok(128, 89));
    assert(zeta_pair_at(218, 165));
    assert(zeta_pair_ok(128, 90));
    assert(zeta_pair_at(219, 164));
    assert(zeta_pair_ok(128, 91));
    assert(zeta_pair_at(220, 163));
    assert(zeta_pair_ok(128, 92));
    assert(zeta_pair_at(221, 162));
    assert(zeta_pair_ok(128, 93));
    assert(zeta_pair_at(222, 161));
    assert(zeta_pair_ok(128, 94));
    assert(zeta_pair_at(223, 160));
    assert(zeta_pair_ok(128, 95));
    assert forall|b: int| 80 <= b < 96 implies #[trigger] zeta_pair_ok(128, b) by {
        if b == 80 {} else if b == 81 {} else if b == 82 {} else if b == 83 {} else if b == 84 {} else if b == 85 {} else if b == 86 {} else if b == 87 {} else if b == 88 {} else if b == 89 {} else if b == 90 {} else if b == 91 {} else if b == 92 {} else if b == 93 {} else if b == 94 {} else {
            assert(b == 95);
        }
    }
}

#[verifier::rlimit(50)]
proof fn lemma_pairs_128_from_96()
    ensures
        forall|b: int| 96 <= b < 112 ==> #[trigger] zeta_pair_ok(128, b),
{
    assert(ZETAS[224] == -3038916 && ZETAS[159] == -3595838);
    assert((-3038916int * -3595838int + 2365951) % 8380417 == 0);
    assert(zeta_pair_at(224, 159));
    assert(zeta_pair_ok(128, 96));
    assert(zeta_pair_at(225, 158));
    assert(zeta_pair_ok(128, 97));
    assert(zeta_pair_at(226, 157));
    assert(zeta_pair_ok(128, 98));
    assert(zeta_pair_at(227, 156));
    assert(zeta_pair_ok(128, 99));
    assert(zeta_pair_at(228, 155));
    assert(zeta_pair_ok(128, 100));
    assert(zeta_pair_at(229, 154));
    assert(zeta_pair_ok(128, 101));
    assert(zeta_pair_at(230, 153));
    assert(zeta_pair_ok(128, 102));
    assert(zeta_pair_at(231, 152));
    assert(zeta_pair_ok(128, 103));
    assert(ZETAS[232] == -426683 && ZETAS[151] == -522500);
    assert((-426683int * -522500int + 2365951) % 8380417 == 0);
    assert(zeta_pair_at(232, 151));
    assert(zeta_pair_ok(128, 104));
    assert(zeta_pair_at(233, 150));
    assert(zeta_pair_ok(128, 105));
    assert(ZETAS[234] == -1803090 && ZETAS[149] == -1613174);
    assert((-1803090int * -1613174int + 2365951) % 8380417 == 0);
    assert(zeta_pair_at(234, 149));
    assert(zeta_pair_ok(128, 106));
    assert(zeta_pair_at(235, 148));
    assert(zeta_pair_ok(128, 107));
    assert(zeta_pair_at(236, 147));
    assert(zeta_pair_ok(128, 108));
    assert(zeta_pair_at(237, 146));
    assert(zeta_pair_ok(128, 109));
    assert(zeta_pair_at(238, 145));
    assert(zeta_pair_ok(128, 110));
    assert(zeta_pair_at(239, 144));
    assert(zeta_pair_ok(128, 111));
    assert forall|b: int| 96 <= b < 112 implies #[trigger] zeta_pair_ok(128, b) by {
        if b == 96 {} else if b == 97 {} else if b == 98 {} else if b == 99 {} else if b == 100 {} else if b == 101 {} else if b == 102 {} else if b == 103 {} else if b == 104 {} else if b == 105 {} else if b == 106 {} else if b == 107 {} else if b == 108 {} else if b == 109 {} else if b == 110 {} else {
            assert(b == 111);
        }
    }
}

#[verifier::rlimit(50)]
proof fn lemma_pairs_128_from_112()
    ensures
        forall|b: int| 112 <= b < 128 ==> #[trigger] zeta_pair_ok(128, b),
{
    assert(ZETAS[240] == -2939036 && ZETAS[143] == -3193378);
    assert((-2939036int * -3193378int + 2365951) % 8380417 == 0);
    assert(zeta_pair_at(240, 143));
    assert(zeta_pair_ok(128, 112));
    assert(ZETAS[241] == -2235985 && ZETAS[142] == -1197226);
    assert((-2235985int * -1197226int + 2365951) % 8380417 == 0);
    assert(zeta_pair_at(241, 142));
    assert(zeta_pair_ok(128, 113));
    assert(ZETAS[242] == -420899 && ZETAS[141] == -3759364);
    assert((-420899int * -3759364int + 2365951) % 8380417 == 0);
    assert(zeta_pair_at(242, 141));
    assert(zeta_pair_ok(128, 114));
    assert(ZETAS[243] == -2286327 && ZETAS[140] == -3520352);
    assert((-2286327int * -3520352int + 2365951) % 8380417 == 0);
    assert(zeta_pair_at(243, 140));
    assert(zeta_pair_ok(128, 115));
    assert(zeta_pair_at(244, 139));
    assert(zeta_pair_ok(128, 116));
    assert(ZETAS[245] == -976891 && ZETAS[138] == -1235728);
    assert((-976891int * -1235728int + 2365951) % 8380417 == 0);
    assert(zeta_pair_at(245, 138));
    assert(zeta_pair_ok(128, 117));
    assert(zeta_pair_at(246, 137));
    assert(zeta_pair_ok(128, 118));
    assert(zeta_pair_at(247, 136));
    assert(zeta_pair_ok(128, 119));
    assert(ZETAS[248] == -554416 && ZETAS[135] == -3562462);
    assert((-554416int * -3562462int + 2365951) % 8380417 == 0);
    assert(zeta_pair_at(248, 135));
    assert(zeta_pair_ok(128, 120));
    assert(zeta_pair_at(249, 134));
    assert(zeta_pair_ok(128, 121));
    assert(zeta_pair_at(250, 133));
    assert(zeta_pair_ok(128, 122));
    assert(ZETAS[251] == -1362209 && ZETAS[132] == -3342478);
    assert((-1362209int * -3342478int + 2365951) % 8380417 == 0);
    assert(zeta_pair_at(251, 132));
    assert(zeta_pair_ok(128, 123));
    assert(zeta_pair_at(252, 131));
    assert(zeta_pair_ok(128, 124));
    assert(zeta_pair_at(253, 130));
    assert(zeta_pair_ok(128, 125));
    assert(zeta_pair_at(254, 129));
    assert(zeta_pair_ok(128, 126));
    assert(zeta_pair_at(255, 128));
    assert(zeta_pair_ok(128, 127));
    assert forall|b: int| 112 <= b < 128 implies #[trigger] zeta_pair_ok(128, b) by {
        if b == 112 {} else if b == 113 {} else if b == 114 {} else if b == 115 {} else if b == 116 {} else if b == 117 {} else if b == 118 {} else if b == 119 {} else if b == 120 {} else if b == 121 {} else if b == 122 {} else if b == 123 {} else if b == 124 {} else if b == 125 {} else if b == 126 {} else {
            assert(b == 127);
        }
    }
}

/// The block counts of the layers: `1, 2, 4, ..., 128`.
pub open spec fn is_block_count(kk: int) -> bool {
    kk == 1 || kk == 2 || kk == 4 || kk == 8 || kk == 16 || kk == 32 || kk == 64 || kk == 128
}

/// Every forward twiddle has its inverse partner in the table.
pub proof fn lemma_zeta_pairs()
    ensures
        forall|kk: int, b: int| is_block_count(kk) && 0 <= b < kk ==> #[trigger] zeta_pair_ok(kk, b),
{
    lemma_pairs_1_from_0();
    lemma_pairs_2_from_0();
    lemma_pairs_4_from_0();
    lemma_pairs_8_from_0();
    lemma_pairs_16_from_0();
    lemma_pairs_32_from_0();
    lemma_pairs_32_from_16();
    lemma_pairs_64_from_0();
    lemma_pairs_64_from_16();
    lemma_pairs_64_from_32();
    lemma_pairs_64_from_48();
    lemma_pairs_128_from_0();
    lemma_pairs_128_from_16();
    lemma_pairs_128_from_32();
    lemma_pairs_128_from_48();
    lemma_pairs_128_from_64();
    lemma_pairs_128_from_80();
    lemma_pairs_128_from_96();
    lemma_pairs_128_from_112();
}

proof fn lemma_twiddle_product(a: int, c: int, d: int)
    by (nonlinear_arith)
    requires
        a * c + 2365951 == 8380417 * d,
    ensures
        (a * 8265825) * (-c * 8265825) == 2365951 * 8265825 * 8265825 + 8380417 * (-(d * 8265825 * 8265825)),
{
}

/// Partner twiddle factors are inverse to each other modulo `q`.
proof fn lemma_twiddle_inverse(kk: int, b: int)
    requires
        zeta_pair_ok(kk, b),
    ensures
        mq(zeta_f(kk + b) * zeta_i(2 * kk - 1 - b)) == 1,
{
    let q = Q as int;
    let a = ZETAS[kk + b] as int;
    let c = ZETAS[2 * kk - 1 - b] as int;
    let d = (a * c + mont_r2()) / q;
    lemma_fundamental_div_mod(a * c + mont_r2(), q);
    assert(a * c + 2365951 == 8380417 * d);
    lemma_twiddle_product(a, c, d);
    assert(zeta_f(kk + b) == a * 8265825);
    assert(zeta_i(2 * kk - 1 - b) == -c * 8265825);
    lemma_mod_multiples_vanish(-(d * 8265825 * 8265825), 2365951int * 8265825 * 8265825, q);
    assert((2365951int * 8265825 * 8265825) % 8380417 == 1);
}

/// The numbers of blocks and their half sizes at the forward layer `7 - m`.
proof fn lemma_layer_shape(m: int)
    requires
        0 <= m < 8,
    ensures
        half_len(m) * half_len(7 - m) == 128,
        1 <= half_len(7 - m),
        128int / half_len(7 - m) == half_len(m),
        is_block_count(half_len(m)),
        is_block_count(half_len(7 - m)),
{
    lemma_layer_cases(m);
}

pub proof fn lemma_mq_add(a: int, b: int)
    ensures
        mq(mq(a) + mq(b)) == mq(a + b),
        mq(mq(a) - mq(b)) == mq(a - b),
{
    lemma_add_mod_noop(a, b, Q as int);
    lemma_sub_mod_noop(a, b, Q as int);
}

pub proof fn lemma_mq_mul(a: int, b: int)
    ensures
        mq(a * mq(b)) == mq(a * b),
        mq(mq(a) * b) == mq(a * b),
{
    lemma_mul_mod_noop_right(a, b, Q as int);
    lemma_mul_mod_noop_left(a, b, Q as int);
}

/// The indices of block `b`, offset `o` at block size `2 * len`.
proof fn lemma_block_split(i: int, len: int)
    requires
        0 <= i,
        1 <= len,
    ensures
        i == (i / (2 * len)) * (2 * len) + i % (2 * len),
        0 <= i % (2 * len) < 2 * len,
        0 <= i / (2 * len),
{
    lemma_fundamental_div_mod(i, 2 * len);
    lemma_mod_bound(i, 2 * len);
    lemma_div_pos_is_pos(i, 2 * len);
    lemma_mul_is_commutative(2 * len, i / (2 * len));
}

/// Coefficient `i` of inverse layer `m` applied after forward layer `7 - m`.
proof fn lemma_inv_fwd_at(p: Seq<int>, m: int, i: int)
    requires
        p.len() == 256,
        0 <= m < 8,
        0 <= i < 256,
    ensures
        inv_layer(fwd_layer(p, 7 - m), m)[i] == mq(2 * p[i]),
{
    let len = half_len(7 - m);
    let kk = half_len(m);
    lemma_layer_shape(m);
    let f = fwd_layer(p, 7 - m);
    let o = i % (2 * len);
    let b = i / (2 * len);
    lemma_block_split(i, len);
    lemma_partner_in_range(i, 7 - m);
    assert(b < kk) by (nonlinear_arith)
        requires
            i == b * (2 * len) + o,
            0 <= o,
            i < 256,
            kk * len == 128,
            1 <= len,
    ;
    lemma_zeta_pairs();
    assert(zeta_pair_ok(kk, b));
    lemma_twiddle_inverse(kk, b);
    let zf = zeta_f(kk + b);
    let zi = zeta_i(2 * kk - 1 - b);
    if o < len {
        lemma_block_index(b, o + len, 2 * len);
        assert(i + len == b * (2 * len) + (o + len));
        let x = p[i] + zf * p[i + len];
        let y = p[i] - zf * p[i + len];
        assert(128int / len + i / (2 * len) == kk + b);
        assert((i + len) / (2 * len) == b);
        assert(f[i] == mq(x));
        assert(f[i + len] == mq(y));
        assert(inv_layer(f, m)[i] == mq(f[i] + f[i + len]));
        lemma_mq_add(x, y);
        assert(x + y == 2 * p[i]);
    } else {
        lemma_block_index(b, o - len, 2 * len);
        assert(i - len == b * (2 * len) + (o - len));
        let x = p[i - len] + zf * p[i];
        let y = p[i - len] - zf * p[i];
        assert(128int / len + i / (2 * len) == kk + b);
        assert((i - len) / (2 * len) == b);
        assert(f[i - len] == mq(x));
        assert(f[i] == mq(y));
        assert(inv_layer(f, m)[i] == mq(zi * (f[i - len] - f[i])));
        lemma_mq_add(x, y);
        lemma_mq_mul(zi, x - y);
        lemma_mq_mul(zi, f[i - len] - f[i]);
        assert(mq(zi * (f[i - len] - f[i])) == mq(zi * (x - y)));
        assert(zi * (x - y) == (zf * zi) * (2 * p[i])) by (nonlinear_arith)
            requires
                x - y == 2 * (zf * p[i]),
        ;
        lemma_mq_mul(zf * zi, 2 * p[i]);
        lemma_mq_mul(mq(zf * zi), 2 * p[i]);
    }
}

/// Inverse layer `m` undoes forward layer `7 - m`, up to a factor 2.
proof fn lemma_inv_fwd_layer(p: Seq<int>, m: int)
    requires
        p.len() == 256,
        0 <= m < 8,
    ensures
        forall|i: int| 0 <= i < 256 ==> #[trigger] inv_layer(fwd_layer(p, 7 - m), m)[i] == mq(2 * p[i]),
{
    assert forall|i: int| 0 <= i < 256 implies #[trigger] inv_layer(fwd_layer(p, 7 - m), m)[i] == mq(2 * p[i]) by {
        lemma_inv_fwd_at(p, m, i);
    }
}

/// `lemma_fwd_inv_at` in the lower half of a block.
#[verifier::rlimit(40)]
proof fn lemma_fwd_inv_lower(p: Seq<int>, l: int, i: int)
    requires
        p.len() == 256,
        0 <= l < 8,
        0 <= i < 256,
        i % (2 * half_len(l)) < half_len(l),
    ensures
        fwd_layer(inv_layer(p, 7 - l), l)[i] == mq(2 * p[i]),
{
    let m = 7 - l;
    let len = half_len(l);
    let kk = half_len(m);
    lemma_layer_shape(m);
    lemma_layer_shape(l);
    let g = inv_layer(p, m);
    let o = i % (2 * len);
    let b = i / (2 * len);
    lemma_block_split(i, len);
    lemma_partner_in_range(i, l);
    assert(b < kk) by (nonlinear_arith)
        requires
            i == b * (2 * len) + o,
            0 <= o,
            i < 256,
            kk * len == 128,
            1 <= len,
    ;
    assert(half_len(7 - m) == len);
    lemma_zeta_pairs();
    assert(zeta_pair_ok(kk, b));
    lemma_twiddle_inverse(kk, b);
    let zf = zeta_f(kk + b);
    let zi = zeta_i(2 * kk - 1 - b);
    lemma_block_index(b, o + len, 2 * len);
    assert(i + len == b * (2 * len) + (o + len));
    let u = p[i] + p[i + len];
    let v = zi * (p[i] - p[i + len]);
    assert(2 * half_len(m) - 1 - i / (2 * len) == 2 * kk - 1 - b);
    assert((i + len) / (2 * len) == b);
    assert(g[i] == mq(u));
    assert(g[i + len] == mq(v));
    assert(fwd_layer(g, l)[i] == mq(g[i] + zf * g[i + len]));
    lemma_mq_mul(zf, v);
    lemma_mq_add(u, zf * v);
    lemma_mq_add(u, zf * mq(v));
    assert(u + zf * v == 2 * p[i] + (zf * zi - 1) * (p[i] - p[i + len])) by (nonlinear_arith)
        requires
            u == p[i] + p[i + len],
            v == zi * (p[i] - p[i + len]),
    ;
    lemma_mq_one_factor(zf * zi, p[i] - p[i + len], 2 * p[i]);
}

/// `lemma_fwd_inv_at` in the upper half of a block.
#[verifier::rlimit(40)]
proof fn lemma_fwd_inv_upper(p: Seq<int>, l: int, i: int)
    requires
        p.len() == 256,
        0 <= l < 8,
        0 <= i < 256,
        i % (2 * half_len(l)) >= half_len(l),
    ensures
        fwd_layer(inv_layer(p, 7 - l), l)[i] == mq(2 * p[i]),
{
    let m = 7 - l;
    let len = half_len(l);
    let kk = half_len(m);
    lemma_layer_shape(m);
    lemma_layer_shape(l);
    let g = inv_layer(p, m);
    let o = i % (2 * len);
    let b = i / (2 * len);
    lemma_block_split(i, len);
    lemma_partner_in_range(i, l);
    assert(b < kk) by (nonlinear_arith)
        requires
            i == b * (2 * len) + o,
            0 <= o,
            i < 256,
            kk * len == 128,
            1 <= len,
    ;
    assert(half_len(7 - m) == len);
    lemma_zeta_pairs();
    assert(zeta_pair_ok(kk, b));
    lemma_twiddle_inverse(kk, b);
    let zf = zeta_f(kk + b);
    let zi = zeta_i(2 * kk - 1 - b);
    lemma_block_index(b, o - len, 2 * len);
    assert(i - len == b * (2 * len) + (o - len));
    let u = p[i - len] + p[i];
    let v = zi * (p[i - len] - p[i]);
    assert(2 * half_len(m) - 1 - i / (2 * len) == 2 * kk - 1 - b);
    assert((i - len) / (2 * len) == b);
    assert(g[i - len] == mq(u));
    assert(g[i] == mq(v));
    assert(fwd_layer(g, l)[i] == mq(g[i - len] - zf * g[i]));
    lemma_mq_mul(zf, v);
    lemma_mq_add(u, zf * v);
    lemma_mq_add(u, zf * mq(v));
    assert(u - zf * v == 2 * p[i] + (zf * zi - 1) * (p[i] - p[i - len])) by (nonlinear_arith)
        requires
            u == p[i - len] + p[i],
            v == zi * (p[i - len] - p[i]),
    ;
    lemma_mq_one_factor(zf * zi, p[i] - p[i - len], 2 * p[i]);
}

/// Coefficient `i` of forward layer `l` applied after inverse layer `7 - l`.
proof fn lemma_fwd_inv_at(p: Seq<int>, l: int, i: int)
    requires
        p.len() == 256,
        0 <= l < 8,
        0 <= i < 256,
    ensures
        fwd_layer(inv_layer(p, 7 - l), l)[i] == mq(2 * p[i]),
{
    if i % (2 * half_len(l)) < half_len(l) {
        lemma_fwd_inv_lower(p, l, i);
    } else {
        lemma_fwd_inv_upper(p, l, i);
    }
}

/// Forward layer `l` undoes inverse layer `7 - l`, up to a factor 2.
proof fn lemma_fwd_inv_layer(p: Seq<int>, l: int)
    requires
        p.len() == 256,
        0 <= l < 8,
    ensures
        forall|i: int| 0 <= i < 256 ==> #[trigger] fwd_layer(inv_layer(p, 7 - l), l)[i] == mq(2 * p[i]),
{
    assert forall|i: int| 0 <= i < 256 implies #[trigger] fwd_layer(inv_layer(p, 7 - l), l)[i] == mq(2 * p[i]) by {
        lemma_fwd_inv_at(p, l, i);
    }
}

/// A multiple of `(t - 1)` vanishes when `t = 1 (mod q)`.
proof fn lemma_mq_one_factor(t: int, y: int, a: int)
    requires
        mq(t) == 1,
    ensures
        mq(a + (t - 1) * y) == mq(a),
{
    let q = Q as int;
    lemma_fundamental_div_mod(t, q);
    let d = t / q;
    assert((t - 1) * y == q * (d * y)) by (nonlinear_arith)
        requires
            t == q * d + 1,
    ;
    lemma_mod_multiples_vanish(d * y, a, q);
}

/// Every coefficient multiplied by `c`.
pub open spec fn scale(p: Seq<int>, c: int) -> Seq<int> {
    Seq::new(256, |i: int| c * p[i])
}

/// A forward layer commutes with scaling.
proof fn lemma_fwd_layer_scale(p: Seq<int>, c: int, l: int)
    requires
        p.len() == 256,
        0 <= l < 8,
    ensures
        forall|i: int| 0 <= i < 256 ==> #[trigger] fwd_layer(scale(p, c), l)[i] == mq(c * fwd_layer(p, l)[i]),
{
    let len = half_len(l);
    lemma_layer_cases(l);
    assert forall|i: int| 0 <= i < 256 implies #[trigger] fwd_layer(scale(p, c), l)[i] == mq(c * fwd_layer(p, l)[i]) by {
        let o = i % (2 * len);
        let k = 128int / len + i / (2 * len);
        lemma_partner_in_range(i, l);
        let z = zeta_f(k);
        if o < len {
            assert(c * p[i] + z * (c * p[i + len]) == c * (p[i] + z * p[i + len])) by (nonlinear_arith);
            lemma_mq_mul(c, p[i] + z * p[i + len]);
        } else {
            assert(c * p[i - len] - z * (c * p[i]) == c * (p[i - len] - z * p[i])) by (nonlinear_arith);
            lemma_mq_mul(c, p[i - len] - z * p[i]);
        }
    }
}

/// An inverse layer commutes with scaling.
proof fn lemma_inv_layer_scale(p: Seq<int>, c: int, l: int)
    requires
        p.len() == 256,
        0 <= l < 8,
    ensures
        forall|i: int| 0 <= i < 256 ==> #[trigger] inv_layer(scale(p, c), l)[i] == mq(c * inv_layer(p, l)[i]),
{
    let len = half_len(7 - l);
    lemma_layer_cases(l);
    assert forall|i: int| 0 <= i < 256 implies #[trigger] inv_layer(scale(p, c), l)[i] == mq(c * inv_layer(p, l)[i]) by {
        let o = i % (2 * len);
        let k = 2 * half_len(l) - 1 - i / (2 * len);
        lemma_partner_in_range(i, 7 - l);
        let z = zeta_i(k);
        if o < len {
            assert(c * p[i] + c * p[i + len] == c * (p[i] + p[i + len])) by (nonlinear_arith);
            lemma_mq_mul(c, p[i] + p[i + len]);
        } else {
            assert(z * (c * p[i - len] - c * p[i]) == c * (z * (p[i - len] - p[i]))) by (nonlinear_arith);
            lemma_mq_mul(c, z * (p[i - len] - p[i]));
        }
    }
}

/// The first `j` inverse layers undo the last `j` forward layers, up to `2^j`.
proof fn lemma_inv_fwd_upto(p: Seq<int>, j: nat)
    requires
        p.len() == 256,
        j <= 8,
    ensures
        inv_upto(fwd_upto(p, 8), j).len() == 256,
        forall|i: int|
            0 <= i < 256 ==> mq(#[trigger] inv_upto(fwd_upto(p, 8), j)[i]) == mq(inv_growth(j as int) * fwd_upto(p, (8 - j) as nat)[i]),
    decreases j,
{
    let f8 = fwd_upto(p, 8);
    lemma_layers_canonical(fwd_upto(p, 7), 7);
    if j > 0 {
        let jj = (j - 1) as nat;
        lemma_inv_fwd_upto(p, jj);
        let c = inv_growth(jj as int);
        let h = fwd_upto(p, (7 - jj) as nat);
        let g = fwd_upto(p, (8 - jj) as nat);
        lemma_fwd_upto_len(p, (7 - jj) as nat);
        assert(g == fwd_layer(h, 7 - jj));
        lemma_layers_canonical(h, 7 - jj);
        let prev = inv_upto(f8, jj);
        assert(congruent(prev, scale(g, c)));
        lemma_inv_layer_congr(prev, scale(g, c), jj as int);
        lemma_inv_layer_scale(g, c, jj as int);
        lemma_inv_fwd_layer(h, jj as int);
        assert(inv_growth(j as int) == 2 * c) by {
            assert(jj == 0 || jj == 1 || jj == 2 || jj == 3 || jj == 4 || jj == 5 || jj == 6 || jj == 7);
        }
        assert forall|i: int| 0 <= i < 256 implies mq(#[trigger] inv_upto(f8, j)[i]) == mq(inv_growth(j as int) * h[i]) by {
            assert(inv_upto(f8, j)[i] == inv_layer(prev, jj as int)[i]);
            lemma_mq_mq(inv_layer(g, jj as int)[i]);
            lemma_mq_mul(c, 2 * h[i]);
            assert(c * (2 * h[i]) == (2 * c) * h[i]) by (nonlinear_arith);
            lemma_mq_mq(c * inv_layer(g, jj as int)[i]);
        }
        lemma_layers_canonical(prev, jj as int);
    } else {
        lemma_fwd_upto_len(p, 8);
    }
}

pub proof fn lemma_fwd_upto_len(p: Seq<int>, l: nat)
    requires
        p.len() == 256,
        l <= 8,
    ensures
        fwd_upto(p, l).len() == 256,
    decreases l,
{
    if l > 0 {
        lemma_fwd_upto_len(p, (l - 1) as nat);
        lemma_layers_canonical(fwd_upto(p, (l - 1) as nat), l - 1);
    }
}

/// The inverse transform undoes the forward transform up to the Montgomery
/// factor: `intt(ntt(p)) == 2^32 * p (mod q)` for every polynomial `p`.
pub proof fn lemma_ntt_roundtrip(p: Seq<int>)
    requires
        p.len() == 256,
    ensures
        forall|i: int| 0 <= i < 256 ==> #[trigger] intt_spec(ntt_spec(p))[i] == mq(MONT_R * p[i]),
{
    lemma_inv_fwd_upto(p, 8);
    assert forall|i: int| 0 <= i < 256 implies #[trigger] intt_spec(ntt_spec(p))[i] == mq(MONT_R * p[i]) by {
        let v = inv_upto(ntt_spec(p), 8)[i];
        assert(mq(v) == mq(256 * p[i]));
        lemma_mq_mul(inv_scale(), v);
        lemma_mq_mul(inv_scale(), 256 * p[i]);
        assert(inv_scale() * (256 * p[i]) == (41978 * 256 * 8265825) * p[i]) by (nonlinear_arith);
        lemma_mq_mul(41978int * 256 * 8265825, p[i]);
        assert(mq(41978int * 256 * 8265825) == mq(MONT_R as int));
        lemma_mq_mul(MONT_R as int, p[i]);
    }
}

pub proof fn lemma_inv_upto_len(p: Seq<int>, l: nat)
    requires
        p.len() == 256,
        l <= 8,
    ensures
        inv_upto(p, l).len() == 256,
    decreases l,
{
    if l > 0 {
        lemma_inv_upto_len(p, (l - 1) as nat);
        lemma_layers_canonical(inv_upto(p, (l - 1) as nat), l - 1);
    }
}

/// The forward layers commute with scaling.
pub proof fn lemma_fwd_upto_scale(p: Seq<int>, c: int, l: nat)
    requires
        p.len() == 256,
        l <= 8,
    ensures
        fwd_upto(scale(p, c), l).len() == 256,
        forall|i: int| 0 <= i < 256 ==> mq(#[trigger] fwd_upto(scale(p, c), l)[i]) == mq(c * fwd_upto(p, l)[i]),
    decreases l,
{
    if l > 0 {
        let ll = (l - 1) as nat;
        lemma_fwd_upto_scale(p, c, ll);
        lemma_fwd_upto_len(p, ll);
        let prev = fwd_upto(scale(p, c), ll);
        let base = fwd_upto(p, ll);
        assert(congruent(prev, scale(base, c)));
        lemma_fwd_layer_congr(prev, scale(base, c), ll as int);
        lemma_fwd_layer_scale(base, c, ll as int);
        lemma_layers_canonical(prev, ll as int);
        assert forall|i: int| 0 <= i < 256 implies mq(#[trigger] fwd_upto(scale(p, c), l)[i]) == mq(c * fwd_upto(p, l)[i]) by {
            lemma_mq_mq(c * fwd_layer(base, ll as int)[i]);
            lemma_mq_mq(fwd_layer(prev, ll as int)[i]);
        }
    }
}

/// The first `j` forward layers undo the last `j` inverse layers, up to `2^j`.
proof fn lemma_fwd_inv_upto(p: Seq<int>, j: nat)
    requires
        p.len() == 256,
        j <= 8,
    ensures
        fwd_upto(inv_upto(p, 8), j).len() == 256,
        forall|i: int|
            0 <= i < 256 ==> mq(#[trigger] fwd_upto(inv_upto(p, 8), j)[i]) == mq(inv_growth(j as int) * inv_upto(p, (8 - j) as nat)[i]),
    decreases j,
{
    let i8 = inv_upto(p, 8);
    lemma_inv_upto_len(p, 8);
    if j > 0 {
        let jj = (j - 1) as nat;
        lemma_fwd_inv_upto(p, jj);
        let c = inv_growth(jj as int);
        let h = inv_upto(p, (7 - jj) as nat);
        let g = inv_upto(p, (8 - jj) as nat);
        lemma_inv_upto_len(p, (7 - jj) as nat);
        assert(g == inv_layer(h, 7 - jj));
        lemma_layers_canonical(h, 7 - jj);
        let prev = fwd_upto(i8, jj);
        assert(congruent(prev, scale(g, c)));
        lemma_fwd_layer_congr(prev, scale(g, c), jj as int);
        lemma_fwd_layer_scale(g, c, jj as int);
        lemma_fwd_inv_layer(h, jj as int);
        assert(inv_growth(j as int) == 2 * c) by {
            assert(jj == 0 || jj == 1 || jj == 2 || jj == 3 || jj == 4 || jj == 5 || jj == 6 || jj == 7);
        }
        assert forall|i: int| 0 <= i < 256 implies mq(#[trigger] fwd_upto(i8, j)[i]) == mq(inv_growth(j as int) * h[i]) by {
            assert(fwd_upto(i8, j)[i] == fwd_layer(prev, jj as int)[i]);
            lemma_mq_mq(fwd_layer(g, jj as int)[i]);
            lemma_mq_mul(c, 2 * h[i]);
            assert(c * (2 * h[i]) == (2 * c) * h[i]) by (nonlinear_arith);
            lemma_mq_mq(c * fwd_layer(g, jj as int)[i]);
        }
        lemma_layers_canonical(prev, jj as int);
    }
}

/// The forward transform undoes the inverse transform up to the Montgomery
/// factor: `ntt(intt(a)) == 2^32 * a (mod q)` for every `a` in the transform
/// domain.
pub proof fn lemma_intt_ntt_roundtrip(a: Seq<int>)
    requires
        a.len() == 256,
    ensures
        forall|i: int| 0 <= i < 256 ==> #[trigger] ntt_spec(intt_spec(a))[i] == mq(MONT_R * a[i]),
{
    let i8 = inv_upto(a, 8);
    lemma_inv_upto_len(a, 8);
    let s = inv_scale();
    assert(congruent(intt_spec(a), scale(i8, s))) by {
        assert forall|i: int| 0 <= i < 256 implies mq(#[trigger] intt_spec(a)[i]) == mq(scale(i8, s)[i]) by {
            lemma_mq_mq(s * i8[i]);
        }
    }
    lemma_ntt_congr(intt_spec(a), scale(i8, s), 8);
    lemma_fwd_upto_scale(i8, s, 8);
    lemma_fwd_inv_upto(a, 8);
    lemma_fwd_upto_len(intt_spec(a), 8);
    lemma_layers_canonical(fwd_upto(intt_spec(a), 7), 7);
    assert forall|i: int| 0 <= i < 256 implies #[trigger] ntt_spec(intt_spec(a))[i] == mq(MONT_R * a[i]) by {
        let v = fwd_upto(i8, 8)[i];
        assert(mq(v) == mq(256 * a[i]));
        assert(mq(ntt_spec(intt_spec(a))[i]) == mq(s * v));
        lemma_mq_mq(ntt_spec(intt_spec(a))[i]);
        lemma_mq_mul(s, v);
        lemma_mq_mul(s, 256 * a[i]);
        assert(s * (256 * a[i]) == (41978 * 256 * 8265825) * a[i]) by (nonlinear_arith)
            requires
                s == 41978 * 8265825,
        ;
        lemma_mq_mul(41978int * 256 * 8265825, a[i]);
        assert(mq(41978int * 256 * 8265825) == mq(MONT_R as int));
        lemma_mq_mul(MONT_R as int, a[i]);
    }
}

// ---------------------------------------------------------------------------
// Linearity of the transforms
// ---------------------------------------------------------------------------

/// Coefficient-wise sum.
pub open spec fn add_seq(a: Seq<int>, b: Seq<int>) -> Seq<int> {
    Seq::new(256, |i: int| a[i] + b[i])
}

proof fn lemma_fwd_layer_add(a: Seq<int>, b: Seq<int>, l: int)
    requires
        a.len() == 256,
        b.len() == 256,
        0 <= l < 8,
    ensures
        forall|i: int|
            0 <= i < 256 ==> #[trigger] fwd_layer(add_seq(a, b), l)[i] == mq(fwd_layer(a, l)[i] + fwd_layer(b, l)[i]),
{
    let len = half_len(l);
    lemma_layer_cases(l);
    assert forall|i: int|
        0 <= i < 256 implies #[trigger] fwd_layer(add_seq(a, b), l)[i] == mq(fwd_layer(a, l)[i] + fwd_layer(b, l)[i]) by {
        let o = i % (2 * len);
        let k = 128int / len + i / (2 * len);
        lemma_partner_in_range(i, l);
        let z = zeta_f(k);
        if o < len {
            let x = a[i] + z * a[i + len];
            let y = b[i] + z * b[i + len];
            assert((a[i] + b[i]) + z * (a[i + len] + b[i + len]) == x + y) by (nonlinear_arith)
                requires
                    x == a[i] + z * a[i + len],
                    y == b[i] + z * b[i + len],
            ;
            lemma_mq_add(x, y);
        } else {
            let x = a[i - len] - z * a[i];
            let y = b[i - len] - z * b[i];
            assert((a[i - len] + b[i - len]) - z * (a[i] + b[i]) == x + y) by (nonlinear_arith)
                requires
                    x == a[i - len] - z * a[i],
                    y == b[i - len] - z * b[i],
            ;
            lemma_mq_add(x, y);
        }
    }
}

proof fn lemma_inv_layer_add(a: Seq<int>, b: Seq<int>, l: int)
    requires
        a.len() == 256,
        b.len() == 256,
        0 <= l < 8,
    ensures
        forall|i: int|
            0 <= i < 256 ==> #[trigger] inv_layer(add_seq(a, b), l)[i] == mq(inv_layer(a, l)[i] + inv_layer(b, l)[i]),
{
    let len = half_len(7 - l);
    lemma_layer_cases(l);
    assert forall|i: int|
        0 <= i < 256 implies #[trigger] inv_layer(add_seq(a, b), l)[i] == mq(inv_layer(a, l)[i] + inv_layer(b, l)[i]) by {
        let o = i % (2 * len);
        let k = 2 * half_len(l) - 1 - i / (2 * len);
        lemma_partner_in_range(i, 7 - l);
        let z = zeta_i(k);
        if o < len {
            lemma_mq_add(a[i] + a[i + len], b[i] + b[i + len]);
        } else {
            let x = z * (a[i - len] - a[i]);
            let y = z * (b[i - len] - b[i]);
            assert(z * ((a[i - len] + b[i - len]) - (a[i] + b[i])) == x + y) by (nonlinear_arith)
                requires
                    x == z * (a[i - len] - a[i]),
                    y == z * (b[i - len] - b[i]),
            ;
            lemma_mq_add(x, y);
        }
    }
}

proof fn lemma_fwd_upto_add(a: Seq<int>, b: Seq<int>, l: nat)
    requires
        a.len() == 256,
        b.len() == 256,
        l <= 8,
    ensures
        fwd_upto(add_seq(a, b), l).len() == 256,
        forall|i: int|
            0 <= i < 256 ==> mq(#[trigger] fwd_upto(add_seq(a, b), l)[i]) == mq(fwd_upto(a, l)[i] + fwd_upto(b, l)[i]),
    decreases l,
{
    if l > 0 {
        let ll = (l - 1) as nat;
        lemma_fwd_upto_add(a, b, ll);
        lemma_fwd_upto_len(a, ll);
        lemma_fwd_upto_len(b, ll);
        let prev = fwd_upto(add_seq(a, b), ll);
        let fa = fwd_upto(a, ll);
        let fb = fwd_upto(b, ll);
        assert(congruent(prev, add_seq(fa, fb)));
        lemma_fwd_layer_congr(prev, add_seq(fa, fb), ll as int);
        lemma_fwd_layer_add(fa, fb, ll as int);
        lemma_layers_canonical(prev, ll as int);
        assert forall|i: int|
            0 <= i < 256 implies mq(#[trigger] fwd_upto(add_seq(a, b), l)[i]) == mq(fwd_upto(a, l)[i] + fwd_upto(b, l)[i]) by {
            lemma_mq_mq(fwd_layer(prev, ll as int)[i]);
            lemma_mq_mq(fwd_layer(fa, ll as int)[i] + fwd_layer(fb, ll as int)[i]);
        }
    } else {
        assert(fwd_upto(add_seq(a, b), 0) == add_seq(a, b));
    }
}

proof fn lemma_inv_upto_add(a: Seq<int>, b: Seq<int>, l: nat)
    requires
        a.len() == 256,
        b.len() == 256,
        l <= 8,
    ensures
        inv_upto(add_seq(a, b), l).len() == 256,
        forall|i: int|
            0 <= i < 256 ==> mq(#[trigger] inv_upto(add_seq(a, b), l)[i]) == mq(inv_upto(a, l)[i] + inv_upto(b, l)[i]),
    decreases l,
{
    if l > 0 {
        let ll = (l - 1) as nat;
        lemma_inv_upto_add(a, b, ll);
        lemma_inv_upto_len(a, ll);
        lemma_inv_upto_len(b, ll);
        let prev = inv_upto(add_seq(a, b), ll);
        let fa = inv_upto(a, ll);
        let fb = inv_upto(b, ll);
        assert(congruent(prev, add_seq(fa, fb)));
        lemma_inv_layer_congr(prev, add_seq(fa, fb), ll as int);
        lemma_inv_layer_add(fa, fb, ll as int);
        lemma_layers_canonical(prev, ll as int);
        assert forall|i: int|
            0 <= i < 256 implies mq(#[trigger] inv_upto(add_seq(a, b), l)[i]) == mq(inv_upto(a, l)[i] + inv_upto(b, l)[i]) by {
            lemma_mq_mq(inv_layer(prev, ll as int)[i]);
            lemma_mq_mq(inv_layer(fa, ll as int)[i] + inv_layer(fb, ll as int)[i]);
        }
    } else {
        assert(inv_upto(add_seq(a, b), 0) == add_seq(a, b));
    }
}

/// The forward transform is additive: `ntt(a + b) == ntt(a) + ntt(b)`.
pub proof fn lemma_ntt_add(a: Seq<int>, b: Seq<int>)
    requires
        a.len() == 256,
        b.len() == 256,
    ensures
        forall|i: int| 0 <= i < 256 ==> #[trigger] ntt_spec(add_seq(a, b))[i] == mq(ntt_spec(a)[i] + ntt_spec(b)[i]),
{
    lemma_fwd_upto_add(a, b, 8);
    lemma_fwd_upto_len(add_seq(a, b), 7);
    lemma_layers_canonical(fwd_upto(add_seq(a, b), 7), 7);
    assert forall|i: int| 0 <= i < 256 implies #[trigger] ntt_spec(add_seq(a, b))[i] == mq(ntt_spec(a)[i] + ntt_spec(b)[i]) by {
        lemma_mq_mq(ntt_spec(add_seq(a, b))[i]);
        lemma_small_mod(ntt_spec(add_seq(a, b))[i] as nat, Q as nat);
    }
}

/// The inverse transform is additive: `intt(a + b) == intt(a) + intt(b)`.
pub proof fn lemma_intt_add(a: Seq<int>, b: Seq<int>)
    requires
        a.len() == 256,
        b.len() == 256,
    ensures
        forall|i: int| 0 <= i < 256 ==> #[trigger] intt_spec(add_seq(a, b))[i] == mq(intt_spec(a)[i] + intt_spec(b)[i]),
{
    lemma_inv_upto_add(a, b, 8);
    assert forall|i: int| 0 <= i < 256 implies #[trigger] intt_spec(add_seq(a, b))[i] == mq(intt_spec(a)[i] + intt_spec(b)[i]) by {
        let s = inv_scale();
        let u = inv_upto(add_seq(a, b), 8)[i];
        let x = inv_upto(a, 8)[i];
        let y = inv_upto(b, 8)[i];
        lemma_mq_mul(s, u);
        lemma_mq_mul(s, x + y);
        assert(s * (x + y) == s * x + s * y) by (nonlinear_arith);
        lemma_mq_add(s * x, s * y);
    }
}

/// The inverse layers commute with scaling.
pub proof fn lemma_inv_upto_scale(p: Seq<int>, c: int, l: nat)
    requires
        p.len() == 256,
        l <= 8,
    ensures
        inv_upto(scale(p, c), l).len() == 256,
        forall|i: int| 0 <= i < 256 ==> mq(#[trigger] inv_upto(scale(p, c), l)[i]) == mq(c * inv_upto(p, l)[i]),
    decreases l,
{
    if l > 0 {
        let ll = (l - 1) as nat;
        lemma_inv_upto_scale(p, c, ll);
        lemma_inv_upto_len(p, ll);
        let prev = inv_upto(scale(p, c), ll);
        let base = inv_upto(p, ll);
        assert(congruent(prev, scale(base, c)));
        lemma_inv_layer_congr(prev, scale(base, c), ll as int);
        lemma_inv_layer_scale(base, c, ll as int);
        lemma_layers_canonical(prev, ll as int);
        assert forall|i: int| 0 <= i < 256 implies mq(#[trigger] inv_upto(scale(p, c), l)[i]) == mq(c * inv_upto(p, l)[i]) by {
            lemma_mq_mq(c * inv_layer(base, ll as int)[i]);
            lemma_mq_mq(inv_layer(prev, ll as int)[i]);
        }
    }
}

/// The inverse transform commutes with scaling: `intt(c a) == c intt(a)`.
pub proof fn lemma_intt_scale(a: Seq<int>, c: int)
    requires
        a.len() == 256,
    ensures
        forall|i: int| 0 <= i < 256 ==> #[trigger] intt_spec(scale(a, c))[i] == mq(c * intt_spec(a)[i]),
{
    lemma_inv_upto_scale(a, c, 8);
    assert forall|i: int| 0 <= i < 256 implies #[trigger] intt_spec(scale(a, c))[i] == mq(c * intt_spec(a)[i]) by {
        let s = inv_scale();
        let u = inv_upto(scale(a, c), 8)[i];
        let v = inv_upto(a, 8)[i];
        lemma_mq_mul(s, u);
        lemma_mq_mul(s, c * v);
        lemma_mq_mul(c, s * v);
        assert(s * (c * v) == c * (s * v)) by (nonlinear_arith);
    }
}

} // verus!
