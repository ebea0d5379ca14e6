//! The challenge polynomial and the two hashes of the Eyvara VRF.
//!
//! `sample_in_ball` derives a sparse ternary challenge from a 32-byte seed,
//! `hash_to_challenge_seed` computes that seed from the commitment, the public
//! key and the input, and `hash_vrf_output` computes the VRF output.
use vstd::prelude::*;
use crate::hash::{lemma_shake256_prefix, shake256, shake256_spec};
use crate::ntt::{bounded, iseq};
use crate::params::{
    CHALLENGE_SEED_SIZE, CHALLENGE_XOF_BYTES, CHALLENGE_XOF_MAX_BYTES, DOMAIN_CHALLENGE, DOMAIN_OUTPUT, N, OUTPUT_SIZE,
};
use crate::poly::{poly_vec_bytes, poly_vec_to_bytes, poly_zero, vseq, Poly};

verus! {

/// The sign given to the `t`-th placed coefficient: bit `t` of the first eight
/// bytes read as a little-endian 64-bit word, `+1` for a clear bit and `-1` for
/// a set one (`+1` once the 64 bits are used up).
pub open spec fn sign_of(b: Seq<u8>, t: int) -> int {
    if t < 64 && (b[t / 8] >> ((t % 8) as u8)) & 1u8 == 1u8 {
        -1
    } else {
        1
    }
}

/// The Fisher-Yates style placement of the challenge's nonzero coefficients:
/// from byte `pos` on, a byte `j <= i` moves `c[j]` to position `i` and puts the
/// next sign at `j`; larger bytes are rejected. Stops once position 256 is
/// reached or the bytes run out.
pub open spec fn sib_scan(b: Seq<u8>, pos: int, i: int, t: int, c: Seq<int>) -> Seq<int>
    decreases b.len() - pos,
{
    if i >= 256 || pos < 0 || pos >= b.len() {
        c
    } else if (b[pos] as int) <= i {
        sib_scan(
            b,
            pos + 1,
            i + 1,
            t + 1,
            c.update(i, c[b[pos] as int]).update(b[pos] as int, sign_of(b, t)),
        )
    } else {
        sib_scan(b, pos + 1, i, t, c)
    }
}

/// The number of nonzero entries among the first `n` coefficients.
pub open spec fn nonzero_count(c: Seq<int>, n: int) -> nat
    decreases n,
{
    if n <= 0 {
        0
    } else if c[n - 1] != 0 {
        nonzero_count(c, n - 1) + 1
    } else {
        nonzero_count(c, n - 1)
    }
}

/// Whether the placement from byte `pos` on, at position `i`, reaches
/// position 256 before the bytes run out.
pub open spec fn sib_completes(b: Seq<u8>, pos: int, i: int) -> bool
    decreases b.len() - pos,
{
    if i >= 256 {
        true
    } else if pos < 0 || pos >= b.len() {
        false
    } else if (b[pos] as int) <= i {
        sib_completes(b, pos + 1, i + 1)
    } else {
        sib_completes(b, pos + 1, i)
    }
}

/// The position that the placement reaches from byte `pos` on.
pub open spec fn sib_end(b: Seq<u8>, pos: int, i: int) -> int
    decreases b.len() - pos,
{
    if i >= 256 || pos < 0 || pos >= b.len() {
        i
    } else if (b[pos] as int) <= i {
        sib_end(b, pos + 1, i + 1)
    } else {
        sib_end(b, pos + 1, i)
    }
}

/// Every coefficient is -1, 0 or 1.
pub open spec fn ternary(c: Seq<int>) -> bool {
    forall|m: int| 0 <= m < c.len() ==> #[trigger] c[m] == -1 || c[m] == 0 || c[m] == 1
}

proof fn lemma_count_update(c: Seq<int>, p: int, v: int, n: int)
    requires
        0 <= p < c.len(),
        n <= c.len(),
    ensures
        nonzero_count(c.update(p, v), n) + (if p < n && c[p] != 0 {
            1int
        } else {
            0
        }) == nonzero_count(c, n) + (if p < n && v != 0 {
            1int
        } else {
            0
        }),
    decreases n,
{
    if n > 0 {
        lemma_count_update(c, p, v, n - 1);
    }
}

/// One placement adds exactly one nonzero coefficient.
proof fn lemma_place_step(c: Seq<int>, i: int, j: int, sgn: int)
    requires
        c.len() == 256,
        0 <= j <= i < 256,
        ternary(c),
        forall|m: int| i <= m < 256 ==> #[trigger] c[m] == 0,
        sgn == 1 || sgn == -1,
    ensures
        ({
            let c2 = c.update(i, c[j]).update(j, sgn);
            &&& c2.len() == 256
            &&& ternary(c2)
            &&& forall|m: int| i + 1 <= m < 256 ==> #[trigger] c2[m] == 0
            &&& nonzero_count(c2, 256) == nonzero_count(c, 256) + 1
        }),
{
    let c1 = c.update(i, c[j]);
    let c2 = c1.update(j, sgn);
    lemma_count_update(c, i, c[j], 256);
    lemma_count_update(c1, j, sgn, 256);
    assert forall|m: int| 0 <= m < c2.len() implies #[trigger] c2[m] == -1 || c2[m] == 0 || c2[m] == 1 by {
        if m != j && m != i {
            assert(c2[m] == c[m]);
        }
    }
}

proof fn lemma_sib_scan_weight(b: Seq<u8>, pos: int, i: int, t: int, c: Seq<int>)
    requires
        c.len() == 256,
        0 <= i <= 256,
        0 <= pos,
        ternary(c),
        forall|m: int| i <= m < 256 ==> #[trigger] c[m] == 0,
    ensures
        sib_scan(b, pos, i, t, c).len() == 256,
        ternary(sib_scan(b, pos, i, t, c)),
        i <= sib_end(b, pos, i) <= 256,
        nonzero_count(sib_scan(b, pos, i, t, c), 256) == nonzero_count(c, 256) + (sib_end(b, pos, i) - i),
        sib_completes(b, pos, i) <==> sib_end(b, pos, i) == 256,
    decreases b.len() - pos,
{
    if i >= 256 || pos >= b.len() {
    } else if (b[pos] as int) <= i {
        let j = b[pos] as int;
        let c2 = c.update(i, c[j]).update(j, sign_of(b, t));
        lemma_place_step(c, i, j, sign_of(b, t));
        lemma_sib_scan_weight(b, pos + 1, i + 1, t + 1, c2);
    } else {
        lemma_sib_scan_weight(b, pos + 1, i, t, c);
    }
}

/// A challenge placed from any byte string has coefficients in `{-1, 0, 1}`
/// and at most `tau` of them nonzero, exactly `tau` when the bytes suffice for
/// all the placements.
pub proof fn lemma_challenge_weight(b: Seq<u8>, tau: int)
    requires
        0 <= tau <= 256,
    ensures
        ({
            let c = sib_scan(b, 8, 256 - tau, 0, Seq::new(256, |m: int| 0));
            &&& c.len() == 256
            &&& ternary(c)
            &&& nonzero_count(c, 256) <= tau
            &&& sib_completes(b, 8, 256 - tau) <==> nonzero_count(c, 256) == tau
        }),
{
    let z = Seq::new(256, |m: int| 0int);
    assert(nonzero_count(z, 256) == 0) by {
        lemma_count_zero(z, 256);
    }
    lemma_sib_scan_weight(b, 8, 256 - tau, 0, z);
}

proof fn lemma_count_zero(c: Seq<int>, n: int)
    requires
        n <= c.len(),
        forall|m: int| 0 <= m < c.len() ==> #[trigger] c[m] == 0,
    ensures
        nonzero_count(c, n) == 0,
    decreases n,
{
    if n > 0 {
        lemma_count_zero(c, n - 1);
    }
}

/// The challenge polynomial of a seed: positions `N - tau .. N` are placed from
/// the SHAKE-256 output of the seed, after its first eight (sign) bytes.
pub open spec fn sample_in_ball_spec(seed: Seq<u8>, tau: int) -> Seq<int> {
    sib_scan(
        shake256_spec(seed, CHALLENGE_XOF_MAX_BYTES as nat),
        8,
        256 - tau,
        0,
        Seq::new(256, |m: int| 0),
    )
}

/// The input of the challenge hash.
pub open spec fn challenge_input(w1: Seq<Seq<int>>, t: Seq<Seq<int>>, x: Seq<u8>) -> Seq<u8> {
    DOMAIN_CHALLENGE@ + poly_vec_bytes(w1) + poly_vec_bytes(t) + x
}

/// The input of the output hash.
pub open spec fn output_input(s_bytes: Seq<u8>, x: Seq<u8>) -> Seq<u8> {
    DOMAIN_OUTPUT@ + s_bytes + x
}

/// A prefix followed by `x` ends with the whole of `x`, and two such strings
/// with the same prefix are equal exactly when their endings are.
proof fn lemma_prefix_then_whole(pre: Seq<u8>, x1: Seq<u8>, x2: Seq<u8>)
    ensures
        (pre + x1).len() == pre.len() + x1.len(),
        (pre + x1).subrange(pre.len() as int, (pre + x1).len() as int) == x1,
        (pre + x1 == pre + x2) <==> x1 == x2,
{
    assert((pre + x1).subrange(pre.len() as int, (pre + x1).len() as int) =~= x1);
    assert((pre + x2).subrange(pre.len() as int, (pre + x2).len() as int) =~= x2);
}

/// The challenge hash reads the whole input `x`: its hash input ends with all
/// of `x`, after the domain tag and the encodings of `w1` and `t`, so two
/// inputs give the same hash input exactly when they are equal.
pub proof fn lemma_challenge_input_whole(w1: Seq<Seq<int>>, t: Seq<Seq<int>>, x1: Seq<u8>, x2: Seq<u8>)
    ensures
        ({
            let c = challenge_input(w1, t, x1);
            let head = DOMAIN_CHALLENGE@.len() + poly_vec_bytes(w1).len() + poly_vec_bytes(t).len();
            &&& c.len() == head + x1.len()
            &&& c.subrange(head as int, c.len() as int) == x1
        }),
        challenge_input(w1, t, x1) == challenge_input(w1, t, x2) <==> x1 == x2,
{
    let pre = DOMAIN_CHALLENGE@ + poly_vec_bytes(w1) + poly_vec_bytes(t);
    assert(challenge_input(w1, t, x1) == pre + x1);
    assert(challenge_input(w1, t, x2) == pre + x2);
    lemma_prefix_then_whole(pre, x1, x2);
}

/// The output hash reads the whole input `x` in the same way.
pub proof fn lemma_output_input_whole(s_bytes: Seq<u8>, x1: Seq<u8>, x2: Seq<u8>)
    ensures
        ({
            let o = output_input(s_bytes, x1);
            let head = DOMAIN_OUTPUT@.len() + s_bytes.len();
            &&& o.len() == head + x1.len()
            &&& o.subrange(head as int, o.len() as int) == x1
        }),
        output_input(s_bytes, x1) == output_input(s_bytes, x2) <==> x1 == x2,
{
    let pre = DOMAIN_OUTPUT@ + s_bytes;
    lemma_prefix_then_whole(pre, x1, x2);
}

/// The challenge polynomial placed from the bytes of an extendable-output
/// function: for `i = N - tau .. N`, a byte `j <= i` (read from byte 8 on)
/// moves `c[j]` to `c[i]` and sets `c[j]` to the next sign, taken from the bits
/// of the first eight bytes; larger bytes are rejected.
pub fn challenge_from_xof(bytes: &[u8], tau: usize) -> (c: Poly)
    requires
        tau <= N,
        8 <= bytes.len(),
    ensures
        iseq(c@) == sib_scan(bytes@, 8, 256 - tau, 0, Seq::new(256, |m: int| 0)),
        bounded(c@, 1),
{
    let mut c = poly_zero();
    let ghost b = bytes@;
    let mut i: usize = N - tau;
    let mut pos: usize = 8;
    let mut t: usize = 0;
    assert(iseq(c@) =~= Seq::new(256, |m: int| 0));
    while i < N && pos < bytes.len()
        invariant
            i <= N,
            8 <= pos <= bytes.len(),
            t <= i,
            b == bytes@,
            bounded(c@, 1),
            sib_scan(b, pos as int, i as int, t as int, iseq(c@)) == sib_scan(
                b,
                8,
                256 - tau,
                0,
                Seq::new(256, |m: int| 0),
            ),
        decreases bytes.len() - pos,
    {
        let val = bytes[pos] as usize;
        pos += 1;
        if val <= i {
            let ghost before = iseq(c@);
            c[i] = c[val];
            let sign: i64 = if t < 64 && (bytes[t / 8] >> ((t % 8) as u8)) & 1 == 1 {
                -1
            } else {
                1
            };
            c[val] = sign;
            proof {
                assert(iseq(c@) =~= before.update(i as int, before[val as int]).update(
                    val as int,
                    sign_of(b, t as int),
                ));
            }
            t += 1;
            i += 1;
        }
    }
    c
}

/// Once the placement completes on a string of bytes, reading further bytes
/// changes nothing.
proof fn lemma_sib_scan_prefix(b: Seq<u8>, b2: Seq<u8>, pos: int, i: int, t: int, c: Seq<int>)
    requires
        8 <= b.len() <= b2.len(),
        b == b2.subrange(0, b.len() as int),
        0 <= pos,
        0 <= t,
        sib_completes(b, pos, i),
    ensures
        sib_scan(b, pos, i, t, c) == sib_scan(b2, pos, i, t, c),
        sib_completes(b2, pos, i),
    decreases b.len() - pos,
{
    if i < 256 {
        assert(pos < b.len());
        assert(b[pos] == b2[pos]);
        if t < 64 {
            assert(b[t / 8] == b2[t / 8]);
        }
        assert(sign_of(b, t) == sign_of(b2, t));
        if (b[pos] as int) <= i {
            let c2 = c.update(i, c[b[pos] as int]).update(b[pos] as int, sign_of(b, t));
            lemma_sib_scan_prefix(b, b2, pos + 1, i + 1, t + 1, c2);
        } else {
            lemma_sib_scan_prefix(b, b2, pos + 1, i, t, c);
        }
    }
}

/// The number of nonzero coefficients of a polynomial.
fn count_nonzero(c: &Poly) -> (n: usize)
    ensures
        n == nonzero_count(iseq(c@), 256),
{
    let mut n: usize = 0;
    let mut m: usize = 0;
    while m < N
        invariant
            m <= N,
            n <= m,
            n == nonzero_count(iseq(c@), m as int),
        decreases N - m,
    {
        if c[m] != 0 {
            n += 1;
        }
        m += 1;
    }
    n
}

/// Derive a sparse ternary challenge polynomial from a 32-byte seed.
///
/// `SampleInBall(seed, tau)` places `tau` coefficients in `{-1, +1}` at
/// positions chosen by rejection sampling of the bytes of `SHAKE-256(seed)`,
/// as in CRYSTALS-Dilithium. It first reads `CHALLENGE_XOF_BYTES` bytes of
/// output and doubles the read until the placement completes, up to
/// `CHALLENGE_XOF_MAX_BYTES` bytes. The result has coefficients in
/// `{-1, 0, 1}`, exactly `tau` of them nonzero whenever the placement
/// completes within that many bytes, and at most `tau` otherwise.
pub fn sample_in_ball(seed: &[u8; 32], tau: usize) -> (c: Poly)
    requires
        tau <= N,
    ensures
        iseq(c@) == sample_in_ball_spec(seed@, tau as int),
        bounded(c@, 1),
        ternary(iseq(c@)),
        nonzero_count(iseq(c@), 256) <= tau,
        sib_completes(shake256_spec(seed@, CHALLENGE_XOF_MAX_BYTES as nat), 8, 256 - tau) <==> nonzero_count(
            iseq(c@),
            256,
        ) == tau,
{
    let ghost full = shake256_spec(seed@, CHALLENGE_XOF_MAX_BYTES as nat);
    let ghost zeros = Seq::new(256, |m: int| 0int);
    proof {
        lemma_challenge_weight(full, tau as int);
    }
    let mut len: usize = CHALLENGE_XOF_BYTES;
    loop
        invariant
            CHALLENGE_XOF_BYTES <= len <= CHALLENGE_XOF_MAX_BYTES,
            tau <= N,
            full == shake256_spec(seed@, CHALLENGE_XOF_MAX_BYTES as nat),
            zeros == Seq::new(256, |m: int| 0int),
            ({
                let r = sib_scan(full, 8, 256 - tau, 0, zeros);
                &&& r.len() == 256
                &&& ternary(r)
                &&& nonzero_count(r, 256) <= tau
                &&& sib_completes(full, 8, 256 - tau) <==> nonzero_count(r, 256) == tau
            }),
        decreases CHALLENGE_XOF_MAX_BYTES - len,
    {
        let bytes = shake256(seed.as_slice(), len);
        let c = challenge_from_xof(bytes.as_slice(), tau);
        let ghost part = bytes@;
        if len == CHALLENGE_XOF_MAX_BYTES {
            assert(part == full);
            return c;
        }
        let count = count_nonzero(&c);
        if count == tau {
            proof {
                lemma_challenge_weight(part, tau as int);
                lemma_shake256_prefix(seed@, len as nat, CHALLENGE_XOF_MAX_BYTES as nat);
                assert(zeros =~= Seq::new(256, |m: int| 0));
                lemma_sib_scan_prefix(part, full, 8, 256 - tau, 0, zeros);
            }
            return c;
        }
        len = if len <= CHALLENGE_XOF_MAX_BYTES / 2 {
            2 * len
        } else {
            CHALLENGE_XOF_MAX_BYTES
        };
    }
}

/// Copy 32 bytes into an array.
fn to_seed_array(v: &Vec<u8>) -> (a: [u8; 32])
    requires
        v.len() == 32,
    ensures
        a@ == v@,
{
    let mut a = [0u8; 32];
    let mut i: usize = 0;
    while i < 32
        invariant
            i <= 32,
            v.len() == 32,
            forall|m: int| 0 <= m < i ==> #[trigger] a[m] == v[m],
        decreases 32 - i,
    {
        a[i] = v[i];
        i += 1;
    }
    assert(a@ =~= v@);
    a
}

/// Copy 64 bytes into an array.
fn to_output_array(v: &Vec<u8>) -> (a: [u8; 64])
    requires
        v.len() == 64,
    ensures
        a@ == v@,
{
    let mut a = [0u8; 64];
    let mut i: usize = 0;
    while i < 64
        invariant
            i <= 64,
            v.len() == 64,
            forall|m: int| 0 <= m < i ==> #[trigger] a[m] == v[m],
        decreases 64 - i,
    {
        a[i] = v[i];
        i += 1;
    }
    assert(a@ =~= v@);
    a
}

/// Compute the challenge seed
/// `SHAKE-256(DOMAIN_CHALLENGE || bytes(w1) || bytes(t) || x)`, 32 bytes,
/// where `w1` is the high part of the commitment, `t` the public vector and
/// `x` the VRF input.
pub fn hash_to_challenge_seed(w1: &[Poly], t: &[Poly], x: &[u8]) -> (seed: [u8; 32])
    ensures
        seed@ == shake256_spec(challenge_input(vseq(w1@), vseq(t@), x@), CHALLENGE_SEED_SIZE as nat),
{
    let mut input: Vec<u8> = Vec::new();
    input.extend_from_slice(DOMAIN_CHALLENGE.as_slice());
    let w1_bytes = poly_vec_to_bytes(w1);
    input.extend_from_slice(w1_bytes.as_slice());
    let t_bytes = poly_vec_to_bytes(t);
    input.extend_from_slice(t_bytes.as_slice());
    input.extend_from_slice(x);
    assert(input@ =~= challenge_input(vseq(w1@), vseq(t@), x@));
    let out = shake256(input.as_slice(), CHALLENGE_SEED_SIZE);
    to_seed_array(&out)
}

/// Compute the VRF output `SHAKE-256(DOMAIN_OUTPUT || s_bytes || x)`, 64 bytes.
/// Evaluation and verification pass the serialized high part of the
/// commitment as `s_bytes`, so the output depends on `(s_bytes, x)` alone.
pub fn hash_vrf_output(s_bytes: &[u8], x: &[u8]) -> (out: [u8; 64])
    ensures
        out@ == shake256_spec(output_input(s_bytes@, x@), OUTPUT_SIZE as nat),
{
    let mut input: Vec<u8> = Vec::new();
    input.extend_from_slice(DOMAIN_OUTPUT.as_slice());
    input.extend_from_slice(s_bytes);
    input.extend_from_slice(x);
    assert(input@ =~= output_input(s_bytes@, x@));
    let out = shake256(input.as_slice(), OUTPUT_SIZE);
    to_output_array(&out)
}

} // verus!
