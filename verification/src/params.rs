//! System parameters of the Eyvara VRF.
//!
//! Only the two sealed parameter sets are offered: a custom choice of
//! parameters can silently break security, so `Params` has no constructor
//! beyond [`EYVARA_128`] and [`EYVARA_192`].
use vstd::prelude::*;

verus! {

/// Ring dimension: the ring is `Z_q[X]/(X^N + 1)`.
pub const N: usize = 256;

/// Prime modulus of the ring.
pub const Q: i64 = 8380417;

/// `(Q - 1) / 2`, the bound of the centered representatives.
pub const Q_HALF: i64 = 4190208;

/// Montgomery radix `R = 2^32 mod Q`.
pub const MONT_R: i64 = 4193792;

/// Inverse of the Montgomery radix: `MONT_R_INV * 2^32 == 1 (mod Q)`.
pub const MONT_R_INV: i64 = 8265825;

/// `Q^{-1} mod 2^32`, used by the Montgomery reduction.
pub const Q_INV: i64 = 58728449;

/// Number of Fiat-Shamir with Aborts iterations before evaluation gives up.
pub const MAX_ATTEMPTS: usize = 256;

/// Size of the VRF output in bytes.
pub const OUTPUT_SIZE: usize = 64;

/// Size of the challenge seed in bytes.
pub const CHALLENGE_SEED_SIZE: usize = 32;

/// Size of the public matrix seed and of the secret seed in bytes.
pub const SEED_SIZE: usize = 32;

/// Domain separation tag of the challenge hash: the ASCII bytes of
/// `eyvara-challenge`.
pub const DOMAIN_CHALLENGE: [u8; 16] = [
    101, 121, 118, 97, 114, 97, 45, 99, 104, 97, 108, 108, 101, 110, 103, 101,
];

/// Domain separation tag of the output hash: the ASCII bytes of `eyvara-output`.
pub const DOMAIN_OUTPUT: [u8; 13] = [101, 121, 118, 97, 114, 97, 45, 111, 117, 116, 112, 117, 116];

/// Domain separation tag of the matrix expansion: the ASCII bytes of
/// `vrf-matrix` padded with six zero bytes.
pub const DOMAIN_MATRIX: [u8; 16] = [118, 114, 102, 45, 109, 97, 116, 114, 105, 120, 0, 0, 0, 0, 0, 0];

/// Domain separation tag of the masking-vector derivation: the ASCII bytes of
/// `eyvara-mask`.
pub const DOMAIN_MASK: [u8; 11] = [101, 121, 118, 97, 114, 97, 45, 109, 97, 115, 107];

/// Bytes of SHAKE-256 output read per matrix entry: 320 three-byte candidates
/// for the 256 coefficients.
pub const MATRIX_XOF_BYTES: usize = 960;

/// Most bytes of SHAKE-256 output read per matrix entry: the read is doubled
/// until 256 coefficients are accepted, up to `960 * 1024` bytes.
pub const MATRIX_XOF_MAX_BYTES: usize = 983040;

/// Bytes of SHAKE-256 output first read to sample a challenge: 8 bytes of
/// signs, then 512 one-byte position candidates.
pub const CHALLENGE_XOF_BYTES: usize = 520;

/// Most bytes of SHAKE-256 output read to sample a challenge: the read is
/// doubled until the placement completes, up to 8 bytes of signs and
/// `512 * 1024` position candidates.
pub const CHALLENGE_XOF_MAX_BYTES: usize = 524296;

/// Bytes of SHAKE-256 output read per masking polynomial: 272 eight-byte words
/// for the 256 coefficients.
pub const MASK_XOF_BYTES: usize = 2176;

/// Most bytes of SHAKE-256 output read per masking polynomial: the read is
/// doubled until 256 words are accepted, up to `2176 * 1024` bytes.
pub const MASK_XOF_MAX_BYTES: usize = 2228224;

/// A sealed parameter set of the Eyvara VRF.
#[derive(Debug, Clone, Copy, PartialEq, Eq, Structural)]
pub enum Params {
    /// NIST category 1 (`k = 2`).
    Eyvara128,
    /// NIST category 3 (`k = 3`).
    Eyvara192,
}

/// NIST Category 1 parameter set. Suitable for most applications.
pub const EYVARA_128: Params = Params::Eyvara128;

/// NIST Category 3 parameter set, with a higher security margin at the cost of
/// larger proofs and slower operations.
pub const EYVARA_192: Params = Params::Eyvara192;

impl Params {
    pub open spec fn spec_n(&self) -> usize {
        256
    }

    pub open spec fn spec_k(&self) -> usize {
        match self {
            Params::Eyvara128 => 2,
            Params::Eyvara192 => 3,
        }
    }

    pub open spec fn spec_q(&self) -> i64 {
        8380417
    }

    pub open spec fn spec_eta(&self) -> i64 {
        2
    }

    pub open spec fn spec_gamma_1(&self) -> i64 {
        match self {
            Params::Eyvara128 => 131072,
            Params::Eyvara192 => 524288,
        }
    }

    pub open spec fn spec_gamma_2(&self) -> i64 {
        match self {
            Params::Eyvara128 => 95232,
            Params::Eyvara192 => 261888,
        }
    }

    pub open spec fn spec_tau(&self) -> usize {
        match self {
            Params::Eyvara128 => 39,
            Params::Eyvara192 => 49,
        }
    }

    pub open spec fn spec_beta(&self) -> i64 {
        match self {
            Params::Eyvara128 => 78,
            Params::Eyvara192 => 98,
        }
    }

    pub open spec fn spec_omega(&self) -> usize {
        match self {
            Params::Eyvara128 => 80,
            Params::Eyvara192 => 120,
        }
    }

    pub open spec fn spec_rejection_bound(&self) -> i64 {
        (self.spec_gamma_1() - self.spec_beta()) as i64
    }

    /// Returns the ring dimension.
    #[verifier::when_used_as_spec(spec_n)]
    pub fn n(&self) -> (r: usize)
        ensures
            r == self.spec_n(),
    {
        256
    }

    /// Returns the module rank.
    #[verifier::when_used_as_spec(spec_k)]
    pub fn k(&self) -> (r: usize)
        ensures
            r == self.spec_k(),
    {
        match self {
            Params::Eyvara128 => 2,
            Params::Eyvara192 => 3,
        }
    }

    /// Returns the modulus.
    #[verifier::when_used_as_spec(spec_q)]
    pub fn q(&self) -> (r: i64)
        ensures
            r == self.spec_q(),
    {
        Q
    }

    /// Returns the parameter of the centered binomial distribution.
    #[verifier::when_used_as_spec(spec_eta)]
    pub fn eta(&self) -> (r: i64)
        ensures
            r == self.spec_eta(),
    {
        2
    }

    /// Returns the masking range bound.
    #[verifier::when_used_as_spec(spec_gamma_1)]
    pub fn gamma_1(&self) -> (r: i64)
        ensures
            r == self.spec_gamma_1(),
    {
        match self {
            Params::Eyvara128 => 131072,
            Params::Eyvara192 => 524288,
        }
    }

    /// Returns the rounding divisor parameter.
    #[verifier::when_used_as_spec(spec_gamma_2)]
    pub fn gamma_2(&self) -> (r: i64)
        ensures
            r == self.spec_gamma_2(),
    {
        match self {
            Params::Eyvara128 => 95232,
            Params::Eyvara192 => 261888,
        }
    }

    /// Returns the number of nonzero challenge coefficients.
    #[verifier::when_used_as_spec(spec_tau)]
    pub fn tau(&self) -> (r: usize)
        ensures
            r == self.spec_tau(),
    {
        match self {
            Params::Eyvara128 => 39,
            Params::Eyvara192 => 49,
        }
    }

    /// Returns `beta = tau * eta`.
    #[verifier::when_used_as_spec(spec_beta)]
    pub fn beta(&self) -> (r: i64)
        ensures
            r == self.spec_beta(),
    {
        match self {
            Params::Eyvara128 => 78,
            Params::Eyvara192 => 98,
        }
    }

    /// Returns the maximum allowed hint weight.
    #[verifier::when_used_as_spec(spec_omega)]
    pub fn omega(&self) -> (r: usize)
        ensures
            r == self.spec_omega(),
    {
        match self {
            Params::Eyvara128 => 80,
            Params::Eyvara192 => 120,
        }
    }

    /// Rejection sampling bound: `gamma_1 - beta`.
    #[verifier::when_used_as_spec(spec_rejection_bound)]
    pub fn rejection_bound(&self) -> (r: i64)
        ensures
            r == self.spec_gamma_1() - self.spec_beta(),
    {
        self.gamma_1() - self.beta()
    }

    /// What every sealed parameter set satisfies: the conditions that a
    /// constructor of parameters would check, the identity `beta = tau * eta`,
    /// and the divisibility of `q - 1` by `2 * gamma_2` that the rounding
    /// into high and low bits relies on.
    pub open spec fn wf(&self) -> bool {
        &&& 0 < self.spec_tau() <= self.spec_n()
        &&& self.spec_gamma_1() > self.spec_beta() > 0
        &&& self.spec_gamma_2() > 0
        &&& self.spec_eta() > 0
        &&& self.spec_omega() > 0
        &&& self.spec_k() > 0
        &&& self.spec_q() > 0
        &&& self.spec_beta() == self.spec_tau() * self.spec_eta()
        &&& (self.spec_q() - 1) % (2 * self.spec_gamma_2()) == 0
    }
}

/// Whether parameter set `p` has exactly these values.
pub open spec fn has_values(
    p: Params,
    n: usize,
    k: usize,
    q: i64,
    eta: i64,
    gamma_1: i64,
    gamma_2: i64,
    tau: usize,
    beta: i64,
    omega: usize,
) -> bool {
    &&& p.spec_n() == n
    &&& p.spec_k() == k
    &&& p.spec_q() == q
    &&& p.spec_eta() == eta
    &&& p.spec_gamma_1() == gamma_1
    &&& p.spec_gamma_2() == gamma_2
    &&& p.spec_tau() == tau
    &&& p.spec_beta() == beta
    &&& p.spec_omega() == omega
}

impl Params {
    /// The sealed parameter set with exactly these values, or `None` when no
    /// sealed set has them: custom parameters cannot be made.
    pub fn from_values(
        n: usize,
        k: usize,
        q: i64,
        eta: i64,
        gamma_1: i64,
        gamma_2: i64,
        tau: usize,
        beta: i64,
        omega: usize,
    ) -> (r: Option<Params>)
        ensures
            match r {
                Some(p) => has_values(p, n, k, q, eta, gamma_1, gamma_2, tau, beta, omega),
                None => !has_values(Params::Eyvara128, n, k, q, eta, gamma_1, gamma_2, tau, beta, omega)
                    && !has_values(Params::Eyvara192, n, k, q, eta, gamma_1, gamma_2, tau, beta, omega),
            },
    {
        let sets = [EYVARA_128, EYVARA_192];
        let mut i: usize = 0;
        while i < 2
            invariant
                i <= 2,
                sets@ == seq![Params::Eyvara128, Params::Eyvara192],
                forall|m: int| 0 <= m < i ==> !has_values(#[trigger] sets@[m], n, k, q, eta, gamma_1, gamma_2, tau, beta, omega),
            decreases 2 - i,
        {
            let p = sets[i];
            if p.n() == n && p.k() == k && p.q() == q && p.eta() == eta && p.gamma_1() == gamma_1
                && p.gamma_2() == gamma_2 && p.tau() == tau && p.beta() == beta && p.omega() == omega {
                return Some(p);
            }
            i += 1;
        }
        assert(!has_values(sets@[0], n, k, q, eta, gamma_1, gamma_2, tau, beta, omega));
        assert(!has_values(sets@[1], n, k, q, eta, gamma_1, gamma_2, tau, beta, omega));
        None
    }
}

/// Every parameter set is well formed: `0 < tau <= n`, `gamma_1 > beta > 0`,
/// `gamma_2, eta, omega, k, q > 0`, `beta = tau * eta`, and `2 * gamma_2`
/// divides `q - 1`.
pub proof fn lemma_params_wf(p: Params)
    ensures
        p.wf(),
        p.spec_k() <= 3,
        p.spec_gamma_1() <= 524288,
        p.spec_gamma_2() == 95232 || p.spec_gamma_2() == 261888,
        p.spec_beta() <= p.spec_gamma_2(),
{
    match p {
        Params::Eyvara128 => {
            assert(8380416int % 190464int == 0);
        },
        Params::Eyvara192 => {
            assert(8380416int % 523776int == 0);
        },
    }
}

} // verus!
