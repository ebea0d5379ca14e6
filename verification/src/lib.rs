//! Eyvara: a post-quantum verifiable random function from Module-LWE, built
//! with Fiat-Shamir with Aborts in the style of CRYSTALS-Dilithium.
//!
//! A secret-key holder evaluates the VRF on an input and obtains a 64-byte
//! pseudorandom output with a proof; anyone holding the public key checks the
//! proof and the claimed output.
//!
//! - [`params`]: the two parameter sets and the constants of the scheme.
//! - [`ntt`]: the number theoretic transform over `Z_q`, described layer by
//!   layer; its inverse undoes it up to the Montgomery factor.
//! - [`poly`]: polynomial and vector arithmetic, norms, rounding into high and
//!   low bits, hints, serialization and sampling.
//! - [`hash`]: SHAKE-256, the one hash of the scheme.
//! - [`challenge`]: the challenge polynomial and the two Fiat-Shamir hashes.
//! - [`keygen`], [`eval`], [`verify`]: key generation, evaluation and
//!   verification, each specified exactly over the mathematical model; the
//!   laws that tie evaluation to verification sit in [`verify`].
pub mod challenge;
pub mod eval;
pub mod error;
pub mod hash;
pub mod keygen;
pub mod negacyclic;
pub mod ntt;
pub mod params;
pub mod poly;
pub mod verify;

pub use error::EyvaraError;
pub use eval::{eyvara_eval, EyvaraOutput, EyvaraProof, VrfOutput, VrfProof};
pub use keygen::{eyvara_keygen, PublicKey, SecretKey};
pub use params::{Params, EYVARA_128, EYVARA_192};
pub use verify::eyvara_verify;
