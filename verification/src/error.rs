//! Error type of the Eyvara VRF.
use vstd::prelude::*;

verus! {

/// Errors that can occur during Eyvara VRF operations.
#[derive(Debug, Clone, Copy, PartialEq, Eq, Structural)]
pub enum EyvaraError {
    /// Proof structure is invalid.
    MalformedProof,
    /// Public key structure is invalid.
    MalformedPublicKey,
    /// Hint weight exceeds omega.
    HintWeightExceeded,
    /// Response norm exceeds the bound.
    NormBoundExceeded,
    /// Fiat-Shamir challenge mismatch.
    ChallengeMismatch,
    /// Output does not match the proof.
    OutputMismatch,
    /// Rejection sampling exhausted all attempts.
    RejectionSamplingFailed,
}

impl EyvaraError {
    /// The human-readable description of the error.
    pub open spec fn spec_message(&self) -> &'static str {
        match self {
            EyvaraError::MalformedProof => "malformed proof",
            EyvaraError::MalformedPublicKey => "malformed public key",
            EyvaraError::HintWeightExceeded => "hint weight exceeded omega",
            EyvaraError::NormBoundExceeded => "response norm exceeded bound",
            EyvaraError::ChallengeMismatch => "Fiat-Shamir challenge mismatch",
            EyvaraError::OutputMismatch => "VRF output does not match proof",
            EyvaraError::RejectionSamplingFailed => "rejection sampling failed after max attempts",
        }
    }

    /// Returns the human-readable description of the error.
    pub fn message(&self) -> (s: &'static str)
        ensures
            s == self.spec_message(),
    {
        match self {
            EyvaraError::MalformedProof => "malformed proof",
            EyvaraError::MalformedPublicKey => "malformed public key",
            EyvaraError::HintWeightExceeded => "hint weight exceeded omega",
            EyvaraError::NormBoundExceeded => "response norm exceeded bound",
            EyvaraError::ChallengeMismatch => "Fiat-Shamir challenge mismatch",
            EyvaraError::OutputMismatch => "VRF output does not match proof",
            EyvaraError::RejectionSamplingFailed => "rejection sampling failed after max attempts",
        }
    }
}

} // verus!
