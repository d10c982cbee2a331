use vstd::prelude::*;

verus! {

/// Failure of the key derivation engine itself.
#[derive(Clone, Copy, PartialEq, Eq, Structural, Debug)]
pub enum KdfError {
    /// Cost settings, salt length, or output length out of the legal range.
    InvalidParameters,
    /// The working memory could not be acquired.
    AllocationFailure,
}

/// Failure of `hash`.
#[derive(Clone, Copy, PartialEq, Eq, Structural, Debug)]
pub enum HashError {
    /// The secure random source was unavailable.
    RandomnessUnavailable,
    /// The working memory could not be acquired.
    AllocationFailure,
}

/// Failure of `decode`.
#[derive(Clone, Copy, PartialEq, Eq, Structural, Debug)]
pub enum DecodeError {
    /// The input is not a canonical encoded hash string.
    MalformedHash,
}

/// Failure of `verify`.
#[derive(Clone, Copy, PartialEq, Eq, Structural, Debug)]
pub enum VerifyError {
    /// The stored string is not a canonical encoded hash string.
    MalformedHash,
    /// The key derivation could not be re-run.
    ComputationFailed,
}

impl KdfError {
    /// A short description, for callers that need to report the failure.
    pub fn message(&self) -> (r: &'static str)
        ensures
            r@.len() > 0,
    {
        let s: &'static str = match self {
            KdfError::InvalidParameters => "invalid cost parameters",
            KdfError::AllocationFailure => "working memory unavailable",
        };
        proof {
            reveal_strlit("invalid cost parameters");
            reveal_strlit("working memory unavailable");
        }
        s
    }
}

impl HashError {
    /// A short description, for callers that need to report the failure.
    pub fn message(&self) -> (r: &'static str)
        ensures
            r@.len() > 0,
    {
        let s: &'static str = match self {
            HashError::RandomnessUnavailable => "secure random source unavailable",
            HashError::AllocationFailure => "working memory unavailable",
        };
        proof {
            reveal_strlit("secure random source unavailable");
            reveal_strlit("working memory unavailable");
        }
        s
    }
}

impl VerifyError {
    /// A short description, for callers that need to report the failure.
    pub fn message(&self) -> (r: &'static str)
        ensures
            r@.len() > 0,
    {
        let s: &'static str = match self {
            VerifyError::MalformedHash => "malformed encoded hash",
            VerifyError::ComputationFailed => "key derivation failed",
        };
        proof {
            reveal_strlit("malformed encoded hash");
            reveal_strlit("key derivation failed");
        }
        s
    }
}

} // verus!
