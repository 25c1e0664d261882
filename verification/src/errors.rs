//! Error kinds surfaced by the engine.

use vstd::prelude::*;

verus! {

/// The error kinds the engine surfaces to its callers.
#[derive(Debug, Clone)]
pub enum EngineError {
    /// A caller-supplied value lies outside what the engine accepts: a ratio
    /// out of range, a recipient set whose ratios do not sum close enough to
    /// one, a receipt whose hash or signatures do not check out.
    InvalidArgument(String),
    /// A vault id that the registry does not hold.
    NotFound(String),
    /// A canonical encoding or decoding failed.
    Serialization(String),
    /// The custody adapter reported a failure.
    DependencyFailure(String),
    /// An internal invariant was violated; fatal to the call, not the process.
    Internal,
}

impl EngineError {
    /// A short label naming the error kind, for logs and messages.
    pub fn kind_label(&self) -> (r: &'static str)
        ensures
            r@ == self.kind_label_spec(),
    {
        match self {
            EngineError::InvalidArgument(_) => "invalid-argument",
            EngineError::NotFound(_) => "not-found",
            EngineError::Serialization(_) => "serialization",
            EngineError::DependencyFailure(_) => "dependency-failure",
            EngineError::Internal => "internal",
        }
    }

    pub open spec fn kind_label_spec(&self) -> Seq<char> {
        match self {
            EngineError::InvalidArgument(_) => "invalid-argument"@,
            EngineError::NotFound(_) => "not-found"@,
            EngineError::Serialization(_) => "serialization"@,
            EngineError::DependencyFailure(_) => "dependency-failure"@,
            EngineError::Internal => "internal"@,
        }
    }
}

} // verus!
