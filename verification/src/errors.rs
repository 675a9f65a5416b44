//! The engine's error taxonomy.

use vstd::prelude::*;

verus! {

/// What can go wrong around the engine.
///
/// `NotFound` and `IoError` arise at the storage edge (a missing blob, a
/// failed write) and are produced by the host around the library; `Malformed`
/// names a snapshot that is present but breaks the corpus-store shape or
/// invariant; `ScoringUnavailable` names a vector computation that could not
/// be completed.
#[derive(Clone, Copy, PartialEq, Eq, Structural, Debug)]
pub enum EngineError {
    NotFound,
    Malformed,
    IoError,
    ScoringUnavailable,
}

impl EngineError {
    /// A short human-readable name for the error.
    pub fn describe(&self) -> (r: &'static str)
        ensures
            match self {
                EngineError::NotFound => r@ == "not found"@,
                EngineError::Malformed => r@ == "malformed"@,
                EngineError::IoError => r@ == "io error"@,
                EngineError::ScoringUnavailable => r@ == "scoring unavailable"@,
            },
    {
        match self {
            EngineError::NotFound => "not found",
            EngineError::Malformed => "malformed",
            EngineError::IoError => "io error",
            EngineError::ScoringUnavailable => "scoring unavailable",
        }
    }
}

} // verus!
