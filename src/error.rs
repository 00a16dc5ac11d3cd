//! Errors reported by the library.
use vstd::prelude::*;

verus! {

/// What went wrong.
#[derive(Debug, Clone, PartialEq, Eq)]
pub enum CortexError {
    /// A setting that is not accepted (an unknown mode or preset name, a
    /// malformed pattern or timestamp); holds the offending text.
    InvalidConfig(String),
    /// The embedder was used before it was initialised.
    NotInitialized,
    /// The embedder was initialised a second time without a shutdown between.
    AlreadyInitialized,
    /// No note has the requested id.
    NotFound(u32),
}

} // verus!
