use vstd::prelude::*;

verus! {

/// Errors raised when building the core records.
#[derive(Debug, PartialEq)]
pub enum CoreError {
    /// The confidence, given as the bit pattern of an `f32`, is not within
    /// `0.0..=1.0`.
    ConfidenceOutOfRange(u32),
    /// A positions string is not a `'|'`-separated, non-empty list of
    /// `prefix` / `root` / `suffix`; carries the string as given.
    InvalidMorphemePositions(String),
}

} // verus!
