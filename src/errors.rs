use vstd::prelude::*;

verus! {

/// Why a piece of text is not a version (or a version requirement).
///
/// Offsets are byte positions in the whole input.
#[derive(Debug, Clone, PartialEq, Eq)]
pub enum VersionError {
    /// The separator that ends the current field was not found; `part` names
    /// the field that could not be started and `offset` is where the scan began.
    MissingPart { part: String, offset: usize },
    /// The field `part`, found at bytes `start..end`, is not a number that fits it.
    InvalidPart { part: String, start: usize, end: usize },
    /// Text `extra` is left over at byte `offset` after a complete value.
    ExtraPart { extra: String, offset: usize },
}

} // verus!
