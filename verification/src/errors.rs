use vstd::prelude::*;

verus! {

/// Errors of the range and of transport decoding.
#[derive(Debug, Clone, Copy, PartialEq, Eq, Structural)]
pub enum MmrError {
    /// A root was requested of a structure that holds no nodes.
    EmptyStructure,
    /// A digest was looked up at a position at or past the current size.
    UnknownPosition,
    /// A proof was requested for a position that is not a leaf of the
    /// structure, or the walk it asked for does not fit the structure.
    InvalidTarget,
    /// The sibling list of a proof does not fit the claimed position and size.
    MalformedProof,
    /// A hex field could not be decoded.
    EncodingError,
}

} // verus!
