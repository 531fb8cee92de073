use vstd::prelude::*;

verus! {

/// Failures of the state store.
#[derive(Clone, Copy, Debug, PartialEq, Eq, Structural)]
pub enum Error {
    /// The trees of a network disagree with each other or with a write.
    InconsistentState { network_id: u32 },
    /// A frontier entry of a non-empty exit tree is missing.
    InconsistentFrontier,
    /// A hash referenced by a sparse Merkle tree node has no stored entry.
    SmtNodeNotFound,
    /// A stored value is not of the variant that its place calls for.
    WrongValueType,
    /// A sparse Merkle tree holds internal nodes below the depth of its kind.
    SmtDepthExceeded,
    /// A transition was asked for whose precondition does not hold.
    UnprocessedAction,
    /// Bytes that do not decode to a value of the expected type.
    Decode,
}

} // verus!
