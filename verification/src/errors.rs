//! The ways in which building a partitioned garbled circuit can fail.

use vstd::prelude::*;

verus! {

/// A fatal fault of a garbling session.
#[derive(Clone, Copy, Debug, PartialEq, Eq, Structural)]
pub enum GcError {
    /// No fresh, usable keys could be had from the random source.
    InsufficientEntropy,
    /// A gate names a wire that has no usable key pair.
    UnassignedWire,
    /// A gate reads a wire that only it or a later gate produces, so the key
    /// of that wire cannot be carried forward from one partition to the next.
    PartitionContinuityViolation,
}

} // verus!
