use vstd::prelude::*;

verus! {

/// Why an instruction call failed. A failed call leaves the storage buffer
/// byte-for-byte unchanged.
#[derive(Clone, Debug, PartialEq, Eq)]
pub enum MTreeError {
    /// The instruction bytes were not a well-formed request.
    InstructionDecodeFailure,
    /// The updated state's encoding would not fit the storage buffer: the
    /// size it needs against the size the buffer has.
    CapacityExceeded { needed: u64, available: u64 },
}

} // verus!
