//! Errors of the index format.
use vstd::prelude::*;

verus! {

/// Why an index file cannot be used or an entry cannot be stored.
#[derive(Debug, Clone, Copy, PartialEq, Eq, Structural)]
pub enum IndexError {
    /// The format marker is absent or wrong; a build that never reached
    /// `finish` ends up here too.
    CorruptIndex,
    /// The file is shorter than its own declared capacity implies.
    TruncatedIndex,
    /// The probe walk of a digest met no free slot within its step limit.
    NoFreeSlot,
    /// An index for that many entries cannot be addressed on this machine.
    TooLarge,
}

} // verus!
