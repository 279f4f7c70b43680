//! Why a run stops.

use vstd::prelude::*;

verus! {

/// The failures that end a run. Every one of them is fatal: nothing is
/// retried and nothing already produced is taken back.
#[derive(Clone, Copy, Debug, PartialEq, Eq, Structural)]
pub enum PackError {
    /// The number of files per archive was not positive.
    InvalidChunkSize,
    /// The archive writer refused an entry or could not close the archive.
    Archive,
    /// A manifest row could not be encoded.
    Manifest,
}

} // verus!
