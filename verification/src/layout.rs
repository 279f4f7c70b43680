//! The destination: what a run writes where, and when it must not start.

use vstd::prelude::*;

verus! {

/// The subdirectory of the destination that takes the archives.
pub const ARCHIVE_DIR: &'static str = "zip";

/// The file in the destination that takes the manifest.
pub const MANIFEST_FILE: &'static str = "results.csv";

/// What is said when the destination already holds something.
pub const POPULATED_NOTICE: &'static str = "Destination folder is not empty.";

/// The number of files per archive where none is asked for.
pub const DEFAULT_FILES_PER_ARCHIVE: usize = 1000;

/// What stands at the destination path before the run.
#[derive(Clone, Copy, Debug, PartialEq, Eq, Structural)]
pub enum Destination {
    /// No directory is there.
    Absent,
    /// A directory without entries.
    Empty,
    /// A directory with at least one entry.
    Populated,
}

/// What has to happen before the first file is packed.
#[derive(Clone, Copy, Debug, PartialEq, Eq, Structural)]
pub enum Preparation {
    /// Create the destination and its archive subdirectory, then run.
    Create,
    /// Run in the directory as it is.
    Run,
    /// Do nothing but give notice, and end without an error.
    Decline,
}

/// The preparation that a destination calls for: a populated one is left
/// alone, an absent one is created, an empty one is used as it is.
pub open spec fn preparation_for(found: Destination) -> Preparation {
    match found {
        Destination::Absent => Preparation::Create,
        Destination::Empty => Preparation::Run,
        Destination::Populated => Preparation::Decline,
    }
}

/// Decides what to do with the destination as it was found.
pub fn prepare(found: Destination) -> (plan: Preparation)
    ensures
        plan == preparation_for(found),
        plan == Preparation::Decline <==> found == Destination::Populated,
{
    match found {
        Destination::Absent => Preparation::Create,
        Destination::Empty => Preparation::Run,
        Destination::Populated => Preparation::Decline,
    }
}

} // verus!
