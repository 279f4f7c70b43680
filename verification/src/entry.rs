//! The files that a run packs.

use vstd::prelude::*;

verus! {

/// One matched file: its full path, and the base name under which it is
/// stored in an archive and listed in the manifest.
#[derive(Clone, Debug, PartialEq, Eq)]
pub struct FileEntry {
    pub path: String,
    pub name: String,
}

impl FileEntry {
    /// An entry for the file at `path`, to be stored as `name`.
    pub fn new(path: String, name: String) -> (entry: FileEntry)
        ensures
            entry.path == path,
            entry.name == name,
    {
        FileEntry { path, name }
    }

    /// A copy of this entry.
    pub fn duplicate(&self) -> (copy: FileEntry)
        ensures
            copy == *self,
    {
        FileEntry { path: self.path.clone(), name: self.name.clone() }
    }
}

} // verus!
