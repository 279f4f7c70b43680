//! Packing a flat list of files into ZIP archives of a fixed number of
//! files each, with a manifest that says which archive holds which file.
//!
//! The matched files are split, in order, into groups of at most `K`
//! entries. Every group becomes one archive of stored entries, named after
//! the destination and the group's index, and every entry gets one manifest
//! row naming the archive that holds it.
//!
//! Nothing here touches the file system. The caller finds the files, reads
//! them, and writes out what the library hands back:
//!
//! - [`partition`] splits the list into groups;
//! - [`naming`] names the archive of a group;
//! - [`archive`] builds one archive in memory;
//! - [`manifest`] encodes the manifest's header and rows;
//! - [`pipeline`] runs the whole, file by file or in one go;
//! - [`layout`] says where the results go and when a run must not start.

pub mod archive;
pub mod entry;
pub mod error;
pub mod layout;
pub mod manifest;
pub mod naming;
pub mod partition;
pub mod pipeline;
