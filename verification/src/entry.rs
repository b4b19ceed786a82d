//! Directory listings as plain values.

use vstd::prelude::*;

verus! {

/// What a metadata lookup said about one entry of a directory.
#[derive(Clone, Copy, Debug, PartialEq, Eq, Structural)]
pub enum EntryKind {
    /// A regular file.
    File,
    /// A directory.
    Directory,
    /// Something else: a socket, a device, a dangling link.
    Other,
    /// The lookup failed; nothing is known about the entry.
    Unknown,
}

/// One entry of a directory listing.
#[derive(Clone, Debug)]
pub struct DirEntry {
    /// The entry's own name, without the directory in front.
    pub name: String,
    /// The path under which the entry can be reached.
    pub path: String,
    /// The entry's kind at the time of the listing.
    pub kind: EntryKind,
}

impl DirEntry {
    /// An entry from its three parts.
    pub fn new(name: String, path: String, kind: EntryKind) -> (entry: DirEntry)
        ensures
            entry.name == name,
            entry.path == path,
            entry.kind == kind,
    {
        DirEntry { name, path, kind }
    }

    /// True for a regular file.
    pub open spec fn is_file(&self) -> bool {
        self.kind == EntryKind::File
    }

    /// True for a directory.
    pub open spec fn is_dir(&self) -> bool {
        self.kind == EntryKind::Directory
    }
}

} // verus!
