//! The records of the index and the metadata that they carry.

use crate::arena::NodeIndex;
use vstd::prelude::*;

verus! {

/// What kind of object a directory entry is.
#[derive(Clone, Copy, Debug, PartialEq, Eq, PartialOrd, Ord, Hash)]
pub enum FileType {
    Dir,
    File,
    Symlink,
    Unknown,
}

/// What is kept of the metadata of a walked entry. The times are seconds
/// since the Unix epoch, and absent where the file system does not tell
/// them.
#[derive(Clone, Copy, Debug, PartialEq, Eq)]
pub struct NodeMetadata {
    pub ctime: Option<u64>,
    pub mtime: Option<u64>,
    pub size: u64,
}

impl NodeMetadata {
    /// The metadata made of the two times and the size.
    pub fn new(ctime: Option<u64>, mtime: Option<u64>, size: u64) -> (r: Self)
        ensures
            r == (NodeMetadata { ctime, mtime, size }),
    {
        Self { ctime, mtime, size }
    }
}

/// One file-system entry in the arena: its name as an offset into the name
/// pool, the index of its parent, its kind, and its metadata where they
/// could be read. The parent is for looking up only: a record may outlive
/// its parent, and a parent its children.
#[derive(Clone, Copy, Debug, PartialEq, Eq)]
pub struct NodeRecord {
    pub name: usize,
    pub parent: Option<NodeIndex>,
    pub file_type: FileType,
    pub metadata: Option<NodeMetadata>,
}

} // verus!
