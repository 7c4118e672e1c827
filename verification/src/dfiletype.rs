use crate::blockhash::BlockIdHash;
use vstd::prelude::*;

verus! {

/// The kind of a snapshot row. Unknown kinds map to `SymLink`, which the
/// restore engine skips.
#[derive(Debug, Clone)]
pub enum FileType {
    File { hash: BlockIdHash, size: i64, time: String },
    Folder { metablockhash: String },
    SymLink,
}

impl FileType {
    /// A file's digest is 32 bytes and its size is not negative.
    pub open spec fn wf(&self) -> bool {
        match self {
            FileType::File { hash, size, .. } => hash.wf() && *size >= 0,
            _ => true,
        }
    }

    pub open spec fn spec_is_file(&self) -> bool {
        self is File
    }

    pub open spec fn spec_is_nonzero_file(&self) -> bool {
        match self {
            FileType::File { size, .. } => *size > 0,
            _ => false,
        }
    }

    pub open spec fn spec_is_folder(&self) -> bool {
        self is Folder
    }

    /// Whether this row is a file with content.
    pub fn is_file(&self) -> (r: bool)
        ensures
            r == self.spec_is_file(),
    {
        matches!(self, FileType::File { .. })
    }

    /// Whether this row is a file with at least one byte of content.
    pub fn is_nonzero_file(&self) -> (r: bool)
        ensures
            r == self.spec_is_nonzero_file(),
    {
        match self {
            FileType::File { size, .. } => *size > 0,
            _ => false,
        }
    }

    /// Whether this row is a folder.
    pub fn is_folder(&self) -> (r: bool)
        ensures
            r == self.spec_is_folder(),
    {
        matches!(self, FileType::Folder { .. })
    }
}

} // verus!
