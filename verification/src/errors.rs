use vstd::prelude::*;

verus! {

/// Everything that can go wrong while opening a repository or restoring an
/// entry. Every error is fatal for the entry being restored; the driver
/// aggregates them and does not retry.
#[derive(Debug, Clone, Copy, PartialEq, Eq, Structural)]
pub enum RestoreError {
    /// No list archive is present in the backup directory.
    RepoNotFound,
    /// The manifest is missing or malformed.
    ManifestInvalid,
    /// `filelist.json` is malformed or a required field is missing.
    SnapshotInvalid,
    /// A data archive cannot be opened or its directory cannot be parsed.
    ArchiveOpen,
    /// A referenced content block is absent from all archives.
    MissingBlock,
    /// A referenced block-list block is absent from all archives.
    MissingBlocklist,
    /// A non-final content block of a file is not exactly one block long.
    ShortBlock,
    /// The SHA-256 of the assembled bytes differs from the declared digest.
    HashMismatch,
    /// The underlying storage failed while reading an archive entry.
    Io,
}

impl RestoreError {
    /// A short description, in place of `Display` formatting.
    pub open spec fn spec_message(&self) -> Seq<char> {
        match self {
            RestoreError::RepoNotFound => "no dlist archive found in the backup directory"@,
            RestoreError::ManifestInvalid => "manifest missing or malformed"@,
            RestoreError::SnapshotInvalid => "filelist.json malformed or missing a required field"@,
            RestoreError::ArchiveOpen => "cannot open or parse a data archive"@,
            RestoreError::MissingBlock => "a referenced content block is missing"@,
            RestoreError::MissingBlocklist => "a referenced block-list block is missing"@,
            RestoreError::ShortBlock => "a non-final block is not exactly one block long"@,
            RestoreError::HashMismatch => "hash is invalid: expected != calculated"@,
            RestoreError::Io => "error reading an archive entry"@,
        }
    }

    /// A short description, in place of `Display` formatting.
    pub fn message(&self) -> (r: String)
        ensures
            r@ == self.spec_message(),
    {
        match self {
            RestoreError::RepoNotFound => String::from_str(
                "no dlist archive found in the backup directory",
            ),
            RestoreError::ManifestInvalid => String::from_str("manifest missing or malformed"),
            RestoreError::SnapshotInvalid => String::from_str(
                "filelist.json malformed or missing a required field",
            ),
            RestoreError::ArchiveOpen => String::from_str("cannot open or parse a data archive"),
            RestoreError::MissingBlock => String::from_str(
                "a referenced content block is missing",
            ),
            RestoreError::MissingBlocklist => String::from_str(
                "a referenced block-list block is missing",
            ),
            RestoreError::ShortBlock => String::from_str(
                "a non-final block is not exactly one block long",
            ),
            RestoreError::HashMismatch => String::from_str(
                "hash is invalid: expected != calculated",
            ),
            RestoreError::Io => String::from_str("error reading an archive entry"),
        }
    }
}

} // verus!
