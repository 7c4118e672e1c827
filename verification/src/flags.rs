use vstd::prelude::*;

verus! {

/// The run's command-line choices, as plain values. The command-line edge
/// parses the arguments and fills this in.
#[derive(Debug, Clone)]
pub struct RestoreFlags {
    /// The location of the backup.
    pub backup_dir: String,
    /// A location to restore to; absent in verify-only mode.
    pub restore_dir: Option<String>,
    /// Worker threads; one thread reads and writes files sequentially.
    pub threads_rayon: usize,
    /// Whether to display a progress bar.
    pub progress_bar: bool,
    /// Whether to build the digest → location index (more memory, faster
    /// lookups) instead of probing each archive.
    pub hash_to_path: bool,
    /// Whether to turn backslashes into slashes, for restoring a Windows
    /// backup elsewhere.
    pub replace_backslash_to_slash: Option<bool>,
    /// Whether to verify the backup without writing files.
    pub verify_only: bool,
}

} // verus!
