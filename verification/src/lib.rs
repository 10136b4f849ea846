//! Filtered directory traversal and a grouping/distribution engine.
//!
//! The crate models a directory tree as a value ([`walk::FsEntry`]), walks it
//! while pruning hidden entries, version-control metadata and build output,
//! and splits the files it finds (together with their accompanying files)
//! round-robin across a configurable number of target directories. Every
//! decision the engine makes — which entries are pruned, which files match,
//! how groups are formed and where each group lands — is stated in contracts
//! and verified. The filesystem work itself (reading directories, creating
//! them, copying files) is left to the caller, who feeds the engine plain
//! values and carries out the plan it returns.

pub mod fs;
pub mod groups;
pub mod paths;
pub mod pattern;
pub mod split;
pub mod strings;
pub mod walk;

pub use split::{DirectorySplitter, FileMatcher, RegexFileMatcher, SplitConfig, SplitError};
pub use walk::{is_git_dir, is_hidden, is_target_dir, walk_filtered, FsEntry};
