//! In-memory snapshot of a filesystem subtree.
//!
//! The walker and the checkers read nothing but this structure: the caller
//! lists directories (one read per directory), records for every entry its
//! full path in bytes and the metadata the checkers need, and hands the
//! snapshot in.  A subtree whose directory read failed is represented as a
//! node with no children, so the walk goes on past it.

use vstd::prelude::*;

verus! {

/// One filesystem entry: its full path and the children found under it.
pub struct FsNode {
    /// Full path of the entry, as bytes.
    pub path: Vec<u8>,
    /// Whether the entry is a directory.
    pub is_dir: bool,
    /// Whether the entry is a symbolic link.
    pub is_symlink: bool,
    /// The entries listed directly under this one; empty for files and for
    /// directories whose read failed.
    pub children: Vec<FsNode>,
}

} // verus!
