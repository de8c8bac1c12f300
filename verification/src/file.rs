//! File records produced by the directory walk, and the policy that decides
//! which directory entries are emitted, descended into, or skipped.

use vstd::prelude::*;

verus! {

/// One discovered regular file. Created once during traversal and immutable
/// afterwards; later stages refer to it only by its position in the flat
/// record list.
#[derive(Debug, Clone)]
pub struct FileInfo {
    /// Platform file-identity token (the inode number); equal tokens mean the
    /// two paths name the same underlying file.
    pub inode: u64,
    /// Length of the file in bytes.
    pub size: u64,
    /// The path the walk found the file under.
    pub path: String,
}

/// The type of a directory entry, as reported by the platform after following
/// symbolic links.
#[derive(Debug, Clone, Copy, PartialEq, Eq, Structural)]
pub enum EntryKind {
    RegularFile,
    Directory,
    BlockDevice,
    CharDevice,
    Fifo,
    Other,
}

/// What the walk does with one directory entry.
#[derive(Debug, Clone, Copy, PartialEq, Eq, Structural)]
pub enum EntryAction {
    /// Emit a record for a regular file.
    Emit,
    /// Recurse into a directory.
    Descend,
    /// Excluded by policy: devices, pipes, and anything else that is neither
    /// a regular file nor a directory.
    Skip,
}

/// Traversal policy: only regular files are emitted and only directories are
/// descended into; block devices, character devices, FIFOs and any other
/// special entries are skipped, independent of how they were reached.
pub fn entry_action(kind: EntryKind) -> (a: EntryAction)
    ensures
        a == EntryAction::Emit <==> kind == EntryKind::RegularFile,
        a == EntryAction::Descend <==> kind == EntryKind::Directory,
{
    match kind {
        EntryKind::RegularFile => EntryAction::Emit,
        EntryKind::Directory => EntryAction::Descend,
        _ => EntryAction::Skip,
    }
}

} // verus!
