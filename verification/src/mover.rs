//! Relocation policy: how an item moves between its original path and its
//! grave.
//!
//! A move first attempts an atomic rename; on a cross-device failure it
//! falls back to copy-then-delete.  The decisions of that fallback — how
//! each kind of filesystem object is carried over, and when the user must
//! confirm first — are fixed here; performing the copies is the shell's
//! business.

use vstd::prelude::*;

use crate::paths::spec_join_absolute;
use crate::text::spec_starts_with;

verus! {

/// Files above this many bytes (500 MiB) are considered large: copying
/// one asks for confirmation first, offering to delete it outright.
pub const BIG_FILE_THRESHOLD: u64 = 500 * 1024 * 1024;

/// What a filesystem object is, as far as relocation policy cares.
#[derive(Clone, Copy, Debug, PartialEq, Eq, Structural)]
pub enum FileKind {
    /// A regular file.
    Regular,
    /// A directory.
    Directory,
    /// A symbolic link.
    Symlink,
    /// A named pipe.
    Fifo,
    /// Anything else: device nodes, sockets.
    Other,
}

/// How a single entry is carried across devices during the copy fallback.
#[derive(Clone, Copy, Debug, PartialEq, Eq, Structural)]
pub enum CopyMethod {
    /// Copy the bytes.
    ByteCopy,
    /// Recreate the link, pointing at the same target, not dereferenced.
    RecreateSymlink,
    /// Recreate the pipe with the same permission bits.
    RecreateFifo,
    /// Try a plain copy; on failure ask whether to delete permanently and
    /// leave a placeholder marker at the destination instead.
    AttemptThenPrompt,
}

/// The copy method for each kind of entry.
pub open spec fn spec_copy_method(kind: FileKind) -> CopyMethod {
    match kind {
        FileKind::Regular => CopyMethod::ByteCopy,
        FileKind::Symlink => CopyMethod::RecreateSymlink,
        FileKind::Fifo => CopyMethod::RecreateFifo,
        FileKind::Directory => CopyMethod::AttemptThenPrompt,
        FileKind::Other => CopyMethod::AttemptThenPrompt,
    }
}

/// Decide how one entry is copied during the cross-device fallback.
pub fn copy_method(kind: FileKind) -> (r: CopyMethod)
    ensures
        r == spec_copy_method(kind),
{
    match kind {
        FileKind::Regular => CopyMethod::ByteCopy,
        FileKind::Symlink => CopyMethod::RecreateSymlink,
        FileKind::Fifo => CopyMethod::RecreateFifo,
        FileKind::Directory => CopyMethod::AttemptThenPrompt,
        FileKind::Other => CopyMethod::AttemptThenPrompt,
    }
}

/// Whether a file of this size asks for confirmation before being copied.
pub fn is_big_file(len: u64) -> (r: bool)
    ensures
        r == (len > BIG_FILE_THRESHOLD),
{
    len > BIG_FILE_THRESHOLD
}

/// The display label of a file kind, as listings show it.
pub fn file_type_label(kind: FileKind) -> (r: String)
    ensures
        kind == FileKind::Regular ==> r@ == "file"@,
        kind == FileKind::Directory ==> r@ == "dir"@,
        kind != FileKind::Regular && kind != FileKind::Directory ==> r@ == "other"@,
{
    match kind {
        FileKind::Regular => String::from_str("file"),
        FileKind::Directory => String::from_str("dir"),
        FileKind::Symlink => String::from_str("other"),
        FileKind::Fifo => String::from_str("other"),
        FileKind::Other => String::from_str("other"),
    }
}

/// Where an entry of a walked source tree lands under the destination:
/// the entry's path with the source prefix swapped for the destination.
/// `None` when the entry does not lie under the source at all.
pub fn orphan_dest(source: &str, dest: &str, entry: &str) -> (r: Option<String>)
    ensures
        match r {
            Some(p) => {
                &&& spec_starts_with(entry@, source@)
                &&& p@ == spec_join_absolute(
                    dest@,
                    entry@.subrange(source@.len() as int, entry@.len() as int),
                )
            },
            None => !spec_starts_with(entry@, source@),
        },
{
    match crate::paths::strip_path_prefix(entry, source) {
        Some(rem) => Some(crate::paths::join_absolute(dest, rem.as_str())),
        None => None,
    }
}

} // verus!
