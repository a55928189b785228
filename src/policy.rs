//! The depth policy shared by both walks, and the kind of an entry.

use vstd::prelude::*;

verus! {

/// Kind of a filesystem entry, from metadata that does not follow links: a
/// symbolic link is a `SymbolicLink` whatever it points to.
#[derive(Clone, Copy, Debug, PartialEq, Eq, Structural)]
pub enum FileKind {
    Directory,
    SymbolicLink,
    RegularFile,
}

/// Whether a walk standing at `depth` (the root is 0) goes on to depth
/// `depth + 1`: always without a limit, else while `depth + 1 <= max_depth`.
pub open spec fn descends(depth: u32, max_depth: Option<u32>) -> bool {
    match max_depth {
        None => true,
        Some(m) => depth + 1 <= m,
    }
}

pub fn may_descend(depth: u32, max_depth: Option<u32>) -> (r: bool)
    ensures
        r == descends(depth, max_depth),
{
    match max_depth {
        None => true,
        Some(m) => depth < m,
    }
}

/// The depth one level below `depth`. It stays at the largest value there:
/// only a walk without a limit gets so deep, and it never consults the depth.
pub open spec fn child_depth(depth: u32) -> u32 {
    if depth < u32::MAX {
        (depth + 1) as u32
    } else {
        depth
    }
}

pub fn deeper(depth: u32) -> (r: u32)
    ensures
        r == child_depth(depth),
{
    if depth < u32::MAX {
        depth + 1
    } else {
        depth
    }
}

/// The kind given by the two flags of an entry's file type.
pub open spec fn kind_of(is_dir: bool, is_symlink: bool) -> FileKind {
    if is_dir {
        FileKind::Directory
    } else if is_symlink {
        FileKind::SymbolicLink
    } else {
        FileKind::RegularFile
    }
}

pub fn classify(is_dir: bool, is_symlink: bool) -> (r: FileKind)
    ensures
        r == kind_of(is_dir, is_symlink),
{
    if is_dir {
        FileKind::Directory
    } else if is_symlink {
        FileKind::SymbolicLink
    } else {
        FileKind::RegularFile
    }
}

} // verus!
