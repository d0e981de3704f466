use vstd::prelude::*;

verus! {

/// Kind of a namespace entry. Only directories exist in this scope;
/// regular files are unsupported.
#[derive(Clone, Copy, PartialEq, Eq, Structural, Debug)]
pub enum FileKind {
    Directory,
}

/// Seconds value of the fixed epoch sentinel used for all four timestamps.
pub const EPOCH_SECS: u64 = 0;

/// Permission bits every directory is created with.
pub const DIR_PERM: u16 = 0o755;

/// Link count of a directory.
pub const DIR_NLINK: u32 = 2;

/// Fixed numeric owner id.
pub const OWNER_UID: u32 = 501;

/// Fixed numeric group id.
pub const OWNER_GID: u32 = 20;

/// Fixed block size reported for every entry.
pub const BLOCK_SIZE: u32 = 512;

/// Canonical metadata record of a namespace entry, as exposed at the
/// protocol boundary. Sizes and block counts are always zero and the
/// timestamps are fixed to the epoch sentinel: nothing in scope ever
/// mutates an entry after creation.
#[derive(Clone, Copy, PartialEq, Eq, Structural, Debug)]
pub struct Attributes {
    pub ino: u64,
    pub size: u64,
    pub blocks: u64,
    pub atime: u64,
    pub mtime: u64,
    pub ctime: u64,
    pub crtime: u64,
    pub kind: FileKind,
    pub perm: u16,
    pub nlink: u32,
    pub uid: u32,
    pub gid: u32,
    pub rdev: u32,
    pub flags: u32,
    pub blksize: u32,
}

/// The one attribute record a directory with identity `ino` and permission
/// bits `perm` can have: deterministic defaults in every other field.
pub open spec fn dir_attributes(ino: u64, perm: u16) -> Attributes {
    Attributes {
        ino,
        size: 0,
        blocks: 0,
        atime: EPOCH_SECS,
        mtime: EPOCH_SECS,
        ctime: EPOCH_SECS,
        crtime: EPOCH_SECS,
        kind: FileKind::Directory,
        perm,
        nlink: DIR_NLINK,
        uid: OWNER_UID,
        gid: OWNER_GID,
        rdev: 0,
        flags: 0,
        blksize: BLOCK_SIZE,
    }
}

/// Attribute builder: constructs the canonical record for directory `ino`.
/// Pure construction, no failure mode.
pub fn build_dir_attributes(ino: u64, perm: u16) -> (a: Attributes)
    ensures
        a == dir_attributes(ino, perm),
{
    Attributes {
        ino,
        size: 0,
        blocks: 0,
        atime: EPOCH_SECS,
        mtime: EPOCH_SECS,
        ctime: EPOCH_SECS,
        crtime: EPOCH_SECS,
        kind: FileKind::Directory,
        perm,
        nlink: DIR_NLINK,
        uid: OWNER_UID,
        gid: OWNER_GID,
        rdev: 0,
        flags: 0,
        blksize: BLOCK_SIZE,
    }
}

} // verus!
