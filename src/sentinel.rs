//! The ready sentinel: a read-only file `.fuse_ready` at the root whose
//! content is the mount time in milliseconds, in decimal ASCII. The
//! dispatcher answers it itself and never forwards it to a backend.
use vstd::prelude::*;
use crate::attr::{FileAttr, FileKind, Timestamp, BLOCK_SIZE, READY_INODE, ROOT_INODE};
use crate::bytes::{bytes_eq, read_range, spec_read_range};

verus! {

/// Seconds for which every reply that carries attributes stays valid.
pub const ATTR_TTL_SECS: u64 = 1;

/// The sentinel's name, `.fuse_ready`.
pub open spec fn ready_name() -> Seq<u8> {
    seq![0x2Eu8, 0x66u8, 0x75u8, 0x73u8, 0x65u8, 0x5Fu8, 0x72u8, 0x65u8, 0x61u8, 0x64u8, 0x79u8]
}

/// The decimal ASCII digits of `n`, most significant first.
pub open spec fn decimal(n: nat) -> Seq<u8>
    decreases n,
{
    if n < 10 {
        seq![(48 + n) as u8]
    } else {
        decimal(n / 10).push((48 + n % 10) as u8)
    }
}

/// Formats `n` in decimal ASCII.
pub fn decimal_bytes(n: u64) -> (r: Vec<u8>)
    ensures
        r@ == decimal(n as nat),
    decreases n,
{
    if n < 10 {
        vec![(48 + n) as u8]
    } else {
        let mut r = decimal_bytes(n / 10);
        r.push((48 + n % 10) as u8);
        r
    }
}

/// The mount time in milliseconds as a timestamp.
pub open spec fn spec_millis_to_time(ms: u64) -> Timestamp {
    Timestamp { secs: (ms / 1000) as i64, nanos: ((ms % 1000) * 1_000_000) as u32 }
}

/// Converts a millisecond count since the epoch into a timestamp.
pub fn millis_to_time(ms: u64) -> (r: Timestamp)
    ensures
        r == spec_millis_to_time(ms),
        r.wf(),
{
    Timestamp { secs: (ms / 1000) as i64, nanos: ((ms % 1000) * 1_000_000) as u32 }
}

/// The sentinel's state: the mount time and the owner of the process.
#[derive(Clone, Copy, Debug)]
pub struct ReadySentinel {
    pub mount_time_ms: u64,
    pub uid: u32,
    pub gid: u32,
}

impl ReadySentinel {
    /// The sentinel's content.
    pub open spec fn content(&self) -> Seq<u8> {
        decimal(self.mount_time_ms as nat)
    }

    /// The sentinel's attributes: inode 2, a read-only regular file whose
    /// size is its content length and whose times are the mount time.
    pub open spec fn spec_attr(&self) -> FileAttr {
        let t = spec_millis_to_time(self.mount_time_ms);
        FileAttr {
            ino: READY_INODE,
            size: self.content().len() as u64,
            blocks: 1,
            atime: t,
            mtime: t,
            ctime: t,
            crtime: t,
            kind: FileKind::RegularFile,
            perm: 0o444u16,
            nlink: 1,
            uid: self.uid,
            gid: self.gid,
            rdev: 0,
            flags: 0,
            blksize: BLOCK_SIZE,
        }
    }

    /// Whether a lookup of `name` in `parent` names the sentinel.
    pub fn answers_lookup(&self, parent: u64, name: &[u8]) -> (r: bool)
        ensures
            r == (parent == ROOT_INODE && name@ == ready_name()),
    {
        let ready: [u8; 11] = [0x2E, 0x66, 0x75, 0x73, 0x65, 0x5F, 0x72, 0x65, 0x61, 0x64, 0x79];
        assert(ready@ =~= ready_name());
        parent == ROOT_INODE && bytes_eq(name, ready.as_slice())
    }

    /// Whether `ino` is the sentinel's inode.
    pub fn answers_inode(&self, ino: u64) -> (r: bool)
        ensures
            r == (ino == READY_INODE),
    {
        ino == READY_INODE
    }

    /// The sentinel's attributes.
    pub fn attr(&self) -> (r: FileAttr)
        ensures
            r == self.spec_attr(),
    {
        let t = millis_to_time(self.mount_time_ms);
        let content = decimal_bytes(self.mount_time_ms);
        FileAttr {
            ino: READY_INODE,
            size: content.len() as u64,
            blocks: 1,
            atime: t,
            mtime: t,
            ctime: t,
            crtime: t,
            kind: FileKind::RegularFile,
            perm: 0o444u16,
            nlink: 1,
            uid: self.uid,
            gid: self.gid,
            rdev: 0,
            flags: 0,
            blksize: BLOCK_SIZE,
        }
    }

    /// Reads up to `size` bytes of the sentinel's content from `offset`.
    pub fn read(&self, offset: u64, size: u32) -> (r: Vec<u8>)
        ensures
            r@ == spec_read_range(self.content(), offset as int, size as int),
    {
        let content = decimal_bytes(self.mount_time_ms);
        read_range(content.as_slice(), offset, size as u64)
    }
}

} // verus!
