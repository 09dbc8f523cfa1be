//! File attributes held as plain values.
use vstd::prelude::*;

verus! {

/// Inode number of the root directory.
pub const ROOT_INODE: u64 = 1;

/// Inode number of the ready sentinel file.
pub const READY_INODE: u64 = 2;

/// First inode number handed out to user objects.
pub const USER_INODE_START: u64 = 10;

/// Preferred block size reported for every node.
pub const BLOCK_SIZE: u32 = 512;

/// Seconds in one hundred years of 365 days: a stored timestamp further
/// than this past the current time is considered corrupt.
pub const CENTURY_SECS: u64 = 3153600000;

/// The kind of a node.
#[derive(Clone, Copy, Debug, PartialEq, Eq, Structural)]
pub enum FileKind {
    RegularFile,
    Directory,
    Symlink,
    BlockDevice,
    CharDevice,
    NamedPipe,
    Socket,
}

/// A point in time as seconds and nanoseconds relative to the Unix epoch.
/// `secs < 0` denotes a time before the epoch.
#[derive(Clone, Copy, Debug, PartialEq, Eq, Structural)]
pub struct Timestamp {
    pub secs: i64,
    pub nanos: u32,
}

impl Timestamp {
    pub open spec fn wf(self) -> bool {
        self.nanos < 1_000_000_000
    }

    pub open spec fn spec_epoch() -> Timestamp {
        Timestamp { secs: 0, nanos: 0 }
    }

    /// The Unix epoch.
    pub fn epoch() -> (r: Timestamp)
        ensures
            r == Timestamp::spec_epoch(),
    {
        Timestamp { secs: 0, nanos: 0 }
    }
}

/// The metadata record of a node.
#[derive(Clone, Copy, Debug, PartialEq, Eq, Structural)]
pub struct FileAttr {
    pub ino: u64,
    pub size: u64,
    pub blocks: u64,
    pub atime: Timestamp,
    pub mtime: Timestamp,
    pub ctime: Timestamp,
    pub crtime: Timestamp,
    pub kind: FileKind,
    pub perm: u16,
    pub nlink: u32,
    pub uid: u32,
    pub gid: u32,
    pub rdev: u32,
    pub flags: u32,
    pub blksize: u32,
}

/// The seconds elapsed since the epoch at `t`, or zero when `t` lies before it.
pub open spec fn secs_since_epoch(t: Timestamp) -> int {
    if t.secs < 0 { 0 } else { t.secs as int }
}

/// A decoded timestamp made safe: before the epoch it becomes the epoch,
/// more than a century after `now` it becomes `now`, otherwise it is kept.
pub open spec fn spec_clamp_time(t: Timestamp, now: Timestamp) -> Timestamp {
    if t.secs < 0 {
        Timestamp::spec_epoch()
    } else if t.secs > secs_since_epoch(now) + CENTURY_SECS {
        now
    } else {
        t
    }
}

/// Normalises a stored timestamp against the current time `now`.
pub fn clamp_time(t: Timestamp, now: Timestamp) -> (r: Timestamp)
    ensures
        r == spec_clamp_time(t, now),
{
    if t.secs < 0 {
        return Timestamp::epoch();
    }
    let now_secs: u64 = if now.secs < 0 { 0 } else { now.secs as u64 };
    if t.secs as u64 > now_secs + CENTURY_SECS {
        now
    } else {
        t
    }
}

/// `attr` with each of its four timestamps normalised against `now`.
pub open spec fn spec_clamp_attr_times(attr: FileAttr, now: Timestamp) -> FileAttr {
    FileAttr {
        atime: spec_clamp_time(attr.atime, now),
        mtime: spec_clamp_time(attr.mtime, now),
        ctime: spec_clamp_time(attr.ctime, now),
        crtime: spec_clamp_time(attr.crtime, now),
        ..attr
    }
}

/// Normalises the timestamps of an attribute record read back from storage.
pub fn clamp_attr_times(attr: FileAttr, now: Timestamp) -> (r: FileAttr)
    ensures
        r == spec_clamp_attr_times(attr, now),
{
    FileAttr {
        atime: clamp_time(attr.atime, now),
        mtime: clamp_time(attr.mtime, now),
        ctime: clamp_time(attr.ctime, now),
        crtime: clamp_time(attr.crtime, now),
        ..attr
    }
}

/// The permission bits of a new object: `(mode & !umask) & 0o7777`.
pub open spec fn spec_creation_perm(mode: u32, umask: u32) -> u16 {
    (mode & !umask & 0o7777u32) as u16
}

/// Computes the permission bits of a new object from the requested mode
/// and the caller's umask.
pub fn creation_perm(mode: u32, umask: u32) -> (r: u16)
    ensures
        r == spec_creation_perm(mode, umask),
        r as u32 == mode & !umask & 0o7777u32,
{
    let p: u32 = mode & !umask & 0o7777u32;
    assert(p <= 0o7777u32) by (bit_vector)
        requires
            p == mode & !umask & 0o7777u32,
    ;
    p as u16
}

/// The attribute record of a freshly created node.
pub open spec fn spec_new_attr(
    ino: u64,
    kind: FileKind,
    perm: u16,
    nlink: u32,
    size: u64,
    now: Timestamp,
    uid: u32,
    gid: u32,
) -> FileAttr {
    FileAttr {
        ino,
        size,
        blocks: 0,
        atime: now,
        mtime: now,
        ctime: now,
        crtime: now,
        kind,
        perm,
        nlink,
        uid,
        gid,
        rdev: 0,
        flags: 0,
        blksize: BLOCK_SIZE,
    }
}

/// Builds the attribute record of a new node created at `now` by the
/// owner `uid`/`gid`.
pub fn new_file_attr(
    ino: u64,
    kind: FileKind,
    perm: u16,
    nlink: u32,
    size: u64,
    now: Timestamp,
    uid: u32,
    gid: u32,
) -> (r: FileAttr)
    ensures
        r == spec_new_attr(ino, kind, perm, nlink, size, now, uid, gid),
{
    FileAttr {
        ino,
        size,
        blocks: 0,
        atime: now,
        mtime: now,
        ctime: now,
        crtime: now,
        kind,
        perm,
        nlink,
        uid,
        gid,
        rdev: 0,
        flags: 0,
        blksize: BLOCK_SIZE,
    }
}

/// The attribute record of the root directory.
pub open spec fn spec_root_dir_attr(now: Timestamp, uid: u32, gid: u32) -> FileAttr {
    spec_new_attr(ROOT_INODE, FileKind::Directory, 0o755u16, 2, 0, now, uid, gid)
}

/// Builds the attribute record of the root directory.
pub fn root_dir_attr(now: Timestamp, uid: u32, gid: u32) -> (r: FileAttr)
    ensures
        r == spec_root_dir_attr(now, uid, gid),
{
    new_file_attr(ROOT_INODE, FileKind::Directory, 0o755u16, 2, 0, now, uid, gid)
}

/// The optional changes of a `setattr` request.  Times are resolved to
/// concrete values by the caller.
#[derive(Clone, Copy, Debug, PartialEq, Eq, Structural)]
pub struct SetAttrRequest {
    pub mode: Option<u32>,
    pub uid: Option<u32>,
    pub gid: Option<u32>,
    pub size: Option<u64>,
    pub atime: Option<Timestamp>,
    pub mtime: Option<Timestamp>,
    pub ctime: Option<Timestamp>,
    pub crtime: Option<Timestamp>,
    pub flags: Option<u32>,
}

pub open spec fn pick<T>(o: Option<T>, d: T) -> T {
    match o {
        Some(v) => v,
        None => d,
    }
}

/// `attr` after the metadata changes of `req`; the size is left alone.
/// Permission bits come from the low 16 bits of the requested mode.
pub open spec fn spec_apply_setattr(attr: FileAttr, req: SetAttrRequest) -> FileAttr {
    FileAttr {
        perm: match req.mode {
            Some(m) => m as u16,
            None => attr.perm,
        },
        uid: pick(req.uid, attr.uid),
        gid: pick(req.gid, attr.gid),
        atime: pick(req.atime, attr.atime),
        mtime: pick(req.mtime, attr.mtime),
        ctime: pick(req.ctime, attr.ctime),
        crtime: pick(req.crtime, attr.crtime),
        flags: pick(req.flags, attr.flags),
        ..attr
    }
}

/// Applies the metadata part of a `setattr` request.
pub fn apply_setattr(attr: FileAttr, req: &SetAttrRequest) -> (r: FileAttr)
    ensures
        r == spec_apply_setattr(attr, *req),
{
    let mut a = attr;
    if let Some(m) = req.mode {
        a.perm = m as u16;
    }
    if let Some(u) = req.uid {
        a.uid = u;
    }
    if let Some(g) = req.gid {
        a.gid = g;
    }
    if let Some(t) = req.atime {
        a.atime = t;
    }
    if let Some(t) = req.mtime {
        a.mtime = t;
    }
    if let Some(t) = req.ctime {
        a.ctime = t;
    }
    if let Some(t) = req.crtime {
        a.crtime = t;
    }
    if let Some(f) = req.flags {
        a.flags = f;
    }
    a
}

} // verus!
