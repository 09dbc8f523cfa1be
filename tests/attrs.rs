use dofs::attr::{
    apply_setattr, clamp_attr_times, clamp_time, creation_perm, new_file_attr, root_dir_attr, FileKind,
    SetAttrRequest, Timestamp, CENTURY_SECS,
};
use dofs::bytes::{bytes_eq, is_hidden_name, read_range, resize_bytes, write_bytes};
use dofs::error::FsError;
use dofs::memory::DirEntry;
use dofs::persistent::{check_create, check_rename_target, check_rmdir, list_rows, next_inode_after, ChildRow};
use dofs::sentinel::{decimal_bytes, millis_to_time, ReadySentinel};

#[test]
fn clamp_time_cases() {
    let now = Timestamp { secs: 1_700_000_000, nanos: 9 };
    let ok = Timestamp { secs: 1_600_000_000, nanos: 1 };
    assert_eq!(clamp_time(ok, now), ok);
    let before = Timestamp { secs: -5, nanos: 0 };
    assert_eq!(clamp_time(before, now), Timestamp { secs: 0, nanos: 0 });
    let edge = Timestamp { secs: 1_700_000_000 + CENTURY_SECS as i64, nanos: 0 };
    assert_eq!(clamp_time(edge, now), edge);
    let far = Timestamp { secs: 1_700_000_001 + CENTURY_SECS as i64, nanos: 0 };
    assert_eq!(clamp_time(far, now), now);
    assert_eq!(CENTURY_SECS, 100 * 365 * 24 * 3600);
}

#[test]
fn clamp_attr_times_touches_only_times() {
    let now = Timestamp { secs: 100, nanos: 0 };
    let mut a = new_file_attr(11, FileKind::RegularFile, 0o644, 1, 5, Timestamp { secs: -1, nanos: 0 }, 1, 2);
    a.mtime = Timestamp { secs: 50, nanos: 3 };
    let c = clamp_attr_times(a, now);
    assert_eq!(c.atime, Timestamp { secs: 0, nanos: 0 });
    assert_eq!(c.mtime, Timestamp { secs: 50, nanos: 3 });
    assert_eq!((c.ino, c.size, c.perm, c.uid, c.gid), (11, 5, 0o644, 1, 2));
}

#[test]
fn permissions() {
    assert_eq!(creation_perm(0o777, 0o022), 0o755);
    assert_eq!(creation_perm(0o170_777, 0), 0o777);
    assert_eq!(creation_perm(0o7777, 0o7000), 0o777);
    let a = root_dir_attr(Timestamp { secs: 1, nanos: 0 }, 3, 4);
    assert_eq!((a.ino, a.perm, a.nlink, a.kind, a.blksize), (1, 0o755, 2, FileKind::Directory, 512));
    let req = SetAttrRequest {
        mode: Some(0x1_2345),
        uid: None,
        gid: None,
        size: Some(3),
        atime: None,
        mtime: None,
        ctime: None,
        crtime: None,
        flags: None,
    };
    let b = apply_setattr(a, &req);
    assert_eq!(b.perm, 0x2345);
    assert_eq!(b.size, a.size);
}

#[test]
fn byte_helpers() {
    assert!(bytes_eq(b"abc", b"abc"));
    assert!(!bytes_eq(b"abc", b"abd"));
    assert!(!bytes_eq(b"abc", b"ab"));
    assert!(is_hidden_name(b"._x"));
    assert!(is_hidden_name(b"._"));
    assert!(!is_hidden_name(b"._"[..1].as_ref()));
    assert!(!is_hidden_name(b"_.x"));
    assert_eq!(read_range(b"hello", 1, 3), b"ell".to_vec());
    assert_eq!(read_range(b"hello", 3, 10), b"lo".to_vec());
    assert_eq!(read_range(b"hello", 9, 10), Vec::<u8>::new());
    let mut v = b"ab".to_vec();
    write_bytes(&mut v, 4, b"z");
    assert_eq!(v, b"ab\0\0z".to_vec());
    write_bytes(&mut v, 1, b"QQ");
    assert_eq!(v, b"aQQ\0z".to_vec());
    resize_bytes(&mut v, 2);
    assert_eq!(v, b"aQ".to_vec());
    resize_bytes(&mut v, 4);
    assert_eq!(v, b"aQ\0\0".to_vec());
}

#[test]
fn sentinel_answers_itself() {
    let s = ReadySentinel { mount_time_ms: 1_700_000_123_456, uid: 5, gid: 6 };
    assert!(s.answers_lookup(1, b".fuse_ready"));
    assert!(!s.answers_lookup(10, b".fuse_ready"));
    assert!(!s.answers_lookup(1, b".fuse_read"));
    assert!(s.answers_inode(2));
    assert!(!s.answers_inode(1));
    let a = s.attr();
    assert_eq!(a.ino, 2);
    assert_eq!(a.size, 13);
    assert_eq!(a.perm, 0o444);
    assert_eq!(a.kind, FileKind::RegularFile);
    assert_eq!(a.mtime, Timestamp { secs: 1_700_000_123, nanos: 456_000_000 });
    assert_eq!((a.uid, a.gid, a.nlink, a.blocks), (5, 6, 1, 1));
    assert_eq!(s.read(0, 100), b"1700000123456".to_vec());
    assert_eq!(s.read(4, 3), b"000".to_vec());
    assert_eq!(s.read(20, 3), Vec::<u8>::new());
}

#[test]
fn decimal_formatting() {
    assert_eq!(decimal_bytes(0), b"0".to_vec());
    assert_eq!(decimal_bytes(7), b"7".to_vec());
    assert_eq!(decimal_bytes(10), b"10".to_vec());
    assert_eq!(decimal_bytes(u64::MAX), u64::MAX.to_string().into_bytes());
    assert_eq!(millis_to_time(1999), Timestamp { secs: 1, nanos: 999_000_000 });
}

#[test]
fn persistent_decisions() {
    assert_eq!(next_inode_after(None), 10);
    assert_eq!(next_inode_after(Some(1)), 10);
    assert_eq!(next_inode_after(Some(9)), 10);
    assert_eq!(next_inode_after(Some(10)), 11);
    assert_eq!(next_inode_after(Some(500)), 501);
    assert_eq!(check_rename_target(None), Ok(()));
    assert_eq!(check_rename_target(Some((FileKind::RegularFile, false))), Ok(()));
    assert_eq!(check_rename_target(Some((FileKind::Directory, false))), Ok(()));
    assert_eq!(check_rename_target(Some((FileKind::Directory, true))), Err(FsError::NotEmpty));
}

#[test]
fn listing_from_rows() {
    let rows = vec![
        ChildRow { ino: 11, kind: FileKind::RegularFile, name: b"x".to_vec() },
        ChildRow { ino: 12, kind: FileKind::Directory, name: b"._hidden".to_vec() },
        ChildRow { ino: 13, kind: FileKind::Symlink, name: b"y".to_vec() },
    ];
    let all: Vec<DirEntry> = list_rows(&rows, false, 0);
    assert_eq!(all.len(), 5);
    assert_eq!(all[0].name, b".".to_vec());
    assert_eq!(all[1].name, b"..".to_vec());
    assert_eq!((all[3].ino, all[3].cookie, all[3].kind), (12, 4, FileKind::Directory));
    let osx = list_rows(&rows, true, 0);
    let names: Vec<Vec<u8>> = osx.iter().map(|e| e.name.clone()).collect();
    assert_eq!(names, vec![b".".to_vec(), b"..".to_vec(), b"x".to_vec(), b"y".to_vec()]);
    let tail = list_rows(&rows, true, 3);
    assert_eq!(tail.len(), 1);
    assert_eq!((tail[0].ino, tail[0].cookie), (13, 4));
    assert!(list_rows(&rows, true, 9).is_empty());
}

#[test]
fn persistent_rmdir_decision() {
    assert_eq!(check_rmdir(None), Err(FsError::NotFound));
    assert_eq!(check_rmdir(Some((FileKind::Directory, false))), Ok(()));
    assert_eq!(check_rmdir(Some((FileKind::Directory, true))), Err(FsError::NotEmpty));
    assert_eq!(check_rmdir(Some((FileKind::RegularFile, false))), Err(FsError::NotDir));
    assert_eq!(check_rmdir(Some((FileKind::Symlink, false))), Err(FsError::NotDir));
}

#[test]
fn persistent_create_decision() {
    assert_eq!(check_create(true, b"._x", false), Err(FsError::Denied));
    assert_eq!(check_create(true, b"._x", true), Err(FsError::Denied));
    assert_eq!(check_create(false, b"._x", false), Ok(()));
    assert_eq!(check_create(true, b"x", true), Err(FsError::Exists));
    assert_eq!(check_create(true, b"x", false), Ok(()));
}
