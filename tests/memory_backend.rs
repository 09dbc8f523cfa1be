use dofs::attr::{FileKind, SetAttrRequest, Timestamp, ROOT_INODE, USER_INODE_START};
use dofs::error::FsError;
use dofs::memory::MemoryProvider;

fn now() -> Timestamp {
    Timestamp { secs: 1_700_000_000, nanos: 5 }
}

fn fresh() -> MemoryProvider {
    MemoryProvider::new(now(), 1000, 100)
}

fn no_changes() -> SetAttrRequest {
    SetAttrRequest {
        mode: None,
        uid: None,
        gid: None,
        size: None,
        atime: None,
        mtime: None,
        ctime: None,
        crtime: None,
        flags: None,
    }
}

#[test]
fn root_is_a_directory() {
    let p = fresh();
    let a = p.getattr(ROOT_INODE).unwrap();
    assert_eq!(a.kind, FileKind::Directory);
    assert_eq!(a.perm, 0o755);
    assert_eq!(a.nlink, 2);
    assert_eq!(a.uid, 1000);
    assert_eq!(a.gid, 100);
    assert_eq!(p.next_inode, USER_INODE_START);
}

#[test]
fn create_write_read_delete_one_mib() {
    let mut p = fresh();
    let a = p.create(ROOT_INODE, b"testfile", 0o644, 0o022, now()).unwrap();
    assert_eq!(a.ino, USER_INODE_START);
    assert_eq!(a.kind, FileKind::RegularFile);
    let data = vec![0x2Au8; 1_048_576];
    assert_eq!(p.write(a.ino, 0, &data), Ok(1_048_576));
    let back = p.read(a.ino, 0, 1_048_576).unwrap();
    assert_eq!(back, data);
    assert_eq!(p.getattr(a.ino).unwrap().size, 1_048_576);
    assert_eq!(p.unlink(ROOT_INODE, b"testfile"), Ok(()));
    assert_eq!(p.lookup(ROOT_INODE, b"testfile"), Err(FsError::NotFound));
    assert_eq!(p.getattr(a.ino), Err(FsError::NotFound));
}

#[test]
fn append_two_halves() {
    let mut p = fresh();
    let a = p.create(ROOT_INODE, b"testfile", 0o644, 0, now()).unwrap();
    p.write(a.ino, 0, &vec![0x01u8; 524_288]).unwrap();
    let end = p.getattr(a.ino).unwrap().size;
    p.write(a.ino, end, &vec![0x02u8; 524_288]).unwrap();
    let back = p.read(a.ino, 0, 1_048_576).unwrap();
    assert_eq!(back.len(), 1_048_576);
    assert!(back[..524_288].iter().all(|&b| b == 0x01));
    assert!(back[524_288..].iter().all(|&b| b == 0x02));
}

#[test]
fn truncate_shrink_then_grow() {
    let mut p = fresh();
    let a = p.create(ROOT_INODE, b"f", 0o644, 0, now()).unwrap();
    p.write(a.ino, 0, &vec![0x07u8; 1_048_576]).unwrap();
    let mut req = no_changes();
    req.size = Some(524_288);
    assert_eq!(p.setattr(a.ino, &req).unwrap().size, 524_288);
    let back = p.read(a.ino, 0, 1_048_576).unwrap();
    assert_eq!(back, vec![0x07u8; 524_288]);
    req.size = Some(1_048_576);
    assert_eq!(p.setattr(a.ino, &req).unwrap().size, 1_048_576);
    let back = p.read(a.ino, 0, 1_048_576).unwrap();
    assert!(back[..524_288].iter().all(|&b| b == 0x07));
    assert!(back[524_288..].iter().all(|&b| b == 0));
}

#[test]
fn rename_moves_the_name_and_keeps_the_inode() {
    let mut p = fresh();
    let a = p.create(ROOT_INODE, b"a", 0o644, 0, now()).unwrap();
    p.write(a.ino, 0, b"hello").unwrap();
    assert_eq!(p.rename(ROOT_INODE, b"a", ROOT_INODE, b"b"), Ok(()));
    let b = p.lookup(ROOT_INODE, b"b").unwrap();
    assert_eq!(b.ino, a.ino);
    assert_eq!(p.lookup(ROOT_INODE, b"a"), Err(FsError::NotFound));
    assert_eq!(p.read(b.ino, 0, 100).unwrap(), b"hello".to_vec());
}

#[test]
fn rename_refusals() {
    let mut p = fresh();
    let f = p.create(ROOT_INODE, b"a", 0o644, 0, now()).unwrap();
    p.create(ROOT_INODE, b"b", 0o644, 0, now()).unwrap();
    assert_eq!(p.rename(ROOT_INODE, b"a", ROOT_INODE, b"b"), Err(FsError::Exists));
    assert_eq!(p.rename(ROOT_INODE, b"zz", ROOT_INODE, b"c"), Err(FsError::NotFound));
    assert_eq!(p.rename(f.ino, b"x", ROOT_INODE, b"c"), Err(FsError::NotDir));
    assert_eq!(p.rename(ROOT_INODE, b"a", 999, b"c"), Err(FsError::NotDir));
}

#[test]
fn rename_into_another_directory() {
    let mut p = fresh();
    let d = p.mkdir(ROOT_INODE, b"d", 0o755, 0, now()).unwrap();
    let f = p.create(ROOT_INODE, b"a", 0o644, 0, now()).unwrap();
    assert_eq!(p.rename(ROOT_INODE, b"a", d.ino, b"moved"), Ok(()));
    assert_eq!(p.lookup(d.ino, b"moved").unwrap().ino, f.ino);
    assert_eq!(p.lookup(ROOT_INODE, b"a"), Err(FsError::NotFound));
}

#[test]
fn symlink_and_readlink() {
    let mut p = fresh();
    let t = p.create(ROOT_INODE, b"t", 0o644, 0, now()).unwrap();
    p.write(t.ino, 0, b"symlink target").unwrap();
    let s = p.symlink(ROOT_INODE, b"s", b"/t", now()).unwrap();
    assert_eq!(s.kind, FileKind::Symlink);
    assert_eq!(s.perm, 0o777);
    assert_eq!(s.size, 2);
    assert_eq!(p.readlink(s.ino).unwrap(), b"/t".to_vec());
    assert_eq!(p.readlink(t.ino), Err(FsError::Invalid));
    assert_eq!(p.read(s.ino, 0, 10), Err(FsError::Invalid));
}

#[test]
fn concurrent_single_byte_updates() {
    let mut p = fresh();
    let f = p.create(ROOT_INODE, b"f", 0o644, 0, now()).unwrap();
    p.write(f.ino, 0, &vec![0u8; 4096]).unwrap();
    // eight writers interleaved one request at a time
    let mut produced: Vec<Vec<u8>> = vec![Vec::new(); 4096];
    for i in 0..1000u32 {
        for tid in 0..8u32 {
            let off = ((tid * 512 + i) % 4096) as u64;
            let v = ((tid ^ i) & 0xFF) as u8;
            p.write(f.ino, off, &[v]).unwrap();
            produced[off as usize].push(v);
        }
    }
    let back = p.read(f.ino, 0, 8192).unwrap();
    assert_eq!(back.len(), 4096);
    assert_eq!(p.getattr(f.ino).unwrap().size, 4096);
    for (k, vals) in produced.iter().enumerate() {
        if !vals.is_empty() {
            assert!(vals.contains(&back[k]));
            assert_eq!(*vals.last().unwrap(), back[k]);
        }
    }
}

#[test]
fn rmdir_not_empty() {
    let mut p = fresh();
    let d = p.mkdir(ROOT_INODE, b"d", 0o755, 0, now()).unwrap();
    p.create(d.ino, b"x", 0o644, 0, now()).unwrap();
    assert_eq!(p.rmdir(ROOT_INODE, b"d"), Err(FsError::NotEmpty));
    assert_eq!(p.unlink(d.ino, b"x"), Ok(()));
    assert_eq!(p.rmdir(ROOT_INODE, b"d"), Ok(()));
    assert_eq!(p.lookup(ROOT_INODE, b"d"), Err(FsError::NotFound));
}

#[test]
fn rmdir_and_unlink_refusals() {
    let mut p = fresh();
    p.create(ROOT_INODE, b"f", 0o644, 0, now()).unwrap();
    p.mkdir(ROOT_INODE, b"d", 0o755, 0, now()).unwrap();
    assert_eq!(p.rmdir(ROOT_INODE, b"f"), Err(FsError::NotDir));
    assert_eq!(p.rmdir(ROOT_INODE, b"nope"), Err(FsError::NotFound));
    assert_eq!(p.unlink(ROOT_INODE, b"d"), Err(FsError::IsDir));
    assert_eq!(p.unlink(ROOT_INODE, b"nope"), Err(FsError::NotFound));
}

#[test]
fn create_refusals_and_permissions() {
    let mut p = fresh();
    let a = p.mkdir(ROOT_INODE, b"d", 0o777, 0o022, now()).unwrap();
    assert_eq!(a.perm, 0o755);
    assert_eq!(a.nlink, 2);
    assert_eq!(a.atime, now());
    assert_eq!(p.mkdir(ROOT_INODE, b"d", 0o777, 0, now()), Err(FsError::Exists));
    assert_eq!(p.create(ROOT_INODE, b"d", 0o777, 0, now()), Err(FsError::Exists));
    assert_eq!(p.create(12345, b"x", 0o777, 0, now()), Err(FsError::NotFound));
    let f = p.create(ROOT_INODE, b"f", 0o104_777, 0o027, now()).unwrap();
    assert_eq!(f.perm, 0o4750);
    assert_eq!(f.ino, a.ino + 1);
}

#[test]
fn osx_mode_blocks_and_hides_dot_underscore() {
    let mut p = MemoryProvider::new_with_mode(true, now(), 0, 0);
    assert_eq!(p.create(ROOT_INODE, b"._meta", 0o644, 0, now()), Err(FsError::Denied));
    assert_eq!(p.mkdir(ROOT_INODE, b"._d", 0o755, 0, now()), Err(FsError::Denied));
    assert_eq!(p.symlink(ROOT_INODE, b"._s", b"x", now()), Err(FsError::Denied));
    p.create(ROOT_INODE, b"_ok", 0o644, 0, now()).unwrap();
    let names: Vec<Vec<u8>> = p.readdir(ROOT_INODE, 0).unwrap().into_iter().map(|e| e.name).collect();
    assert_eq!(names, vec![b".".to_vec(), b"..".to_vec(), b"_ok".to_vec()]);

    let mut q = fresh();
    q.create(ROOT_INODE, b"._meta", 0o644, 0, now()).unwrap();
    assert_eq!(q.readdir(ROOT_INODE, 0).unwrap().len(), 3);
}

#[test]
fn readdir_lists_dots_then_children_once() {
    let mut p = fresh();
    let f = p.create(ROOT_INODE, b"b", 0o644, 0, now()).unwrap();
    let d = p.mkdir(ROOT_INODE, b"a", 0o755, 0, now()).unwrap();
    let s = p.symlink(ROOT_INODE, b"c", b"b", now()).unwrap();
    let all = p.readdir(ROOT_INODE, 0).unwrap();
    let got: Vec<(u64, u64, FileKind, Vec<u8>)> =
        all.into_iter().map(|e| (e.ino, e.cookie, e.kind, e.name)).collect();
    assert_eq!(got, vec![
        (ROOT_INODE, 1, FileKind::Directory, b".".to_vec()),
        (ROOT_INODE, 2, FileKind::Directory, b"..".to_vec()),
        (d.ino, 3, FileKind::Directory, b"a".to_vec()),
        (f.ino, 4, FileKind::RegularFile, b"b".to_vec()),
        (s.ino, 5, FileKind::Symlink, b"c".to_vec()),
    ]);
    let rest = p.readdir(ROOT_INODE, 3).unwrap();
    assert_eq!(rest.len(), 2);
    assert_eq!(rest[0].cookie, 4);
    assert!(p.readdir(ROOT_INODE, 10).unwrap().is_empty());
    assert_eq!(p.readdir(f.ino, 0).unwrap_err(), FsError::NotFound);
}

#[test]
fn write_past_end_zero_fills_the_gap() {
    let mut p = fresh();
    let f = p.create(ROOT_INODE, b"f", 0o644, 0, now()).unwrap();
    p.write(f.ino, 0, b"abc").unwrap();
    p.write(f.ino, 10, b"xy").unwrap();
    assert_eq!(p.read(f.ino, 0, 100).unwrap(), b"abc\0\0\0\0\0\0\0xy".to_vec());
    assert_eq!(p.read(f.ino, 11, 100).unwrap(), b"y".to_vec());
    assert_eq!(p.read(f.ino, 50, 100).unwrap(), Vec::<u8>::new());
}

#[test]
fn single_byte_write_changes_one_byte() {
    let mut p = fresh();
    let f = p.create(ROOT_INODE, b"f", 0o644, 0, now()).unwrap();
    p.write(f.ino, 0, b"0123456789").unwrap();
    p.write(f.ino, 4, b"X").unwrap();
    assert_eq!(p.read(f.ino, 0, 100).unwrap(), b"0123X56789".to_vec());
    assert_eq!(p.read(f.ino, 4, 1).unwrap(), p.read(f.ino, 4, 1).unwrap());
}

#[test]
fn setattr_changes_metadata() {
    let mut p = fresh();
    let f = p.create(ROOT_INODE, b"f", 0o644, 0, now()).unwrap();
    let t = Timestamp { secs: 42, nanos: 7 };
    let req = SetAttrRequest {
        mode: Some(0o1_0600),
        uid: Some(7),
        gid: Some(8),
        size: None,
        atime: Some(t),
        mtime: Some(t),
        ctime: None,
        crtime: None,
        flags: Some(3),
    };
    let a = p.setattr(f.ino, &req).unwrap();
    assert_eq!(a.perm, 0o1_0600);
    assert_eq!((a.uid, a.gid, a.flags), (7, 8, 3));
    assert_eq!(a.atime, t);
    assert_eq!(a.mtime, t);
    assert_eq!(a.ctime, now());
    assert_eq!(p.getattr(f.ino).unwrap(), a);
    assert_eq!(p.setattr(999, &req), Err(FsError::NotFound));
    let d = p.mkdir(ROOT_INODE, b"d", 0o755, 0, now()).unwrap();
    let mut grow = no_changes();
    grow.size = Some(10);
    assert_eq!(p.setattr(d.ino, &grow).unwrap().size, 0);
}

#[test]
fn open_flush_release() {
    let mut p = fresh();
    let f = p.create(ROOT_INODE, b"f", 0o644, 0, now()).unwrap();
    assert_eq!(p.open(f.ino), Ok((0, 0)));
    assert_eq!(p.flush(f.ino), Ok(()));
    assert_eq!(p.release(f.ino), Ok(()));
    assert_eq!(p.open(77), Err(FsError::NotFound));
    assert_eq!(p.flush(77), Err(FsError::NotFound));
    assert_eq!(p.release(77), Err(FsError::NotFound));
    assert_eq!(p.write(77, 0, b"x"), Err(FsError::NotFound));
    assert_eq!(p.read(ROOT_INODE, 0, 1), Err(FsError::NotFound));
}

#[test]
fn readdir_lists_children_in_name_order() {
    let mut p = fresh();
    for name in [&b"b"[..], b"a", b"ab", b"B", b"aa", b"\xff", b"a0"] {
        p.create(ROOT_INODE, name, 0o644, 0, now()).unwrap();
    }
    p.rename(ROOT_INODE, b"B", ROOT_INODE, b"zz").unwrap();
    let names: Vec<Vec<u8>> = p.readdir(ROOT_INODE, 2).unwrap().into_iter().map(|e| e.name).collect();
    let expect: Vec<Vec<u8>> =
        [&b"a"[..], b"a0", b"aa", b"ab", b"b", b"zz", b"\xff"].iter().map(|n| n.to_vec()).collect();
    assert_eq!(names, expect);
}
