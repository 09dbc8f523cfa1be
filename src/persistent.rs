//! Decisions of the persistent backends, taken on the plain values that
//! their store hands back: inode allocation on open, directory listings
//! built from child rows, and the check before a rename over an existing
//! destination.
use vstd::prelude::*;
use crate::attr::{FileKind, ROOT_INODE, USER_INODE_START};
use crate::bytes::{is_hidden_name, lemma_lex_asym, lex_lt, spec_is_hidden};
use crate::error::FsError;
use crate::memory::{DirEntry, ListingLine, dot, dotdot};
use vstd::slice::slice_to_vec;

verus! {

/// A child of a directory as a store row: inode, kind and name.
#[derive(Clone, Debug)]
pub struct ChildRow {
    pub ino: u64,
    pub kind: FileKind,
    pub name: Vec<u8>,
}

/// The next inode to hand out for a store whose largest inode is
/// `max_ino`: one past it, and never below the first user inode.
pub open spec fn spec_next_inode(max_ino: Option<u64>) -> u64 {
    let m = match max_ino {
        Some(m) => m,
        None => ROOT_INODE,
    };
    if m < USER_INODE_START { USER_INODE_START } else { (m + 1) as u64 }
}

/// Resumes inode allocation after reopening a store.
pub fn next_inode_after(max_ino: Option<u64>) -> (r: u64)
    requires
        max_ino matches Some(m) ==> m < u64::MAX,
    ensures
        r == spec_next_inode(max_ino),
        r >= USER_INODE_START,
        max_ino matches Some(m) ==> r > m,
{
    let m = match max_ino {
        Some(m) => m,
        None => ROOT_INODE,
    };
    if m < USER_INODE_START {
        USER_INODE_START
    } else {
        m + 1
    }
}

/// Whether `name` may be created where `taken` tells if it is already in
/// use: osx-mode refuses a `._` name first, then a taken name is refused.
pub fn check_create(osx_mode: bool, name: &[u8], taken: bool) -> (r: Result<(), FsError>)
    ensures
        r == if osx_mode && spec_is_hidden(name@) {
            Err::<(), FsError>(FsError::Denied)
        } else if taken {
            Err(FsError::Exists)
        } else {
            Ok(())
        },
{
    if osx_mode && is_hidden_name(name) {
        Err(FsError::Denied)
    } else if taken {
        Err(FsError::Exists)
    } else {
        Ok(())
    }
}

/// Whether a read may go ahead on a node of kind `kind` (`None` when the
/// inode is unknown): an unknown inode is `NotFound`, a symlink `Invalid`.
pub fn check_read(kind: Option<FileKind>) -> (r: Result<(), FsError>)
    ensures
        r == match kind {
            None => Err::<(), FsError>(FsError::NotFound),
            Some(FileKind::Symlink) => Err(FsError::Invalid),
            Some(_) => Ok(()),
        },
{
    match kind {
        None => Err(FsError::NotFound),
        Some(FileKind::Symlink) => Err(FsError::Invalid),
        Some(_) => Ok(()),
    }
}

/// Whether a write may go ahead on a node of kind `kind` (`None` when the
/// inode is unknown): an unknown inode is `NotFound`.
pub fn check_write(kind: Option<FileKind>) -> (r: Result<(), FsError>)
    ensures
        r == match kind {
            None => Err::<(), FsError>(FsError::NotFound),
            Some(_) => Ok(()),
        },
{
    match kind {
        None => Err(FsError::NotFound),
        Some(_) => Ok(()),
    }
}

/// Whether `rmdir` may remove its target: `target` is the target's kind
/// and whether it has children, `None` when the name is missing. Only an
/// existing, empty directory may go.
pub fn check_rmdir(target: Option<(FileKind, bool)>) -> (r: Result<(), FsError>)
    ensures
        r == match target {
            None => Err::<(), FsError>(FsError::NotFound),
            Some((FileKind::Directory, false)) => Ok(()),
            Some((FileKind::Directory, true)) => Err(FsError::NotEmpty),
            Some(_) => Err(FsError::NotDir),
        },
        r is Ok <==> (target matches Some((k, c)) && k == FileKind::Directory && !c),
{
    match target {
        None => Err(FsError::NotFound),
        Some((FileKind::Directory, false)) => Ok(()),
        Some((FileKind::Directory, true)) => Err(FsError::NotEmpty),
        Some(_) => Err(FsError::NotDir),
    }
}

/// Whether a rename may replace its destination: a missing destination or
/// one that is no directory or an empty directory may go; a directory with
/// children may not. `target` is the destination's kind and whether it has
/// children.
pub fn check_rename_target(target: Option<(FileKind, bool)>) -> (r: Result<(), FsError>)
    ensures
        r == match target {
            Some((FileKind::Directory, true)) => Err::<(), FsError>(FsError::NotEmpty),
            _ => Ok(()),
        },
{
    match target {
        Some((FileKind::Directory, true)) => Err(FsError::NotEmpty),
        _ => Ok(()),
    }
}

/// A row that osx-mode lets through.
pub open spec fn row_shown(c: ChildRow, osx_mode: bool) -> bool {
    !(osx_mode && spec_is_hidden(c.name@))
}

/// The listing of a directory whose child rows are `rows`: `.` and `..`
/// (both pointing at the root), then each row in order, less the names
/// that osx-mode hides.
pub open spec fn rows_listing(rows: Seq<ChildRow>, osx_mode: bool) -> Seq<ListingLine>
    decreases rows.len(),
{
    if rows.len() == 0 {
        seq![(ROOT_INODE, FileKind::Directory, dot()), (ROOT_INODE, FileKind::Directory, dotdot())]
    } else {
        let prev = rows_listing(rows.drop_last(), osx_mode);
        let c = rows.last();
        if row_shown(c, osx_mode) {
            prev.push((c.ino, c.kind, c.name@))
        } else {
            prev
        }
    }
}

/// Lists child rows from position `offset` on; each entry carries the
/// cookie `position + 1`.
pub fn list_rows(rows: &Vec<ChildRow>, osx_mode: bool, offset: u64) -> (r: Vec<DirEntry>)
    ensures
        ({
            let l = rows_listing(rows@, osx_mode);
            &&& r@.len() == (if offset < l.len() { l.len() - offset } else { 0 })
            &&& forall|j: int| 0 <= j < r@.len() ==> {
                &&& (#[trigger] r@[j]).ino == l[offset + j].0
                &&& r@[j].kind == l[offset + j].1
                &&& r@[j].name@ == l[offset + j].2
                &&& r@[j].cookie == offset + j + 1
            }
        }),
{
    let ghost cs = rows@;
    let mut lines: Vec<DirEntry> = Vec::new();
    lines.push(DirEntry { ino: ROOT_INODE, cookie: 0, kind: FileKind::Directory, name: vec![0x2Eu8] });
    lines.push(DirEntry { ino: ROOT_INODE, cookie: 0, kind: FileKind::Directory, name: vec![0x2Eu8, 0x2Eu8] });
    proof {
        assert(cs.subrange(0, 0) =~= Seq::<ChildRow>::empty());
        assert(lines@[0].name@ =~= dot());
        assert(lines@[1].name@ =~= dotdot());
    }
    let mut i: usize = 0;
    while i < rows.len()
        invariant
            cs == rows@,
            i <= cs.len(),
            lines@.len() == rows_listing(cs.subrange(0, i as int), osx_mode).len(),
            forall|j: int| 0 <= j < lines@.len() ==> {
                let line = rows_listing(cs.subrange(0, i as int), osx_mode)[j];
                &&& (#[trigger] lines@[j]).ino == line.0
                &&& lines@[j].kind == line.1
                &&& lines@[j].name@ == line.2
            },
        decreases cs.len() - i,
    {
        let c = &rows[i];
        let ghost prev = rows_listing(cs.subrange(0, i as int), osx_mode);
        let ghost next = rows_listing(cs.subrange(0, i + 1), osx_mode);
        proof {
            assert(cs.subrange(0, i + 1).drop_last() =~= cs.subrange(0, i as int));
            assert(cs.subrange(0, i + 1).last() == cs[i as int]);
        }
        let ghost l0 = lines@;
        if !(osx_mode && is_hidden_name(c.name.as_slice())) {
            lines.push(DirEntry { ino: c.ino, cookie: 0, kind: c.kind, name: slice_to_vec(c.name.as_slice()) });
            proof {
                assert(next == prev.push((c.ino, c.kind, c.name@)));
                assert forall|j: int| 0 <= j < lines@.len() implies lines@[j].ino == next[j].0
                    && lines@[j].kind == next[j].1 && lines@[j].name@ == next[j].2 by {
                    if j < l0.len() {
                        assert(lines@[j] == l0[j]);
                        assert(next[j] == prev[j]);
                    }
                }
            }
        } else {
            assert(next == prev);
        }
        i = i + 1;
    }
    proof {
        assert(cs.subrange(0, cs.len() as int) =~= cs);
    }
    let ghost l = rows_listing(cs, osx_mode);
    let mut out: Vec<DirEntry> = Vec::new();
    let mut k: usize = if offset < lines.len() as u64 { offset as usize } else { lines.len() };
    let ghost start = k;
    while k < lines.len()
        invariant
            start <= k <= lines@.len(),
            lines@.len() == l.len(),
            forall|j: int| 0 <= j < lines@.len() ==> {
                &&& (#[trigger] lines@[j]).ino == l[j].0
                &&& lines@[j].kind == l[j].1
                &&& lines@[j].name@ == l[j].2
            },
            start == (if offset < l.len() { offset as int } else { l.len() as int }),
            out@.len() == k - start,
            forall|j: int| 0 <= j < out@.len() ==> {
                &&& (#[trigger] out@[j]).ino == l[start + j].0
                &&& out@[j].kind == l[start + j].1
                &&& out@[j].name@ == l[start + j].2
                &&& out@[j].cookie == start + j + 1
            },
        decreases lines@.len() - k,
    {
        let line = &lines[k];
        out.push(DirEntry {
            ino: line.ino,
            cookie: k as u64 + 1,
            kind: line.kind,
            name: slice_to_vec(line.name.as_slice()),
        });
        k = k + 1;
    }
    out
}

/// Lists directory `ino` from its child rows: `NotFound` unless
/// `dir_kind`, the kind of `ino` (`None` when unknown), is a directory.
pub fn list_dir(dir_kind: Option<FileKind>, rows: &Vec<ChildRow>, osx_mode: bool, offset: u64) -> (r: Result<
    Vec<DirEntry>,
    FsError,
>)
    ensures
        dir_kind != Some(FileKind::Directory) ==> r == Err::<Vec<DirEntry>, FsError>(FsError::NotFound),
        dir_kind == Some(FileKind::Directory) ==> r is Ok && {
            let l = rows_listing(rows@, osx_mode);
            let v = r->Ok_0@;
            &&& v.len() == (if offset < l.len() { l.len() - offset } else { 0 })
            &&& forall|j: int| 0 <= j < v.len() ==> {
                &&& (#[trigger] v[j]).ino == l[offset + j].0
                &&& v[j].kind == l[offset + j].1
                &&& v[j].name@ == l[offset + j].2
                &&& v[j].cookie == offset + j + 1
            }
        },
{
    match dir_kind {
        Some(FileKind::Directory) => Ok(list_rows(rows, osx_mode, offset)),
        _ => Err(FsError::NotFound),
    }
}

/// A listing built from rows with distinct names starts with `.` and `..`,
/// then holds each row that osx-mode lets through exactly once and nothing
/// else; with osx-mode on, no name after `.` and `..` begins with `._`.
#[verifier::rlimit(40)]
pub proof fn lemma_rows_listing(rows: Seq<ChildRow>, osx_mode: bool)
    requires
        forall|a: int, b: int| 0 <= a < rows.len() && 0 <= b < rows.len() && a != b ==> #[trigger] rows[a].name@
            != #[trigger] rows[b].name@,
    ensures
        ({
            let l = rows_listing(rows, osx_mode);
            &&& l.len() >= 2
            &&& l[0] == (ROOT_INODE, FileKind::Directory, dot())
            &&& l[1] == (ROOT_INODE, FileKind::Directory, dotdot())
            &&& forall|j: int| 2 <= j < l.len() ==> exists|i: int| 0 <= i < rows.len()
                && row_shown(rows[i], osx_mode)
                && #[trigger] l[j] == (rows[i].ino, rows[i].kind, rows[i].name@)
            &&& forall|i: int| 0 <= i < rows.len() && row_shown(#[trigger] rows[i], osx_mode)
                ==> exists|j: int| 2 <= j < l.len() && l[j] == (rows[i].ino, rows[i].kind, rows[i].name@)
            &&& forall|j1: int, j2: int| 2 <= j1 < l.len() && 2 <= j2 < l.len() && j1 != j2 ==> #[trigger] l[j1].2
                != #[trigger] l[j2].2
            &&& forall|j: int| 2 <= j < l.len() ==> !(osx_mode && spec_is_hidden(#[trigger] l[j].2))
        }),
    decreases rows.len(),
{
    if rows.len() > 0 {
        let pre = rows.drop_last();
        assert forall|a: int, b: int| 0 <= a < pre.len() && 0 <= b < pre.len() && a != b implies #[trigger] pre[a].name@
            != #[trigger] pre[b].name@ by {
            assert(pre[a] == rows[a] && pre[b] == rows[b]);
        }
        lemma_rows_listing(pre, osx_mode);
        let prev = rows_listing(pre, osx_mode);
        let l = rows_listing(rows, osx_mode);
        let n = rows.len() - 1;
        let c = rows.last();
        assert forall|j: int| 2 <= j < l.len() implies exists|i: int| 0 <= i < rows.len()
            && row_shown(rows[i], osx_mode)
            && #[trigger] l[j] == (rows[i].ino, rows[i].kind, rows[i].name@) by {
            if j < prev.len() {
                let i = choose|i: int| 0 <= i < pre.len() && row_shown(pre[i], osx_mode)
                    && #[trigger] prev[j] == (pre[i].ino, pre[i].kind, pre[i].name@);
                assert(pre[i] == rows[i]);
            } else {
                assert(rows[n] == c);
            }
        }
        assert forall|i: int| 0 <= i < rows.len() && row_shown(#[trigger] rows[i], osx_mode)
            implies exists|j: int| 2 <= j < l.len() && l[j] == (rows[i].ino, rows[i].kind, rows[i].name@) by {
            if i < n {
                assert(pre[i] == rows[i]);
                let j = choose|j: int| 2 <= j < prev.len() && prev[j] == (pre[i].ino, pre[i].kind, pre[i].name@);
                assert(l[j] == prev[j]);
            } else {
                assert(l[prev.len() as int] == (c.ino, c.kind, c.name@));
            }
        }
        assert forall|j1: int, j2: int| 2 <= j1 < l.len() && 2 <= j2 < l.len() && j1 != j2 implies #[trigger] l[j1].2
            != #[trigger] l[j2].2 by {
            if j1 < prev.len() && j2 < prev.len() {
                assert(l[j1] == prev[j1] && l[j2] == prev[j2]);
            } else if j1 < prev.len() {
                let i = choose|i: int| 0 <= i < pre.len() && row_shown(pre[i], osx_mode)
                    && #[trigger] prev[j1] == (pre[i].ino, pre[i].kind, pre[i].name@);
                assert(pre[i] == rows[i]);
                assert(rows[i].name@ != rows[n].name@);
            } else if j2 < prev.len() {
                let i = choose|i: int| 0 <= i < pre.len() && row_shown(pre[i], osx_mode)
                    && #[trigger] prev[j2] == (pre[i].ino, pre[i].kind, pre[i].name@);
                assert(pre[i] == rows[i]);
                assert(rows[i].name@ != rows[n].name@);
            }
        }
        assert forall|j: int| 2 <= j < l.len() implies !(osx_mode && spec_is_hidden(#[trigger] l[j].2)) by {
            if j < prev.len() {
                assert(l[j] == prev[j]);
            }
        }
    }
}

/// A listing built from rows sorted by name lists the rows' names in
/// ascending order after `.` and `..`.
pub proof fn lemma_rows_listing_sorted(rows: Seq<ChildRow>, osx_mode: bool)
    requires
        forall|a: int, b: int| 0 <= a < b < rows.len() ==> lex_lt(#[trigger] rows[a].name@, #[trigger] rows[b].name@),
    ensures
        ({
            let l = rows_listing(rows, osx_mode);
            forall|j1: int, j2: int| 2 <= j1 < j2 < l.len() ==> lex_lt(#[trigger] l[j1].2, #[trigger] l[j2].2)
        }),
    decreases rows.len(),
{
    if rows.len() > 0 {
        let pre = rows.drop_last();
        assert forall|a: int, b: int| 0 <= a < b < pre.len() implies lex_lt(#[trigger] pre[a].name@,
            #[trigger] pre[b].name@) by {
            assert(pre[a] == rows[a] && pre[b] == rows[b]);
        }
        assert forall|a: int, b: int| 0 <= a < pre.len() && 0 <= b < pre.len() && a != b implies
            #[trigger] pre[a].name@ != #[trigger] pre[b].name@ by {
            lemma_lex_asym(pre[a].name@, pre[b].name@);
            if a > b {
                assert(lex_lt(pre[b].name@, pre[a].name@));
            }
        }
        lemma_rows_listing_sorted(pre, osx_mode);
        lemma_rows_listing(pre, osx_mode);
        let prev = rows_listing(pre, osx_mode);
        let l = rows_listing(rows, osx_mode);
        assert forall|j1: int, j2: int| 2 <= j1 < j2 < l.len() implies lex_lt(#[trigger] l[j1].2,
            #[trigger] l[j2].2) by {
            if j2 < prev.len() {
                assert(l[j1] == prev[j1] && l[j2] == prev[j2]);
            } else {
                let i = choose|i: int| 0 <= i < pre.len() && row_shown(pre[i], osx_mode)
                    && #[trigger] prev[j1] == (pre[i].ino, pre[i].kind, pre[i].name@);
                assert(pre[i] == rows[i]);
                assert(l[j1] == prev[j1]);
            }
        }
    }
}

} // verus!
