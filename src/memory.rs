//! The volatile backend: an in-memory tree of nodes keyed by inode number.
//!
//! Directory entries are kept sorted by name in lexicographic byte order; a
//! listing walks them in that order after the synthesised `.` and `..`
//! entries.
use std::collections::HashMap;
use vstd::prelude::*;
use crate::attr::{
    FileAttr, FileKind, SetAttrRequest, Timestamp, ROOT_INODE, USER_INODE_START, apply_setattr,
    creation_perm, new_file_attr, spec_creation_perm, root_dir_attr, spec_apply_setattr, spec_new_attr,
    spec_root_dir_attr,
};
use crate::bytes::{
    bytes_eq, bytes_lt, lemma_lex_asym, lemma_lex_total, lemma_lex_trans, lex_lt, is_hidden_name, read_range, resize_bytes, spec_is_hidden, spec_read_range,
    spec_resize, spec_write_bytes, write_bytes,
};
use crate::error::FsError;
use vstd::slice::slice_to_vec;
use crate::persistent::{
    lemma_rows_listing, lemma_rows_listing_sorted, list_rows, row_shown, rows_listing, ChildRow,
};

verus! {

broadcast use vstd::std_specs::hash::group_hash_axioms;

/// One entry of a directory: a child name and the child's inode.
#[derive(Clone, Debug)]
pub struct DirChild {
    pub name: Vec<u8>,
    pub ino: u64,
}

/// A regular file: its attributes and content.
#[derive(Clone, Debug)]
pub struct InMemoryFile {
    pub data: Vec<u8>,
    pub attr: FileAttr,
}

/// A directory: its attributes and its entries in insertion order.
#[derive(Clone, Debug)]
pub struct InMemoryDir {
    pub children: Vec<DirChild>,
    pub attr: FileAttr,
}

/// A symbolic link: its attributes and its target bytes.
#[derive(Clone, Debug)]
pub struct InMemorySymlink {
    pub target: Vec<u8>,
    pub attr: FileAttr,
}

/// A node of the tree, tagged by kind.
#[derive(Clone, Debug)]
pub enum Node {
    File(InMemoryFile),
    Dir(InMemoryDir),
    Symlink(InMemorySymlink),
}

impl Node {
    pub open spec fn spec_attr(self) -> FileAttr {
        match self {
            Node::File(f) => f.attr,
            Node::Dir(d) => d.attr,
            Node::Symlink(s) => s.attr,
        }
    }

    /// The entries of a directory; empty for any other kind.
    pub open spec fn entries(self) -> Seq<DirChild> {
        match self {
            Node::Dir(d) => d.children@,
            _ => Seq::empty(),
        }
    }

    /// The node's own consistency: its kind matches its attributes, a
    /// file's size is its content length, and a directory's size is zero.
    pub open spec fn node_ok(self) -> bool {
        match self {
            Node::File(f) => f.attr.kind == FileKind::RegularFile && f.attr.size == f.data@.len(),
            Node::Dir(d) => d.attr.kind == FileKind::Directory && d.attr.size == 0,
            Node::Symlink(s) => s.attr.kind == FileKind::Symlink,
        }
    }

    /// The attributes of the node.
    pub fn attr(&self) -> (r: FileAttr)
        ensures
            r == self.spec_attr(),
    {
        match self {
            Node::File(f) => f.attr,
            Node::Dir(d) => d.attr,
            Node::Symlink(s) => s.attr,
        }
    }
}

/// One entry of a `readdir` reply; `cookie` is the offset that resumes
/// the listing after this entry.
#[derive(Clone, Debug)]
pub struct DirEntry {
    pub ino: u64,
    pub cookie: u64,
    pub kind: FileKind,
    pub name: Vec<u8>,
}

/// The name `.`.
pub open spec fn dot() -> Seq<u8> {
    seq![0x2Eu8]
}

/// The name `..`.
pub open spec fn dotdot() -> Seq<u8> {
    seq![0x2Eu8, 0x2Eu8]
}

/// The content of a file node; empty for any other kind.
pub open spec fn file_data(n: Node) -> Seq<u8> {
    match n {
        Node::File(f) => f.data@,
        _ => Seq::empty(),
    }
}

/// The target of a symlink node; empty for any other kind.
pub open spec fn link_target(n: Node) -> Seq<u8> {
    match n {
        Node::Symlink(s) => s.target@,
        _ => Seq::empty(),
    }
}

/// `new` is `old` with one entry `name -> ino` inserted at its sorted place.
pub open spec fn entries_inserted(old: Seq<DirChild>, new: Seq<DirChild>, name: Seq<u8>, ino: u64) -> bool {
    &&& new.len() == old.len() + 1
    &&& exists|p: int| 0 <= p <= old.len() && #[trigger] new[p].name@ == name && new[p].ino == ino && new.remove(p) == old
}

/// The in-memory backend.
pub struct MemoryProvider {
    pub inodes: HashMap<u64, Node>,
    pub next_inode: u64,
    pub osx_mode: bool,
    /// Owner given to every node this backend creates.
    pub uid: u32,
    pub gid: u32,
}

impl MemoryProvider {
    pub open spec fn nodes(&self) -> Map<u64, Node> {
        self.inodes@
    }

    /// `i` is the index of an entry of directory `d`.
    pub open spec fn has_entry(&self, d: u64, i: int) -> bool {
        self.inodes@.contains_key(d) && 0 <= i < self.inodes@[d].entries().len()
    }

    /// The `i`-th entry of directory `d`.
    pub open spec fn entry(&self, d: u64, i: int) -> DirChild {
        self.inodes@[d].entries()[i]
    }

    pub open spec fn is_dir(&self, ino: u64) -> bool {
        self.inodes@.contains_key(ino) && self.inodes@[ino] is Dir
    }

    /// The index of the entry named `name` in directory `parent`, when there is one.
    pub open spec fn child_index(&self, parent: u64, name: Seq<u8>) -> int {
        choose|i: int| self.has_entry(parent, i) && #[trigger] self.entry(parent, i).name@ == name
    }

    /// The inode that `name` names in directory `parent`, if any.
    pub open spec fn child(&self, parent: u64, name: Seq<u8>) -> Option<u64> {
        if self.is_dir(parent) && exists|i: int|
            self.has_entry(parent, i) && #[trigger] self.entry(parent, i).name@ == name {
            Some(self.entry(parent, self.child_index(parent, name)).ino)
        } else {
            None
        }
    }

    /// The invariants of the tree.
    pub open spec fn wf(&self) -> bool {
        &&& self.is_dir(ROOT_INODE)
        &&& USER_INODE_START <= self.next_inode
        &&& forall|k: u64| #[trigger] self.inodes@.contains_key(k) ==> k < self.next_inode
        &&& forall|k: u64| #[trigger] self.inodes@.contains_key(k) ==> {
            &&& self.inodes@[k].node_ok()
            &&& self.inodes@[k].spec_attr().ino == k
        }
        // every entry names an existing node other than the root
        &&& forall|d: u64, i: int| #[trigger] self.has_entry(d, i) ==> {
            &&& self.inodes@.contains_key(self.entry(d, i).ino)
            &&& self.entry(d, i).ino != ROOT_INODE
        }
        // names are unique within a directory
        &&& forall|d: u64, i: int, j: int|
            self.has_entry(d, i) && self.has_entry(d, j) && i != j ==> #[trigger] self.entry(d, i).name@
                != #[trigger] self.entry(d, j).name@
        // entries are sorted by name
        &&& forall|d: u64, i: int, j: int|
            self.has_entry(d, i) && self.has_entry(d, j) && i < j ==> lex_lt(#[trigger] self.entry(d, i).name@,
                #[trigger] self.entry(d, j).name@)
        // every node is referenced by at most one entry
        &&& forall|d1: u64, i1: int, d2: u64, i2: int|
            self.has_entry(d1, i1) && self.has_entry(d2, i2) && #[trigger] self.entry(d1, i1).ino
                == #[trigger] self.entry(d2, i2).ino ==> d1 == d2 && i1 == i2
    }

    /// A fresh backend holding only the root directory, created at `now`
    /// and owned by `uid`/`gid`.
    pub fn new_with_mode(osx_mode: bool, now: Timestamp, uid: u32, gid: u32) -> (r: MemoryProvider)
        ensures
            r.wf(),
            r.osx_mode == osx_mode,
            r.uid == uid,
            r.gid == gid,
            r.next_inode == USER_INODE_START,
            r.nodes().dom() == set![ROOT_INODE],
            r.nodes()[ROOT_INODE].spec_attr() == spec_root_dir_attr(now, uid, gid),
            r.nodes()[ROOT_INODE].entries().len() == 0,
    {
        let mut inodes: HashMap<u64, Node> = HashMap::new();
        let root = Node::Dir(InMemoryDir { children: Vec::new(), attr: root_dir_attr(now, uid, gid) });
        inodes.insert(ROOT_INODE, root);
        let r = MemoryProvider { inodes, next_inode: USER_INODE_START, osx_mode, uid, gid };
        assert(r.nodes().dom() =~= set![ROOT_INODE]);
        r
    }

    /// A fresh backend with the osx-mode filter off.
    pub fn new(now: Timestamp, uid: u32, gid: u32) -> (r: MemoryProvider)
        ensures
            r.wf(),
            !r.osx_mode,
            r.uid == uid,
            r.gid == gid,
            r.next_inode == USER_INODE_START,
            r.nodes().dom() == set![ROOT_INODE],
            r.nodes()[ROOT_INODE].spec_attr() == spec_root_dir_attr(now, uid, gid),
            r.nodes()[ROOT_INODE].entries().len() == 0,
    {
        Self::new_with_mode(false, now, uid, gid)
    }

    /// Hands out the next inode number.
    pub fn alloc_inode(&mut self) -> (r: u64)
        requires
            old(self).next_inode < u64::MAX,
        ensures
            r == old(self).next_inode,
            final(self).next_inode == old(self).next_inode + 1,
            final(self).inodes == old(self).inodes,
            final(self).osx_mode == old(self).osx_mode,
            final(self).uid == old(self).uid,
            final(self).gid == old(self).gid,
    {
        let ino = self.next_inode;
        self.next_inode = self.next_inode + 1;
        ino
    }

    /// Finds the index of `name` among the entries of a directory.
    fn find_child(children: &Vec<DirChild>, name: &[u8]) -> (r: Option<usize>)
        ensures
            match r {
                Some(i) => i < children@.len() && children@[i as int].name@ == name@,
                None => forall|i: int| 0 <= i < children@.len() ==> children@[i].name@ != name@,
            },
    {
        let mut i: usize = 0;
        while i < children.len()
            invariant
                i <= children@.len(),
                forall|j: int| 0 <= j < i ==> children@[j].name@ != name@,
            decreases children.len() - i,
        {
            if bytes_eq(children[i].name.as_slice(), name) {
                return Some(i);
            }
            i = i + 1;
        }
        None
    }

    proof fn lemma_child_at(&self, parent: u64, name: Seq<u8>, i: int)
        requires
            self.wf(),
            self.is_dir(parent),
            self.has_entry(parent, i),
            self.entry(parent, i).name@ == name,
        ensures
            self.child(parent, name) == Some(self.entry(parent, i).ino),
            self.child_index(parent, name) == i,
    {
        let j = choose|j: int| self.has_entry(parent, j) && #[trigger] self.entry(parent, j).name@ == name;
        if j != i {
            assert(self.entry(parent, i).name@ != self.entry(parent, j).name@);
        }
    }

    /// Looks `name` up in directory `parent`: the index of its entry, or
    /// `None` when `parent` is no directory or has no such entry.
    fn lookup_index(&self, parent: u64, name: &[u8]) -> (r: Option<usize>)
        requires
            self.wf(),
        ensures
            match r {
                Some(i) => self.has_entry(parent, i as int) && self.entry(parent, i as int).name@ == name@
                    && self.child(parent, name@) == Some(self.entry(parent, i as int).ino)
                    && self.child_index(parent, name@) == i,
                None => self.child(parent, name@).is_none(),
            },
    {
        match self.inodes.get(&parent) {
            Some(Node::Dir(dir)) => {
                let r = Self::find_child(&dir.children, name);
                match r {
                    Some(i) => {
                        proof {
                            self.lemma_child_at(parent, name@, i as int);
                        }
                    },
                    None => {
                        assert(!(exists|i: int|
                            self.has_entry(parent, i) && #[trigger] self.entry(parent, i).name@ == name@));
                    },
                }
                r
            },
            _ => None,
        }
    }

    /// The attributes of the node named `name` in `parent`.
    pub fn lookup(&self, parent: u64, name: &[u8]) -> (r: Result<FileAttr, FsError>)
        requires
            self.wf(),
        ensures
            r == match self.child(parent, name@) {
                Some(ino) => Ok(self.nodes()[ino].spec_attr()),
                None => Err(FsError::NotFound),
            },
    {
        match self.lookup_index(parent, name) {
            Some(i) => {
                let ino = match self.inodes.get(&parent) {
                    Some(Node::Dir(dir)) => dir.children[i].ino,
                    _ => 0,
                };
                assert(self.has_entry(parent, i as int));
                match self.inodes.get(&ino) {
                    Some(node) => Ok(node.attr()),
                    None => Err(FsError::NotFound),
                }
            },
            None => Err(FsError::NotFound),
        }
    }

    /// The attributes of inode `ino`.
    pub fn getattr(&self, ino: u64) -> (r: Result<FileAttr, FsError>)
        requires
            self.wf(),
        ensures
            r == if self.nodes().contains_key(ino) {
                Ok(self.nodes()[ino].spec_attr())
            } else {
                Err(FsError::NotFound)
            },
    {
        match self.inodes.get(&ino) {
            Some(node) => Ok(node.attr()),
            None => Err(FsError::NotFound),
        }
    }
}


/// The outcome owed to a request that creates `name` in `parent`.
pub open spec fn spec_check_new(p: &MemoryProvider, parent: u64, name: Seq<u8>) -> Result<(), FsError> {
    if p.osx_mode && spec_is_hidden(name) {
        Err(FsError::Denied)
    } else if !p.is_dir(parent) {
        Err(FsError::NotFound)
    } else if p.child(parent, name).is_some() {
        Err(FsError::Exists)
    } else if p.next_inode == u64::MAX {
        Err(FsError::Io)
    } else {
        Ok(())
    }
}

/// `new` is `old` with the node `ino` added under `parent` as `name`.
pub open spec fn spec_added(old: &MemoryProvider, new: &MemoryProvider, parent: u64, name: Seq<u8>, ino: u64) -> bool {
    &&& new.nodes().dom() == old.nodes().dom().insert(ino)
    &&& forall|k: u64| k != parent && k != ino && #[trigger] old.nodes().contains_key(k) ==> new.nodes()[k] == old.nodes()[k]
    &&& new.nodes()[parent] is Dir
    &&& new.nodes()[parent].spec_attr() == old.nodes()[parent].spec_attr()
    &&& entries_inserted(old.nodes()[parent].entries(), new.nodes()[parent].entries(), name, ino)
    &&& new.next_inode == old.next_inode + 1
}

/// The settings that no operation changes.
pub open spec fn same_config(old: &MemoryProvider, new: &MemoryProvider) -> bool {
    new.osx_mode == old.osx_mode && new.uid == old.uid && new.gid == old.gid
}

impl MemoryProvider {
    /// Checks that `name` may be created in `parent`.
    fn check_new(&self, parent: u64, name: &[u8]) -> (r: Result<(), FsError>)
        requires
            self.wf(),
        ensures
            r == spec_check_new(self, parent, name@),
    {
        if self.osx_mode && is_hidden_name(name) {
            return Err(FsError::Denied);
        }
        match self.inodes.get(&parent) {
            Some(Node::Dir(_)) => {},
            _ => {
                return Err(FsError::NotFound);
            },
        }
        if self.lookup_index(parent, name).is_some() {
            return Err(FsError::Exists);
        }
        if self.next_inode == u64::MAX {
            return Err(FsError::Io);
        }
        Ok(())
    }

    /// Adds `node` under `parent` as `name`, at the next inode number.
    fn insert_node(&mut self, parent: u64, name: &[u8], node: Node) -> (ino: u64)
        requires
            old(self).wf(),
            spec_check_new(old(self), parent, name@) is Ok,
            node.node_ok(),
            node.spec_attr().ino == old(self).next_inode,
            node.entries().len() == 0,
        ensures
            final(self).wf(),
            ino == old(self).next_inode,
            spec_added(old(self), final(self), parent, name@, ino),
            final(self).nodes()[ino] == node,
            same_config(old(self), final(self)),
    {
        let ghost o = *self;
        let ino = self.alloc_inode();
        self.inodes.insert(ino, node);
        proof {
            let n = *self;
            assert(!o.nodes().contains_key(ino));
            assert forall|d: u64, i: int| #[trigger] n.has_entry(d, i) implies o.has_entry(d, i)
                && n.entry(d, i) == o.entry(d, i) by {
                if d == ino {
                    assert(n.nodes()[ino].entries().len() == 0);
                }
            }
            assert forall|k: u64| #[trigger] n.inodes@.contains_key(k) implies k < n.next_inode by {
                if k != ino {
                    assert(o.inodes@.contains_key(k));
                }
            }
            assert forall|d: u64, j: int| #[trigger] n.has_entry(d, j) implies n.entry(d, j).ino != ino by {
                assert(o.has_entry(d, j));
            }
            if exists|i: int| n.has_entry(parent, i) && #[trigger] n.entry(parent, i).name@ == name@ {
                let i = choose|i: int| n.has_entry(parent, i) && #[trigger] n.entry(parent, i).name@ == name@;
                assert(o.has_entry(parent, i));
                o.lemma_child_at(parent, name@, i);
            }
        }
        let ghost mid = *self;
        self.add_entry(parent, DirChild { name: slice_to_vec(name), ino });
        proof {
            assert(ino != parent);
            assert(mid.nodes().contains_key(ino));
            assert(mid.nodes()[parent] == o.nodes()[parent]);
            assert(self.nodes()[ino] == mid.nodes()[ino]);
            assert(self.nodes().dom() =~= o.nodes().dom().insert(ino));
            assert forall|k: u64| k != parent && k != ino && #[trigger] o.nodes().contains_key(k) implies
                self.nodes()[k] == o.nodes()[k] by {
                assert(mid.nodes().contains_key(k));
            }
            assert(entries_inserted(o.nodes()[parent].entries(), self.nodes()[parent].entries(), name@, ino));
        }
        ino
    }

    /// Creates directory `name` in `parent` with permission
    /// `(mode & !umask) & 0o7777` at time `now`.
    pub fn mkdir(&mut self, parent: u64, name: &[u8], mode: u32, umask: u32, now: Timestamp) -> (r: Result<FileAttr, FsError>)
        requires
            old(self).wf(),
        ensures
            final(self).wf(),
            same_config(old(self), final(self)),
            match spec_check_new(old(self), parent, name@) {
                Err(e) => r == Err::<FileAttr, FsError>(e) && *final(self) == *old(self),
                Ok(_) => {
                    let ino = old(self).next_inode;
                    &&& r == Ok::<FileAttr, FsError>(spec_new_attr(ino, FileKind::Directory,
                        spec_creation_perm(mode, umask), 2, 0, now, old(self).uid, old(self).gid))
                    &&& spec_added(old(self), final(self), parent, name@, ino)
                    &&& final(self).nodes()[ino] is Dir
                    &&& final(self).nodes()[ino].spec_attr() == r->Ok_0
                    &&& final(self).nodes()[ino].entries().len() == 0
                },
            },
    {
        match self.check_new(parent, name) {
            Err(e) => Err(e),
            Ok(()) => {
                let perm = creation_perm(mode, umask);
                let attr = new_file_attr(self.next_inode, FileKind::Directory, perm, 2, 0, now, self.uid, self.gid);
                let node = Node::Dir(InMemoryDir { children: Vec::new(), attr });
                self.insert_node(parent, name, node);
                Ok(attr)
            },
        }
    }

    /// Creates the empty regular file `name` in `parent` with permission
    /// `(mode & !umask) & 0o7777` at time `now`.
    pub fn create(&mut self, parent: u64, name: &[u8], mode: u32, umask: u32, now: Timestamp) -> (r: Result<FileAttr, FsError>)
        requires
            old(self).wf(),
        ensures
            final(self).wf(),
            same_config(old(self), final(self)),
            match spec_check_new(old(self), parent, name@) {
                Err(e) => r == Err::<FileAttr, FsError>(e) && *final(self) == *old(self),
                Ok(_) => {
                    let ino = old(self).next_inode;
                    &&& r == Ok::<FileAttr, FsError>(spec_new_attr(ino, FileKind::RegularFile,
                        spec_creation_perm(mode, umask), 1, 0, now, old(self).uid, old(self).gid))
                    &&& spec_added(old(self), final(self), parent, name@, ino)
                    &&& final(self).nodes()[ino] is File
                    &&& final(self).nodes()[ino].spec_attr() == r->Ok_0
                    &&& file_data(final(self).nodes()[ino]).len() == 0
                },
            },
    {
        match self.check_new(parent, name) {
            Err(e) => Err(e),
            Ok(()) => {
                let perm = creation_perm(mode, umask);
                let attr = new_file_attr(self.next_inode, FileKind::RegularFile, perm, 1, 0, now, self.uid, self.gid);
                let node = Node::File(InMemoryFile { data: Vec::new(), attr });
                self.insert_node(parent, name, node);
                Ok(attr)
            },
        }
    }

    /// Creates the symbolic link `name` in `parent` pointing at `target`,
    /// with permission `0o777` at time `now`.
    pub fn symlink(&mut self, parent: u64, name: &[u8], target: &[u8], now: Timestamp) -> (r: Result<FileAttr, FsError>)
        requires
            old(self).wf(),
        ensures
            final(self).wf(),
            same_config(old(self), final(self)),
            match spec_check_new(old(self), parent, name@) {
                Err(e) => r == Err::<FileAttr, FsError>(e) && *final(self) == *old(self),
                Ok(_) => {
                    let ino = old(self).next_inode;
                    &&& r == Ok::<FileAttr, FsError>(spec_new_attr(ino, FileKind::Symlink,
                        0o777u16, 1, target@.len() as u64, now, old(self).uid, old(self).gid))
                    &&& spec_added(old(self), final(self), parent, name@, ino)
                    &&& final(self).nodes()[ino] is Symlink
                    &&& final(self).nodes()[ino].spec_attr() == r->Ok_0
                    &&& link_target(final(self).nodes()[ino]) == target@
                },
            },
    {
        match self.check_new(parent, name) {
            Err(e) => Err(e),
            Ok(()) => {
                let attr = new_file_attr(self.next_inode, FileKind::Symlink, 0o777u16, 1,
                    target.len() as u64, now, self.uid, self.gid);
                let node = Node::Symlink(InMemorySymlink { target: slice_to_vec(target), attr });
                self.insert_node(parent, name, node);
                Ok(attr)
            },
        }
    }
}


/// `new` equals `old` but at `ino`.
pub open spec fn same_except(old: Map<u64, Node>, new: Map<u64, Node>, ino: u64) -> bool {
    &&& new.dom() == old.dom()
    &&& forall|k: u64| k != ino && #[trigger] old.contains_key(k) ==> new[k] == old[k]
}

/// The attributes after a `setattr`: the metadata changes of `req`, and on
/// a regular file the requested size. A size on another kind is ignored.
pub open spec fn spec_setattr_attr(n: Node, req: SetAttrRequest) -> FileAttr {
    let a = spec_apply_setattr(n.spec_attr(), req);
    match (n, req.size) {
        (Node::File(_), Some(s)) => FileAttr { size: s, ..a },
        _ => a,
    }
}

/// `new` is `old` after a `setattr` of `req`.
pub open spec fn spec_setattr_node(old: Node, new: Node, req: SetAttrRequest) -> bool {
    &&& new.spec_attr() == spec_setattr_attr(old, req)
    &&& match old {
        Node::File(f) => new is File && file_data(new) == match req.size {
            Some(s) => spec_resize(f.data@, s as int),
            None => f.data@,
        },
        Node::Dir(d) => new is Dir && new.entries() == d.children@,
        Node::Symlink(l) => new is Symlink && link_target(new) == l.target@,
    }
}

impl MemoryProvider {
    /// Keeps the invariants across a change of one node that keeps its
    /// kind, inode number and entries.
    proof fn lemma_replace_node(o: &MemoryProvider, n: &MemoryProvider, ino: u64)
        requires
            o.wf(),
            o.nodes().contains_key(ino),
            same_except(o.nodes(), n.nodes(), ino),
            n.nodes()[ino].node_ok(),
            n.nodes()[ino].spec_attr().ino == ino,
            n.nodes()[ino].entries() == o.nodes()[ino].entries(),
            (n.nodes()[ino] is Dir) == (o.nodes()[ino] is Dir),
            n.next_inode == o.next_inode,
        ensures
            n.wf(),
    {
        assert forall|d: u64, i: int| #[trigger] n.has_entry(d, i) implies
            n.nodes().contains_key(n.entry(d, i).ino) && n.entry(d, i).ino != ROOT_INODE by {
            assert(o.has_entry(d, i));
        }
        assert forall|d: u64, i: int, j: int|
            n.has_entry(d, i) && n.has_entry(d, j) && i != j implies #[trigger] n.entry(d, i).name@
                != #[trigger] n.entry(d, j).name@ by {
            assert(o.has_entry(d, i) && o.has_entry(d, j));
        }
        assert forall|d: u64, i: int, j: int|
            n.has_entry(d, i) && n.has_entry(d, j) && i < j implies lex_lt(#[trigger] n.entry(d, i).name@,
                #[trigger] n.entry(d, j).name@) by {
            assert(o.has_entry(d, i) && o.has_entry(d, j));
        }
        assert forall|d1: u64, i1: int, d2: u64, i2: int|
            n.has_entry(d1, i1) && n.has_entry(d2, i2) && #[trigger] n.entry(d1, i1).ino
                == #[trigger] n.entry(d2, i2).ino implies d1 == d2 && i1 == i2 by {
            assert(o.has_entry(d1, i1) && o.has_entry(d2, i2));
        }
        assert forall|k: u64| #[trigger] n.inodes@.contains_key(k) implies k < n.next_inode by {
            assert(o.inodes@.contains_key(k));
        }
    }

    /// Reads up to `size` bytes of file `ino` from `offset`; empty past the
    /// end. A symlink is refused with `Invalid`.
    pub fn read(&self, ino: u64, offset: u64, size: u32) -> (r: Result<Vec<u8>, FsError>)
        requires
            self.wf(),
        ensures
            self.nodes().contains_key(ino) && self.nodes()[ino] is File ==> r is Ok
                && r->Ok_0@ == spec_read_range(file_data(self.nodes()[ino]), offset as int, size as int),
            self.nodes().contains_key(ino) && self.nodes()[ino] is Symlink ==> r == Err::<Vec<u8>, FsError>(FsError::Invalid),
            !(self.nodes().contains_key(ino) && (self.nodes()[ino] is File || self.nodes()[ino] is Symlink))
                ==> r == Err::<Vec<u8>, FsError>(FsError::NotFound),
    {
        match self.inodes.get(&ino) {
            Some(Node::File(f)) => Ok(read_range(f.data.as_slice(), offset, size as u64)),
            Some(Node::Symlink(_)) => Err(FsError::Invalid),
            _ => Err(FsError::NotFound),
        }
    }

    /// Writes `data` into file `ino` at `offset`, zero-filling any gap, and
    /// returns the number of bytes written.
    pub fn write(&mut self, ino: u64, offset: u64, data: &[u8]) -> (r: Result<usize, FsError>)
        requires
            old(self).wf(),
            offset + data@.len() <= usize::MAX,
        ensures
            final(self).wf(),
            same_config(old(self), final(self)),
            final(self).next_inode == old(self).next_inode,
            old(self).nodes().contains_key(ino) && old(self).nodes()[ino] is File ==> {
                let content = spec_write_bytes(file_data(old(self).nodes()[ino]), offset as int, data@);
                &&& r == Ok::<usize, FsError>(data@.len() as usize)
                &&& same_except(old(self).nodes(), final(self).nodes(), ino)
                &&& final(self).nodes()[ino] is File
                &&& file_data(final(self).nodes()[ino]) == content
                &&& final(self).nodes()[ino].spec_attr() == FileAttr {
                    size: content.len() as u64,
                    ..old(self).nodes()[ino].spec_attr()
                }
            },
            !(old(self).nodes().contains_key(ino) && old(self).nodes()[ino] is File) ==> r
                == Err::<usize, FsError>(FsError::NotFound) && *final(self) == *old(self),
    {
        match self.inodes.get(&ino) {
            Some(Node::File(_)) => {},
            _ => {
                return Err(FsError::NotFound);
            },
        }
        let ghost old_self = *self;
        let removed = self.inodes.remove(&ino);
        if let Some(Node::File(mut f)) = removed {
            write_bytes(&mut f.data, offset, data);
            f.attr.size = f.data.len() as u64;
            self.inodes.insert(ino, Node::File(f));
        }
        proof {
            assert(same_except(old_self.nodes(), self.nodes(), ino));
            Self::lemma_replace_node(&old_self, self, ino);
        }
        Ok(data.len())
    }

    /// Applies a `setattr` request to node `ino` and returns its new
    /// attributes. A size resizes a regular file's content (zero-filling
    /// when it grows) and is ignored on other kinds.
    pub fn setattr(&mut self, ino: u64, req: &SetAttrRequest) -> (r: Result<FileAttr, FsError>)
        requires
            old(self).wf(),
            req.size matches Some(s) ==> s <= usize::MAX,
        ensures
            final(self).wf(),
            same_config(old(self), final(self)),
            final(self).next_inode == old(self).next_inode,
            old(self).nodes().contains_key(ino) ==> {
                &&& r == Ok::<FileAttr, FsError>(spec_setattr_attr(old(self).nodes()[ino], *req))
                &&& same_except(old(self).nodes(), final(self).nodes(), ino)
                &&& spec_setattr_node(old(self).nodes()[ino], final(self).nodes()[ino], *req)
            },
            !old(self).nodes().contains_key(ino) ==> r == Err::<FileAttr, FsError>(FsError::NotFound)
                && *final(self) == *old(self),
    {
        if !self.inodes.contains_key(&ino) {
            return Err(FsError::NotFound);
        }
        let ghost old_self = *self;
        let removed = self.inodes.remove(&ino);
        match removed {
            None => Err(FsError::NotFound),
            Some(node) => {
                let new_node = match node {
                    Node::File(mut f) => {
                        let mut a = apply_setattr(f.attr, req);
                        if let Some(s) = req.size {
                            resize_bytes(&mut f.data, s as usize);
                            a.size = s;
                        }
                        f.attr = a;
                        Node::File(f)
                    },
                    Node::Dir(mut d) => {
                        d.attr = apply_setattr(d.attr, req);
                        Node::Dir(d)
                    },
                    Node::Symlink(mut l) => {
                        l.attr = apply_setattr(l.attr, req);
                        Node::Symlink(l)
                    },
                };
                let a = new_node.attr();
                self.inodes.insert(ino, new_node);
                proof {
                    assert(same_except(old_self.nodes(), self.nodes(), ino));
                    Self::lemma_replace_node(&old_self, self, ino);
                }
                Ok(a)
            },
        }
    }

    /// The target of symlink `ino`; any other node is refused with `Invalid`.
    pub fn readlink(&self, ino: u64) -> (r: Result<Vec<u8>, FsError>)
        requires
            self.wf(),
        ensures
            self.nodes().contains_key(ino) && self.nodes()[ino] is Symlink ==> r is Ok
                && r->Ok_0@ == link_target(self.nodes()[ino]),
            !(self.nodes().contains_key(ino) && self.nodes()[ino] is Symlink) ==> r
                == Err::<Vec<u8>, FsError>(FsError::Invalid),
    {
        match self.inodes.get(&ino) {
            Some(Node::Symlink(l)) => Ok(l.target.clone()),
            _ => Err(FsError::Invalid),
        }
    }

    /// Opens `ino`: handle `0` and flags `0` when it exists.
    pub fn open(&self, ino: u64) -> (r: Result<(u64, u32), FsError>)
        requires
            self.wf(),
        ensures
            r == if self.nodes().contains_key(ino) {
                Ok::<(u64, u32), FsError>((0u64, 0u32))
            } else {
                Err(FsError::NotFound)
            },
    {
        if self.inodes.contains_key(&ino) {
            Ok((0, 0))
        } else {
            Err(FsError::NotFound)
        }
    }

    /// Flushes `ino`: nothing to do beyond checking that it exists.
    pub fn flush(&self, ino: u64) -> (r: Result<(), FsError>)
        requires
            self.wf(),
        ensures
            r == if self.nodes().contains_key(ino) {
                Ok::<(), FsError>(())
            } else {
                Err(FsError::NotFound)
            },
    {
        if self.inodes.contains_key(&ino) {
            Ok(())
        } else {
            Err(FsError::NotFound)
        }
    }

    /// Releases `ino`: nothing to do beyond checking that it exists.
    pub fn release(&self, ino: u64) -> (r: Result<(), FsError>)
        requires
            self.wf(),
        ensures
            r == if self.nodes().contains_key(ino) {
                Ok::<(), FsError>(())
            } else {
                Err(FsError::NotFound)
            },
    {
        if self.inodes.contains_key(&ino) {
            Ok(())
        } else {
            Err(FsError::NotFound)
        }
    }
}


/// `new` is `old` with entry `i` of `parent` and the node `ino` it named removed.
pub open spec fn spec_removed(old: &MemoryProvider, new: &MemoryProvider, parent: u64, i: int, ino: u64) -> bool {
    &&& new.nodes().dom() == old.nodes().dom().remove(ino)
    &&& forall|k: u64| k != parent && k != ino && #[trigger] old.nodes().contains_key(k) ==> new.nodes()[k] == old.nodes()[k]
    &&& new.nodes()[parent] is Dir
    &&& new.nodes()[parent].spec_attr() == old.nodes()[parent].spec_attr()
    &&& new.nodes()[parent].entries() == old.nodes()[parent].entries().remove(i)
    &&& new.next_inode == old.next_inode
}

/// `new` is `old` with entry `i` of `parent`, which names `ino`, moved to
/// `newparent` under `newname`; the node itself is untouched.
pub open spec fn spec_moved(
    old: &MemoryProvider,
    new: &MemoryProvider,
    parent: u64,
    i: int,
    newparent: u64,
    newname: Seq<u8>,
    ino: u64,
) -> bool {
    &&& new.nodes().dom() == old.nodes().dom()
    &&& forall|k: u64| k != parent && k != newparent && #[trigger] old.nodes().contains_key(k) ==> new.nodes()[k] == old.nodes()[k]
    &&& new.nodes()[parent] is Dir
    &&& new.nodes()[newparent] is Dir
    &&& new.nodes()[parent].spec_attr() == old.nodes()[parent].spec_attr()
    &&& new.nodes()[newparent].spec_attr() == old.nodes()[newparent].spec_attr()
    &&& if parent == newparent {
        entries_inserted(old.nodes()[parent].entries().remove(i), new.nodes()[parent].entries(), newname, ino)
    } else {
        &&& new.nodes()[parent].entries() == old.nodes()[parent].entries().remove(i)
        &&& entries_inserted(old.nodes()[newparent].entries(), new.nodes()[newparent].entries(), newname, ino)
    }
    &&& new.next_inode == old.next_inode
}

impl MemoryProvider {
    /// Takes entry `i` out of directory `parent`; the node it names stays.
    fn remove_entry(&mut self, parent: u64, i: usize) -> (c: DirChild)
        requires
            old(self).wf(),
            old(self).is_dir(parent),
            old(self).has_entry(parent, i as int),
        ensures
            final(self).wf(),
            c == old(self).entry(parent, i as int),
            same_except(old(self).nodes(), final(self).nodes(), parent),
            final(self).nodes()[parent] is Dir,
            final(self).nodes()[parent].spec_attr() == old(self).nodes()[parent].spec_attr(),
            final(self).nodes()[parent].entries() == old(self).nodes()[parent].entries().remove(i as int),
            final(self).next_inode == old(self).next_inode,
            same_config(old(self), final(self)),
    {
        let ghost o = *self;
        let removed = self.inodes.remove(&parent);
        let mut c = DirChild { name: Vec::new(), ino: 0 };
        if let Some(Node::Dir(mut d)) = removed {
            c = d.children.remove(i);
            self.inodes.insert(parent, Node::Dir(d));
        }
        proof {
            let n = *self;
            let oe = o.nodes()[parent].entries();
            assert(n.nodes().dom() =~= o.nodes().dom());
            assert(forall|j: int| 0 <= j < i ==> n.entry(parent, j) == oe[j]);
            assert(forall|j: int| i <= j < oe.len() - 1 ==> n.entry(parent, j) == oe[j + 1]);
            assert forall|d: u64, j: int| #[trigger] n.has_entry(d, j) implies
                n.nodes().contains_key(n.entry(d, j).ino) && n.entry(d, j).ino != ROOT_INODE by {
                if d == parent && j >= i {
                    assert(o.has_entry(d, j + 1));
                } else {
                    assert(o.has_entry(d, j));
                }
            }
            assert forall|d: u64, j: int, k: int|
                n.has_entry(d, j) && n.has_entry(d, k) && j != k implies #[trigger] n.entry(d, j).name@
                    != #[trigger] n.entry(d, k).name@ by {
                let oj = if d == parent && j >= i { j + 1 } else { j };
                let ok = if d == parent && k >= i { k + 1 } else { k };
                assert(o.has_entry(d, oj) && o.has_entry(d, ok));
                assert(o.entry(d, oj) == n.entry(d, j));
                assert(o.entry(d, ok) == n.entry(d, k));
            }
            assert forall|d: u64, j: int, k: int|
                n.has_entry(d, j) && n.has_entry(d, k) && j < k implies lex_lt(#[trigger] n.entry(d, j).name@,
                    #[trigger] n.entry(d, k).name@) by {
                let oj = if d == parent && j >= i { j + 1 } else { j };
                let ok = if d == parent && k >= i { k + 1 } else { k };
                assert(o.has_entry(d, oj) && o.has_entry(d, ok));
                assert(o.entry(d, oj) == n.entry(d, j));
                assert(o.entry(d, ok) == n.entry(d, k));
            }
            assert forall|d1: u64, i1: int, d2: u64, i2: int|
                n.has_entry(d1, i1) && n.has_entry(d2, i2) && #[trigger] n.entry(d1, i1).ino
                    == #[trigger] n.entry(d2, i2).ino implies d1 == d2 && i1 == i2 by {
                let o1 = if d1 == parent && i1 >= i { i1 + 1 } else { i1 };
                let o2 = if d2 == parent && i2 >= i { i2 + 1 } else { i2 };
                assert(o.has_entry(d1, o1) && o.has_entry(d2, o2));
                assert(o.entry(d1, o1) == n.entry(d1, i1));
                assert(o.entry(d2, o2) == n.entry(d2, i2));
            }
            assert forall|k: u64| #[trigger] n.inodes@.contains_key(k) implies k < n.next_inode by {
                assert(o.inodes@.contains_key(k));
            }
        }
        c
    }

    /// Inserts entry `c` into directory `parent` at its sorted place; `c`
    /// names an existing node that no entry names yet, under a name that
    /// `parent` does not hold.
    fn add_entry(&mut self, parent: u64, c: DirChild)
        requires
            old(self).wf(),
            old(self).is_dir(parent),
            old(self).nodes().contains_key(c.ino),
            c.ino != ROOT_INODE,
            forall|d: u64, j: int| #[trigger] old(self).has_entry(d, j) ==> old(self).entry(d, j).ino != c.ino,
            old(self).child(parent, c.name@).is_none(),
        ensures
            final(self).wf(),
            same_except(old(self).nodes(), final(self).nodes(), parent),
            final(self).nodes()[parent] is Dir,
            final(self).nodes()[parent].spec_attr() == old(self).nodes()[parent].spec_attr(),
            entries_inserted(old(self).nodes()[parent].entries(), final(self).nodes()[parent].entries(), c.name@, c.ino),
            final(self).next_inode == old(self).next_inode,
            same_config(old(self), final(self)),
    {
        let ghost o = *self;
        let ghost cn = c.name@;
        let ghost ci = c.ino;
        let ghost oe = o.nodes()[parent].entries();
        let removed = self.inodes.remove(&parent);
        let mut pos: usize = 0;
        if let Some(Node::Dir(mut d)) = removed {
            assert(d.children@ == oe);
            let mut go = true;
            while go
                invariant
                    d.children@ == oe,
                    c.name@ == cn,
                    pos <= oe.len(),
                    forall|k: int| 0 <= k < pos ==> lex_lt(#[trigger] oe[k].name@, cn),
                    !go ==> pos == oe.len() || !lex_lt(oe[pos as int].name@, cn),
                decreases oe.len() - pos + (if go { 1int } else { 0int }),
            {
                if pos >= d.children.len() {
                    go = false;
                } else if !bytes_lt(d.children[pos].name.as_slice(), c.name.as_slice()) {
                    go = false;
                } else {
                    pos = pos + 1;
                }
            }
            d.children.insert(pos, c);
            self.inodes.insert(parent, Node::Dir(d));
        }
        proof {
            let n = *self;
            let ne = n.nodes()[parent].entries();
            let p = pos as int;
            assert(n.nodes().dom() =~= o.nodes().dom());
            assert(forall|j: int| 0 <= j < p ==> ne[j] == oe[j]);
            assert(forall|j: int| p < j < ne.len() ==> ne[j] == oe[j - 1]);
            assert(ne.remove(p) =~= oe);
            assert(ne[p].name@ == cn && ne[p].ino == ci);
            assert(entries_inserted(oe, ne, cn, ci));
            Self::lemma_inserted_wf(&o, &n, parent, p, cn, ci);
        }
    }

    proof fn lemma_inserted_wf(o: &MemoryProvider, n: &MemoryProvider, parent: u64, p: int, cn: Seq<u8>, ci: u64)
        requires
            o.wf(),
            o.is_dir(parent),
            o.nodes().contains_key(ci),
            ci != ROOT_INODE,
            forall|d: u64, j: int| #[trigger] o.has_entry(d, j) ==> o.entry(d, j).ino != ci,
            o.child(parent, cn).is_none(),
            same_except(o.nodes(), n.nodes(), parent),
            n.nodes()[parent] is Dir,
            n.nodes()[parent].spec_attr() == o.nodes()[parent].spec_attr(),
            n.next_inode == o.next_inode,
            ({
                let oe = o.nodes()[parent].entries();
                let ne = n.nodes()[parent].entries();
                &&& 0 <= p <= oe.len()
                &&& ne.len() == oe.len() + 1
                &&& forall|j: int| 0 <= j < p ==> ne[j] == oe[j]
                &&& forall|j: int| p < j < ne.len() ==> ne[j] == oe[j - 1]
                &&& ne[p].name@ == cn
                &&& ne[p].ino == ci
                &&& forall|k: int| 0 <= k < p ==> lex_lt(#[trigger] oe[k].name@, cn)
                &&& p < oe.len() ==> !lex_lt(oe[p].name@, cn)
            }),
        ensures
            n.wf(),
    {
        let oe = o.nodes()[parent].entries();
        let ne = n.nodes()[parent].entries();
        // the new name differs from every old one
        assert forall|k: int| 0 <= k < oe.len() implies oe[k].name@ != cn by {
            assert(o.has_entry(parent, k));
            if oe[k].name@ == cn {
                o.lemma_child_at(parent, cn, k);
            }
        }
        // and sorts before those after it
        assert forall|k: int| p <= k < oe.len() implies lex_lt(cn, #[trigger] oe[k].name@) by {
            assert(o.has_entry(parent, p) && o.has_entry(parent, k));
            lemma_lex_total(oe[p].name@, cn);
            if k > p {
                assert(o.entry(parent, p) == oe[p] && o.entry(parent, k) == oe[k]);
                lemma_lex_trans(cn, oe[p].name@, oe[k].name@);
            }
        }
        assert forall|d: u64, i: int| #[trigger] n.has_entry(d, i) implies
            n.nodes().contains_key(n.entry(d, i).ino) && n.entry(d, i).ino != ROOT_INODE by {
            if !(d == parent && i == p) {
                let si = if d == parent && i > p { i - 1 } else { i };
                assert(o.has_entry(d, si));
                assert(n.entry(d, i) == o.entry(d, si));
            }
        }
        assert forall|d: u64, i: int, j: int|
            n.has_entry(d, i) && n.has_entry(d, j) && i < j implies lex_lt(#[trigger] n.entry(d, i).name@,
                #[trigger] n.entry(d, j).name@) by {
            if d == parent && i == p {
                assert(n.entry(d, j) == oe[j - 1]);
            } else if d == parent && j == p {
                assert(n.entry(d, i) == oe[i]);
            } else {
                let si = if d == parent && i > p { i - 1 } else { i };
                let sj = if d == parent && j > p { j - 1 } else { j };
                assert(o.has_entry(d, si) && o.has_entry(d, sj));
                assert(n.entry(d, i) == o.entry(d, si));
                assert(n.entry(d, j) == o.entry(d, sj));
            }
        }
        assert forall|d: u64, i: int, j: int|
            n.has_entry(d, i) && n.has_entry(d, j) && i != j implies #[trigger] n.entry(d, i).name@
                != #[trigger] n.entry(d, j).name@ by {
            lemma_lex_asym(n.entry(d, i).name@, n.entry(d, j).name@);
            if i < j {
                assert(lex_lt(n.entry(d, i).name@, n.entry(d, j).name@));
            } else {
                assert(lex_lt(n.entry(d, j).name@, n.entry(d, i).name@));
            }
        }
        assert forall|d1: u64, i1: int, d2: u64, i2: int|
            n.has_entry(d1, i1) && n.has_entry(d2, i2) && #[trigger] n.entry(d1, i1).ino
                == #[trigger] n.entry(d2, i2).ino implies d1 == d2 && i1 == i2 by {
            if !(d1 == parent && i1 == p) {
                let s1 = if d1 == parent && i1 > p { i1 - 1 } else { i1 };
                assert(o.has_entry(d1, s1));
                assert(n.entry(d1, i1) == o.entry(d1, s1));
            }
            if !(d2 == parent && i2 == p) {
                let s2 = if d2 == parent && i2 > p { i2 - 1 } else { i2 };
                assert(o.has_entry(d2, s2));
                assert(n.entry(d2, i2) == o.entry(d2, s2));
            }
        }
        assert forall|k: u64| #[trigger] n.inodes@.contains_key(k) implies k < n.next_inode by {
            assert(o.inodes@.contains_key(k));
        }
        assert forall|k: u64| #[trigger] n.inodes@.contains_key(k) implies {
            &&& n.inodes@[k].node_ok()
            &&& n.inodes@[k].spec_attr().ino == k
        } by {
            assert(o.inodes@.contains_key(k));
        }
    }

    /// Drops node `ino`, which no entry names and which has no entries.
    fn drop_node(&mut self, ino: u64)
        requires
            old(self).wf(),
            ino != ROOT_INODE,
            old(self).nodes().contains_key(ino),
            old(self).nodes()[ino].entries().len() == 0,
            forall|d: u64, j: int| #[trigger] old(self).has_entry(d, j) ==> old(self).entry(d, j).ino != ino,
        ensures
            final(self).wf(),
            final(self).nodes() == old(self).nodes().remove(ino),
            final(self).next_inode == old(self).next_inode,
            same_config(old(self), final(self)),
    {
        let ghost o = *self;
        self.inodes.remove(&ino);
        proof {
            let n = *self;
            assert forall|d: u64, i: int| #[trigger] n.has_entry(d, i) implies o.has_entry(d, i)
                && n.entry(d, i) == o.entry(d, i) by {
            }
            assert forall|k: u64| #[trigger] n.inodes@.contains_key(k) implies k < n.next_inode by {
                assert(o.inodes@.contains_key(k));
            }
        }
    }

    /// Removes the file or symlink `name` from `parent`; a directory is
    /// refused with `IsDir`.
    pub fn unlink(&mut self, parent: u64, name: &[u8]) -> (r: Result<(), FsError>)
        requires
            old(self).wf(),
        ensures
            final(self).wf(),
            same_config(old(self), final(self)),
            match old(self).child(parent, name@) {
                None => r == Err::<(), FsError>(FsError::NotFound) && *final(self) == *old(self),
                Some(c) => if old(self).nodes()[c] is Dir {
                    r == Err::<(), FsError>(FsError::IsDir) && *final(self) == *old(self)
                } else {
                    r == Ok::<(), FsError>(()) && spec_removed(old(self), final(self), parent,
                        old(self).child_index(parent, name@), c)
                },
            },
    {
        let i = match self.lookup_index(parent, name) {
            None => {
                return Err(FsError::NotFound);
            },
            Some(i) => i,
        };
        let ino = match self.inodes.get(&parent) {
            Some(Node::Dir(d)) => d.children[i].ino,
            _ => 0,
        };
        assert(self.has_entry(parent, i as int));
        match self.inodes.get(&ino) {
            Some(Node::Dir(_)) => {
                return Err(FsError::IsDir);
            },
            _ => {},
        }
        let ghost o = *self;
        self.remove_entry(parent, i);
        proof {
            assert forall|d: u64, j: int| #[trigger] self.has_entry(d, j) implies self.entry(d, j).ino != ino by {
                let oj = if d == parent && j >= i { j + 1 } else { j };
                assert(o.has_entry(d, oj));
                assert(o.entry(d, oj) == self.entry(d, j));
            }
        }
        self.drop_node(ino);
        proof {
            assert(self.nodes().dom() =~= o.nodes().dom().remove(ino));
        }
        Ok(())
    }

    /// Removes the empty directory `name` from `parent`.
    pub fn rmdir(&mut self, parent: u64, name: &[u8]) -> (r: Result<(), FsError>)
        requires
            old(self).wf(),
        ensures
            final(self).wf(),
            same_config(old(self), final(self)),
            match old(self).child(parent, name@) {
                None => r == Err::<(), FsError>(FsError::NotFound) && *final(self) == *old(self),
                Some(c) => if !(old(self).nodes()[c] is Dir) {
                    r == Err::<(), FsError>(FsError::NotDir) && *final(self) == *old(self)
                } else if old(self).nodes()[c].entries().len() > 0 {
                    r == Err::<(), FsError>(FsError::NotEmpty) && *final(self) == *old(self)
                } else {
                    r == Ok::<(), FsError>(()) && spec_removed(old(self), final(self), parent,
                        old(self).child_index(parent, name@), c)
                },
            },
    {
        let i = match self.lookup_index(parent, name) {
            None => {
                return Err(FsError::NotFound);
            },
            Some(i) => i,
        };
        let ino = match self.inodes.get(&parent) {
            Some(Node::Dir(d)) => d.children[i].ino,
            _ => 0,
        };
        assert(self.has_entry(parent, i as int));
        match self.inodes.get(&ino) {
            Some(Node::Dir(d)) => {
                if d.children.len() > 0 {
                    return Err(FsError::NotEmpty);
                }
            },
            _ => {
                return Err(FsError::NotDir);
            },
        }
        let ghost o = *self;
        self.remove_entry(parent, i);
        proof {
            assert forall|d: u64, j: int| #[trigger] self.has_entry(d, j) implies self.entry(d, j).ino != ino by {
                let oj = if d == parent && j >= i { j + 1 } else { j };
                assert(o.has_entry(d, oj));
                assert(o.entry(d, oj) == self.entry(d, j));
            }
        }
        self.drop_node(ino);
        proof {
            assert(self.nodes().dom() =~= o.nodes().dom().remove(ino));
        }
        Ok(())
    }

    /// Moves entry `name` of `parent` to `newparent` under `newname`,
    /// keeping the node's inode. An existing destination is refused with
    /// `Exists`; a parent that is no directory with `NotDir`.
    pub fn rename(&mut self, parent: u64, name: &[u8], newparent: u64, newname: &[u8]) -> (r: Result<(), FsError>)
        requires
            old(self).wf(),
        ensures
            final(self).wf(),
            same_config(old(self), final(self)),
            if !old(self).is_dir(parent) || !old(self).is_dir(newparent) {
                r == Err::<(), FsError>(FsError::NotDir) && *final(self) == *old(self)
            } else {
                match old(self).child(parent, name@) {
                    None => r == Err::<(), FsError>(FsError::NotFound) && *final(self) == *old(self),
                    Some(c) => if old(self).child(newparent, newname@).is_some() {
                        r == Err::<(), FsError>(FsError::Exists) && *final(self) == *old(self)
                    } else {
                        r == Ok::<(), FsError>(()) && spec_moved(old(self), final(self), parent,
                            old(self).child_index(parent, name@), newparent, newname@, c)
                    },
                }
            },
    {
        match self.inodes.get(&parent) {
            Some(Node::Dir(_)) => {},
            _ => {
                return Err(FsError::NotDir);
            },
        }
        match self.inodes.get(&newparent) {
            Some(Node::Dir(_)) => {},
            _ => {
                return Err(FsError::NotDir);
            },
        }
        let i = match self.lookup_index(parent, name) {
            None => {
                return Err(FsError::NotFound);
            },
            Some(i) => i,
        };
        if self.lookup_index(newparent, newname).is_some() {
            return Err(FsError::Exists);
        }
        let ghost o = *self;
        let c = self.remove_entry(parent, i);
        let ghost mid = *self;
        let moved = DirChild { name: slice_to_vec(newname), ino: c.ino };
        proof {
            let ino = c.ino;
            assert(o.has_entry(parent, i as int));
            assert forall|d: u64, j: int| #[trigger] mid.has_entry(d, j) implies mid.entry(d, j).ino != ino by {
                let oj = if d == parent && j >= i { j + 1 } else { j };
                assert(o.has_entry(d, oj));
                assert(o.entry(d, oj) == mid.entry(d, j));
            }
            if exists|j: int| mid.has_entry(newparent, j) && #[trigger] mid.entry(newparent, j).name@ == newname@ {
                let j = choose|j: int| mid.has_entry(newparent, j) && #[trigger] mid.entry(newparent, j).name@ == newname@;
                let oj = if newparent == parent && j >= i { j + 1 } else { j };
                assert(o.has_entry(newparent, oj));
                assert(o.entry(newparent, oj) == mid.entry(newparent, j));
                o.lemma_child_at(newparent, newname@, oj);
            }
        }
        self.add_entry(newparent, moved);
        proof {
            assert(self.nodes().dom() =~= o.nodes().dom());
        }
        Ok(())
    }
}


/// One line of a directory listing: inode, kind and name.
pub type ListingLine = (u64, FileKind, Seq<u8>);

impl MemoryProvider {
    /// An entry that the osx-mode filter lets through.
    pub open spec fn visible(&self, c: DirChild) -> bool {
        !(self.osx_mode && spec_is_hidden(c.name@))
    }

    /// The listing of a directory with entries `cs`: `.` and `..` (both
    /// pointing at the root), then each visible entry in order.
    pub open spec fn listing_of(&self, cs: Seq<DirChild>) -> Seq<ListingLine>
        decreases cs.len(),
    {
        if cs.len() == 0 {
            seq![(ROOT_INODE, FileKind::Directory, dot()), (ROOT_INODE, FileKind::Directory, dotdot())]
        } else {
            let prev = self.listing_of(cs.drop_last());
            let c = cs.last();
            if self.visible(c) {
                prev.push((c.ino, self.nodes()[c.ino].spec_attr().kind, c.name@))
            } else {
                prev
            }
        }
    }

    /// The full listing of directory `ino`.
    pub open spec fn listing(&self, ino: u64) -> Seq<ListingLine> {
        self.listing_of(self.nodes()[ino].entries())
    }

    /// Lists directory `ino` from position `offset` on; each entry carries
    /// the cookie `position + 1`.
    pub fn readdir(&self, ino: u64, offset: u64) -> (r: Result<Vec<DirEntry>, FsError>)
        requires
            self.wf(),
        ensures
            !self.is_dir(ino) ==> r == Err::<Vec<DirEntry>, FsError>(FsError::NotFound),
            self.is_dir(ino) ==> r is Ok && {
                let l = self.listing(ino);
                let v = r->Ok_0@;
                &&& v.len() == (if offset < l.len() { l.len() - offset } else { 0 })
                &&& forall|j: int| 0 <= j < v.len() ==> {
                    &&& (#[trigger] v[j]).ino == l[offset + j].0
                    &&& v[j].kind == l[offset + j].1
                    &&& v[j].name@ == l[offset + j].2
                    &&& v[j].cookie == offset + j + 1
                }
            },
    {
        let dir = match self.inodes.get(&ino) {
            Some(Node::Dir(d)) => d,
            _ => {
                return Err(FsError::NotFound);
            },
        };
        let ghost cs = dir.children@;
        let mut rows: Vec<ChildRow> = Vec::new();
        let mut i: usize = 0;
        while i < dir.children.len()
            invariant
                self.wf(),
                self.is_dir(ino),
                cs == self.nodes()[ino].entries(),
                cs == dir.children@,
                i <= cs.len(),
                self.rows_match(rows@, cs.subrange(0, i as int)),
            decreases cs.len() - i,
        {
            let c = &dir.children[i];
            proof {
                assert(self.has_entry(ino, i as int));
            }
            let kind = match self.inodes.get(&c.ino) {
                Some(node) => node.attr().kind,
                None => FileKind::RegularFile,
            };
            rows.push(ChildRow { ino: c.ino, kind, name: slice_to_vec(c.name.as_slice()) });
            proof {
                assert(cs.subrange(0, i + 1).drop_last() =~= cs.subrange(0, i as int));
            }
            i = i + 1;
        }
        proof {
            assert(cs.subrange(0, cs.len() as int) =~= cs);
            self.lemma_rows_match_listing(rows@, cs);
        }
        Ok(list_rows(&rows, self.osx_mode, offset))
    }

    /// `rows` are the entries `cs` with each child's kind filled in.
    pub open spec fn rows_match(&self, rows: Seq<ChildRow>, cs: Seq<DirChild>) -> bool {
        &&& rows.len() == cs.len()
        &&& forall|i: int| 0 <= i < cs.len() ==> {
            &&& (#[trigger] rows[i]).ino == cs[i].ino
            &&& rows[i].kind == self.nodes()[cs[i].ino].spec_attr().kind
            &&& rows[i].name@ == cs[i].name@
        }
    }

    proof fn lemma_rows_match_listing(&self, rows: Seq<ChildRow>, cs: Seq<DirChild>)
        requires
            self.rows_match(rows, cs),
        ensures
            rows_listing(rows, self.osx_mode) == self.listing_of(cs),
        decreases cs.len(),
    {
        if cs.len() > 0 {
            let n = cs.len() - 1;
            assert(rows[n].ino == cs[n].ino);
            assert(self.rows_match(rows.drop_last(), cs.drop_last()));
            self.lemma_rows_match_listing(rows.drop_last(), cs.drop_last());
        }
    }

    /// A listing starts with `.` and `..`, then names each entry that the
    /// osx-mode filter lets through exactly once, in ascending name order,
    /// and nothing else; with osx-mode on, no name after `.` and `..`
    /// begins with `._`.
    pub proof fn lemma_listing_complete(&self, ino: u64)
        requires
            self.wf(),
            self.is_dir(ino),
        ensures
            ({
                let cs = self.nodes()[ino].entries();
                let l = self.listing(ino);
                &&& l.len() >= 2
                &&& l[0] == (ROOT_INODE, FileKind::Directory, dot())
                &&& l[1] == (ROOT_INODE, FileKind::Directory, dotdot())
                &&& forall|j: int| 2 <= j < l.len() ==> exists|i: int| 0 <= i < cs.len() && self.visible(cs[i])
                    && #[trigger] l[j] == (cs[i].ino, self.nodes()[cs[i].ino].spec_attr().kind, cs[i].name@)
                &&& forall|i: int| 0 <= i < cs.len() && self.visible(#[trigger] cs[i]) ==> exists|j: int| 2 <= j < l.len()
                    && l[j] == (cs[i].ino, self.nodes()[cs[i].ino].spec_attr().kind, cs[i].name@)
                &&& forall|j1: int, j2: int| 2 <= j1 < l.len() && 2 <= j2 < l.len() && j1 != j2 ==> #[trigger] l[j1].2 != #[trigger] l[j2].2
                &&& forall|j: int| 2 <= j < l.len() ==> !(self.osx_mode && spec_is_hidden(#[trigger] l[j].2))
                &&& forall|j1: int, j2: int| 2 <= j1 < j2 < l.len() ==> lex_lt(#[trigger] l[j1].2, #[trigger] l[j2].2)
            }),
    {
        let cs = self.nodes()[ino].entries();
        let rows = Seq::new(cs.len(), |i: int| ChildRow {
            ino: cs[i].ino,
            kind: self.nodes()[cs[i].ino].spec_attr().kind,
            name: cs[i].name,
        });
        assert(self.rows_match(rows, cs));
        self.lemma_rows_match_listing(rows, cs);
        assert forall|a: int, b: int| 0 <= a < b < rows.len() implies lex_lt(#[trigger] rows[a].name@,
            #[trigger] rows[b].name@) by {
            assert(self.has_entry(ino, a) && self.has_entry(ino, b));
        }
        assert forall|a: int, b: int| 0 <= a < rows.len() && 0 <= b < rows.len() && a != b implies
            #[trigger] rows[a].name@ != #[trigger] rows[b].name@ by {
            assert(self.has_entry(ino, a) && self.has_entry(ino, b));
        }
        lemma_rows_listing(rows, self.osx_mode);
        lemma_rows_listing_sorted(rows, self.osx_mode);
        let l = self.listing(ino);
        assert forall|j: int| 2 <= j < l.len() implies exists|i: int| 0 <= i < cs.len() && self.visible(cs[i])
            && #[trigger] l[j] == (cs[i].ino, self.nodes()[cs[i].ino].spec_attr().kind, cs[i].name@) by {
            let i = choose|i: int| 0 <= i < rows.len() && row_shown(rows[i], self.osx_mode)
                && #[trigger] l[j] == (rows[i].ino, rows[i].kind, rows[i].name@);
        }
        assert forall|i: int| 0 <= i < cs.len() && self.visible(#[trigger] cs[i]) implies exists|j: int| 2 <= j < l.len()
            && l[j] == (cs[i].ino, self.nodes()[cs[i].ino].spec_attr().kind, cs[i].name@) by {
            assert(row_shown(rows[i], self.osx_mode));
        }
    }
}
} // verus!
