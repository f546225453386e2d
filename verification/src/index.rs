//! The index: the ingested tree as an ordered sequence of inodes.

use vstd::prelude::*;

verus! {

/// Kind of a directory inode.
pub const KIND_DIR: u8 = 1;

/// Kind of a regular-file inode.
pub const KIND_FILE: u8 = 2;

/// A reference from an inode into a block: `l` bytes of the file's content
/// start at byte `o` of block `h`.
pub struct ContentBlockEntry {
    pub h: String,
    pub o: u64,
    pub l: u64,
}

/// What a directory records of a child: its identifier and kind.
#[derive(Debug, Clone, Copy, PartialEq, Eq, Structural)]
pub struct DirEntry {
    pub i: u64,
    pub k: u8,
}

/// A directory or a regular file.
pub struct Inode {
    /// Identifier: the inode's position in the index.
    pub i: u64,
    /// Kind: 1 for a directory, 2 for a regular file.
    pub k: u8,
    /// Permission bits.
    pub a: u16,
    /// Logical size in bytes.
    pub s: u64,
    /// Where the content lies on the host.
    pub host_path: String,
    /// Directory contents by entry name, in listing order.
    pub d: Option<Vec<(String, DirEntry)>>,
    /// Content blocks of a regular file, in order.
    pub c: Option<Vec<ContentBlockEntry>>,
}

/// The ingested tree. Entry 0 is the root directory.
pub struct Index {
    pub inodes: Vec<Inode>,
}

/// The content entries of an inode; none where the list is absent.
pub open spec fn entries(inode: Inode) -> Seq<ContentBlockEntry> {
    match inode.c {
        Some(v) => v@,
        None => Seq::empty(),
    }
}

/// The directory entries of an inode; none where it has no directory.
pub open spec fn children(inode: Inode) -> Seq<(String, DirEntry)> {
    match inode.d {
        Some(v) => v@,
        None => Seq::empty(),
    }
}

/// Whether two inode sequences differ in content lists only, and only at
/// regular files.
pub open spec fn same_frame(inodes: Seq<Inode>, base: Seq<Inode>) -> bool {
    &&& inodes.len() == base.len()
    &&& forall|j: int|
        0 <= j < base.len() ==> {
            &&& (#[trigger] inodes[j]).i == base[j].i
            &&& inodes[j].k == base[j].k
            &&& inodes[j].a == base[j].a
            &&& inodes[j].s == base[j].s
            &&& inodes[j].host_path == base[j].host_path
            &&& inodes[j].d == base[j].d
            &&& base[j].k != KIND_FILE ==> inodes[j].c == base[j].c
        }
}

/// What adding `inode` under `name` to the directory at `parent` makes of
/// the inodes: the new inode stands last, with its position `id` as
/// identifier; the directory has one entry more, for it; nothing else changes.
pub open spec fn child_added(
    was: Seq<Inode>,
    now: Seq<Inode>,
    parent: u64,
    name: String,
    id: u64,
    kind: u8,
    perm: u16,
    size: u64,
    host_path: String,
) -> bool {
    let n = was.len() as int;
    &&& id == n
    &&& parent < n
    &&& now.len() == n + 1
    &&& now[n].i == id
    &&& now[n].k == kind
    &&& now[n].a == perm
    &&& now[n].s == size
    &&& now[n].host_path == host_path
    &&& now[n].d is Some == (kind == KIND_DIR)
    &&& children(now[n]).len() == 0
    &&& entries(now[n]).len() == 0
    &&& forall|j: int| 0 <= j < n && j != parent ==> (#[trigger] now[j]) == was[j]
    &&& children(now[parent as int]) == children(was[parent as int]).push(
        (name, (DirEntry { i: id, k: kind })),
    )
    &&& now[parent as int].d is Some
    &&& now[parent as int].i == was[parent as int].i
    &&& now[parent as int].k == was[parent as int].k
    &&& now[parent as int].a == was[parent as int].a
    &&& now[parent as int].s == was[parent as int].s
    &&& now[parent as int].host_path == was[parent as int].host_path
    &&& now[parent as int].c == was[parent as int].c
}

impl Index {
    /// Validity: every inode's identifier is its position, and every
    /// directory entry names an inode of the index.
    pub open spec fn wf(&self) -> bool {
        &&& forall|j: int| 0 <= j < self.inodes@.len() ==> (#[trigger] self.inodes@[j]).i == j
        &&& forall|j: int, m: int|
            0 <= j < self.inodes@.len() && 0 <= m < children(self.inodes@[j]).len() ==> (
            #[trigger] children(self.inodes@[j])[m]).1.i < self.inodes@.len()
    }

    /// Whether no regular file has content entries yet.
    pub open spec fn unserialized(&self) -> bool {
        forall|j: int|
            0 <= j < self.inodes@.len() && (#[trigger] self.inodes@[j]).k == KIND_FILE
                ==> entries(self.inodes@[j]).len() == 0
    }

    /// Whether `parent` is the position of a directory.
    pub open spec fn is_dir(&self, parent: u64) -> bool {
        parent < self.inodes@.len() && self.inodes@[parent as int].d is Some
    }

    /// An index that holds the root directory only.
    pub fn new(root_path: String, perm: u16) -> (r: Index)
        ensures
            r.wf(),
            r.unserialized(),
            r.inodes@.len() == 1,
            r.inodes@[0].k == KIND_DIR,
            r.inodes@[0].a == perm,
            r.inodes@[0].host_path == root_path,
            children(r.inodes@[0]).len() == 0,
            r.is_dir(0),
    {
        let mut inodes: Vec<Inode> = Vec::new();
        inodes.push(
            Inode {
                i: 0,
                k: KIND_DIR,
                a: perm,
                s: 0,
                host_path: root_path,
                d: Some(Vec::new()),
                c: None,
            },
        );
        Index { inodes: inodes }
    }

    /// Adds `inode` as the last inode and enters it under `name` in the
    /// directory at `parent`. The inode gets its position as identifier.
    /// Nothing is added where `parent` is no directory.
    fn add_child(&mut self, parent: u64, name: String, inode: Inode) -> (r: Option<u64>)
        requires
            old(self).wf(),
            children(inode).len() == 0,
            entries(inode).len() == 0,
            inode.d is Some == (inode.k == KIND_DIR),
        ensures
            final(self).wf(),
            r is Some == old(self).is_dir(parent),
            r is None ==> final(self).inodes@ == old(self).inodes@,
            r matches Some(id) ==> child_added(
                old(self).inodes@,
                final(self).inodes@,
                parent,
                name,
                id,
                inode.k,
                inode.a,
                inode.s,
                inode.host_path,
            ),
    {
        let n = self.inodes.len();
        if parent >= n as u64 {
            return None;
        }
        if self.inodes[parent as usize].d.is_none() {
            return None;
        }
        let id = n as u64;
        let kind = inode.k;
        let mut fresh = inode;
        fresh.i = id;
        self.inodes.push(fresh);
        let ghost mid = self.inodes@;
        let dir = &mut self.inodes[parent as usize];
        match &mut dir.d {
            Some(v) => {
                v.push((name, DirEntry { i: id, k: kind }));
            },
            None => {},
        }
        proof {
            let now = self.inodes@;
            let was = old(self).inodes@;
            assert forall|j: int, m: int|
                0 <= j < now.len() && 0 <= m < children(now[j]).len() implies (#[trigger] children(
                now[j],
            )[m]).1.i < now.len() by {
                if j == parent {
                    if m < children(was[j]).len() {
                        assert(children(now[j])[m] == children(was[j])[m]);
                    }
                } else if j < n {
                    assert(now[j] == was[j]);
                    assert(children(now[j])[m] == children(was[j])[m]);
                }
            }
        }
        Some(id)
    }

    /// Adds an empty directory `name` to the directory at `parent` and
    /// returns its identifier; nothing is added where `parent` is no
    /// directory.
    pub fn add_dir(&mut self, parent: u64, name: String, perm: u16, host_path: String) -> (r:
        Option<u64>)
        requires
            old(self).wf(),
        ensures
            final(self).wf(),
            old(self).unserialized() ==> final(self).unserialized(),
            r is Some == old(self).is_dir(parent),
            r is None ==> final(self).inodes@ == old(self).inodes@,
            r matches Some(id) ==> child_added(
                old(self).inodes@,
                final(self).inodes@,
                parent,
                name,
                id,
                KIND_DIR,
                perm,
                0,
                host_path,
            ),
    {
        let inode = Inode {
            i: 0,
            k: KIND_DIR,
            a: perm,
            s: 0,
            host_path: host_path,
            d: Some(Vec::new()),
            c: None,
        };
        let r = self.add_child(parent, name, inode);
        proof {
            if r is Some && old(self).unserialized() {
                assert forall|j: int|
                    0 <= j < self.inodes@.len() && (#[trigger] self.inodes@[j]).k
                        == KIND_FILE implies entries(self.inodes@[j]).len() == 0 by {
                    if j < old(self).inodes@.len() {
                        assert(entries(self.inodes@[j]) == entries(old(self).inodes@[j]));
                    }
                }
            }
        }
        r
    }

    /// Adds a regular file `name` of `size` bytes, without content entries
    /// yet, to the directory at `parent`, and returns its identifier;
    /// nothing is added where `parent` is no directory.
    pub fn add_file(
        &mut self,
        parent: u64,
        name: String,
        perm: u16,
        size: u64,
        host_path: String,
    ) -> (r: Option<u64>)
        requires
            old(self).wf(),
        ensures
            final(self).wf(),
            old(self).unserialized() ==> final(self).unserialized(),
            r is Some == old(self).is_dir(parent),
            r is None ==> final(self).inodes@ == old(self).inodes@,
            r matches Some(id) ==> child_added(
                old(self).inodes@,
                final(self).inodes@,
                parent,
                name,
                id,
                KIND_FILE,
                perm,
                size,
                host_path,
            ),
    {
        let inode = Inode {
            i: 0,
            k: KIND_FILE,
            a: perm,
            s: size,
            host_path: host_path,
            d: None,
            c: Some(Vec::new()),
        };
        let r = self.add_child(parent, name, inode);
        proof {
            if r is Some && old(self).unserialized() {
                assert forall|j: int|
                    0 <= j < self.inodes@.len() && (#[trigger] self.inodes@[j]).k
                        == KIND_FILE implies entries(self.inodes@[j]).len() == 0 by {
                    if j < old(self).inodes@.len() {
                        assert(entries(self.inodes@[j]) == entries(old(self).inodes@[j]));
                    }
                }
            }
        }
        r
    }
}

} // verus!
