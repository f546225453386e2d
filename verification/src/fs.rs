//! The read-only view: what a lookup, an attribute query, a directory
//! listing and an open file answer from the index and the block store.

use std::collections::HashMap;
use vstd::prelude::*;
use crate::assoc::{assoc_find, assoc_map};
use crate::blockstore::{
    block_bytes, files_exist, lemma_shard_chain_content, Block, BlockStore, ShardChain,
};
use crate::host::Host;
use crate::index::{children, entries, ContentBlockEntry, Index, Inode, KIND_DIR};
use crate::readchain::{chain_content, content_from, ReadChain, ReadChainAble};
use crate::serializer::{entries_bytes, entries_in_blocks, entry_bytes, entry_in_block, inode_bytes};
use crate::source::{clip, ByteSource, SeekFrom, SourceError};

verus! {

broadcast use vstd::std_specs::hash::group_hash_axioms;

/// Seconds for which the kernel may keep an answer.
pub const TTL: i64 = 1;

/// The time every inode carries, in seconds since the epoch.
pub const CREATE_TIME: i64 = 1381237736;

/// Owner and group of every inode.
pub const OWNER: u32 = 1000;

/// What an inode is, as the kernel sees it.
#[derive(Debug, Clone, Copy, PartialEq, Eq, Structural)]
pub enum FileKind {
    Directory,
    RegularFile,
}

/// Attributes of an inode.
#[derive(Debug, Clone, Copy, PartialEq, Eq, Structural)]
pub struct FileAttr {
    pub ino: u64,
    pub size: u64,
    pub blocks: u64,
    pub atime: i64,
    pub mtime: i64,
    pub ctime: i64,
    pub crtime: i64,
    pub kind: FileKind,
    pub perm: u16,
    pub nlink: u32,
    pub uid: u32,
    pub gid: u32,
    pub rdev: u32,
    pub flags: u32,
}

/// One line of a directory listing.
pub struct DirLine {
    pub ino: u64,
    pub offset: u64,
    pub kind: FileKind,
    pub name: String,
}

/// Kind 1 is a directory; every other kind shows as a regular file.
pub open spec fn kind_of(k: u8) -> FileKind {
    if k == KIND_DIR {
        FileKind::Directory
    } else {
        FileKind::RegularFile
    }
}

/// The number under which the kernel knows the inode with identifier `i`:
/// the identifier plus one, as the kernel keeps 0 for itself; the number
/// after the largest is 0.
pub open spec fn kernel_number(i: u64) -> u64 {
    if i < u64::MAX {
        (i + 1) as u64
    } else {
        0
    }
}

/// The attributes of an inode. The inode number is the identifier plus one,
/// the block count the size times 512, and a directory has one link more
/// than it has entries; numbers too large for their field stand at the
/// field's largest value, and the inode number after the largest is 0.
pub open spec fn attr_of(inode: Inode) -> FileAttr {
    FileAttr {
        ino: kernel_number(inode.i),
        size: inode.s,
        blocks: if inode.s * 512 <= u64::MAX {
            (inode.s * 512) as u64
        } else {
            u64::MAX
        },
        atime: CREATE_TIME,
        mtime: CREATE_TIME,
        ctime: CREATE_TIME,
        crtime: CREATE_TIME,
        kind: kind_of(inode.k),
        perm: inode.a,
        nlink: if inode.d is Some {
            if children(inode).len() < u32::MAX {
                (children(inode).len() + 1) as u32
            } else {
                u32::MAX
            }
        } else {
            1
        },
        uid: OWNER,
        gid: OWNER,
        rdev: 0,
        flags: 0,
    }
}

fn number_of(i: u64) -> (r: u64)
    ensures
        r == kernel_number(i),
{
    if i < u64::MAX {
        i + 1
    } else {
        0
    }
}

fn file_kind(k: u8) -> (r: FileKind)
    ensures
        r == kind_of(k),
{
    if k == KIND_DIR {
        FileKind::Directory
    } else {
        FileKind::RegularFile
    }
}

/// The attributes of an inode.
pub fn entry_to_file_attr(entry: &Inode) -> (r: FileAttr)
    ensures
        r == attr_of(*entry),
{
    let blocks = match entry.s.checked_mul(512) {
        Some(b) => b,
        None => u64::MAX,
    };
    let nlink: u32 = match &entry.d {
        Some(d) => {
            let n = d.len();
            if n < u32::MAX as usize {
                (n + 1) as u32
            } else {
                u32::MAX
            }
        },
        None => 1,
    };
    FileAttr {
        ino: number_of(entry.i),
        size: entry.s,
        blocks: blocks,
        atime: CREATE_TIME,
        mtime: CREATE_TIME,
        ctime: CREATE_TIME,
        crtime: CREATE_TIME,
        kind: file_kind(entry.k),
        perm: entry.a,
        nlink: nlink,
        uid: OWNER,
        gid: OWNER,
        rdev: 0,
        flags: 0,
    }
}

/// The inode that the kernel's number `ino` names: number 0 names none, and
/// number `n` the inode at position `n - 1`.
pub open spec fn inode_at(inodes: Seq<Inode>, ino: u64) -> Option<Inode> {
    if 1 <= ino && ino - 1 < inodes.len() {
        Some(inodes[ino - 1])
    } else {
        None
    }
}

/// What a lookup of `name` in the directory `parent` answers.
pub open spec fn lookup_spec(inodes: Seq<Inode>, parent: u64, name: Seq<char>) -> Option<FileAttr> {
    match inode_at(inodes, parent) {
        Some(dir) => {
            let m = assoc_map(children(dir), children(dir).len());
            if m.contains_key(name) && m[name].i < inodes.len() {
                Some(attr_of(inodes[m[name].i as int]))
            } else {
                None
            }
        },
        None => None,
    }
}

fn get_inode(index: &Index, ino: u64) -> (r: Option<&Inode>)
    ensures
        match r {
            Some(inode) => inode_at(index.inodes@, ino) == Some(*inode),
            None => inode_at(index.inodes@, ino) is None,
        },
{
    if ino < 1 {
        return None;
    }
    let n = index.inodes.len();
    if ino - 1 >= n as u64 {
        return None;
    }
    Some(&index.inodes[(ino - 1) as usize])
}

/// Resolves `name` in the directory that `parent` names, one step: the
/// attributes of the child, or nothing where `parent` names no directory,
/// the directory has no such entry, or the entry names no inode.
pub fn lookup(index: &Index, parent: u64, name: &String) -> (r: Option<FileAttr>)
    ensures
        r == lookup_spec(index.inodes@, parent, name@),
{
    let dir = match get_inode(index, parent) {
        Some(dir) => dir,
        None => {
            return None;
        },
    };
    let d = match &dir.d {
        Some(d) => d,
        None => {
            return None;
        },
    };
    match assoc_find(d, name) {
        Some(m) => {
            let child = d[m].1.i;
            let n = index.inodes.len();
            if child < n as u64 {
                Some(entry_to_file_attr(&index.inodes[child as usize]))
            } else {
                None
            }
        },
        None => None,
    }
}

/// The attributes of the inode that `ino` names, if it names one.
pub fn getattr(index: &Index, ino: u64) -> (r: Option<FileAttr>)
    ensures
        r == match inode_at(index.inodes@, ino) {
            Some(inode) => Some(attr_of(inode)),
            None => None,
        },
{
    match get_inode(index, ino) {
        Some(inode) => Some(entry_to_file_attr(inode)),
        None => None,
    }
}

/// Whether `lines` is the listing of `inode`: `.` and `..`, then the
/// directory's entries in their order, each under its kernel number, at
/// offsets that count up from 0.
pub open spec fn is_listing(lines: Seq<DirLine>, inode: Inode) -> bool {
    &&& lines.len() == children(inode).len() + 2
    &&& lines[0].ino == 1 && lines[0].offset == 0 && lines[0].kind == FileKind::Directory
        && lines[0].name@ == seq!['.']
    &&& lines[1].ino == 1 && lines[1].offset == 1 && lines[1].kind == FileKind::Directory
        && lines[1].name@ == seq!['.', '.']
    &&& forall|m: int|
        0 <= m < children(inode).len() ==> {
            &&& (#[trigger] lines[m + 2]).ino == kernel_number(children(inode)[m].1.i)
            &&& lines[m + 2].offset == m + 2
            &&& lines[m + 2].kind == kind_of(children(inode)[m].1.k)
            &&& lines[m + 2].name@ == children(inode)[m].0@
        }
}

/// Lists the directory that `ino` names, from the start only: a listing
/// from any other offset, or of an inode that does not exist, is refused.
pub fn readdir(index: &Index, ino: u64, offset: u64) -> (r: Option<Vec<DirLine>>)
    ensures
        match r {
            Some(lines) => offset == 0 && inode_at(index.inodes@, ino) is Some && is_listing(
                lines@,
                inode_at(index.inodes@, ino)->Some_0,
            ),
            None => offset != 0 || inode_at(index.inodes@, ino) is None,
        },
{
    if offset != 0 {
        return None;
    }
    let entry = match get_inode(index, ino) {
        Some(entry) => entry,
        None => {
            return None;
        },
    };
    let mut lines: Vec<DirLine> = Vec::new();
    let dot = ".".to_owned();
    let dotdot = "..".to_owned();
    proof {
        reveal_strlit(".");
        reveal_strlit("..");
        assert(dot@ =~= seq!['.']);
        assert(dotdot@ =~= seq!['.', '.']);
    }
    lines.push(DirLine { ino: 1, offset: 0, kind: FileKind::Directory, name: dot });
    lines.push(DirLine { ino: 1, offset: 1, kind: FileKind::Directory, name: dotdot });
    match &entry.d {
        None => {},
        Some(dir) => {
            let n = dir.len();
            let mut m: usize = 0;
            while m < n
                invariant
                    m <= n == dir@.len(),
                    dir@ == children(*entry),
                    lines@.len() == m + 2,
                    lines@[0].ino == 1 && lines@[0].offset == 0 && lines@[0].kind
                        == FileKind::Directory && lines@[0].name@ == seq!['.'],
                    lines@[1].ino == 1 && lines@[1].offset == 1 && lines@[1].kind
                        == FileKind::Directory && lines@[1].name@ == seq!['.', '.'],
                    forall|i: int|
                        0 <= i < m ==> {
                            &&& (#[trigger] lines@[i + 2]).ino == kernel_number(dir@[i].1.i)
                            &&& lines@[i + 2].offset == i + 2
                            &&& lines@[i + 2].kind == kind_of(dir@[i].1.k)
                            &&& lines@[i + 2].name@ == dir@[i].0@
                        },
                decreases n - m,
            {
                let ghost before = lines@;
                let next = lines.len() as u64;
                lines.push(
                    DirLine {
                        ino: number_of(dir[m].1.i),
                        offset: next,
                        kind: file_kind(dir[m].1.k),
                        name: dir[m].0.clone(),
                    },
                );
                assert forall|i: int| 0 <= i < m + 1 implies {
                    &&& (#[trigger] lines@[i + 2]).ino == kernel_number(dir@[i].1.i)
                    &&& lines@[i + 2].offset == i + 2
                    &&& lines@[i + 2].kind == kind_of(dir@[i].1.k)
                    &&& lines@[i + 2].name@ == dir@[i].0@
                } by {
                    if i < m {
                        assert(lines@[i + 2] == before[i + 2]);
                    }
                }
                m += 1;
            }
        },
    }
    Some(lines)
}

/// The content of a file as a factory of bounded sources: one source per
/// content entry, which is the entry's block from the entry's offset on,
/// limited to the entry's length.
pub struct InodeReader<'a, H> {
    pub inode: &'a Inode,
    pub blockstore: &'a BlockStore,
    pub host: &'a H,
}

impl<'a, H> InodeReader<'a, H> {
    /// A reader for `inode` over the blocks of `blockstore` on `host`.
    pub fn new(inode: &'a Inode, blockstore: &'a BlockStore, host: &'a H) -> (r: InodeReader<'a, H>)
        ensures
            r.inode == inode,
            r.blockstore == blockstore,
            r.host == host,
    {
        InodeReader { inode: inode, blockstore: blockstore, host: host }
    }
}

/// What lies in the block of `e` from the entry's offset on.
pub open spec fn entry_tail(
    store: Map<Seq<char>, Block>,
    files: Map<Seq<char>, Seq<u8>>,
    e: ContentBlockEntry,
) -> Seq<u8> {
    if store.contains_key(e.h@) && e.o <= block_bytes(files, store[e.h@]).len() {
        block_bytes(files, store[e.h@]).skip(e.o as int)
    } else {
        Seq::empty()
    }
}

/// Whether every entry of `inode` names a stored block whose files the host
/// has, and a length that this machine can count.
pub open spec fn readable(
    store: Map<Seq<char>, Block>,
    files: Map<Seq<char>, Seq<u8>>,
    inode: Inode,
) -> bool {
    forall|i: int|
        0 <= i < entries(inode).len() ==> {
            let e = #[trigger] entries(inode)[i];
            &&& e.l <= usize::MAX
            &&& store.contains_key(e.h@)
            &&& files_exist(files, store[e.h@].shards@)
        }
}

impl<'a, H: Host<R>, R: ByteSource> ReadChainAble<ReadChain<ShardChain<'a, H>, R>> for InodeReader<
    'a,
    H,
> {
    open spec fn spec_len(&self) -> nat {
        entries(*self.inode).len()
    }

    open spec fn bytes_at(&self, i: int) -> Seq<u8> {
        entry_tail(self.blockstore@, self.host.files(), entries(*self.inode)[i])
    }

    open spec fn limit_at(&self, i: int) -> nat {
        entries(*self.inode)[i].l as nat
    }

    open spec fn infallible(&self) -> bool {
        self.host.reliable() && readable(self.blockstore@, self.host.files(), *self.inode)
    }

    open spec fn eager(&self) -> bool {
        false
    }

    fn len(&self) -> (n: usize) {
        match &self.inode.c {
            Some(c) => c.len(),
            None => 0,
        }
    }

    /// Opens the block of entry `i` at the entry's offset. A block that the
    /// store does not hold, and a length that this machine cannot count, are
    /// reported as not found.
    fn at(&self, i: usize) -> (r: Result<(ReadChain<ShardChain<'a, H>, R>, usize), SourceError>)
        ensures
            !self.blockstore@.contains_key(entries(*self.inode)[i as int].h@) ==> r == Err::<
                (ReadChain<ShardChain<'a, H>, R>, usize),
                SourceError,
            >(SourceError::NotFound),
            entries(*self.inode)[i as int].l > usize::MAX ==> r is Err,
            r matches Ok(p) ==> {
                &&& !p.0.holding() || p.0.room() > 0
                &&& p.0.factory().host == self.host
                &&& p.0.factory().shards == &self.blockstore@[entries(
                    *self.inode,
                )[i as int].h@].shards
            },
    {
        let c = match &self.inode.c {
            Some(c) => &c[i],
            None => {
                return Err(SourceError::NotFound);
            },
        };
        let block = match self.blockstore.get(&c.h) {
            Some(block) => block,
            None => {
                return Err(SourceError::NotFound);
            },
        };
        if c.l > usize::MAX as u64 {
            return Err(SourceError::NotFound);
        }
        let mut re = block.chain::<H, R>(self.host);
        proof {
            lemma_shard_chain_content::<H, R>(re.factory(), 0);
        }
        let ghost whole = block_bytes(self.host.files(), *block);
        match re.seek(SeekFrom::Start(c.o)) {
            Ok(k) => {
                assert(re.content() =~= entry_tail(self.blockstore@, self.host.files(), *c)) by {
                    if block.shards@.len() == 0 {
                        assert(whole.len() == 0);
                    }
                }
            },
            Err(e) => {
                return Err(e);
            },
        }
        Ok((re, c.l as usize))
    }
}

/// A reader over an inode presents what the inode's entries point at,
/// where every entry lies inside a stored block.
pub proof fn lemma_inode_reader_content<'a, H: Host<R>, R: ByteSource>(
    reader: &InodeReader<'a, H>,
    n: nat,
)
    requires
        entries_in_blocks(reader.blockstore@, reader.host.files(), *reader.inode),
        n <= entries(*reader.inode).len(),
    ensures
        entries_bytes(reader.blockstore@, reader.host.files(), entries(*reader.inode), n)
            + content_from::<InodeReader<'a, H>, ReadChain<ShardChain<'a, H>, R>>(reader, n)
            == inode_bytes(reader.blockstore@, reader.host.files(), *reader.inode),
    decreases entries(*reader.inode).len() - n,
{
    let store = reader.blockstore@;
    let files = reader.host.files();
    let c = entries(*reader.inode);
    let here = entries_bytes(store, files, c, n);
    let ahead = content_from::<InodeReader<'a, H>, ReadChain<ShardChain<'a, H>, R>>(reader, n);
    if n < c.len() {
        lemma_inode_reader_content::<H, R>(reader, n + 1);
        let e = c[n as int];
        let next = content_from::<InodeReader<'a, H>, ReadChain<ShardChain<'a, H>, R>>(
            reader,
            n + 1,
        );
        assert(entry_in_block(store, files, e));
        assert(clip(entry_tail(store, files, e), e.l as nat) =~= entry_bytes(store, files, e));
        assert(here + (entry_bytes(store, files, e) + next) =~= (here + entry_bytes(
            store,
            files,
            e,
        )) + next);
    } else {
        assert(here + ahead =~= here);
    }
}

/// Round trip: where a file's entries lie in stored blocks and reconstruct
/// the file, as they do after a successful `serialize`, the chained reader
/// over the inode presents exactly the file.
pub proof fn lemma_round_trip<'a, H: Host<R>, R: ByteSource>(
    reader: &InodeReader<'a, H>,
    file: Seq<u8>,
)
    requires
        entries_in_blocks(reader.blockstore@, reader.host.files(), *reader.inode),
        inode_bytes(reader.blockstore@, reader.host.files(), *reader.inode) == file,
    ensures
        chain_content::<InodeReader<'a, H>, ReadChain<ShardChain<'a, H>, R>>(reader) == file,
{
    lemma_inode_reader_content::<H, R>(reader, 0);
    let ahead = chain_content::<InodeReader<'a, H>, ReadChain<ShardChain<'a, H>, R>>(reader);
    assert(entries_bytes(
        reader.blockstore@,
        reader.host.files(),
        entries(*reader.inode),
        0,
    ) + ahead =~= ahead);
}

/// Reads the whole content of `inode` through its blocks. Where every entry
/// lies inside a stored block, the result is what the entries point at.
pub fn read_inode<H: Host<R>, R: ByteSource>(inode: &Inode, blockstore: &BlockStore, host: &H) -> (r:
    Result<Vec<u8>, SourceError>)
    ensures
        host.reliable() && readable(blockstore@, host.files(), *inode) ==> r is Ok,
        r matches Ok(bytes) ==> entries_in_blocks(blockstore@, host.files(), *inode) ==> bytes@
            == inode_bytes(blockstore@, host.files(), *inode),
{
    let it = InodeReader::new(inode, blockstore, host);
    proof {
        if entries_in_blocks(blockstore@, host.files(), *inode) {
            lemma_inode_reader_content::<H, R>(&it, 0);
            assert(entries_bytes(blockstore@, host.files(), entries(*inode), 0) + chain_content::<
                InodeReader<'_, H>,
                ReadChain<ShardChain<'_, H>, R>,
            >(&it) =~= chain_content::<InodeReader<'_, H>, ReadChain<ShardChain<'_, H>, R>>(&it));
        }
    }
    let mut chain: ReadChain<InodeReader<'_, H>, ReadChain<ShardChain<'_, H>, R>> = ReadChain::new(
        it,
    );
    chain.read_to_end()
}

/// The files that are open, each under its handle.
pub struct OpenFiles<V> {
    handles: HashMap<u64, V>,
}

impl<V> View for OpenFiles<V> {
    type V = Map<u64, V>;

    closed spec fn view(&self) -> Map<u64, V> {
        self.handles@
    }
}

impl<V: ByteSource> OpenFiles<V> {
    /// Whether `fh` is the handle of an open file.
    pub open spec fn contains(&self, fh: u64) -> bool {
        self@.contains_key(fh)
    }

    /// The reader that is open under `fh`.
    pub open spec fn reader(&self, fh: u64) -> V {
        self@[fh]
    }

    /// Validity: every reader is valid.
    pub open spec fn wf(&self) -> bool {
        forall|fh: u64| #[trigger] self@.contains_key(fh) ==> self@[fh].inv()
    }

    /// No file is open.
    pub fn new() -> (r: OpenFiles<V>)
        ensures
            r.wf(),
            r@ == Map::<u64, V>::empty(),
    {
        OpenFiles { handles: HashMap::new() }
    }

    /// Registers `reader` under the first free handle from `start` on, and
    /// returns the handle; nothing is registered where no handle from
    /// `start` on is free.
    pub fn open(&mut self, start: u64, reader: V) -> (r: Option<u64>)
        requires
            old(self).wf(),
            reader.inv(),
        ensures
            final(self).wf(),
            match r {
                Some(fh) => {
                    &&& fh >= start
                    &&& !old(self).contains(fh)
                    &&& forall|x: u64| start <= x < fh ==> old(self).contains(x)
                    &&& final(self)@ == old(self)@.insert(fh, reader)
                },
                None => {
                    &&& forall|x: u64| start <= x ==> old(self).contains(x)
                    &&& final(self)@ == old(self)@
                },
            },
    {
        let mut fh = start;
        loop
            invariant
                self.wf(),
                *self == *old(self),
                fh >= start,
                forall|x: u64| start <= x < fh ==> self.contains(x),
            ensures
                !self.contains(fh),
            decreases u64::MAX - fh,
        {
            if !self.handles.contains_key(&fh) {
                break;
            }
            if fh == u64::MAX {
                return None;
            }
            fh += 1;
        }
        self.handles.insert(fh, reader);
        Some(fh)
    }

    /// Drops what is registered under `fh`, if anything is.
    pub fn release(&mut self, fh: u64)
        requires
            old(self).wf(),
        ensures
            final(self).wf(),
            final(self)@ == old(self)@.remove(fh),
    {
        let _ = self.handles.remove(&fh);
    }

    /// Reads at most `max` bytes from the reader under `fh`, at the
    /// reader's position; `None` where nothing is open under `fh`. Only that
    /// reader changes.
    pub fn read(&mut self, fh: u64, max: usize) -> (r: Option<Result<Vec<u8>, SourceError>>)
        requires
            old(self).wf(),
        ensures
            final(self).wf(),
            r is Some == old(self).contains(fh),
            !old(self).contains(fh) ==> final(self)@ == old(self)@,
            old(self).contains(fh) ==> final(self)@ == old(self)@.insert(
                fh,
                final(self).reader(fh),
            ),
            old(self).contains(fh) && old(self).reader(fh).infallible() ==> r matches Some(Ok(_)),
            old(self).contains(fh) && old(self).reader(fh).eager() ==> final(self).reader(
                fh,
            ).eager(),
            r matches Some(Ok(bytes)) ==> {
                let ahead = old(self).reader(fh).remaining();
                &&& bytes@.len() <= max
                &&& bytes@.len() <= ahead.len()
                &&& bytes@ == ahead.take(bytes@.len() as int)
                &&& old(self).reader(fh).eager() ==> bytes@.len() == max || bytes@.len()
                    == ahead.len()
                &&& max > 0 ==> final(self).reader(fh).remaining() == ahead.skip(
                    bytes@.len() as int,
                )
                &&& max > 0 && bytes@.len() == 0 ==> ahead.len() == 0
            },
    {
        match self.handles.remove(&fh) {
            None => {
                assert(self@ =~= old(self)@);
                None
            },
            Some(mut reader) => {
                assert(old(self)@.contains_key(fh) && reader == old(self)@[fh]);
                let r = reader.read(max);
                self.handles.insert(fh, reader);
                assert(self@ =~= old(self)@.insert(fh, reader));
                Some(r)
            },
        }
    }
}

/// Opens the file that `ino` names: a chained reader over the inode's
/// content, at its start, is registered under the first free handle from the
/// inode's identifier on. Nothing is opened where `ino` names no inode or no
/// such handle is free.
pub fn open<'a, H: Host<R>, R: ByteSource>(
    index: &'a Index,
    blockstore: &'a BlockStore,
    host: &'a H,
    open_files: &mut OpenFiles<ReadChain<InodeReader<'a, H>, ReadChain<ShardChain<'a, H>, R>>>,
    ino: u64,
) -> (r: Option<u64>)
    requires
        old(open_files).wf(),
    ensures
        final(open_files).wf(),
        inode_at(index.inodes@, ino) is None ==> r is None,
        r is None ==> final(open_files)@ == old(open_files)@,
        r is None && inode_at(index.inodes@, ino) is Some ==> forall|x: u64|
            inode_at(index.inodes@, ino)->Some_0.i <= x ==> old(open_files).contains(x),
        r matches Some(fh) ==> {
            let inode = inode_at(index.inodes@, ino)->Some_0;
            let reader = final(open_files).reader(fh);
            &&& inode_at(index.inodes@, ino) is Some
            &&& fh >= inode.i
            &&& !old(open_files).contains(fh)
            &&& forall|x: u64| inode.i <= x < fh ==> old(open_files).contains(x)
            &&& final(open_files)@ == old(open_files)@.insert(fh, reader)
            &&& *reader.factory().inode == inode
            &&& reader.factory().blockstore == blockstore
            &&& reader.factory().host == host
            &&& !reader.holding()
            &&& reader.index() == 0
            &&& reader.content() == chain_content::<
                InodeReader<'a, H>,
                ReadChain<ShardChain<'a, H>, R>,
            >(reader.factory())
        },
{
    let entry = match get_inode(index, ino) {
        Some(entry) => entry,
        None => {
            return None;
        },
    };
    let reader = ReadChain::new(InodeReader::new(entry, blockstore, host));
    open_files.open(entry.i, reader)
}

} // verus!
