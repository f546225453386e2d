//! The serializer: one streaming pass that cuts the files of an index into
//! blocks, hashes them, and records for every block which files it holds and
//! for every file which blocks hold it.

use vstd::prelude::*;
use crate::blockstore::{
    block_bytes, bytes_from, files_exist, inside_store, lemma_bytes_push, readable_store,
    shard_bytes, shards_inside, sound, Block, BlockShard, BlockStore, StoreError,
};
use crate::chunker::{bup_with_chunk_bits, find_chunk_edge, CHUNK_BITS, WINDOW};
use crate::digest::{content_hash, hash_of};
use crate::host::Host;
use crate::index::{entries, same_frame, ContentBlockEntry, Index, Inode, KIND_FILE};
use crate::source::{ByteSource, SourceError};

verus! {

/// The part that one file has in the block being assembled.
pub struct IntermediateBlockRef {
    /// The file's inode.
    pub inode: u64,
    /// Where in the file its part of the block begins.
    pub file_start: usize,
    /// Where in the file its part of the block ends.
    pub file_end: usize,
    /// Where in the block its part begins.
    pub block_start: usize,
}

/// Why serializing stopped.
#[derive(Debug)]
pub enum SerializeError {
    /// A file could not be opened or read.
    Source(SourceError),
    /// The block store refused a block.
    Store(StoreError),
    /// A file is longer than this machine can count.
    TooLarge,
}

/// The content of the file of inode `j`.
pub open spec fn file_at(files: Map<Seq<char>, Seq<u8>>, base: Seq<Inode>, j: int) -> Seq<u8> {
    files[base[j].host_path@]
}

/// The bytes that `r` stands for.
pub open spec fn part(files: Map<Seq<char>, Seq<u8>>, base: Seq<Inode>, r: IntermediateBlockRef) -> Seq<
    u8,
> {
    file_at(files, base, r.inode as int).subrange(r.file_start as int, r.file_end as int)
}

/// The bytes that the first `n` refs stand for, in order.
pub open spec fn parts(
    files: Map<Seq<char>, Seq<u8>>,
    base: Seq<Inode>,
    refs: Seq<IntermediateBlockRef>,
    n: nat,
) -> Seq<u8>
    decreases n,
{
    if n == 0 {
        Seq::empty()
    } else {
        parts(files, base, refs, (n - 1) as nat) + part(files, base, refs[n - 1])
    }
}

/// The bytes that a content entry points at; nothing where the block is
/// missing or too short.
pub open spec fn entry_bytes(
    store: Map<Seq<char>, Block>,
    files: Map<Seq<char>, Seq<u8>>,
    e: ContentBlockEntry,
) -> Seq<u8> {
    if entry_in_block(store, files, e) {
        block_bytes(files, store[e.h@]).subrange(e.o as int, (e.o + e.l) as int)
    } else {
        Seq::empty()
    }
}

/// Whether the block of a content entry is stored and holds the range that
/// the entry names.
pub open spec fn entry_in_block(
    store: Map<Seq<char>, Block>,
    files: Map<Seq<char>, Seq<u8>>,
    e: ContentBlockEntry,
) -> bool {
    store.contains_key(e.h@) && e.o + e.l <= block_bytes(files, store[e.h@]).len()
}

/// The bytes that the first `n` content entries point at, in order.
pub open spec fn entries_bytes(
    store: Map<Seq<char>, Block>,
    files: Map<Seq<char>, Seq<u8>>,
    c: Seq<ContentBlockEntry>,
    n: nat,
) -> Seq<u8>
    decreases n,
{
    if n == 0 {
        Seq::empty()
    } else {
        entries_bytes(store, files, c, (n - 1) as nat) + entry_bytes(store, files, c[n - 1])
    }
}

/// The content of a file as its inode's entries and the store give it.
pub open spec fn inode_bytes(
    store: Map<Seq<char>, Block>,
    files: Map<Seq<char>, Seq<u8>>,
    inode: Inode,
) -> Seq<u8> {
    entries_bytes(store, files, entries(inode), entries(inode).len())
}

/// Whether every content entry of `inode` lies inside a stored block.
pub open spec fn entries_in_blocks(
    store: Map<Seq<char>, Block>,
    files: Map<Seq<char>, Seq<u8>>,
    inode: Inode,
) -> bool {
    forall|m: int|
        0 <= m < entries(inode).len() ==> entry_in_block(store, files, #[trigger] entries(inode)[m])
}

/// Whether `shards` are the parts that `refs` name, one shard per ref: the
/// file of the ref's inode, from where the part starts, as long as it is.
pub open spec fn shards_match(
    base: Seq<Inode>,
    refs: Seq<IntermediateBlockRef>,
    shards: Seq<BlockShard>,
) -> bool {
    &&& shards.len() == refs.len()
    &&& forall|i: int|
        0 <= i < refs.len() ==> {
            &&& (#[trigger] shards[i]).file@ == base[refs[i].inode as int].host_path@
            &&& shards[i].offset == refs[i].file_start
            &&& shards[i].size == refs[i].file_end - refs[i].file_start
        }
}

/// What the store's refusal of the block `bytes` says: a collision names the
/// block's address, which is taken by a block with other bytes; a failure of
/// the host comes only where the host is not reliable or lacks a file of the
/// block that stands under that address.
pub open spec fn refused(
    s: StoreError,
    store: Map<Seq<char>, Block>,
    files: Map<Seq<char>, Seq<u8>>,
    reliable: bool,
    bytes: Seq<u8>,
) -> bool {
    let hash = hash_of(bytes);
    match s {
        StoreError::Integrity(_) => false,
        StoreError::Collision(h) => {
            &&& h@ == hash
            &&& store.contains_key(hash)
            &&& block_bytes(files, store[hash]) != bytes
        },
        StoreError::Source(_) => !(reliable && (store.contains_key(hash) ==> files_exist(
            files,
            store[hash].shards@,
        ))),
    }
}

/// Whether the host has the file of every regular-file inode.
pub open spec fn files_present(files: Map<Seq<char>, Seq<u8>>, inodes: Seq<Inode>) -> bool {
    forall|j: int|
        0 <= j < inodes.len() && (#[trigger] inodes[j]).k == KIND_FILE ==> files.contains_key(
            inodes[j].host_path@,
        )
}

/// Whether `post` holds every block of `pre`, unchanged.
pub open spec fn extends(pre: Map<Seq<char>, Block>, post: Map<Seq<char>, Block>) -> bool {
    forall|h: Seq<char>| #[trigger]
        pre.contains_key(h) ==> post.contains_key(h) && post[h] == pre[h]
}

/// The sum of the lengths of the first `n` content entries.
pub open spec fn entries_len(c: Seq<ContentBlockEntry>, n: nat) -> nat
    decreases n,
{
    if n == 0 {
        0
    } else {
        entries_len(c, (n - 1) as nat) + c[n - 1].l as nat
    }
}

/// Entries that lie in stored blocks point at as many bytes as their
/// lengths add up to.
pub proof fn lemma_entries_len(
    store: Map<Seq<char>, Block>,
    files: Map<Seq<char>, Seq<u8>>,
    c: Seq<ContentBlockEntry>,
    n: nat,
)
    requires
        n <= c.len(),
        forall|m: int| 0 <= m < c.len() ==> entry_in_block(store, files, #[trigger] c[m]),
    ensures
        entries_bytes(store, files, c, n).len() == entries_len(c, n),
    decreases n,
{
    if n > 0 {
        lemma_entries_len(store, files, c, (n - 1) as nat);
        assert(entry_in_block(store, files, c[n - 1]));
    }
}

/// Where a file's entries lie in stored blocks and reconstruct the file,
/// their lengths add up to the file's size.
pub proof fn lemma_file_size(
    store: Map<Seq<char>, Block>,
    files: Map<Seq<char>, Seq<u8>>,
    inode: Inode,
    file: Seq<u8>,
)
    requires
        entries_in_blocks(store, files, inode),
        inode_bytes(store, files, inode) == file,
    ensures
        entries_len(entries(inode), entries(inode).len()) == file.len(),
{
    lemma_entries_len(store, files, entries(inode), entries(inode).len());
}

/// In a sound store, an entry that lies in its block ends within the size
/// that the block states.
pub proof fn lemma_entry_within_size(
    store: Map<Seq<char>, Block>,
    files: Map<Seq<char>, Seq<u8>>,
    e: ContentBlockEntry,
)
    requires
        sound(store, files),
        entry_in_block(store, files, e),
    ensures
        store.contains_key(e.h@),
        e.o + e.l <= store[e.h@].size,
{
}

/// The bytes of refs depend on the refs counted only.
pub proof fn lemma_parts_prefix(
    files: Map<Seq<char>, Seq<u8>>,
    base: Seq<Inode>,
    a: Seq<IntermediateBlockRef>,
    b: Seq<IntermediateBlockRef>,
    n: nat,
)
    requires
        n <= a.len(),
        n <= b.len(),
        forall|i: int| 0 <= i < n ==> a[i] == b[i],
    ensures
        parts(files, base, a, n) == parts(files, base, b, n),
    decreases n,
{
    if n > 0 {
        lemma_parts_prefix(files, base, a, b, (n - 1) as nat);
    }
}

/// Ref `n` stands for the bytes at its place in the whole.
pub proof fn lemma_parts_slice(
    files: Map<Seq<char>, Seq<u8>>,
    base: Seq<Inode>,
    refs: Seq<IntermediateBlockRef>,
    n: nat,
    total: nat,
)
    requires
        n < total <= refs.len(),
    ensures
        parts(files, base, refs, n).len() + part(files, base, refs[n as int]).len() <= parts(
            files,
            base,
            refs,
            total,
        ).len(),
        parts(files, base, refs, total).subrange(
            parts(files, base, refs, n).len() as int,
            (parts(files, base, refs, n).len() + part(files, base, refs[n as int]).len()) as int,
        ) == part(files, base, refs[n as int]),
    decreases total,
{
    let head = parts(files, base, refs, n);
    let piece = part(files, base, refs[n as int]);
    if total == n + 1 {
        assert((head + piece).subrange(head.len() as int, (head.len() + piece.len()) as int) =~= piece);
    } else {
        lemma_parts_slice(files, base, refs, n, (total - 1) as nat);
        let before = parts(files, base, refs, (total - 1) as nat);
        let last = part(files, base, refs[total - 1]);
        assert((before + last).subrange(head.len() as int, (head.len() + piece.len()) as int)
            =~= before.subrange(head.len() as int, (head.len() + piece.len()) as int));
    }
}

/// Entries that lie in stored blocks point at the same bytes in a store that
/// holds those blocks unchanged.
pub proof fn lemma_entries_extend(
    pre: Map<Seq<char>, Block>,
    post: Map<Seq<char>, Block>,
    files: Map<Seq<char>, Seq<u8>>,
    c: Seq<ContentBlockEntry>,
    n: nat,
)
    requires
        extends(pre, post),
        n <= c.len(),
        forall|m: int| 0 <= m < c.len() ==> entry_in_block(pre, files, #[trigger] c[m]),
    ensures
        entries_bytes(post, files, c, n) == entries_bytes(pre, files, c, n),
        forall|m: int| 0 <= m < c.len() ==> entry_in_block(post, files, #[trigger] c[m]),
    decreases n,
{
    assert forall|m: int| 0 <= m < c.len() implies entry_in_block(post, files, #[trigger] c[m]) by {
        assert(entry_in_block(pre, files, c[m]));
        assert(post[c[m].h@] == pre[c[m].h@]);
    }
    if n > 0 {
        lemma_entries_extend(pre, post, files, c, (n - 1) as nat);
        assert(entry_in_block(pre, files, c[n - 1]));
        assert(post[c[n - 1].h@] == pre[c[n - 1].h@]);
    }
}

/// The bytes of entries depend on the entries counted only.
pub proof fn lemma_entries_prefix(
    store: Map<Seq<char>, Block>,
    files: Map<Seq<char>, Seq<u8>>,
    a: Seq<ContentBlockEntry>,
    b: Seq<ContentBlockEntry>,
    n: nat,
)
    requires
        n <= a.len(),
        n <= b.len(),
        forall|i: int| 0 <= i < n ==> a[i] == b[i],
    ensures
        entries_bytes(store, files, a, n) == entries_bytes(store, files, b, n),
    decreases n,
{
    if n > 0 {
        lemma_entries_prefix(store, files, a, b, (n - 1) as nat);
    }
}

/// The serializer's state between two windows: the block being assembled,
/// the files that have a part in it, and the position in the current file.
pub struct Chunking {
    pending: Vec<u8>,
    refs: Vec<IntermediateBlockRef>,
    file_pos: usize,
    base: Ghost<Seq<Inode>>,
    files: Ghost<Map<Seq<char>, Seq<u8>>>,
    done: Ghost<Seq<nat>>,
    slot: Ghost<Seq<int>>,
    started: Ghost<nat>,
    open: Ghost<bool>,
}

impl Chunking {
    /// The inodes as they were when the pass began.
    pub closed spec fn base(&self) -> Seq<Inode> {
        self.base@
    }

    /// The host's files that the pass reads.
    pub closed spec fn files(&self) -> Map<Seq<char>, Seq<u8>> {
        self.files@
    }

    /// How many inodes the pass has reached.
    pub closed spec fn started(&self) -> nat {
        self.started@
    }

    /// Whether a file is being read.
    pub closed spec fn is_open(&self) -> bool {
        self.open@
    }

    /// Bytes consumed from the current file.
    pub closed spec fn position(&self) -> nat {
        self.file_pos as nat
    }

    /// Bytes accumulated since the last cut.
    pub open spec fn block_len(&self) -> nat {
        self.pending().len()
    }

    /// How far the content entries of inode `j` cover its file.
    pub closed spec fn covered(&self, j: int) -> nat {
        self.done@[j]
    }

    /// Whether inode `j` has a part in the block being assembled.
    pub open spec fn held(&self, j: int) -> bool {
        self.place(j) >= 0
    }

    /// Which of the refs is that of inode `j`, where it has one.
    pub closed spec fn place(&self, j: int) -> int {
        self.slot@[j]
    }

    /// The files that have a part in the block being assembled, in order.
    pub closed spec fn refs(&self) -> Seq<IntermediateBlockRef> {
        self.refs@
    }

    /// The bytes of the block being assembled.
    pub closed spec fn pending(&self) -> Seq<u8> {
        self.pending@
    }

    spec fn ref_ok(&self, n: int) -> bool {
        let r = self.refs@[n];
        let f = file_at(self.files@, self.base@, r.inode as int);
        &&& r.inode < self.started@
        &&& self.base@[r.inode as int].k == KIND_FILE
        &&& self.files@.contains_key(self.base@[r.inode as int].host_path@)
        &&& r.file_start <= r.file_end <= f.len()
        &&& r.block_start == parts(self.files@, self.base@, self.refs@, n as nat).len()
        &&& self.slot@[r.inode as int] == n
        &&& self.done@[r.inode as int] == r.file_start
        &&& (n + 1 < self.refs@.len() || !self.open@) ==> r.file_end == f.len()
    }

    /// What emitting the first `m` refs under `hash` makes of the entries of
    /// inode `j`: a file with one of those refs gets one entry more, for the
    /// part that the ref names; every other inode keeps its entries.
    pub open spec fn entry_pushed(
        &self,
        now: Seq<Inode>,
        was: Seq<Inode>,
        hash: Seq<char>,
        m: int,
        j: int,
    ) -> bool {
        if self.base()[j].k == KIND_FILE && 0 <= self.place(j) < m {
            let r = self.refs()[self.place(j)];
            let e = entries(now[j]).last();
            &&& entries(now[j]).drop_last() == entries(was[j])
            &&& entries(now[j]).len() == entries(was[j]).len() + 1
            &&& e.h@ == hash
            &&& e.o == r.block_start
            &&& e.l == r.file_end - r.file_start
        } else {
            now[j] == was[j]
        }
    }

    spec fn inode_ok(&self, inodes: Seq<Inode>, store: Map<Seq<char>, Block>, j: int) -> bool {
        self.base@[j].k == KIND_FILE ==> {
            let f = file_at(self.files@, self.base@, j);
            &&& entries_in_blocks(store, self.files@, inodes[j])
            &&& inode_bytes(store, self.files@, inodes[j]) == f.take(self.done@[j] as int)
            &&& self.slot@[j] >= 0 ==> self.slot@[j] < self.refs@.len()
                && self.refs@[self.slot@[j]].inode == j
            &&& j < self.started@ ==> self.files@.contains_key(self.base@[j].host_path@)
                && self.done@[j] <= f.len()
            &&& j < self.started@ && self.slot@[j] < 0 ==> self.done@[j] == f.len()
            &&& j >= self.started@ ==> self.slot@[j] < 0 && self.done@[j] == 0
        }
    }

    /// The accounting invariant: the block being assembled is made of the
    /// parts that the refs name, and every file's entries reconstruct the
    /// file as far as they cover it.
    pub closed spec fn inv(&self, inodes: Seq<Inode>, store: Map<Seq<char>, Block>) -> bool {
        &&& same_frame(inodes, self.base@)
        &&& self.done@.len() == self.base@.len()
        &&& self.slot@.len() == self.base@.len()
        &&& self.started@ <= self.base@.len()
        &&& self.pending@ == parts(self.files@, self.base@, self.refs@, self.refs@.len())
        &&& forall|n: int| 0 <= n < self.refs@.len() ==> #[trigger] self.ref_ok(n)
        &&& forall|j: int| 0 <= j < self.base@.len() ==> #[trigger] self.inode_ok(inodes, store, j)
        &&& self.open@ ==> self.refs@.len() > 0 && self.refs@.last().inode == self.started@ - 1
            && self.refs@.last().file_end == self.file_pos
        &&& !self.open@ ==> self.file_pos == 0
    }

    /// What the invariant says of one regular file that the pass has
    /// reached: its entries lie in stored blocks and reconstruct the file up
    /// to `covered`, which is the whole file unless a part of it is still in
    /// the block being assembled.
    pub proof fn lemma_inv_file(&self, inodes: Seq<Inode>, store: Map<Seq<char>, Block>, j: int)
        requires
            self.inv(inodes, store),
            0 <= j < self.started(),
            self.base()[j].k == KIND_FILE,
        ensures
            j < inodes.len() == self.base().len(),
            same_frame(inodes, self.base()),
            self.files().contains_key(self.base()[j].host_path@),
            entries_in_blocks(store, self.files(), inodes[j]),
            self.covered(j) <= file_at(self.files(), self.base(), j).len(),
            inode_bytes(store, self.files(), inodes[j]) == file_at(self.files(), self.base(), j).take(
                self.covered(j) as int,
            ),
            !self.held(j) ==> self.covered(j) == file_at(self.files(), self.base(), j).len(),
            self.block_len() == 0 && !self.is_open() ==> self.covered(j) == file_at(
                self.files(),
                self.base(),
                j,
            ).len(),
    {
        assert(self.inode_ok(inodes, store, j));
        if self.slot@[j] >= 0 && self.block_len() == 0 && !self.is_open() {
            let n = self.slot@[j];
            assert(self.ref_ok(n));
            self.lemma_block_len(n + 1);
        }
    }

    proof fn lemma_block_len(&self, n: int)
        requires
            0 <= n <= self.refs@.len(),
        ensures
            parts(self.files@, self.base@, self.refs@, n as nat).len() <= parts(
                self.files@,
                self.base@,
                self.refs@,
                self.refs@.len(),
            ).len(),
        decreases self.refs@.len() - n,
    {
        if n < self.refs@.len() {
            self.lemma_block_len(n + 1);
        }
    }

    /// The state at the start of a pass over `index`.
    pub fn new<H: Host<R>, R: ByteSource>(index: &Index, host: &H, store: &BlockStore) -> (r:
        Chunking)
        requires
            index.unserialized(),
        ensures
            r.inv(index.inodes@, store@),
            r.base() == index.inodes@,
            r.files() == host.files(),
            r.started() == 0,
            !r.is_open(),
            r.refs() == Seq::<IntermediateBlockRef>::empty(),
            r.pending() == Seq::<u8>::empty(),
    {
        let ghost n = index.inodes@.len();
        let r = Chunking {
            pending: Vec::new(),
            refs: Vec::new(),
            file_pos: 0,
            base: Ghost(index.inodes@),
            files: Ghost(host.files()),
            done: Ghost(Seq::new(n, |j: int| 0nat)),
            slot: Ghost(Seq::new(n, |j: int| -1int)),
            started: Ghost(0nat),
            open: Ghost(false),
        };
        proof {
            assert forall|j: int| 0 <= j < r.base@.len() implies #[trigger] r.inode_ok(
                index.inodes@,
                store@,
                j,
            ) by {
                if r.base@[j].k == KIND_FILE {
                    assert(entries(index.inodes@[j]).len() == 0);
                    assert(file_at(r.files@, r.base@, j).take(0) =~= Seq::<u8>::empty());
                }
            }
        }
        r
    }

    /// Turns to the regular file at position `idx`: it gets a part in the
    /// block being assembled, empty so far, at the block's present end.
    pub fn begin_file(&mut self, idx: usize, index: &Index, blockstore: &BlockStore)
        requires
            old(self).inv(index.inodes@, blockstore@),
            !old(self).is_open(),
            old(self).started() <= idx < old(self).base().len(),
            forall|j: int| old(self).started() <= j < idx ==> old(self).base()[j].k != KIND_FILE,
            old(self).base()[idx as int].k == KIND_FILE,
            old(self).files().contains_key(old(self).base()[idx as int].host_path@),
        ensures
            final(self).inv(index.inodes@, blockstore@),
            final(self).is_open(),
            final(self).started() == idx + 1,
            final(self).position() == 0,
            final(self).base() == old(self).base(),
            final(self).files() == old(self).files(),
            final(self).pending() == old(self).pending(),
            final(self).refs() == old(self).refs().push(
                (IntermediateBlockRef {
                    inode: idx as u64,
                    file_start: 0,
                    file_end: 0,
                    block_start: old(self).block_len() as usize,
                }),
            ),
    {
        let ghost n = self.refs@.len() as int;
        let ghost inodes = index.inodes@;
        let ghost store = blockstore@;
        let r = IntermediateBlockRef {
            inode: idx as u64,
            file_start: 0,
            file_end: 0,
            block_start: self.pending.len(),
        };
        self.refs.push(r);
        proof {
            self.slot@ = self.slot@.update(idx as int, n);
            self.started@ = (idx + 1) as nat;
            self.open@ = true;
            lemma_parts_prefix(self.files@, self.base@, old(self).refs@, self.refs@, n as nat);
            assert(part(self.files@, self.base@, self.refs@[n]) =~= Seq::<u8>::empty());
            assert(self.pending@ =~= parts(self.files@, self.base@, self.refs@, (n + 1) as nat));
            assert(old(self).inode_ok(inodes, store, idx as int));
            assert forall|m: int| 0 <= m < self.refs@.len() implies #[trigger] self.ref_ok(m) by {
                if m < n {
                    assert(old(self).ref_ok(m));
                    lemma_parts_prefix(
                        self.files@,
                        self.base@,
                        old(self).refs@,
                        self.refs@,
                        m as nat,
                    );
                }
            }
            assert forall|j: int| 0 <= j < self.base@.len() implies #[trigger] self.inode_ok(
                inodes,
                store,
                j,
            ) by {
                assert(old(self).inode_ok(inodes, store, j));
                if self.base@[j].k == KIND_FILE && j != idx && old(self).slot@[j] >= 0 {
                    assert(old(self).ref_ok(old(self).slot@[j]));
                }
            }
        }
    }

    /// Takes `window[from..to]`, the next bytes of the current file, into the
    /// block being assembled.
    fn absorb(
        &mut self,
        window: &Vec<u8>,
        from: usize,
        to: usize,
        Ghost(inodes): Ghost<Seq<Inode>>,
        Ghost(store): Ghost<Map<Seq<char>, Block>>,
    )
        requires
            old(self).inv(inodes, store),
            old(self).is_open(),
            from <= to <= window@.len(),
            old(self).position() + (to - from) <= usize::MAX,
            old(self).position() + (to - from) <= file_at(
                old(self).files(),
                old(self).base(),
                old(self).started() - 1,
            ).len(),
            window@.subrange(from as int, to as int) == file_at(
                old(self).files(),
                old(self).base(),
                old(self).started() - 1,
            ).subrange(old(self).position() as int, old(self).position() + (to - from)),
        ensures
            final(self).inv(inodes, store),
            final(self).is_open(),
            final(self).started() == old(self).started(),
            final(self).position() == old(self).position() + (to - from),
            final(self).base() == old(self).base(),
            final(self).files() == old(self).files(),
            final(self).pending() == old(self).pending() + window@.subrange(from as int, to as int),
            old(self).refs().len() > 0,
            final(self).refs() == old(self).refs().update(
                old(self).refs().len() - 1,
                (IntermediateBlockRef {
                    file_end: (old(self).position() + (to - from)) as usize,
                    ..old(self).refs().last()
                }),
            ),
    {
        let mut i: usize = from;
        while i < to
            invariant
                from <= i <= to <= window@.len(),
                self.pending@ == old(self).pending@ + window@.subrange(from as int, i as int),
                self.refs == old(self).refs,
                self.file_pos == old(self).file_pos,
                self.base == old(self).base,
                self.files == old(self).files,
                self.done == old(self).done,
                self.slot == old(self).slot,
                self.started == old(self).started,
                self.open == old(self).open,
            decreases to - i,
        {
            self.pending.push(window[i]);
            assert(window@.subrange(from as int, i + 1) =~= window@.subrange(
                from as int,
                i as int,
            ).push(window@[i as int]));
            i += 1;
        }
        let last = self.refs.len() - 1;
        self.file_pos += to - from;
        let end = self.file_pos;
        let r = &mut self.refs[last];
        r.file_end = end;
        assert(self.refs@ =~= old(self).refs@.update(
            last as int,
            (IntermediateBlockRef { file_end: end, ..old(self).refs@[last as int] }),
        ));
        proof {
            let f = file_at(self.files@, self.base@, self.started@ - 1);
            let was = old(self).refs@[last as int];
            assert(old(self).ref_ok(last as int));
            lemma_parts_prefix(self.files@, self.base@, old(self).refs@, self.refs@, last as nat);
            assert(f.subrange(was.file_start as int, end as int) =~= f.subrange(
                was.file_start as int,
                was.file_end as int,
            ) + f.subrange(was.file_end as int, end as int));
            assert(self.pending@ =~= parts(
                self.files@,
                self.base@,
                self.refs@,
                self.refs@.len(),
            ));
            assert forall|m: int| 0 <= m < self.refs@.len() implies #[trigger] self.ref_ok(m) by {
                assert(old(self).ref_ok(m));
                lemma_parts_prefix(self.files@, self.base@, old(self).refs@, self.refs@, m as nat);
            }
            assert forall|j: int| 0 <= j < self.base@.len() implies #[trigger] self.inode_ok(
                inodes,
                store,
                j,
            ) by {
                assert(old(self).inode_ok(inodes, store, j));
                if self.base@[j].k == KIND_FILE && self.slot@[j] >= 0 {
                    assert(old(self).ref_ok(self.slot@[j]));
                }
            }
        }
    }

    /// Leaves the current file, which has been read to its end. The block
    /// being assembled stays open across the file's end.
    pub fn end_file(&mut self, index: &Index, blockstore: &BlockStore)
        requires
            old(self).inv(index.inodes@, blockstore@),
            old(self).is_open(),
            old(self).position() == file_at(
                old(self).files(),
                old(self).base(),
                old(self).started() - 1,
            ).len(),
        ensures
            final(self).inv(index.inodes@, blockstore@),
            !final(self).is_open(),
            final(self).started() == old(self).started(),
            final(self).base() == old(self).base(),
            final(self).files() == old(self).files(),
            final(self).pending() == old(self).pending(),
            final(self).refs() == old(self).refs(),
    {
        self.file_pos = 0;
        proof {
            self.open@ = false;
            let ghost_last = self.refs@.len() - 1;
            assert(old(self).ref_ok(ghost_last));
            assert forall|m: int| 0 <= m < self.refs@.len() implies #[trigger] self.ref_ok(m) by {
                assert(old(self).ref_ok(m));
            }
            assert forall|j: int| 0 <= j < self.base@.len() implies #[trigger] self.inode_ok(
                index.inodes@,
                blockstore@,
                j,
            ) by {
                assert(old(self).inode_ok(index.inodes@, blockstore@, j));
            }
        }
    }

    /// Closes the block being assembled: its shards are the parts that the
    /// refs name, its address is the hash of its bytes, and every file with a
    /// part in it gets a content entry for that part. The block goes into the
    /// store first; where the store does not take it, nothing is recorded.
    /// With `carry`, the current file opens the next block at its present
    /// position.
    pub fn emit_block<H: Host<R>, R: ByteSource>(
        &mut self,
        index: &mut Index,
        blockstore: &mut BlockStore,
        host: &H,
        carry: bool,
    ) -> (r: Result<(), SerializeError>)
        requires
            old(self).inv(old(index).inodes@, old(blockstore)@),
            old(self).files() == host.files(),
            carry == old(self).is_open(),
        ensures
            extends(old(blockstore)@, final(blockstore)@),
            sound(old(blockstore)@, host.files()) ==> sound(final(blockstore)@, host.files()),
            old(blockstore).wf() ==> final(blockstore).wf(),
            final(self).base() == old(self).base(),
            final(self).files() == old(self).files(),
            final(self).started() == old(self).started(),
            final(self).is_open() == old(self).is_open(),
            final(self).position() == old(self).position(),
            readable_store(old(blockstore)@, host.files()) ==> readable_store(
                final(blockstore)@,
                host.files(),
            ),
            inside_store(old(blockstore)@, host.files()) ==> inside_store(
                final(blockstore)@,
                host.files(),
            ),
            same_frame(final(index).inodes@, old(index).inodes@),
            forall|n: int|
                0 <= n < old(self).refs().len() ==> {
                    &&& (#[trigger] old(self).refs()[n]).inode < old(self).base().len()
                    &&& old(self).base()[old(self).refs()[n].inode as int].k == KIND_FILE
                    &&& old(self).place(old(self).refs()[n].inode as int) == n
                },
            match r {
                Ok(()) => {
                    let hash = hash_of(old(self).pending());
                    let pre = old(blockstore)@;
                    let post = final(blockstore)@;
                    &&& final(self).inv(final(index).inodes@, post)
                    &&& final(self).block_len() == 0
                    &&& post.contains_key(hash)
                    &&& block_bytes(host.files(), post[hash]) == old(self).pending()
                    &&& pre.contains_key(hash) ==> post == pre
                    &&& !pre.contains_key(hash) ==> {
                        &&& post == pre.insert(hash, post[hash])
                        &&& post[hash].size == old(self).pending().len()
                        &&& shards_match(old(self).base(), old(self).refs(), post[hash].shards@)
                        &&& shards_inside(host.files(), post[hash].shards@)
                    }
                    &&& forall|j: int|
                        0 <= j < old(self).base().len() ==> #[trigger] old(self).entry_pushed(
                            final(index).inodes@,
                            old(index).inodes@,
                            hash,
                            old(self).refs().len() as int,
                            j,
                        )
                    &&& final(self).refs() == if carry {
                        seq![
                            (IntermediateBlockRef {
                                inode: old(self).refs().last().inode,
                                file_start: old(self).position() as usize,
                                file_end: old(self).position() as usize,
                                block_start: 0,
                            }),
                        ]
                    } else {
                        Seq::empty()
                    }
                },
                Err(e) => {
                    &&& final(index).inodes@ == old(index).inodes@
                    &&& final(blockstore)@ == old(blockstore)@
                    &&& final(self).inv(final(index).inodes@, final(blockstore)@)
                    &&& final(self).refs() == old(self).refs()
                    &&& final(self).pending() == old(self).pending()
                    &&& e matches SerializeError::Store(s) && refused(
                        s,
                        old(blockstore)@,
                        host.files(),
                        host.reliable(),
                        old(self).pending(),
                    )
                },
            },
    {
        let ghost files = self.files@;
        let ghost base = self.base@;
        let ghost pre = blockstore@;
        let ghost was = index.inodes@;
        let count = self.refs.len();
        let total = index.inodes.len();
        let mut shards: Vec<BlockShard> = Vec::new();
        let mut n: usize = 0;
        while n < count
            invariant
                n <= count == self.refs@.len(),
                total == index.inodes@.len(),
                shards@.len() == n,
                self.inv(index.inodes@, pre),
                files == self.files@,
                base == self.base@,
                bytes_from(files, shards@, 0) == parts(files, base, self.refs@, n as nat),
                shards_match(base, self.refs@.take(n as int), shards@),
                shards_inside(files, shards@),
            decreases count - n,
        {
            let r = &self.refs[n];
            proof {
                assert(self.ref_ok(n as int));
            }
            let shard = BlockShard {
                file: index.inodes[r.inode as usize].host_path.clone(),
                offset: r.file_start,
                size: r.file_end - r.file_start,
            };
            proof {
                lemma_bytes_push(files, shards@, shard, 0);
                assert(shard_bytes(files, shard) =~= part(files, base, *r));
            }
            shards.push(shard);
            n += 1;
        }
        assert(self.refs@.take(count as int) =~= self.refs@);
        let hash = content_hash(&self.pending);
        let block = Block { shards: shards, size: self.pending.len() };
        proof {
            crate::blockstore::lemma_inside_size(files, block.shards@, 0);
            assert forall|n: int| 0 <= n < self.refs@.len() implies {
                &&& (#[trigger] self.refs@[n]).inode < base.len()
                &&& base[self.refs@[n].inode as int].k == KIND_FILE
                &&& self.slot@[self.refs@[n].inode as int] == n
            } by {
                assert(self.ref_ok(n));
            }
        }
        match blockstore.insert::<H, R>(host, hash.clone(), block) {
            Ok(()) => {},
            Err(e) => {
                return Err(SerializeError::Store(e));
            },
        }
        let ghost post = blockstore@;
        assert(!pre.contains_key(hash@) ==> post[hash@] == block);
        assert(extends(pre, post));
        assert(block_bytes(files, post[hash@]) == self.pending@);
        let mut m: usize = 0;
        while m < count
            invariant
                m <= count == self.refs@.len(),
                *self == *old(self),
                self.inv(was, pre),
                was.len() == index.inodes@.len() == total,
                same_frame(index.inodes@, base),
                base == self.base@,
                forall|j: int|
                    0 <= j < was.len() ==> #[trigger] self.entry_pushed(
                        index.inodes@,
                        was,
                        hash@,
                        m as int,
                        j,
                    ),
            decreases count - m,
        {
            let r = &self.refs[m];
            proof {
                assert(self.ref_ok(m as int));
                assert(self.inode_ok(was, pre, r.inode as int));
            }
            let e = ContentBlockEntry {
                h: hash.clone(),
                o: r.block_start as u64,
                l: (r.file_end - r.file_start) as u64,
            };
            let ghost before = index.inodes@;
            push_entry(&mut index.inodes, r.inode as usize, e);
            proof {
                assert(entries(index.inodes@[r.inode as int]).drop_last() =~= entries(
                    before[r.inode as int],
                ));
                assert forall|j: int| 0 <= j < was.len() implies #[trigger] self.entry_pushed(
                    index.inodes@,
                    was,
                    hash@,
                    m + 1,
                    j,
                ) by {
                    assert(self.entry_pushed(before, was, hash@, m as int, j));
                    assert(self.inode_ok(was, pre, j));
                }
            }
            m += 1;
        }
        let ghost now = index.inodes@;
        let keep_inode: u64 = if carry { self.refs[count - 1].inode } else { 0 };
        let ghost refs_before = self.refs@;
        self.refs.clear();
        self.pending.clear();
        if carry {
            self.refs.push(
                IntermediateBlockRef {
                    inode: keep_inode,
                    file_start: self.file_pos,
                    file_end: self.file_pos,
                    block_start: 0,
                },
            );
        }
        proof {
            let slot0 = old(self).slot@;
            let done0 = old(self).done@;
            self.done@ = Seq::new(
                base.len(),
                |j: int|
                    if base[j].k == KIND_FILE && slot0[j] >= 0 {
                        refs_before[slot0[j]].file_end as nat
                    } else {
                        done0[j]
                    },
            );
            self.slot@ = Seq::new(
                base.len(),
                |j: int|
                    if carry && j == keep_inode {
                        0int
                    } else {
                        -1int
                    },
            );
            if carry {
                assert(self.refs@ =~= seq![self.refs@[0]]);
                assert(old(self).ref_ok(count - 1));
                assert(old(self).inode_ok(was, pre, keep_inode as int));
                assert(part(files, base, self.refs@[0]) =~= Seq::<u8>::empty());
                assert(parts(files, base, self.refs@, 0) =~= Seq::<u8>::empty());
                assert(self.pending@ =~= parts(files, base, self.refs@, 1));
                assert(self.ref_ok(0));
            }
            assert forall|j: int| 0 <= j < base.len() implies #[trigger] self.inode_ok(
                now,
                post,
                j,
            ) by {
                assert(old(self).inode_ok(was, pre, j));
                if base[j].k == KIND_FILE {
                    let f = file_at(files, base, j);
                    let c0 = entries(was[j]);
                    let c1 = entries(now[j]);
                    assert(old(self).entry_pushed(now, was, hash@, count as int, j));
                    lemma_entries_extend(pre, post, files, c0, c0.len());
                    if slot0[j] >= 0 {
                        let k = slot0[j];
                        let r = refs_before[k];
                        assert(old(self).ref_ok(k));
                        lemma_parts_slice(files, base, refs_before, k as nat, count as nat);
                        lemma_entries_prefix(post, files, c1, c0, c0.len());
                        assert(c1.drop_last() == c0);
                        assert forall|i: int| 0 <= i < c1.len() implies entry_in_block(
                            post,
                            files,
                            #[trigger] c1[i],
                        ) by {
                            if i < c0.len() {
                                assert(c1[i] == c1.drop_last()[i]);
                            }
                        }
                        assert(entry_bytes(post, files, c1.last()) == part(files, base, r));
                        assert(f.take(r.file_start as int) + f.subrange(
                            r.file_start as int,
                            r.file_end as int,
                        ) =~= f.take(r.file_end as int));
                    }
                }
            }
        }
        Ok(())
    }

    /// Takes in one window of the current file, given where the chunker saw
    /// an edge in it. Without an edge the whole window joins the block being
    /// assembled. With an edge behind `count` bytes, those bytes complete the
    /// block, which is emitted, and the rest of the window opens the next
    /// block for the same file.
    pub fn feed<H: Host<R>, R: ByteSource>(
        &mut self,
        index: &mut Index,
        blockstore: &mut BlockStore,
        host: &H,
        window: &Vec<u8>,
        cut: Option<usize>,
    ) -> (r: Result<(), SerializeError>)
        requires
            old(self).inv(old(index).inodes@, old(blockstore)@),
            old(self).files() == host.files(),
            old(self).is_open(),
            old(self).position() + window@.len() <= usize::MAX,
            old(self).position() + window@.len() <= file_at(
                old(self).files(),
                old(self).base(),
                old(self).started() - 1,
            ).len(),
            window@ == file_at(
                old(self).files(),
                old(self).base(),
                old(self).started() - 1,
            ).subrange(
                old(self).position() as int,
                (old(self).position() + window@.len()) as int,
            ),
            cut matches Some(count) ==> count <= window@.len(),
        ensures
            extends(old(blockstore)@, final(blockstore)@),
            sound(old(blockstore)@, host.files()) ==> sound(final(blockstore)@, host.files()),
            old(blockstore).wf() ==> final(blockstore).wf(),
            readable_store(old(blockstore)@, host.files()) ==> readable_store(
                final(blockstore)@,
                host.files(),
            ),
            inside_store(old(blockstore)@, host.files()) ==> inside_store(
                final(blockstore)@,
                host.files(),
            ),
            same_frame(final(index).inodes@, old(index).inodes@),
            final(self).base() == old(self).base(),
            final(self).files() == old(self).files(),
            final(self).started() == old(self).started(),
            final(self).is_open(),
            match r {
                Ok(()) => {
                    &&& final(self).inv(final(index).inodes@, final(blockstore)@)
                    &&& final(self).position() == old(self).position() + window@.len()
                    &&& final(self).pending() == match cut {
                        Some(count) => window@.skip(count as int),
                        None => old(self).pending() + window@,
                    }
                    &&& final(self).refs() == match cut {
                        Some(count) => seq![
                            (IntermediateBlockRef {
                                inode: old(self).refs().last().inode,
                                file_start: (old(self).position() + count) as usize,
                                file_end: (old(self).position() + window@.len()) as usize,
                                block_start: 0,
                            }),
                        ],
                        None => old(self).refs().update(
                            old(self).refs().len() - 1,
                            (IntermediateBlockRef {
                                file_end: (old(self).position() + window@.len()) as usize,
                                ..old(self).refs().last()
                            }),
                        ),
                    }
                    &&& cut matches Some(count) ==> {
                        let block = old(self).pending() + window@.take(count as int);
                        &&& final(blockstore)@.contains_key(hash_of(block))
                        &&& block_bytes(host.files(), final(blockstore)@[hash_of(block)]) == block
                    }
                    &&& cut is None ==> final(blockstore)@ == old(blockstore)@ && final(index).inodes@ == old(index).inodes@
                },
                Err(e) => {
                    &&& cut matches Some(count)
                    &&& e matches SerializeError::Store(s) && refused(
                        s,
                        old(blockstore)@,
                        host.files(),
                        host.reliable(),
                        old(self).pending() + window@.take(count as int),
                    )
                    &&& final(index).inodes@ == old(index).inodes@
                    &&& final(blockstore)@ == old(blockstore)@
                },
            },
    {
        let ghost f = file_at(self.files@, self.base@, self.started@ - 1);
        let ghost pos = self.file_pos as int;
        let len = window.len();
        match cut {
            Some(count) => {
                assert(window@.subrange(0, count as int) =~= f.subrange(pos, pos + count));
                assert(window@.subrange(count as int, len as int) =~= f.subrange(
                    pos + count,
                    pos + len,
                ));
                self.absorb(window, 0, count, Ghost(index.inodes@), Ghost(blockstore@));
                match self.emit_block::<H, R>(index, blockstore, host, true) {
                    Ok(()) => {},
                    Err(e) => {
                        return Err(e);
                    },
                }
                self.absorb(window, count, len, Ghost(index.inodes@), Ghost(blockstore@));
                assert(self.pending@ =~= window@.skip(count as int));
                assert(self.refs@ =~= seq![self.refs@[0]]);
            },
            None => {
                assert(window@.subrange(0, len as int) =~= window@);
                self.absorb(window, 0, len, Ghost(index.inodes@), Ghost(blockstore@));
            },
        }
        Ok(())
    }
}

impl Index {
    /// Cuts every regular file of the index into blocks, in one pass and in
    /// index order, stores the blocks and gives every file its content
    /// entries. A block ends where the chunker sees an edge, and may hold the
    /// end of one file and the start of the next; what is left after the last
    /// file is the last block.
    ///
    /// On success every regular file is reconstructed exactly by its
    /// entries, each of which lies inside a stored block. Whatever the
    /// outcome, only content lists change in the index, and the store keeps
    /// every block it had. The pass stops at the first failure of the host
    /// and at the first block that the store refuses; the store never
    /// refuses one of its blocks for its hash or size.
    pub fn serialize<H: Host<R>, R: ByteSource>(
        &mut self,
        host: &H,
        blockstore: &mut BlockStore,
    ) -> (r: Result<(), SerializeError>)
        requires
            old(self).unserialized(),
        ensures
            same_frame(final(self).inodes@, old(self).inodes@),
            extends(old(blockstore)@, final(blockstore)@),
            sound(old(blockstore)@, host.files()) ==> sound(final(blockstore)@, host.files()),
            old(blockstore).wf() ==> final(blockstore).wf(),
            readable_store(old(blockstore)@, host.files()) ==> readable_store(
                final(blockstore)@,
                host.files(),
            ),
            inside_store(old(blockstore)@, host.files()) ==> inside_store(
                final(blockstore)@,
                host.files(),
            ),
            r is Ok ==> forall|j: int|
                0 <= j < old(self).inodes@.len() && (#[trigger] old(self).inodes@[j]).k == KIND_FILE
                    ==> {
                    &&& host.files().contains_key(old(self).inodes@[j].host_path@)
                    &&& entries_in_blocks(final(blockstore)@, host.files(), final(self).inodes@[j])
                    &&& inode_bytes(final(blockstore)@, host.files(), final(self).inodes@[j])
                        == host.files()[old(self).inodes@[j].host_path@]
                },
            r matches Err(SerializeError::Store(e)) ==> !(e is Integrity),
            r matches Err(SerializeError::Store(StoreError::Source(_))) ==> !(host.reliable()
                && readable_store(old(blockstore)@, host.files())),
            sound(old(blockstore)@, host.files()) ==> (r matches Err(
                SerializeError::Store(StoreError::Collision(h)),
            ) ==> exists|a: Seq<u8>, b: Seq<u8>|
                a != b && #[trigger] hash_of(a) == h@ && #[trigger] hash_of(b) == h@),
            r matches Err(SerializeError::Source(_)) ==> !(host.reliable() && files_present(
                host.files(),
                old(self).inodes@,
            )),
            r matches Err(SerializeError::TooLarge) ==> exists|j: int|
                0 <= j < old(self).inodes@.len() && (#[trigger] old(self).inodes@[j]).k == KIND_FILE
                    && host.files()[old(self).inodes@[j].host_path@].len() > usize::MAX,
    {
        let ghost files = host.files();
        let ghost base = self.inodes@;
        let ghost pre = blockstore@;
        let mut st = Chunking::new::<H, R>(self, host, blockstore);
        let mut chunker = bup_with_chunk_bits(CHUNK_BITS);
        let total = self.inodes.len();
        let mut idx: usize = 0;
        while idx < total
            invariant
                idx <= total == base.len(),
                base == old(self).inodes@,
                pre == old(blockstore)@,
                st.inv(self.inodes@, blockstore@),
                !st.is_open(),
                st.started() <= idx,
                forall|j: int| st.started() <= j < idx ==> base[j].k != KIND_FILE,
                st.base() == base,
                st.files() == files,
                files == host.files(),
                extends(pre, blockstore@),
                sound(pre, files) ==> sound(blockstore@, files),
                old(blockstore).wf() ==> blockstore.wf(),
                readable_store(pre, files) ==> readable_store(blockstore@, files),
                inside_store(pre, files) ==> inside_store(blockstore@, files),
            decreases total - idx,
        {
            if self.inodes[idx].k == KIND_FILE {
                let mut file = match host.open(&self.inodes[idx].host_path, 0) {
                    Ok(file) => file,
                    Err(e) => {
                        return Err(SerializeError::Source(e));
                    },
                };
                st.begin_file(idx, self, blockstore);
                let ghost f = file_at(files, base, idx as int);
                assert(file.remaining() =~= f.skip(0));
                loop
                    invariant
                        idx < total == base.len(),
                        base == old(self).inodes@,
                        pre == old(blockstore)@,
                        st.inv(self.inodes@, blockstore@),
                        st.is_open(),
                        st.started() == idx + 1,
                        st.base() == base,
                        st.files() == files,
                        files == host.files(),
                        f == file_at(files, base, idx as int),
                        file.inv(),
                        base[idx as int].k == KIND_FILE,
                        host.reliable() ==> file.infallible(),
                        st.position() <= f.len(),
                        file.remaining() == f.skip(st.position() as int),
                        extends(pre, blockstore@),
                        sound(pre, files) ==> sound(blockstore@, files),
                        old(blockstore).wf() ==> blockstore.wf(),
                        readable_store(pre, files) ==> readable_store(blockstore@, files),
                        inside_store(pre, files) ==> inside_store(blockstore@, files),
                    ensures
                        st.position() == f.len(),
                    decreases file.remaining().len(),
                {
                    let ghost ahead = file.remaining();
                    let window = match file.read(WINDOW) {
                        Ok(window) => window,
                        Err(e) => {
                            return Err(SerializeError::Source(e));
                        },
                    };
                    let rs = window.len();
                    if rs < 1 {
                        assert(f.skip(st.position() as int).len() == 0);
                        break;
                    }
                    if st.file_pos > usize::MAX - rs {
                        assert(rs <= ahead.len() && ahead.len() == f.len() - st.position());
                        return Err(SerializeError::TooLarge);
                    }
                    let cut = find_chunk_edge(&mut chunker, &window);
                    proof {
                        let pos = st.position() as int;
                        assert(window@ =~= f.subrange(pos, pos + rs));
                        assert(f.skip(pos).skip(rs as int) =~= f.skip(pos + rs));
                    }
                    match st.feed::<H, R>(self, blockstore, host, &window, cut) {
                        Ok(()) => {},
                        Err(e) => {
                            return Err(e);
                        },
                    }
                }
                st.end_file(self, blockstore);
            }
            idx += 1;
        }
        match st.emit_block::<H, R>(self, blockstore, host, false) {
            Ok(()) => {},
            Err(e) => {
                return Err(e);
            },
        }
        proof {
            assert forall|j: int|
                0 <= j < base.len() && (#[trigger] base[j]).k == KIND_FILE implies {
                &&& files.contains_key(base[j].host_path@)
                &&& entries_in_blocks(blockstore@, files, self.inodes@[j])
                &&& inode_bytes(blockstore@, files, self.inodes@[j]) == files[base[j].host_path@]
            } by {
                assert(j < st.started());
                st.lemma_inv_file(self.inodes@, blockstore@, j);
                assert(file_at(files, base, j).take(file_at(files, base, j).len() as int)
                    =~= file_at(files, base, j));
            }
        }
        Ok(())
    }
}

fn push_entry(inodes: &mut Vec<Inode>, j: usize, e: ContentBlockEntry)
    requires
        j < old(inodes)@.len(),
        old(inodes)@[j as int].k == KIND_FILE,
    ensures
        final(inodes)@.len() == old(inodes)@.len(),
        forall|k: int|
            0 <= k < old(inodes)@.len() && k != j ==> final(inodes)@[k] == old(inodes)@[k],
        same_frame(final(inodes)@, old(inodes)@),
        entries(final(inodes)@[j as int]) == entries(old(inodes)@[j as int]).push(e),
{
    let it = &mut inodes[j];
    if it.c.is_none() {
        it.c = Some(Vec::new());
    }
    match &mut it.c {
        Some(v) => {
            v.push(e);
        },
        None => {},
    }
}

} // verus!
