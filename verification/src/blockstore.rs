//! The block store: a catalogue from content address to the shards that make
//! up the block, which takes in a block only after reading it back.

use vstd::prelude::*;
use crate::assoc::{assoc_find, assoc_map, distinct_keys, lemma_assoc_dom, lemma_assoc_push};
use crate::digest::{content_hash, hash_of};
use crate::host::{file_tail, Host};
use crate::readchain::{chain_content, content_from, ReadChain, ReadChainAble};
use crate::source::{clip, ByteSource, SourceError};

verus! {

/// A run of bytes in a host file that contributes to a block.
pub struct BlockShard {
    pub file: String,
    pub offset: usize,
    pub size: usize,
}

/// A block: its exact size and the shards that make it up, in order.
pub struct Block {
    pub shards: Vec<BlockShard>,
    pub size: usize,
}

/// Why the store did not take a block in.
#[derive(Debug)]
pub enum StoreError {
    /// The block's bytes do not hash to the given address, or are not as many
    /// as the block says. Carries the address.
    Integrity(String),
    /// The address is taken by a block with other bytes. Carries the address.
    Collision(String),
    /// The host failed while the block was read back.
    Source(SourceError),
}

/// The bytes that one shard contributes.
pub open spec fn shard_bytes(files: Map<Seq<char>, Seq<u8>>, shard: BlockShard) -> Seq<u8> {
    clip(file_tail(files, shard.file@, shard.offset as nat), shard.size as nat)
}

/// The bytes of the shards from index `i` on, in order.
pub open spec fn bytes_from(files: Map<Seq<char>, Seq<u8>>, shards: Seq<BlockShard>, i: nat) -> Seq<
    u8,
>
    decreases shards.len() - i,
{
    if i >= shards.len() {
        Seq::empty()
    } else {
        shard_bytes(files, shards[i as int]) + bytes_from(files, shards, i + 1)
    }
}

/// The byte stream of a block: its shards' bytes, in order.
pub open spec fn block_bytes(files: Map<Seq<char>, Seq<u8>>, block: Block) -> Seq<u8> {
    bytes_from(files, block.shards@, 0)
}

/// Whether every shard names a file that the host has.
pub open spec fn files_exist(files: Map<Seq<char>, Seq<u8>>, shards: Seq<BlockShard>) -> bool {
    forall|i: int| 0 <= i < shards.len() ==> files.contains_key(#[trigger] shards[i].file@)
}

/// Whether every shard names a file that the host has and lies inside it.
pub open spec fn shards_inside(files: Map<Seq<char>, Seq<u8>>, shards: Seq<BlockShard>) -> bool {
    forall|i: int|
        0 <= i < shards.len() ==> files.contains_key((#[trigger] shards[i]).file@) && shards[i].offset
            + shards[i].size <= files[shards[i].file@].len()
}

/// The sizes of the shards from index `i` on, added up.
pub open spec fn sizes_from(shards: Seq<BlockShard>, i: nat) -> nat
    decreases shards.len() - i,
{
    if i >= shards.len() {
        0
    } else {
        shards[i as int].size as nat + sizes_from(shards, i + 1)
    }
}

/// Shards that lie inside their files contribute as many bytes as their
/// sizes say.
pub proof fn lemma_inside_size(files: Map<Seq<char>, Seq<u8>>, shards: Seq<BlockShard>, i: nat)
    requires
        shards_inside(files, shards),
    ensures
        bytes_from(files, shards, i).len() == sizes_from(shards, i),
        files_exist(files, shards),
    decreases shards.len() - i,
{
    if i < shards.len() {
        lemma_inside_size(files, shards, i + 1);
        assert(files.contains_key(shards[i as int].file@));
    }
    assert forall|k: int| 0 <= k < shards.len() implies files.contains_key(
        #[trigger] shards[k].file@,
    ) by {
        assert(files.contains_key(shards[k].file@));
    }
}

/// Whether the host has every file that a stored block names.
pub open spec fn readable_store(store: Map<Seq<char>, Block>, files: Map<Seq<char>, Seq<u8>>) -> bool {
    forall|h: Seq<char>| #[trigger]
        store.contains_key(h) ==> files_exist(files, store[h].shards@)
}

/// Whether every shard of every stored block lies inside its file.
pub open spec fn inside_store(store: Map<Seq<char>, Block>, files: Map<Seq<char>, Seq<u8>>) -> bool {
    forall|h: Seq<char>| #[trigger]
        store.contains_key(h) ==> shards_inside(files, store[h].shards@)
}

/// Whether `block` may stand under `hash`: its bytes hash to `hash`, and are
/// as many as it says.
pub open spec fn fits(files: Map<Seq<char>, Seq<u8>>, hash: Seq<char>, block: Block) -> bool {
    &&& hash_of(block_bytes(files, block)) == hash
    &&& block_bytes(files, block).len() == block.size
}

/// The shards of a block as a factory of bounded sources on a host.
pub struct ShardChain<'a, H> {
    pub host: &'a H,
    pub shards: &'a Vec<BlockShard>,
}

impl<'a, H: Host<R>, R: ByteSource> ReadChainAble<R> for ShardChain<'a, H> {
    open spec fn spec_len(&self) -> nat {
        self.shards@.len()
    }

    open spec fn bytes_at(&self, i: int) -> Seq<u8> {
        file_tail(self.host.files(), self.shards@[i].file@, self.shards@[i].offset as nat)
    }

    open spec fn limit_at(&self, i: int) -> nat {
        self.shards@[i].size as nat
    }

    open spec fn infallible(&self) -> bool {
        self.host.reliable() && files_exist(self.host.files(), self.shards@)
    }

    open spec fn eager(&self) -> bool {
        self.host.eager()
    }

    fn len(&self) -> (n: usize) {
        self.shards.len()
    }

    fn at(&self, i: usize) -> (r: Result<(R, usize), SourceError>) {
        let shard = &self.shards[i];
        match self.host.open(&shard.file, shard.offset as u64) {
            Ok(src) => Ok((src, shard.size)),
            Err(e) => Err(e),
        }
    }
}

/// A chain over shards presents the shards' bytes.
pub proof fn lemma_shard_chain_content<'a, H: Host<R>, R: ByteSource>(
    chain: &ShardChain<'a, H>,
    i: nat,
)
    ensures
        content_from::<ShardChain<'a, H>, R>(chain, i) == bytes_from(
            chain.host.files(),
            chain.shards@,
            i,
        ),
    decreases chain.shards@.len() - i,
{
    if i < chain.shards@.len() {
        lemma_shard_chain_content::<H, R>(chain, i + 1);
    }
}

/// Appending a shard appends its bytes.
pub proof fn lemma_bytes_push(
    files: Map<Seq<char>, Seq<u8>>,
    shards: Seq<BlockShard>,
    shard: BlockShard,
    i: nat,
)
    requires
        i <= shards.len(),
    ensures
        bytes_from(files, shards.push(shard), i) == bytes_from(files, shards, i) + shard_bytes(
            files,
            shard,
        ),
    decreases shards.len() - i,
{
    if i < shards.len() {
        lemma_bytes_push(files, shards, shard, i + 1);
        assert(shards.push(shard)[i as int] == shards[i as int]);
        assert(bytes_from(files, shards.push(shard), i) =~= bytes_from(files, shards, i)
            + shard_bytes(files, shard));
    } else {
        assert(bytes_from(files, shards.push(shard), i + 1) =~= Seq::<u8>::empty());
        assert(bytes_from(files, shards.push(shard), i) =~= shard_bytes(files, shard));
    }
}

fn bytes_equal(a: &Vec<u8>, b: &Vec<u8>) -> (r: bool)
    ensures
        r == (a@ == b@),
{
    if a.len() != b.len() {
        return false;
    }
    let mut i: usize = 0;
    while i < a.len()
        invariant
            a@.len() == b@.len(),
            i <= a@.len(),
            a@.take(i as int) == b@.take(i as int),
        decreases a@.len() - i,
    {
        if a[i] != b[i] {
            return false;
        }
        assert(a@.take(i + 1) =~= a@.take(i as int).push(a@[i as int]));
        assert(b@.take(i + 1) =~= b@.take(i as int).push(b@[i as int]));
        i += 1;
    }
    assert(a@ =~= a@.take(i as int));
    assert(b@ =~= b@.take(i as int));
    true
}

impl Block {
    /// A reader over the block's byte stream on `host`.
    pub fn chain<'a, H: Host<R>, R: ByteSource>(&'a self, host: &'a H) -> (r: ReadChain<
        ShardChain<'a, H>,
        R,
    >)
        ensures
            r.wf(),
            r.factory().host == host,
            r.factory().shards == &self.shards,
            r.content() == block_bytes(host.files(), *self),
    {
        let it = ShardChain { host: host, shards: &self.shards };
        proof {
            lemma_shard_chain_content::<H, R>(&it, 0);
        }
        ReadChain::new(it)
    }

    /// Reads the whole block from `host`. On a reliable host that has every
    /// file the shards name, this succeeds.
    pub fn read_bytes<H: Host<R>, R: ByteSource>(&self, host: &H) -> (r: Result<
        Vec<u8>,
        SourceError,
    >)
        ensures
            host.reliable() && files_exist(host.files(), self.shards@) ==> r is Ok,
            r matches Ok(bytes) ==> bytes@ == block_bytes(host.files(), *self),
    {
        let mut reader = self.chain::<H, R>(host);
        reader.read_to_end()
    }
}

/// What a successful insert of `block` under `hash` makes of the store
/// `pre`: a new address is installed; at a known address the stored block
/// stays, and has the same bytes.
pub open spec fn insert_ok(
    pre: Map<Seq<char>, Block>,
    post: Map<Seq<char>, Block>,
    files: Map<Seq<char>, Seq<u8>>,
    hash: Seq<char>,
    block: Block,
) -> bool {
    &&& fits(files, hash, block)
    &&& if pre.contains_key(hash) {
        post == pre && block_bytes(files, pre[hash]) == block_bytes(files, block)
    } else {
        post == pre.insert(hash, block)
    }
}

/// When an insert is refused as a collision: the block fits its address, and
/// the address is taken by a block with other bytes.
pub open spec fn insert_collides(
    pre: Map<Seq<char>, Block>,
    files: Map<Seq<char>, Seq<u8>>,
    hash: Seq<char>,
    block: Block,
) -> bool {
    &&& fits(files, hash, block)
    &&& pre.contains_key(hash)
    &&& block_bytes(files, pre[hash]) != block_bytes(files, block)
}

/// Whether every block in the store fits the address it stands under.
pub open spec fn sound(store: Map<Seq<char>, Block>, files: Map<Seq<char>, Seq<u8>>) -> bool {
    forall|h: Seq<char>| store.contains_key(h) ==> fits(files, h, #[trigger] store[h])
}

/// Content-addressed catalogue of blocks.
pub struct BlockStore {
    blocks: Vec<(String, Block)>,
}

impl View for BlockStore {
    type V = Map<Seq<char>, Block>;

    closed spec fn view(&self) -> Map<Seq<char>, Block> {
        assoc_map(self.blocks@, self.blocks@.len())
    }
}

/// In a sound store, a block stands under the SHA-512 of its bytes, and has
/// as many bytes as it says.
pub proof fn lemma_sound_block(
    store: Map<Seq<char>, Block>,
    files: Map<Seq<char>, Seq<u8>>,
    hash: Seq<char>,
)
    requires
        sound(store, files),
        store.contains_key(hash),
    ensures
        hash_of(block_bytes(files, store[hash])) == hash,
        block_bytes(files, store[hash]).len() == store[hash].size,
{
}

/// In a sound store whose shards lie inside their files, the sizes of a
/// block's shards add up to the block's size.
pub proof fn lemma_block_size(
    store: Map<Seq<char>, Block>,
    files: Map<Seq<char>, Seq<u8>>,
    hash: Seq<char>,
)
    requires
        sound(store, files),
        inside_store(store, files),
        store.contains_key(hash),
    ensures
        sizes_from(store[hash].shards@, 0) == store[hash].size,
{
    lemma_inside_size(files, store[hash].shards@, 0);
}

/// A successful insert keeps a sound store sound.
pub proof fn lemma_insert_keeps_sound(
    pre: Map<Seq<char>, Block>,
    post: Map<Seq<char>, Block>,
    files: Map<Seq<char>, Seq<u8>>,
    hash: Seq<char>,
    block: Block,
)
    requires
        sound(pre, files),
        insert_ok(pre, post, files, hash, block),
    ensures
        sound(post, files),
{
}

/// An empty store.
pub fn new() -> (r: BlockStore)
    ensures
        r@ == Map::<Seq<char>, Block>::empty(),
        r.wf(),
        forall|files: Map<Seq<char>, Seq<u8>>| #[trigger] sound(r@, files),
{
    BlockStore { blocks: Vec::new() }
}

impl BlockStore {
    /// The block stored under `hash`, if there is one.
    pub fn get<'a>(&'a self, hash: &String) -> (r: Option<&'a Block>)
        ensures
            match r {
                Some(b) => self@.contains_key(hash@) && *b == self@[hash@],
                None => !self@.contains_key(hash@),
            },
    {
        match assoc_find(&self.blocks, hash) {
            Some(i) => Some(&self.blocks[i].1),
            None => None,
        }
    }

    /// Takes `block` in under `hash`, after reading it back from `host`.
    ///
    /// The block is refused where its bytes do not hash to `hash` or are not
    /// `block.size` many, and where `hash` is taken by a block with other
    /// bytes. Where `hash` is taken by a block with the same bytes, the stored
    /// block stays and the new one is dropped. Only a refusal or a failure of
    /// the host leaves the block out, and both leave the store as it was.
    pub fn insert<H: Host<R>, R: ByteSource>(&mut self, host: &H, hash: String, block: Block) -> (r:
        Result<(), StoreError>)
        ensures
            match r {
                Ok(()) => insert_ok(old(self)@, final(self)@, host.files(), hash@, block),
                Err(StoreError::Integrity(h)) => {
                    &&& h@ == hash@
                    &&& final(self)@ == old(self)@
                    &&& !fits(host.files(), hash@, block)
                },
                Err(StoreError::Collision(h)) => {
                    &&& h@ == hash@
                    &&& final(self)@ == old(self)@
                    &&& insert_collides(old(self)@, host.files(), hash@, block)
                },
                Err(StoreError::Source(_)) => {
                    &&& final(self)@ == old(self)@
                    &&& !(host.reliable() && files_exist(host.files(), block.shards@) && (old(
                        self,
                    )@.contains_key(hash@) ==> files_exist(
                        host.files(),
                        old(self)@[hash@].shards@,
                    )))
                },
            },
            sound(old(self)@, host.files()) ==> sound(final(self)@, host.files()),
            old(self).wf() ==> final(self).wf(),
    {
        let bytes = match block.read_bytes::<H, R>(host) {
            Ok(bytes) => bytes,
            Err(e) => {
                return Err(StoreError::Source(e));
            },
        };
        let actual = content_hash(&bytes);
        if !(actual == hash) || bytes.len() != block.size {
            return Err(StoreError::Integrity(hash));
        }
        match assoc_find(&self.blocks, &hash) {
            Some(i) => {
                let stored = match self.blocks[i].1.read_bytes::<H, R>(host) {
                    Ok(stored) => stored,
                    Err(e) => {
                        return Err(StoreError::Source(e));
                    },
                };
                if !bytes_equal(&bytes, &stored) {
                    return Err(StoreError::Collision(hash));
                }
                Ok(())
            },
            None => {
                proof {
                    lemma_assoc_push(self.blocks@, hash, block);
                    if self.wf() {
                        lemma_assoc_dom(self.blocks@, self.blocks@.len());
                    }
                    let after = self.blocks@.push((hash, block));
                    assert forall|i: int, j: int|
                        self.wf() && 0 <= i < j < after.len() implies (#[trigger] after[i]).0@ != (
                    #[trigger] after[j]).0@ by {
                        if j == self.blocks@.len() {
                            assert(self.blocks@[i].0@ == after[i].0@);
                        } else {
                            assert(self.blocks@[i].0@ != self.blocks@[j].0@);
                        }
                    }
                }
                self.blocks.push((hash, block));
                Ok(())
            },
        }
    }

    /// Validity: no address is kept twice. An empty store is valid, and
    /// `insert` keeps a store valid.
    pub closed spec fn wf(&self) -> bool {
        distinct_keys(self.blocks@)
    }

    /// Number of blocks in the store.
    pub fn len(&self) -> (n: usize)
        requires
            self.wf(),
        ensures
            self@.dom().finite(),
            n == self@.dom().len(),
    {
        proof {
            lemma_assoc_dom(self.blocks@, self.blocks@.len());
        }
        self.blocks.len()
    }
}

/// Inserting the same block under the same address a second time is neither
/// an integrity violation nor a collision, and leaves the store as the first
/// insert left it.
pub proof fn lemma_insert_idempotent(
    pre: Map<Seq<char>, Block>,
    mid: Map<Seq<char>, Block>,
    post: Map<Seq<char>, Block>,
    files: Map<Seq<char>, Seq<u8>>,
    hash: Seq<char>,
    block: Block,
)
    requires
        insert_ok(pre, mid, files, hash, block),
    ensures
        fits(files, hash, block),
        !insert_collides(mid, files, hash, block),
        insert_ok(mid, mid, files, hash, block),
        insert_ok(mid, post, files, hash, block) ==> post == mid,
{
}

} // verus!
