use cafs::blockstore::{new, Block, BlockShard, StoreError};
use cafs::digest::content_hash;
use cafs::fs::read_inode;
use cafs::host::MemHost;
use cafs::index::Index;
use cafs::serializer::{Chunking, SerializeError};
use cafs::source::{MemSource, SourceError};

fn noise(len: usize, seed: u64) -> Vec<u8> {
    let mut state = seed;
    let mut out = Vec::with_capacity(len);
    for _ in 0..len {
        state ^= state << 13;
        state ^= state >> 7;
        state ^= state << 17;
        out.push((state >> 24) as u8);
    }
    out
}

fn tree(files: Vec<(&str, Vec<u8>)>) -> (Index, MemHost) {
    let mut host = MemHost::new();
    let mut index = Index::new(String::from("/"), 0o755);
    for (name, data) in files {
        let path = format!("/{}", name);
        let id = index.add_file(0, String::from(name), 0o644, data.len() as u64, path.clone());
        assert!(id.is_some());
        host.add_file(path, data);
    }
    (index, host)
}

fn hashes(index: &Index, i: usize) -> Vec<String> {
    index.inodes[i].c.as_ref().unwrap().iter().map(|e| e.h.clone()).collect()
}

#[test]
fn single_byte_file_is_one_block() {
    let (mut index, host) = tree(vec![("one", vec![0x41])]);
    let mut store = new();
    assert!(index.serialize::<MemHost, MemSource>(&host, &mut store).is_ok());
    assert_eq!(store.len(), 1);
    let c = index.inodes[1].c.as_ref().unwrap();
    assert_eq!(c.len(), 1);
    assert_eq!(
        c[0].h,
        "21b4f4bd9e64ed355c3eb676a28ebedaf6d8f17bdc365995b319097153044080516bd083bfcce66121a3072646994c8430cc382b8dc543e84880183bf856cff5"
    );
    assert_eq!((c[0].o, c[0].l), (0, 1));
    let block = store.get(&c[0].h).unwrap();
    assert_eq!(block.size, 1);
    assert_eq!(block.shards.len(), 1);
    assert_eq!(block.shards[0].file, "/one");
    assert_eq!((block.shards[0].offset, block.shards[0].size), (0, 1));
}

#[test]
fn index_without_files_gives_the_empty_block() {
    let mut index = Index::new(String::from("/"), 0o755);
    let host = MemHost::new();
    let mut store = new();
    assert!(index.serialize::<MemHost, MemSource>(&host, &mut store).is_ok());
    assert_eq!(store.len(), 1);
    let block = store.get(&content_hash(&Vec::new())).unwrap();
    assert_eq!(block.size, 0);
    assert_eq!(block.shards.len(), 0);
    assert!(index.inodes[0].c.is_none());
}

#[test]
fn every_file_reads_back_as_it_was() {
    let a = noise(100 * 1024, 7);
    let b = noise(3000, 99);
    let (mut index, host) =
        tree(vec![("a", a.clone()), ("empty", Vec::new()), ("b", b.clone()), ("c", vec![1, 2, 3])]);
    let mut store = new();
    assert!(index.serialize::<MemHost, MemSource>(&host, &mut store).is_ok());
    let expect = vec![a, Vec::new(), b, vec![1, 2, 3]];
    for (n, want) in expect.iter().enumerate() {
        let inode = &index.inodes[n + 1];
        let got = read_inode::<MemHost, MemSource>(inode, &store, &host).unwrap();
        assert_eq!(&got, want);
        let entries = inode.c.as_ref().unwrap();
        let total: u64 = entries.iter().map(|e| e.l).sum();
        assert_eq!(total, inode.s);
        for e in entries {
            let block = store.get(&e.h).unwrap();
            assert!(e.o + e.l <= block.size as u64);
            let bytes = block.read_bytes::<MemHost, MemSource>(&host).unwrap();
            assert_eq!(content_hash(&bytes), e.h);
            assert_eq!(bytes.len(), block.size);
        }
    }
}

#[test]
fn identical_files_share_blocks() {
    let data = noise(100 * 1024, 42);
    let (mut index, host) = tree(vec![("a", data.clone()), ("b", data.clone())]);
    let mut store = new();
    assert!(index.serialize::<MemHost, MemSource>(&host, &mut store).is_ok());
    let first = hashes(&index, 1);
    let second = hashes(&index, 2);
    assert!(first.len() > 2);
    let shared = first.iter().filter(|h| second.contains(h)).count();
    assert!(shared >= first.len() - 2);
    assert!(store.len() < first.len() + second.len());
    // Between the first and the last edge, both files are cut alike.
    assert_eq!(first[1..first.len() - 1], second[1..first.len() - 1]);
}

#[test]
fn block_spans_the_end_of_a_large_file_and_a_small_one() {
    let big = noise(1024 * 1024, 5);
    let (mut index, host) = tree(vec![("big", big), ("small", vec![0x7a])]);
    let mut store = new();
    assert!(index.serialize::<MemHost, MemSource>(&host, &mut store).is_ok());
    let small = index.inodes[2].c.as_ref().unwrap();
    assert_eq!(small.len(), 1);
    let last = index.inodes[1].c.as_ref().unwrap().last().unwrap();
    assert_eq!(last.h, small[0].h);
    let block = store.get(&small[0].h).unwrap();
    assert_eq!(block.shards.len(), 2);
    assert_eq!(block.shards[0].file, "/big");
    assert_eq!(block.shards[1].file, "/small");
    assert_eq!(last.o, 0);
    assert_eq!(last.l, block.shards[0].size as u64);
    assert_eq!(small[0].o, block.shards[0].size as u64);
    assert_eq!(small[0].l, 1);
    assert_eq!(block.size, block.shards[0].size + 1);
}

#[test]
fn missing_file_stops_the_pass() {
    let (mut index, _) = tree(vec![("gone", vec![1, 2, 3])]);
    let host = MemHost::new();
    let mut store = new();
    assert!(matches!(
        index.serialize::<MemHost, MemSource>(&host, &mut store),
        Err(SerializeError::Source(SourceError::NotFound))
    ));
    assert_eq!(store.len(), 0);
    assert_eq!(index.inodes[1].c.as_ref().unwrap().len(), 0);
}

#[test]
fn cut_inside_a_window_closes_one_block_and_opens_the_next() {
    let (mut index, host) = tree(vec![("a", b"hello world".to_vec()), ("b", b"!!".to_vec())]);
    let mut store = new();
    let mut st = Chunking::new::<MemHost, MemSource>(&index, &host, &store);

    st.begin_file(1, &index, &store);
    let r = st.feed::<MemHost, MemSource>(
        &mut index,
        &mut store,
        &host,
        &b"hello world".to_vec(),
        Some(5),
    );
    assert!(r.is_ok());
    st.end_file(&index, &store);
    assert_eq!(store.len(), 1);

    st.begin_file(2, &index, &store);
    let r = st.feed::<MemHost, MemSource>(&mut index, &mut store, &host, &b"!!".to_vec(), None);
    assert!(r.is_ok());
    st.end_file(&index, &store);
    assert_eq!(store.len(), 1);

    assert!(st.emit_block::<MemHost, MemSource>(&mut index, &mut store, &host, false).is_ok());
    assert_eq!(store.len(), 2);

    let h1 = content_hash(&b"hello".to_vec());
    let h2 = content_hash(&b" world!!".to_vec());
    let a = index.inodes[1].c.as_ref().unwrap();
    assert_eq!(a.len(), 2);
    assert_eq!((a[0].h.as_str(), a[0].o, a[0].l), (h1.as_str(), 0, 5));
    assert_eq!((a[1].h.as_str(), a[1].o, a[1].l), (h2.as_str(), 0, 6));
    let b = index.inodes[2].c.as_ref().unwrap();
    assert_eq!(b.len(), 1);
    assert_eq!((b[0].h.as_str(), b[0].o, b[0].l), (h2.as_str(), 6, 2));

    let first = store.get(&h1).unwrap();
    assert_eq!(first.size, 5);
    assert_eq!(first.shards.len(), 1);
    assert_eq!((first.shards[0].offset, first.shards[0].size), (0, 5));
    let second = store.get(&h2).unwrap();
    assert_eq!(second.size, 8);
    assert_eq!(second.shards.len(), 2);
    assert_eq!(second.shards[0].file, "/a");
    assert_eq!((second.shards[0].offset, second.shards[0].size), (5, 6));
    assert_eq!(second.shards[1].file, "/b");
    assert_eq!((second.shards[1].offset, second.shards[1].size), (0, 2));
}

#[test]
fn cut_at_the_end_of_a_window_leaves_an_empty_part() {
    let (mut index, host) = tree(vec![("a", b"abc".to_vec())]);
    let mut store = new();
    let mut st = Chunking::new::<MemHost, MemSource>(&index, &host, &store);
    st.begin_file(1, &index, &store);
    let r =
        st.feed::<MemHost, MemSource>(&mut index, &mut store, &host, &b"abc".to_vec(), Some(3));
    assert!(r.is_ok());
    st.end_file(&index, &store);
    assert!(st.emit_block::<MemHost, MemSource>(&mut index, &mut store, &host, false).is_ok());
    let c = index.inodes[1].c.as_ref().unwrap();
    assert_eq!(c.len(), 2);
    assert_eq!((c[0].o, c[0].l), (0, 3));
    assert_eq!(c[0].h, content_hash(&b"abc".to_vec()));
    assert_eq!((c[1].o, c[1].l), (0, 0));
    assert_eq!(c[1].h, content_hash(&Vec::new()));
    assert_eq!(read_inode::<MemHost, MemSource>(&index.inodes[1], &store, &host).unwrap(), b"abc");
}

#[test]
fn bytes_put_before_a_file_leave_its_later_blocks_alone() {
    let data = noise(64 * 1024, 11);
    let mut shifted = noise(100, 3);
    shifted.extend_from_slice(&data);

    let (mut plain, plain_host) = tree(vec![("x", data)]);
    let mut plain_store = new();
    assert!(plain.serialize::<MemHost, MemSource>(&plain_host, &mut plain_store).is_ok());
    let (mut moved, moved_host) = tree(vec![("x", shifted)]);
    let mut moved_store = new();
    assert!(moved.serialize::<MemHost, MemSource>(&moved_host, &mut moved_store).is_ok());

    let first = hashes(&plain, 1);
    let second = hashes(&moved, 1);
    assert!(first.len() > 2);
    assert_ne!(first[0], second[0]);
    assert_eq!(first.last(), second.last());
    let shared = first.iter().filter(|h| second.contains(h)).count();
    assert!(shared * 2 >= first.len());
}

#[test]
fn stored_block_that_cannot_be_read_back_stops_the_pass() {
    let mut elsewhere = MemHost::new();
    elsewhere.add_file(String::from("/old"), b"abc".to_vec());
    let mut store = new();
    let block = Block {
        shards: vec![BlockShard { file: String::from("/old"), offset: 0, size: 3 }],
        size: 3,
    };
    let hash = content_hash(&b"abc".to_vec());
    assert!(store.insert::<MemHost, MemSource>(&elsewhere, hash, block).is_ok());

    let (mut index, host) = tree(vec![("a", b"abc".to_vec())]);
    assert!(matches!(
        index.serialize::<MemHost, MemSource>(&host, &mut store),
        Err(SerializeError::Store(StoreError::Source(SourceError::NotFound)))
    ));
    assert_eq!(store.len(), 1);
    assert_eq!(index.inodes[1].c.as_ref().unwrap().len(), 0);
}

#[test]
fn known_block_is_shared_with_what_was_stored_before() {
    let mut host = MemHost::new();
    host.add_file(String::from("/old"), b"abc".to_vec());
    host.add_file(String::from("/a"), b"abc".to_vec());
    let mut store = new();
    let block = Block {
        shards: vec![BlockShard { file: String::from("/old"), offset: 0, size: 3 }],
        size: 3,
    };
    let hash = content_hash(&b"abc".to_vec());
    assert!(store.insert::<MemHost, MemSource>(&host, hash.clone(), block).is_ok());

    let mut index = Index::new(String::from("/"), 0o755);
    index.add_file(0, String::from("a"), 0o644, 3, String::from("/a"));
    assert!(index.serialize::<MemHost, MemSource>(&host, &mut store).is_ok());
    assert_eq!(store.len(), 1);
    assert_eq!(store.get(&hash).unwrap().shards[0].file, "/old");
    let c = index.inodes[1].c.as_ref().unwrap();
    assert_eq!((c[0].h.as_str(), c[0].o, c[0].l), (hash.as_str(), 0, 3));
    assert_eq!(read_inode::<MemHost, MemSource>(&index.inodes[1], &store, &host).unwrap(), b"abc");
}

#[test]
fn two_small_files_share_one_block() {
    let (mut index, host) = tree(vec![("a", vec![0x41]), ("b", vec![0x42])]);
    let mut store = new();
    assert!(index.serialize::<MemHost, MemSource>(&host, &mut store).is_ok());
    assert_eq!(store.len(), 1);
    let h = content_hash(&vec![0x41, 0x42]);
    let block = store.get(&h).unwrap();
    assert_eq!(block.size, 2);
    assert_eq!(block.shards.len(), 2);
    assert_eq!(block.shards[0].file, "/a");
    assert_eq!((block.shards[0].offset, block.shards[0].size), (0, 1));
    assert_eq!(block.shards[1].file, "/b");
    assert_eq!((block.shards[1].offset, block.shards[1].size), (0, 1));
    let a = index.inodes[1].c.as_ref().unwrap();
    let b = index.inodes[2].c.as_ref().unwrap();
    assert_eq!((a.len(), b.len()), (1, 1));
    assert_eq!((a[0].h.as_str(), a[0].o, a[0].l), (h.as_str(), 0, 1));
    assert_eq!((b[0].h.as_str(), b[0].o, b[0].l), (h.as_str(), 1, 1));
    assert!(index.inodes[0].c.is_none());
}

#[test]
fn entry_without_its_block_cannot_be_read() {
    let (mut index, host) = tree(vec![("a", b"abc".to_vec())]);
    let mut store = new();
    assert!(index.serialize::<MemHost, MemSource>(&host, &mut store).is_ok());
    let empty = new();
    assert_eq!(
        read_inode::<MemHost, MemSource>(&index.inodes[1], &empty, &host),
        Err(SourceError::NotFound)
    );
}
