use cafs::blockstore::{new, Block, BlockShard, StoreError};
use cafs::digest::{content_hash, hex_lower};
use cafs::host::MemHost;
use cafs::source::{MemSource, SourceError};

fn host_with(files: Vec<(&str, &[u8])>) -> MemHost {
    let mut host = MemHost::new();
    for (name, data) in files {
        host.add_file(String::from(name), data.to_vec());
    }
    host
}

fn shard(file: &str, offset: usize, size: usize) -> BlockShard {
    BlockShard { file: String::from(file), offset, size }
}

#[test]
fn hash_of_one_byte() {
    assert_eq!(
        content_hash(&vec![0x41]),
        "21b4f4bd9e64ed355c3eb676a28ebedaf6d8f17bdc365995b319097153044080516bd083bfcce66121a3072646994c8430cc382b8dc543e84880183bf856cff5"
    );
}

#[test]
fn hash_of_nothing() {
    let h = content_hash(&Vec::new());
    assert_eq!(h.len(), 128);
    assert_eq!(
        h,
        "cf83e1357eefb8bdf1542850d66d8007d620e4050b5715dc83f4a921d36ce9ce47d0d13c5d85f2b0ff8318d2877eec2f63b931bd47417a81a538327af927da3e"
    );
}

#[test]
fn hex_is_lowercase_high_digit_first() {
    assert_eq!(hex_lower(&vec![0x00, 0x0f, 0xa0, 0xff, 0x1b]), "000fa0ff1b");
    assert_eq!(hex_lower(&Vec::new()), "");
}

#[test]
fn insert_then_get() {
    let host = host_with(vec![("a", b"yaya"), ("b", b"cool stuff")]);
    let mut store = new();
    let hash = content_hash(&b"yayacool".to_vec());
    assert_eq!(
        hash,
        "e0acbab8897933e826335e99f46f188a8c1cadce6a29ca172efb3d220e92be380599b01d2261201455705939c5f7cc5ca5aa0d295a5588b8d43f8f042e5ac10a"
    );
    let block = Block { shards: vec![shard("a", 0, 4), shard("b", 0, 4)], size: 8 };
    assert!(store.get(&hash).is_none());
    assert!(store.insert::<MemHost, MemSource>(&host, hash.clone(), block).is_ok());
    assert_eq!(store.len(), 1);
    let got = store.get(&hash).unwrap();
    assert_eq!(got.size, 8);
    assert_eq!(got.shards.len(), 2);
    assert_eq!(got.read_bytes::<MemHost, MemSource>(&host).unwrap(), b"yayacool".to_vec());
    assert!(store.get(&String::from("00")).is_none());
}

#[test]
fn insert_twice_changes_nothing() {
    let host = host_with(vec![("a", b"yaya"), ("b", b"cool stuff")]);
    let mut store = new();
    let hash = content_hash(&b"yayacool".to_vec());
    let first = Block { shards: vec![shard("a", 0, 4), shard("b", 0, 4)], size: 8 };
    let again = Block { shards: vec![shard("a", 0, 4), shard("b", 0, 4)], size: 8 };
    assert!(store.insert::<MemHost, MemSource>(&host, hash.clone(), first).is_ok());
    assert!(store.insert::<MemHost, MemSource>(&host, hash.clone(), again).is_ok());
    assert_eq!(store.len(), 1);
    assert_eq!(store.get(&hash).unwrap().shards.len(), 2);
}

#[test]
fn same_bytes_from_other_shards_keep_the_stored_block() {
    let host = host_with(vec![("a", b"yaya"), ("c", b"yaya")]);
    let mut store = new();
    let hash = content_hash(&b"yaya".to_vec());
    let first = Block { shards: vec![shard("a", 0, 4)], size: 4 };
    let other = Block { shards: vec![shard("c", 0, 2), shard("c", 2, 2)], size: 4 };
    assert!(store.insert::<MemHost, MemSource>(&host, hash.clone(), first).is_ok());
    assert!(store.insert::<MemHost, MemSource>(&host, hash.clone(), other).is_ok());
    assert_eq!(store.len(), 1);
    assert_eq!(store.get(&hash).unwrap().shards.len(), 1);
    assert_eq!(store.get(&hash).unwrap().shards[0].file, "a");
}

#[test]
fn wrong_hash_is_an_integrity_violation() {
    let host = host_with(vec![("a", b"yaya")]);
    let mut store = new();
    let hash = content_hash(&b"other".to_vec());
    let block = Block { shards: vec![shard("a", 0, 4)], size: 4 };
    match store.insert::<MemHost, MemSource>(&host, hash.clone(), block) {
        Err(StoreError::Integrity(h)) => assert_eq!(h, hash),
        other => panic!("{:?}", other),
    }
    assert_eq!(store.len(), 0);
    assert!(store.get(&hash).is_none());
}

#[test]
fn wrong_size_is_an_integrity_violation() {
    let host = host_with(vec![("a", b"yaya")]);
    let mut store = new();
    let hash = content_hash(&b"yaya".to_vec());
    let block = Block { shards: vec![shard("a", 0, 4)], size: 5 };
    match store.insert::<MemHost, MemSource>(&host, hash.clone(), block) {
        Err(StoreError::Integrity(h)) => assert_eq!(h, hash),
        other => panic!("{:?}", other),
    }
    assert_eq!(store.len(), 0);
}

#[test]
fn missing_shard_file_is_a_host_failure() {
    let host = host_with(vec![("a", b"yaya")]);
    let mut store = new();
    let hash = content_hash(&b"yaya".to_vec());
    let block = Block { shards: vec![shard("nowhere", 0, 4)], size: 4 };
    assert!(matches!(
        store.insert::<MemHost, MemSource>(&host, hash, block),
        Err(StoreError::Source(SourceError::NotFound))
    ));
    assert_eq!(store.len(), 0);
}

#[test]
fn shard_past_the_end_of_its_file_is_empty() {
    let host = host_with(vec![("a", b"yaya")]);
    let block = Block { shards: vec![shard("a", 9, 4), shard("a", 3, 4)], size: 1 };
    assert_eq!(block.read_bytes::<MemHost, MemSource>(&host).unwrap(), b"a".to_vec());
}
