use cafs::blockstore::{Block, BlockShard};
use cafs::host::MemHost;
use cafs::readchain::ReadChain;
use cafs::source::{ByteSource, MemSource, SeekFrom, SourceError};

fn fixtures() -> MemHost {
    let mut host = MemHost::new();
    host.add_file(String::from("tests/fixtures/a"), b"yaya".to_vec());
    host.add_file(String::from("tests/fixtures/b"), b"cool stuff".to_vec());
    host
}

fn shards(files: Vec<(&str, u64, usize)>) -> Block {
    let mut out = Vec::new();
    let mut size = 0;
    for (f, o, l) in files {
        out.push(BlockShard { file: String::from(f), offset: o as usize, size: l });
        size += l;
    }
    Block { shards: out, size }
}

fn read_to_string(block: &Block, host: &MemHost) -> String {
    let mut chain: ReadChain<_, MemSource> = block.chain(host);
    String::from_utf8(chain.read_to_end().unwrap()).unwrap()
}

#[test]
fn some_files() {
    let files: Vec<(&str, u64, usize)> = vec![
        ("tests/fixtures/a", 0, 4),
        ("tests/fixtures/b", 0, 4),
    ];

    let host = fixtures();
    let content = read_to_string(&shards(files), &host);
    assert_eq!(content, "yayacool");
}

#[test]
fn offset() {
    let files: Vec<(&str, u64, usize)> = vec![
        ("tests/fixtures/a", 1, 4),
        ("tests/fixtures/b", 4, 10),
    ];

    let host = fixtures();
    let content = read_to_string(&shards(files), &host);
    assert_eq!(content, "aya stuff");
}

#[test]
fn read_fills_across_one_border_only() {
    let host = fixtures();
    let block = shards(vec![
        ("tests/fixtures/a", 0, 1),
        ("tests/fixtures/a", 1, 1),
        ("tests/fixtures/a", 2, 2),
    ]);
    let mut chain: ReadChain<_, MemSource> = block.chain(&host);
    assert_eq!(chain.read(4).unwrap(), b"ya".to_vec());
    assert_eq!(chain.read(4).unwrap(), b"ya".to_vec());
    assert_eq!(chain.read(4).unwrap(), Vec::<u8>::new());
}

#[test]
fn read_of_nothing_passes_over_the_rest() {
    let host = fixtures();
    let block = shards(vec![("tests/fixtures/a", 0, 4), ("tests/fixtures/b", 0, 4)]);
    let mut chain: ReadChain<_, MemSource> = block.chain(&host);
    assert_eq!(chain.read(0).unwrap(), Vec::<u8>::new());
    assert_eq!(chain.read(8).unwrap(), Vec::<u8>::new());
}

#[test]
fn limit_clips_a_longer_source() {
    let host = fixtures();
    let block = shards(vec![("tests/fixtures/b", 0, 3)]);
    let mut chain: ReadChain<_, MemSource> = block.chain(&host);
    assert_eq!(chain.read(1024).unwrap(), b"coo".to_vec());
    assert_eq!(chain.read(1024).unwrap(), Vec::<u8>::new());
}

#[test]
fn seek_to_absolute_position() {
    let host = fixtures();
    let block = shards(vec![("tests/fixtures/a", 0, 4), ("tests/fixtures/b", 0, 4)]);
    let mut chain: ReadChain<_, MemSource> = block.chain(&host);
    assert_eq!(chain.seek(SeekFrom::Start(6)), Ok(6));
    assert_eq!(chain.read_to_end().unwrap(), b"ol".to_vec());
    assert_eq!(chain.seek(SeekFrom::Start(4)), Ok(4));
    assert_eq!(chain.read_to_end().unwrap(), b"cool".to_vec());
    assert_eq!(chain.seek(SeekFrom::Start(0)), Ok(0));
    assert_eq!(chain.read_to_end().unwrap(), b"yayacool".to_vec());
}

#[test]
fn seek_past_the_end_stops_at_the_end() {
    let host = fixtures();
    let block = shards(vec![("tests/fixtures/a", 0, 4), ("tests/fixtures/b", 0, 4)]);
    let mut chain: ReadChain<_, MemSource> = block.chain(&host);
    assert_eq!(chain.seek(SeekFrom::Start(100)), Ok(8));
    assert_eq!(chain.read(16).unwrap(), Vec::<u8>::new());
}

#[test]
fn relative_seeks_are_refused() {
    let host = fixtures();
    let block = shards(vec![("tests/fixtures/a", 0, 4)]);
    let mut chain: ReadChain<_, MemSource> = block.chain(&host);
    assert_eq!(chain.seek(SeekFrom::End(0)), Err(SourceError::NotFound));
    assert_eq!(chain.seek(SeekFrom::Current(1)), Err(SourceError::NotFound));
    assert_eq!(chain.read_to_end().unwrap(), b"yaya".to_vec());
}

#[test]
fn seek_on_a_chain_without_sources() {
    let host = fixtures();
    let block = shards(vec![]);
    let mut chain: ReadChain<_, MemSource> = block.chain(&host);
    assert_eq!(chain.seek(SeekFrom::End(3)), Err(SourceError::NotFound));
    assert_eq!(chain.seek(SeekFrom::Current(0)), Err(SourceError::NotFound));
    assert_eq!(chain.seek(SeekFrom::Start(3)), Ok(0));
}

#[test]
fn one_read_fills_across_a_border() {
    let mut host = MemHost::new();
    host.add_file(String::from("ab"), b"ab".to_vec());
    host.add_file(String::from("cd"), b"cd".to_vec());
    let block = shards(vec![("ab", 0, 2), ("cd", 0, 2)]);
    let mut chain: ReadChain<_, MemSource> = block.chain(&host);
    assert_eq!(chain.read(4).unwrap(), b"abcd".to_vec());
    assert_eq!(chain.read(4).unwrap(), Vec::<u8>::new());
    assert_eq!(chain.read(4).unwrap(), Vec::<u8>::new());
}

#[test]
fn one_read_fills_across_a_limit() {
    let mut host = MemHost::new();
    host.add_file(String::from("long"), b"helloworld".to_vec());
    host.add_file(String::from("xy"), b"xy".to_vec());
    let block = shards(vec![("long", 0, 3), ("xy", 0, 2)]);
    let mut chain: ReadChain<_, MemSource> = block.chain(&host);
    assert_eq!(chain.read(5).unwrap(), b"helxy".to_vec());
    assert_eq!(chain.read(5).unwrap(), Vec::<u8>::new());
}

#[test]
fn one_step_stays_inside_one_source() {
    let host = fixtures();
    let block = shards(vec![("tests/fixtures/a", 0, 4), ("tests/fixtures/b", 0, 4)]);
    let mut chain: ReadChain<_, MemSource> = block.chain(&host);
    assert_eq!(chain.real_read(3).unwrap(), b"yay".to_vec());
    assert_eq!(chain.real_read(3).unwrap(), b"a".to_vec());
    assert_eq!(chain.real_read(3).unwrap(), b"coo".to_vec());
}

#[test]
fn missing_file_is_reported() {
    let host = fixtures();
    let block = shards(vec![("tests/fixtures/a", 0, 4), ("tests/fixtures/none", 0, 4)]);
    let mut chain: ReadChain<_, MemSource> = block.chain(&host);
    assert_eq!(chain.read_to_end(), Err(SourceError::NotFound));
}

#[test]
fn memory_source_reads_and_skips() {
    let mut src = MemSource::new(b"abcdef".to_vec());
    assert_eq!(src.skip(2), Ok(2));
    assert_eq!(src.read(3).unwrap(), b"cde".to_vec());
    assert_eq!(src.skip(10), Ok(1));
    assert_eq!(src.read(3).unwrap(), Vec::<u8>::new());
}
