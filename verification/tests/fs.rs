use cafs::blockstore::new;
use cafs::filesystem::Filesystem;
use cafs::fs::{
    entry_to_file_attr, getattr, lookup, open, readdir, FileKind, OpenFiles, CREATE_TIME,
};
use cafs::host::MemHost;
use cafs::index::{DirEntry, Index, Inode};
use cafs::source::{ByteSource, MemSource};

fn tree() -> Index {
    let mut index = Index::new(String::from("/src"), 0o755);
    assert_eq!(index.add_dir(0, String::from("sub"), 0o700, String::from("/src/sub")), Some(1));
    assert_eq!(
        index.add_file(0, String::from("top.txt"), 0o644, 10, String::from("/src/top.txt")),
        Some(2)
    );
    assert_eq!(
        index.add_file(1, String::from("deep"), 0o600, 3, String::from("/src/sub/deep")),
        Some(3)
    );
    index
}

#[test]
fn index_assigns_positions_as_identifiers() {
    let index = tree();
    assert_eq!(index.inodes.len(), 4);
    for (n, inode) in index.inodes.iter().enumerate() {
        assert_eq!(inode.i, n as u64);
    }
    assert_eq!(index.inodes[0].k, 1);
    assert_eq!(index.inodes[2].k, 2);
    let d = index.inodes[0].d.as_ref().unwrap();
    assert_eq!(d.len(), 2);
    assert_eq!(d[0].0, "sub");
    assert_eq!(d[0].1, DirEntry { i: 1, k: 1 });
    assert_eq!(d[1].0, "top.txt");
    assert_eq!(d[1].1, DirEntry { i: 2, k: 2 });
    assert_eq!(index.inodes[2].c.as_ref().unwrap().len(), 0);
    assert!(index.inodes[2].d.is_none());
}

#[test]
fn nothing_is_added_under_a_file_or_a_missing_parent() {
    let mut index = tree();
    assert_eq!(index.add_file(2, String::from("x"), 0o644, 1, String::from("/x")), None);
    assert_eq!(index.add_dir(9, String::from("x"), 0o755, String::from("/x")), None);
    assert_eq!(index.inodes.len(), 4);
}

#[test]
fn attributes_of_a_file() {
    let index = tree();
    let a = entry_to_file_attr(&index.inodes[2]);
    assert_eq!(a.ino, 3);
    assert_eq!(a.size, 10);
    assert_eq!(a.blocks, 5120);
    assert_eq!(a.kind, FileKind::RegularFile);
    assert_eq!(a.perm, 0o644);
    assert_eq!(a.nlink, 1);
    assert_eq!((a.uid, a.gid, a.rdev, a.flags), (1000, 1000, 0, 0));
    assert_eq!((a.atime, a.mtime, a.ctime, a.crtime), (CREATE_TIME, CREATE_TIME, CREATE_TIME, CREATE_TIME));
    assert_eq!(CREATE_TIME, 1381237736);
}

#[test]
fn attributes_of_a_directory() {
    let index = tree();
    let a = entry_to_file_attr(&index.inodes[0]);
    assert_eq!(a.ino, 1);
    assert_eq!(a.kind, FileKind::Directory);
    assert_eq!(a.nlink, 3);
    assert_eq!(a.perm, 0o755);
}

#[test]
fn attributes_at_the_limits() {
    let inode = Inode {
        i: u64::MAX,
        k: 7,
        a: 0,
        s: u64::MAX / 512 + 1,
        host_path: String::new(),
        d: None,
        c: None,
    };
    let a = entry_to_file_attr(&inode);
    assert_eq!(a.ino, 0);
    assert_eq!(a.blocks, u64::MAX);
    assert_eq!(a.kind, FileKind::RegularFile);
}

#[test]
fn lookup_resolves_one_step() {
    let index = tree();
    let top = lookup(&index, 1, &String::from("top.txt")).unwrap();
    assert_eq!((top.ino, top.size), (3, 10));
    let sub = lookup(&index, 1, &String::from("sub")).unwrap();
    assert_eq!((sub.ino, sub.kind), (2, FileKind::Directory));
    let deep = lookup(&index, 2, &String::from("deep")).unwrap();
    assert_eq!((deep.ino, deep.size), (4, 3));
}

#[test]
fn lookup_of_what_is_not_there() {
    let index = tree();
    assert_eq!(lookup(&index, 1, &String::from("deep")), None);
    assert_eq!(lookup(&index, 3, &String::from("top.txt")), None);
    assert_eq!(lookup(&index, 0, &String::from("sub")), None);
    assert_eq!(lookup(&index, 99, &String::from("sub")), None);
}

#[test]
fn getattr_by_kernel_number() {
    let index = tree();
    assert_eq!(getattr(&index, 3), Some(entry_to_file_attr(&index.inodes[2])));
    assert_eq!(getattr(&index, 0), None);
    assert_eq!(getattr(&index, 5), None);
}

#[test]
fn readdir_lists_dots_then_children() {
    let index = tree();
    let lines = readdir(&index, 1, 0).unwrap();
    let got: Vec<(u64, u64, FileKind, &str)> =
        lines.iter().map(|l| (l.ino, l.offset, l.kind, l.name.as_str())).collect();
    assert_eq!(
        got,
        vec![
            (1, 0, FileKind::Directory, "."),
            (1, 1, FileKind::Directory, ".."),
            (2, 2, FileKind::Directory, "sub"),
            (3, 3, FileKind::RegularFile, "top.txt"),
        ]
    );
    assert_eq!(readdir(&index, 3, 0).unwrap().len(), 2);
}

#[test]
fn readdir_from_another_offset_is_refused() {
    let index = tree();
    assert!(readdir(&index, 1, 2).is_none());
    assert!(readdir(&index, 9, 0).is_none());
}

#[test]
fn handles_count_up_from_the_start() {
    let mut open: OpenFiles<MemSource> = OpenFiles::new();
    assert_eq!(open.open(4, MemSource::new(b"first".to_vec())), Some(4));
    assert_eq!(open.open(4, MemSource::new(b"second".to_vec())), Some(5));
    assert_eq!(open.open(5, MemSource::new(b"third".to_vec())), Some(6));
    assert_eq!(open.read(5, 3).unwrap().unwrap(), b"sec".to_vec());
    assert_eq!(open.read(5, 512).unwrap().unwrap(), b"ond".to_vec());
    assert_eq!(open.read(4, 512).unwrap().unwrap(), b"first".to_vec());
    open.release(4);
    assert!(open.read(4, 1).is_none());
    assert_eq!(open.open(4, MemSource::new(b"again".to_vec())), Some(4));
    assert_eq!(open.open(u64::MAX, MemSource::new(Vec::new())), Some(u64::MAX));
    assert_eq!(open.open(u64::MAX, MemSource::new(Vec::new())), None);
}

#[test]
fn skip_moves_a_source_forward() {
    let mut src = MemSource::new(b"abc".to_vec());
    assert_eq!(src.skip(0), Ok(0));
    assert_eq!(src.read(0).unwrap(), Vec::<u8>::new());
    assert_eq!(src.read(9).unwrap(), b"abc".to_vec());
}

#[test]
fn container_root() {
    let fs = Filesystem::new(String::from("/mnt/sixpool/containera/root"));
    assert_eq!(fs.root(), "/mnt/sixpool/containera/root");
}

#[test]
fn open_file_reads_what_was_ingested() {
    let mut index = Index::new(String::from("/src"), 0o755);
    let mut host = MemHost::new();
    let text: Vec<u8> = (0..5000u32).map(|n| (n % 251) as u8).collect();
    index.add_file(0, String::from("a"), 0o644, 5000, String::from("/src/a"));
    index.add_file(0, String::from("b"), 0o644, 2, String::from("/src/b"));
    host.add_file(String::from("/src/a"), text.clone());
    host.add_file(String::from("/src/b"), b"hi".to_vec());
    let mut store = new();
    assert!(index.serialize::<MemHost, MemSource>(&host, &mut store).is_ok());

    let mut files = OpenFiles::new();
    assert_eq!(open::<MemHost, MemSource>(&index, &store, &host, &mut files, 0), None);
    assert_eq!(open::<MemHost, MemSource>(&index, &store, &host, &mut files, 9), None);
    assert_eq!(open::<MemHost, MemSource>(&index, &store, &host, &mut files, 2), Some(1));
    assert_eq!(open::<MemHost, MemSource>(&index, &store, &host, &mut files, 2), Some(2));
    assert_eq!(open::<MemHost, MemSource>(&index, &store, &host, &mut files, 3), Some(3));

    let mut got = Vec::new();
    loop {
        let part = files.read(1, 512).unwrap().unwrap();
        if part.is_empty() {
            break;
        }
        got.extend_from_slice(&part);
    }
    assert_eq!(got, text);
    assert_eq!(files.read(3, 512).unwrap().unwrap(), b"hi".to_vec());
    assert_eq!(files.read(2, 4).unwrap().unwrap(), text[..4].to_vec());
    files.release(2);
    assert!(files.read(2, 4).is_none());
}
