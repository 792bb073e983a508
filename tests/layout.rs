use lazyhttpfs::config::{Directory, InputFile, URLFile};
use lazyhttpfs::fs::{LazyHTTPFS, ReadReply};
use lazyhttpfs::table::{Attr, NodeKind};

fn file(name: &str, url: &str, size: usize) -> InputFile {
    InputFile::URLFile(URLFile::new(name.to_string(), url.to_string(), size))
}

fn dir(name: &str, contents: Vec<InputFile>) -> InputFile {
    InputFile::Directory(Directory::new(name.to_string(), contents))
}

fn sample() -> LazyHTTPFS {
    LazyHTTPFS::new(vec![
        file("a.txt", "http://x/a", 5),
        dir("d", vec![file("b.txt", "http://x/b", 3)]),
    ])
}

fn listing(fs: &LazyHTTPFS, ino: u64, offset: u64) -> Vec<(u64, i64, NodeKind, String)> {
    fs.readdir(ino, offset)
        .unwrap()
        .into_iter()
        .map(|e| (e.ino, e.offset, e.kind, e.name))
        .collect()
}

#[test]
fn parsing() {
    let fs = LazyHTTPFS::new(vec![
        file("helloworld.txt", "https://ping.archlinux.org/nm-check.txt", 25),
        dir(
            "outer.dir",
            vec![file("inner.txt", "https://ping.archlinux.org/nm-check.txt", 25)],
        ),
    ]);
    for ino in 1..=4u64 {
        assert_eq!(fs.getattr(ino).unwrap().ino, ino);
    }
    assert!(fs.getattr(5).is_none());
}

#[test]
fn entry_name() {
    assert_eq!(file("a.txt", "http://x/a", 5).name(), "a.txt");
    assert_eq!(dir("d", vec![]).name(), "d");
}

#[test]
fn example_numbering() {
    let fs = sample();
    let root = listing(&fs, 1, 0);
    assert_eq!(
        root,
        vec![
            (1, 1, NodeKind::Directory, ".".to_string()),
            (1, 2, NodeKind::Directory, "..".to_string()),
            (2, 3, NodeKind::File, "a.txt".to_string()),
            (3, 4, NodeKind::Directory, "d".to_string()),
        ]
    );
    let a = fs.getattr(2).unwrap();
    assert_eq!((a.ino, a.size, a.kind), (2, 5, NodeKind::File));
    let d = listing(&fs, 3, 0);
    assert_eq!(d[2], (4, 3, NodeKind::File, "b.txt".to_string()));
    assert_eq!(d.len(), 3);
    let b = fs.getattr(4).unwrap();
    assert_eq!((b.ino, b.size, b.kind), (4, 3, NodeKind::File));
    assert!(fs.getattr(5).is_none());
}

#[test]
fn attributes_are_fixed() {
    let fs = LazyHTTPFS::new(vec![file("big", "http://x/big", 1500)]);
    assert_eq!(
        fs.getattr(2).unwrap(),
        Attr {
            ino: 2,
            size: 1500,
            blocks: 2,
            kind: NodeKind::File,
            perm: 0o444,
            nlink: 1,
            uid: 1000,
            gid: 1000,
            blksize: 512,
        }
    );
    let root = fs.getattr(1).unwrap();
    assert_eq!((root.size, root.blocks, root.kind, root.perm), (0, 0, NodeKind::Directory, 0o444));
}

#[test]
fn getattr_unknown() {
    let fs = sample();
    assert!(fs.getattr(999).is_none());
    assert!(fs.getattr(0).is_none());
}

#[test]
fn lookup_agrees_with_getattr() {
    let fs = sample();
    assert_eq!(fs.lookup(1, "a.txt"), fs.getattr(2));
    assert_eq!(fs.lookup(1, "d"), fs.getattr(3));
    assert_eq!(fs.lookup(3, "b.txt"), fs.getattr(4));
    assert!(fs.lookup(1, "b.txt").is_none());
    assert!(fs.lookup(1, "missing").is_none());
}

#[test]
fn lookup_with_file_parent() {
    let fs = sample();
    assert!(fs.lookup(2, "a.txt").is_none());
    assert!(fs.lookup(999, "a.txt").is_none());
}

#[test]
fn listing_resumes() {
    let fs = sample();
    let all = listing(&fs, 1, 0);
    for k in 0..6u64 {
        let part = listing(&fs, 1, k);
        let expected: Vec<_> = all.iter().skip(k as usize).cloned().collect();
        assert_eq!(part, expected);
    }
}

#[test]
fn listing_not_a_directory() {
    let fs = sample();
    assert!(fs.readdir(2, 0).is_none());
    assert!(fs.readdir(999, 0).is_none());
}

#[test]
fn empty_layout() {
    let fs = LazyHTTPFS::new(vec![]);
    assert_eq!(listing(&fs, 1, 0).len(), 2);
    assert!(fs.getattr(2).is_none());
}

#[test]
fn read_fetches_once() {
    let mut fs = sample();
    let mut fetches = 0;
    let first = match fs.read(2, 0) {
        ReadReply::Fetch(url) => {
            assert_eq!(url, "http://x/a");
            fetches += 1;
            fs.complete_read(2, 0, b"hello".to_vec())
        }
        _ => panic!("expected a fetch"),
    };
    assert!(matches!(first, ReadReply::Data(ref d) if d == b"hello"));
    match fs.read(2, 2) {
        ReadReply::Data(d) => assert_eq!(d, b"llo".to_vec()),
        _ => panic!("expected cached data"),
    }
    assert_eq!(fetches, 1);
}

#[test]
fn read_past_end() {
    let mut fs = sample();
    let r = fs.complete_read(2, 9, b"hello".to_vec());
    assert!(matches!(r, ReadReply::Data(ref d) if d.is_empty()));
}

#[test]
fn cached_entry_is_kept() {
    let mut fs = sample();
    fs.complete_read(2, 0, b"hello".to_vec());
    let r = fs.complete_read(2, 1, b"other".to_vec());
    assert!(matches!(r, ReadReply::Data(ref d) if d == b"ello"));
}

#[test]
fn read_directory_not_found() {
    let mut fs = sample();
    assert!(matches!(fs.read(1, 0), ReadReply::NotFound));
    assert!(matches!(fs.read(999, 0), ReadReply::NotFound));
    assert!(matches!(fs.complete_read(1, 0, b"x".to_vec()), ReadReply::NotFound));
}

#[test]
fn shared_url_shares_cache() {
    let mut fs = LazyHTTPFS::new(vec![file("a", "http://x/s", 2), file("b", "http://x/s", 2)]);
    fs.complete_read(2, 0, b"hi".to_vec());
    assert!(matches!(fs.read(3, 0), ReadReply::Data(ref d) if d == b"hi"));
}

#[test]
fn duplicate_names_keep_last() {
    let fs = LazyHTTPFS::new(vec![
        file("a", "http://x/a", 1),
        file("x", "http://x/1", 2),
        file("b", "http://x/b", 3),
        file("x", "http://x/2", 4),
    ]);
    assert_eq!(fs.lookup(1, "x"), fs.getattr(5));
    assert_eq!(fs.lookup(1, "x").unwrap().size, 4);
    assert_eq!(
        listing(&fs, 1, 0),
        vec![
            (1, 1, NodeKind::Directory, ".".to_string()),
            (1, 2, NodeKind::Directory, "..".to_string()),
            (2, 3, NodeKind::File, "a".to_string()),
            (4, 4, NodeKind::File, "b".to_string()),
            (5, 5, NodeKind::File, "x".to_string()),
        ]
    );
    assert_eq!(fs.getattr(3).unwrap().size, 2);
}
