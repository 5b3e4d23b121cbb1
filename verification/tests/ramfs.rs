//! The RAM filesystem.

use snemu::ramfs::{FsError, InodeId, NodeKind, RamFs};

#[test]
fn setxattr_then_getxattr_round_trips() {
    let mut fs = RamFs::new();
    let root = fs.root();
    let prog = fs.create(root, "prog", NodeKind::File).unwrap();

    fs.setxattr(prog, "user.iface", b"manifest-bytes").unwrap();

    assert_eq!(fs.getxattr(prog, "user.iface").unwrap(), b"manifest-bytes");
}

#[test]
fn getxattr_of_a_missing_name_is_not_found() {
    let mut fs = RamFs::new();
    let root = fs.root();
    let prog = fs.create(root, "prog", NodeKind::File).unwrap();

    assert_eq!(fs.getxattr(prog, "user.iface"), Err(FsError::NotFound));
}

#[test]
fn setxattr_overwrites_and_is_per_inode() {
    let mut fs = RamFs::new();
    let root = fs.root();
    let a = fs.create(root, "a", NodeKind::File).unwrap();
    let b = fs.create(root, "b", NodeKind::File).unwrap();

    fs.setxattr(a, "k", b"1").unwrap();
    fs.setxattr(a, "k", b"2").unwrap();

    assert_eq!(fs.getxattr(a, "k").unwrap(), b"2", "overwrites in place");
    assert_eq!(fs.getxattr(b, "k"), Err(FsError::NotFound), "xattrs are per-inode");
}

#[test]
fn a_directory_can_carry_xattrs_too() {
    let mut fs = RamFs::new();
    let root = fs.root();
    let dir = fs.create(root, "d", NodeKind::Dir).unwrap();

    fs.setxattr(dir, "user.type", b"dir").unwrap();

    assert_eq!(fs.getxattr(dir, "user.type").unwrap(), b"dir");
}

#[test]
fn xattr_ops_on_a_missing_inode_error() {
    let mut fs = RamFs::new();
    assert_eq!(fs.setxattr(InodeId::new(99), "k", b"v"), Err(FsError::NotFound));
    assert_eq!(fs.getxattr(InodeId::new(99), "k"), Err(FsError::NotFound));
}

#[test]
fn seeded_with_xattrs_applies_them_to_the_leaf_file() {
    let fs = RamFs::seeded_with_xattrs(&[
        ("bin/prog", b"ELF", &[("user.iface", b"manifest-bytes")]),
        ("plain", b"data", &[]),
    ]);
    let root = fs.root();

    let bin = fs.lookup(root, "bin").unwrap();
    let prog = fs.lookup(bin, "prog").unwrap();
    assert_eq!(fs.getxattr(prog, "user.iface").unwrap(), b"manifest-bytes");

    let mut buf = [0u8; 3];
    assert_eq!(fs.read(prog, 0, &mut buf).unwrap(), 3);
    assert_eq!(&buf, b"ELF");

    let plain = fs.lookup(root, "plain").unwrap();
    assert_eq!(fs.getxattr(plain, "user.iface"), Err(FsError::NotFound));
}

#[test]
fn seeded_prepopulates_files_readable_from_the_root() {
    let fs = RamFs::seeded(&[("primes.st", b"isPrime"), ("notes.txt", b"hello")]);
    let root = fs.root();

    let ino = fs.lookup(root, "primes.st").unwrap();
    let mut buf = [0u8; 7];
    assert_eq!(fs.read(ino, 0, &mut buf).unwrap(), 7);
    assert_eq!(&buf, b"isPrime");
    assert_eq!(fs.readdir(root).unwrap().len(), 2);
}

#[test]
fn seeded_creates_nested_paths_with_mkdir_p() {
    let fs = RamFs::seeded(&[
        ("bin/view", b"ELF1"),
        ("bin/cat", b"ELF2"),
        ("notes", b"hi"),
    ]);
    let root = fs.root();

    let bin = fs.lookup(root, "bin").unwrap();
    assert_eq!(fs.stat(bin).unwrap().kind, NodeKind::Dir);
    assert_eq!(fs.readdir(bin).unwrap().len(), 2);

    let view = fs.lookup(bin, "view").unwrap();
    let mut buf = [0u8; 4];
    assert_eq!(fs.read(view, 0, &mut buf).unwrap(), 4);
    assert_eq!(&buf, b"ELF1");

    assert_eq!(fs.stat(fs.lookup(root, "notes").unwrap()).unwrap().kind, NodeKind::File);
}

#[test]
fn create_makes_a_subdirectory_that_nests() {
    let mut fs = RamFs::new();
    let root = fs.root();

    let bin = fs.create(root, "bin", NodeKind::Dir).unwrap();
    assert_eq!(fs.stat(bin).unwrap().kind, NodeKind::Dir);

    let view = fs.create(bin, "view", NodeKind::File).unwrap();
    fs.write(view, 0, b"ELF").unwrap();
    assert_eq!(fs.lookup(root, "bin").unwrap(), bin);
    assert_eq!(fs.lookup(bin, "view").unwrap(), view);

    let bin_entries = fs.readdir(bin).unwrap();
    assert_eq!(bin_entries.len(), 1);
    assert_eq!(bin_entries[0].name, "view");
    assert_eq!(bin_entries[0].kind, NodeKind::File);

    let root_entries = fs.readdir(root).unwrap();
    assert_eq!(root_entries.len(), 1);
    assert_eq!(root_entries[0].name, "bin");
    assert_eq!(root_entries[0].kind, NodeKind::Dir);
}

#[test]
fn creating_inside_a_file_is_not_a_directory() {
    let mut fs = RamFs::new();
    let root = fs.root();
    let f = fs.create(root, "f", NodeKind::File).unwrap();

    assert_eq!(fs.create(f, "x", NodeKind::File), Err(FsError::NotADir));
}

#[test]
fn fresh_fs_root_is_an_empty_directory() {
    let fs = RamFs::new();
    let root = fs.root();

    assert_eq!(fs.stat(root).unwrap().kind, NodeKind::Dir);
    assert!(fs.readdir(root).unwrap().is_empty());
}

#[test]
fn create_file_adds_it_to_the_directory() {
    let mut fs = RamFs::new();
    let root = fs.root();

    let ino = fs.create(root, "notes.txt", NodeKind::File).unwrap();

    assert_eq!(fs.stat(ino).unwrap().kind, NodeKind::File);
    assert_eq!(fs.stat(ino).unwrap().size, 0);
    let entries = fs.readdir(root).unwrap();
    assert_eq!(entries.len(), 1);
    assert_eq!(entries[0].name, "notes.txt");
    assert_eq!(entries[0].ino, ino);
    assert_eq!(entries[0].kind, NodeKind::File);
}

#[test]
fn write_grows_the_file_and_read_returns_the_bytes() {
    let mut fs = RamFs::new();
    let root = fs.root();
    let ino = fs.create(root, "f.txt", NodeKind::File).unwrap();

    let written = fs.write(ino, 0, b"hello").unwrap();
    assert_eq!(written, 5);
    assert_eq!(fs.stat(ino).unwrap().size, 5);

    let mut buf = [0u8; 5];
    let read = fs.read(ino, 0, &mut buf).unwrap();
    assert_eq!(read, 5);
    assert_eq!(&buf, b"hello");
}

#[test]
fn write_at_offset_overwrites_in_place_and_extends() {
    let mut fs = RamFs::new();
    let root = fs.root();
    let ino = fs.create(root, "f.txt", NodeKind::File).unwrap();
    fs.write(ino, 0, b"hello").unwrap();

    fs.write(ino, 3, b"XYZ").unwrap();

    let mut buf = [0u8; 6];
    let read = fs.read(ino, 0, &mut buf).unwrap();
    assert_eq!(read, 6);
    assert_eq!(&buf, b"helXYZ");
}

#[test]
fn truncate_shrinks_a_file_dropping_trailing_bytes() {
    let mut fs = RamFs::new();
    let root = fs.root();
    let ino = fs.create(root, "f.txt", NodeKind::File).unwrap();
    fs.write(ino, 0, b"hello").unwrap();

    fs.truncate(ino, 3).unwrap();

    assert_eq!(fs.stat(ino).unwrap().size, 3);
    let mut buf = [0u8; 8];
    let read = fs.read(ino, 0, &mut buf).unwrap();
    assert_eq!(&buf[..read], b"hel"); // the trailing "lo" is gone
}

#[test]
fn truncate_grows_a_file_with_zero_fill() {
    let mut fs = RamFs::new();
    let root = fs.root();
    let ino = fs.create(root, "f.txt", NodeKind::File).unwrap();
    fs.write(ino, 0, b"hi").unwrap();

    fs.truncate(ino, 5).unwrap();

    assert_eq!(fs.stat(ino).unwrap().size, 5);
    let mut buf = [0u8; 5];
    fs.read(ino, 0, &mut buf).unwrap();
    assert_eq!(&buf, b"hi\0\0\0");
}

#[test]
fn truncate_on_a_directory_is_an_error() {
    let mut fs = RamFs::new();
    let root = fs.root();
    assert_eq!(fs.truncate(root, 0), Err(FsError::IsADir));
}

#[test]
fn read_past_end_returns_what_is_available() {
    let mut fs = RamFs::new();
    let root = fs.root();
    let ino = fs.create(root, "f.txt", NodeKind::File).unwrap();
    fs.write(ino, 0, b"hi").unwrap();

    let mut buf = [0u8; 8];
    let read = fs.read(ino, 1, &mut buf).unwrap();
    assert_eq!(read, 1);
    assert_eq!(buf[0], b'i');
}

#[test]
fn remove_unlinks_a_name() {
    let mut fs = RamFs::new();
    let root = fs.root();
    fs.create(root, "f.txt", NodeKind::File).unwrap();

    fs.remove(root, "f.txt").unwrap();

    assert_eq!(fs.lookup(root, "f.txt"), Err(FsError::NotFound));
    assert!(fs.readdir(root).unwrap().is_empty());
    assert_eq!(fs.remove(root, "f.txt"), Err(FsError::NotFound));
}

#[test]
fn lookup_resolves_a_name_to_its_inode() {
    let mut fs = RamFs::new();
    let root = fs.root();
    let ino = fs.create(root, "notes.txt", NodeKind::File).unwrap();

    assert_eq!(fs.lookup(root, "notes.txt"), Ok(ino));
    assert_eq!(fs.lookup(root, "missing.txt"), Err(FsError::NotFound));
}
