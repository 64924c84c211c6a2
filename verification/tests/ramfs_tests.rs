use aarch32_kernel::fs::ramfs::{bytes_equal, normalize_path, round_capacity, split_component, trim_nul, RamFs};
use aarch32_kernel::fs::vfs::{DirEntry, FileSystemId, FileType, InodeRef};
use aarch32_kernel::kernel::syscall::{EEXIST, EINVAL, EISDIR, ENOENT, ENOTEMPTY, EPERM};

fn ramfs_inode(ino: usize) -> InodeRef {
    InodeRef { fs: FileSystemId::Ramfs, ino }
}

#[test]
fn ramfs_root_exists_in_a_fresh_file_system() {
    let fs = RamFs::new();
    assert_eq!(fs.lookup(b"/"), Some(ramfs_inode(0)));
    assert_eq!(fs.lookup(b""), Some(ramfs_inode(0)));
    assert_eq!(fs.lookup(b"/missing"), None);
    assert_eq!(fs.regular_count(), 0);
    let meta = fs.metadata(ramfs_inode(0)).unwrap();
    assert_eq!(meta.file_type, FileType::Directory);
    assert_eq!(meta.mode, 0o755);
    assert_eq!(meta.nlink, 2);
}

#[test]
fn ramfs_write_then_read_back() {
    let mut fs = RamFs::new();
    let file = fs.create_file(b"/notes.txt", 0o644).unwrap();
    assert_eq!(file, ramfs_inode(1));
    assert_eq!(fs.lookup(b"/notes.txt"), Some(file));
    assert_eq!(fs.write(file, 0, b"hello"), Ok(5));
    assert_eq!(fs.open(file).unwrap().data, b"hello");
    assert_eq!(fs.open(file).unwrap().name, "notes.txt");
    // A write past the end leaves a zero-filled gap.
    assert_eq!(fs.write(file, 7, b"XY"), Ok(2));
    assert_eq!(fs.open(file).unwrap().data, b"hello\0\0XY");
    // Overwriting in the middle keeps the rest.
    assert_eq!(fs.write(file, 1, b"EL"), Ok(2));
    assert_eq!(fs.open(file).unwrap().data, b"hELlo\0\0XY");
    assert_eq!(fs.metadata(file).unwrap().size, 9);
    assert_eq!(fs.regular_count(), 1);
}

#[test]
fn ramfs_truncate_cuts_and_extends() {
    let mut fs = RamFs::new();
    let file = fs.create_file(b"f", 0o600).unwrap();
    fs.write(file, 0, b"abcdef").unwrap();
    assert_eq!(fs.truncate(file, 3), Ok(()));
    assert_eq!(fs.open(file).unwrap().data, b"abc");
    assert_eq!(fs.truncate(file, 5), Ok(()));
    assert_eq!(fs.open(file).unwrap().data, b"abc\0\0");
    assert_eq!(fs.truncate(ramfs_inode(0), 0), Err(EISDIR));
}

#[test]
fn ramfs_create_errors() {
    let mut fs = RamFs::new();
    fs.create_file(b"/a", 0o644).unwrap();
    assert_eq!(fs.create_file(b"/a", 0o644), Err(EEXIST));
    assert_eq!(fs.create_file(b"/", 0o644), Err(EINVAL));
    assert_eq!(fs.create_file(b"/nodir/x", 0o644), Err(ENOENT));
    // A regular file cannot be a parent.
    assert_eq!(fs.create_file(b"/a/x", 0o644), Err(EINVAL));
    // mkdir of an existing path hands back what is there.
    let dir = fs.mkdir(b"/d", 0o755).unwrap();
    assert_eq!(fs.mkdir(b"/d", 0o700), Ok(dir));
    assert_eq!(fs.write(dir, 0, b"x"), Err(EINVAL));
}

#[test]
fn ramfs_unlink_directory_only_when_empty() {
    let mut fs = RamFs::new();
    let dir = fs.mkdir(b"/d", 0o755).unwrap();
    let inner = fs.create_file(b"/d/f", 0o644).unwrap();
    assert_eq!(fs.lookup(b"/d/f"), Some(inner));
    assert_eq!(fs.lookup(b"d/./f"), Some(inner));
    assert_eq!(fs.lookup(b"/d/../d/f"), Some(inner));
    assert_eq!(fs.unlink(b"/d"), Err(ENOTEMPTY));
    assert_eq!(fs.unlink(b"/d/f"), Ok(()));
    assert_eq!(fs.lookup(b"/d/f"), None);
    assert_eq!(fs.unlink(b"/d"), Ok(()));
    assert_eq!(fs.lookup(b"/d"), None);
    assert_eq!(fs.unlink(b"/d"), Err(ENOENT));
    assert_eq!(fs.unlink(b"/"), Err(EINVAL));
    assert!(fs.metadata(dir).is_none());
}

#[test]
fn ramfs_hard_link_shares_data() {
    let mut fs = RamFs::new();
    let a = fs.create_file(b"/a", 0o644).unwrap();
    fs.write(a, 0, b"shared").unwrap();
    assert_eq!(fs.link(b"/a", b"/b"), Ok(()));
    let b = fs.lookup(b"/b").unwrap();
    assert_ne!(a, b);
    assert_eq!(fs.open(b).unwrap().data, b"shared");
    assert_eq!(fs.metadata(a).unwrap().nlink, 2);
    assert_eq!(fs.metadata(b).unwrap().nlink, 2);
    // A write through one name is seen through the other.
    fs.write(b, 0, b"SH").unwrap();
    assert_eq!(fs.open(a).unwrap().data, b"SHared");
    // Removing the first name keeps the data under the second.
    assert_eq!(fs.unlink(b"/a"), Ok(()));
    assert_eq!(fs.lookup(b"/a"), None);
    assert_eq!(fs.open(b).unwrap().data, b"SHared");
    assert_eq!(fs.metadata(b).unwrap().nlink, 1);
}

#[test]
fn ramfs_link_errors() {
    let mut fs = RamFs::new();
    fs.create_file(b"/a", 0o644).unwrap();
    fs.mkdir(b"/d", 0o755).unwrap();
    assert_eq!(fs.link(b"/a", b"/a"), Err(EEXIST));
    assert_eq!(fs.link(b"/missing", b"/x"), Err(ENOENT));
    assert_eq!(fs.link(b"/d", b"/e"), Err(EPERM));
    assert_eq!(fs.link(b"/", b"/x"), Err(EINVAL));
}

#[test]
fn ramfs_rename_moves_and_replaces() {
    let mut fs = RamFs::new();
    let a = fs.create_file(b"/a", 0o644).unwrap();
    fs.write(a, 0, b"first").unwrap();
    let b = fs.create_file(b"/b", 0o644).unwrap();
    fs.write(b, 0, b"second").unwrap();
    fs.mkdir(b"/d", 0o755).unwrap();
    assert_eq!(fs.rename(b"/a", b"/d/moved"), Ok(()));
    assert_eq!(fs.lookup(b"/a"), None);
    assert_eq!(fs.lookup(b"/d/moved"), Some(a));
    assert_eq!(fs.open(a).unwrap().name, "moved");
    // Renaming onto an existing name replaces it.
    assert_eq!(fs.rename(b"/d/moved", b"/b"), Ok(()));
    assert_eq!(fs.lookup(b"/b"), Some(a));
    assert_eq!(fs.open(a).unwrap().data, b"first");
    assert_eq!(fs.rename(b"/missing", b"/c"), Err(ENOENT));
    assert_eq!(fs.rename(b"/", b"/c"), Err(EINVAL));
}

#[test]
fn ramfs_read_dir_lists_children() {
    let mut fs = RamFs::new();
    fs.create_file(b"/a", 0o644).unwrap();
    fs.mkdir(b"/d", 0o755).unwrap();
    fs.create_file(b"/d/inner", 0o644).unwrap();
    let mut entries = [DirEntry::empty(); 8];
    let n = fs.read_dir(ramfs_inode(0), 0, &mut entries).unwrap();
    assert_eq!(n, 3);
    assert_eq!(&entries[0].name[..entries[0].name_len], b".");
    assert_eq!(&entries[1].name[..entries[1].name_len], b"a");
    assert_eq!(entries[1].file_type, FileType::Regular);
    assert_eq!(&entries[2].name[..entries[2].name_len], b"d");
    assert_eq!(entries[2].file_type, FileType::Directory);
    let n = fs.read_dir(ramfs_inode(0), 2, &mut entries).unwrap();
    assert_eq!(n, 1);
    let d = fs.lookup(b"/d").unwrap();
    // Every listing starts with the root's "." entry.
    let n = fs.read_dir(d, 0, &mut entries).unwrap();
    assert_eq!(n, 2);
    assert_eq!(&entries[0].name[..entries[0].name_len], b".");
    assert_eq!(&entries[1].name[..entries[1].name_len], b"inner");
    let a = fs.lookup(b"/a").unwrap();
    assert_eq!(fs.read_dir(a, 0, &mut entries), Err(EINVAL));
}

#[test]
fn ramfs_path_helpers() {
    assert_eq!(normalize_path(b"/a/b"), b"a/b");
    assert_eq!(normalize_path(b"./x"), b"x");
    assert_eq!(normalize_path(b"x\0junk"), b"x");
    assert_eq!(trim_nul(b"abc\0def"), b"abc");
    assert_eq!(trim_nul(b"abc"), b"abc");
    assert_eq!(split_component(b"usr/bin/sh"), (&b"usr"[..], &b"bin/sh"[..]));
    assert_eq!(split_component(b"sh"), (&b"sh"[..], &b""[..]));
    assert!(bytes_equal(b"abc", b"abc"));
    assert!(!bytes_equal(b"abc", b"abd"));
    assert!(!bytes_equal(b"abc", b"ab"));
    assert_eq!(round_capacity(0), 4096);
    assert_eq!(round_capacity(1), 4096);
    assert_eq!(round_capacity(4096), 4096);
    assert_eq!(round_capacity(4097), 8192);
}

#[test]
fn ramfs_parent_dirs_are_created_from_the_outside_in() {
    let mut fs = RamFs::new();
    assert_eq!(fs.ensure_parent_dirs(b"/a/b/file"), Ok(()));
    assert!(fs.lookup(b"a").is_some());
    assert!(fs.lookup(b"a/b").is_some());
    assert!(fs.lookup(b"a/b/file").is_none());
    let before = fs.regular_count();
    assert_eq!(fs.ensure_parent_dirs(b"plain"), Ok(()));
    assert!(fs.lookup(b"plain").is_none());
    assert_eq!(fs.regular_count(), before);
}
