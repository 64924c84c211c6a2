use aarch32_kernel::fs::ext4::{normalize_components, MAX_PATH_COMPONENTS};
use aarch32_kernel::fs::devfs::{self, DevFs};
use aarch32_kernel::fs::initrd::{self, InitrdEntry};
use aarch32_kernel::fs::procfs::{self, write_meminfo, MemStats, ProcFs};
use aarch32_kernel::fs::vfs::{
    file_type_code, file_type_mode, fs_dev, is_ramfs_overlay_path, strip_absolute, DirEntry, FileSystemId, FileType,
    InodeRef, Metadata, Stat, Vfs,
};
use aarch32_kernel::kernel::syscall::{EBADF, EINVAL, ENOENT, EROFS, ESPIPE, SEEK_CUR, SEEK_END, SEEK_SET};
use aarch32_kernel::kernel::process::{AddressSpace, FileObject, ProcessId, ProcessTable};
use aarch32_kernel::kernel::address::PhysAddr;

fn stats() -> MemStats {
    MemStats { total: 32768, free: 30000, reserved: 700, allocated: 2068 }
}

fn dev(ino: usize) -> InodeRef {
    InodeRef { fs: FileSystemId::Devfs, ino }
}

#[test]
fn devfs_names_and_metadata() {
    assert_eq!(devfs::lookup(b"/dev/null"), Some(dev(2)));
    assert_eq!(devfs::lookup(b"/dev/console"), Some(dev(1)));
    assert_eq!(devfs::lookup(b"/dev/zero"), Some(dev(3)));
    assert_eq!(devfs::lookup(b"/dev/urandom"), Some(dev(4)));
    assert_eq!(devfs::lookup(b"/dev/tty"), Some(dev(5)));
    assert_eq!(devfs::lookup(b"/dev"), Some(dev(0)));
    assert_eq!(devfs::lookup(b"/dev/sda"), None);
    assert_eq!(devfs::lookup(b"/tmp"), None);
    let meta = devfs::metadata(dev(4)).unwrap();
    assert_eq!(meta.file_type, FileType::Device);
    assert_eq!(meta.mode, 0o444);
    assert_eq!(devfs::metadata(dev(2)).unwrap().mode, 0o666);
    assert_eq!(devfs::metadata(dev(0)).unwrap().file_type, FileType::Directory);
    assert!(devfs::metadata(dev(9)).is_none());
    assert_eq!(devfs::open(dev(2)).unwrap().name, "null");
}

#[test]
fn devfs_write_and_read() {
    let mut out = Vec::new();
    assert_eq!(devfs::write(dev(2), 0, b"gone", &mut out), Ok(4));
    assert!(out.is_empty());
    assert_eq!(devfs::write(dev(1), 0, b"a\nb", &mut out), Ok(3));
    assert_eq!(out, b"a\r\nb");
    assert_eq!(devfs::write(dev(3), 0, b"x", &mut out), Err(EINVAL));
    let mut fs = DevFs::new();
    let mut buf = [7u8; 4];
    assert_eq!(fs.read(dev(3), 0, &mut buf, 0), Ok(4));
    assert_eq!(buf, [0, 0, 0, 0]);
    let mut buf = [7u8; 4];
    assert_eq!(fs.read(dev(2), 0, &mut buf, 0), Ok(0));
    assert_eq!(buf, [7, 7, 7, 7]);
}

#[test]
fn devfs_urandom_is_the_xorshift_stream() {
    let mut fs = DevFs::new();
    let mut buf = [0u8; 3];
    fs.fill_urandom(&mut buf, 0);
    let mut s: u32 = 0x6d2b_79f5;
    let mut expected = [0u8; 3];
    for b in expected.iter_mut() {
        s ^= s << 13;
        s ^= s >> 17;
        s ^= s << 5;
        *b = (s >> 24) as u8;
    }
    assert_eq!(buf, expected);
    assert_eq!(fs.urandom_state, s.wrapping_add(0x9e37_79b9));
}

#[test]
fn procfs_meminfo_text() {
    let text = write_meminfo(stats());
    assert_eq!(
        text,
        b"MemTotalPages: 32768\nMemFreePages: 30000\nMemReservedPages: 700\nMemAllocatedPages: 2068\n".to_vec()
    );
    let mut proc_fs = ProcFs::new();
    proc_fs.render(stats());
    let meminfo = procfs::lookup(b"/proc/meminfo").unwrap();
    assert_eq!(meminfo, InodeRef { fs: FileSystemId::Procfs, ino: 1 });
    assert_eq!(proc_fs.open(meminfo).unwrap().data, &text[..]);
    let mounts = procfs::lookup(b"/proc/mounts").unwrap();
    assert_eq!(
        proc_fs.open(mounts).unwrap().data,
        b"ramfs / ramfs rw 0 0\ninitrd /initrd initrd ro 0 0\ndevfs /dev devfs rw 0 0\nprocfs /proc procfs ro 0 0\n"
    );
    let exe = procfs::lookup(b"/proc/self/exe").unwrap();
    assert_eq!(proc_fs.metadata(exe, stats()).unwrap().file_type, FileType::Symlink);
    assert_eq!(proc_fs.open(exe).unwrap().data, b"/bin/init");
    assert_eq!(procfs::lookup(b"/proc/nothing"), None);
}

const HELLO: &[u8] = b"hello from the kernel\n";
const LINK: &[u8] = b"/bin/hello";

fn builtin() -> Vec<InitrdEntry<'static>> {
    vec![
        InitrdEntry { name: "/bin/hello", data: HELLO, mode: 0o755 },
        InitrdEntry { name: "/etc/target", data: LINK, mode: 0o644 },
    ]
}

#[test]
fn initrd_builtin_files() {
    let files = builtin();
    assert_eq!(initrd::file_count(&files), 2);
    let hello = initrd::lookup(&files, b"/bin/hello").unwrap();
    assert_eq!(hello.fs, FileSystemId::Initrd);
    assert_eq!(initrd::open(&files, hello).unwrap().data, HELLO);
    assert_eq!(initrd::metadata(&files, hello).unwrap().size, HELLO.len());
    assert_eq!(initrd::lookup(&files, b"/bin/none"), None);
    assert_eq!(initrd::trim_name(b"/bin/hello"), b"hello");
    assert_eq!(initrd::metadata(&files, hello).unwrap().file_type, FileType::Regular);
}

#[test]
fn vfs_resolves_each_mount() {
    let files = builtin();
    let mut vfs = Vfs::init(&files, false, true);
    assert_eq!(vfs.lookup(b"/dev/null", stats()), Ok(dev(2)));
    assert_eq!(vfs.lookup(b"/proc/meminfo", stats()).unwrap().fs, FileSystemId::Procfs);
    let tmp = vfs.lookup(b"/tmp", stats()).unwrap();
    assert_eq!(tmp.fs, FileSystemId::Ramfs);
    assert_eq!(vfs.metadata(tmp, stats()).unwrap().file_type, FileType::Directory);
    let hello = vfs.lookup(b"/bin/hello", stats()).unwrap();
    assert_eq!(hello.fs, FileSystemId::Initrd);
    assert_eq!(vfs.lookup(b"/missing", stats()), Err(ENOENT));
    // A link to a built-in file is followed, unless asked not to.
    let link = vfs.ramfs.create_node(b"/tmp/hi", FileType::Symlink, 0o777, true).unwrap();
    assert_eq!(vfs.ramfs.write(link, 0, LINK), Ok(LINK.len()));
    assert_eq!(vfs.lookup(b"/tmp/hi", stats()), Ok(hello));
    assert_eq!(vfs.lookup_nofollow(b"/tmp/hi"), Ok(link));
    let mut buf = [0u8; 32];
    assert_eq!(vfs.readlink(b"/tmp/hi", &mut buf, stats()), Ok(LINK.len()));
    assert_eq!(&buf[..LINK.len()], LINK);
    // Built-in files cannot be written.
    let mut out = Vec::new();
    assert_eq!(vfs.write(hello, 0, b"x", &mut out), Err(EROFS));
}

#[test]
fn vfs_tmp_file_round_trip() {
    let files = builtin();
    let mut vfs = Vfs::init(&files, false, true);
    let file = vfs.create_file(b"/tmp/log", 0o644).unwrap();
    assert_eq!(vfs.lookup(b"/tmp/log", stats()), Ok(file));
    let mut out = Vec::new();
    assert_eq!(vfs.write(file, 0, b"line one\n", &mut out), Ok(9));
    let mut buf = [0u8; 16];
    assert_eq!(vfs.read(file, 5, &mut buf, stats(), 0), Ok(4));
    assert_eq!(&buf[..4], b"one\n");
    assert_eq!(vfs.read(file, 100, &mut buf, stats(), 0), Ok(0));
    assert_eq!(vfs.file_data(file).unwrap(), b"line one\n");
    assert_eq!(vfs.truncate(file, 4), Ok(()));
    assert_eq!(vfs.file_data(file).unwrap(), b"line");
    assert_eq!(vfs.rename(b"/tmp/log", b"/tmp/old"), Ok(()));
    assert_eq!(vfs.lookup(b"/tmp/log", stats()), Err(ENOENT));
    assert_eq!(vfs.unlink(b"/tmp/old"), Ok(()));
    assert_eq!(vfs.lookup(b"/tmp/old", stats()), Err(ENOENT));
    // Writes to the console come out with CR LF line ends.
    assert_eq!(vfs.write(dev(1), 0, b"hi\n", &mut out), Ok(3));
    assert_eq!(out, b"hi\r\n");
}

#[test]
fn vfs_type_numbers() {
    assert_eq!(file_type_code(FileType::Regular), 1);
    assert_eq!(file_type_code(FileType::Directory), 2);
    assert_eq!(file_type_code(FileType::Device), 3);
    assert_eq!(file_type_code(FileType::Symlink), 4);
    assert_eq!(file_type_mode(FileType::Regular), 0o100000);
    assert_eq!(file_type_mode(FileType::Directory), 0o040000);
    assert_eq!(file_type_mode(FileType::Device), 0o020000);
    assert_eq!(file_type_mode(FileType::Symlink), 0o120000);
    assert_eq!(fs_dev(FileSystemId::Ramfs), 2);
    assert_eq!(fs_dev(FileSystemId::Ext4), 5);
    assert_eq!(FileType::Symlink.as_str(), "symlink");
    let meta = Metadata::new(InodeRef { fs: FileSystemId::Ramfs, ino: 3 }, FileType::Regular, 1000, 0o644);
    assert_eq!(meta.linux_mode(), 0o100644);
    assert_eq!(meta.nlink, 1);
    let st = Stat::from_metadata(meta);
    assert_eq!(st.st_size, 1000);
    assert_eq!(st.st_blocks, 2);
    assert_eq!(st.st_mode, 0o100644);
    assert_eq!(st.st_ino, 3);
    assert!(is_ramfs_overlay_path(b"/tmp"));
    assert!(is_ramfs_overlay_path(b"/tmp/x"));
    assert!(!is_ramfs_overlay_path(b"/tmpx"));
    assert_eq!(strip_absolute(b"/a"), b"a");
    assert_eq!(strip_absolute(b"a"), b"a");
    let entry = DirEntry::new(InodeRef { fs: FileSystemId::Ramfs, ino: 1 }, FileType::Regular, b"name");
    assert_eq!(&entry.name[..entry.name_len], b"name");
}

#[test]
fn ext4_paths_resolve_dots_and_fit_the_buffer() {
    let mut out = [0u8; 16];
    let n = normalize_components(b"/a/./b/../c//d/", &mut out);
    assert_eq!(&out[..n], b"a/c/d");
    let mut small = [0xffu8; 3];
    assert_eq!(normalize_components(b"/a/./b/../c//d/", &mut small), 3);
    assert_eq!(&small, b"a/c");
    let mut out = [0u8; 8];
    let n = normalize_components(b"../../x\0/y", &mut out);
    assert_eq!(&out[..n], b"x");
    let mut out = [7u8; 4];
    assert_eq!(normalize_components(b"/", &mut out), 0);
    assert_eq!(out, [7u8; 4]);
}

#[test]
fn ext4_paths_keep_at_most_the_component_limit() {
    let mut path = Vec::new();
    for k in 0..40u8 {
        path.push(b'a' + (k % 26));
        path.push(b'/');
    }
    let mut out = [0u8; 128];
    let n = normalize_components(&path, &mut out);
    assert_eq!(n, 2 * MAX_PATH_COMPONENTS - 1);
    assert_eq!(out[0], b'a');
    assert_eq!(out[n - 1], b'a' + ((MAX_PATH_COMPONENTS - 1) as u8 % 26));
}

#[test]
fn seek_moves_the_file_offset() {
    let files = builtin();
    let mut vfs = Vfs::init(&files, false, true);
    let file = vfs.create_file(b"/tmp/seek", 0o644).unwrap();
    let mut out = Vec::new();
    assert_eq!(vfs.write(file, 0, b"0123456789", &mut out), Ok(10));
    let mut table = ProcessTable::new();
    let pid = table.create("p", ProcessId::new(0), AddressSpace::kernel(PhysAddr::new(0x4000_0000)));
    let fd = table.open_file(pid, FileObject::Regular { inode: file }, 0).unwrap();
    assert_eq!(table.seek(&vfs, stats(), pid, fd, 4, SEEK_SET), 4);
    assert_eq!(table.file(pid, fd).unwrap().offset, 4);
    assert_eq!(table.seek(&vfs, stats(), pid, fd, 3, SEEK_CUR), 7);
    assert_eq!(table.seek(&vfs, stats(), pid, fd, -2, SEEK_END), 8);
    assert_eq!(table.seek(&vfs, stats(), pid, fd, -20, SEEK_CUR), EINVAL);
    assert_eq!(table.file(pid, fd).unwrap().offset, 8);
    assert_eq!(table.seek(&vfs, stats(), pid, fd, 0, 9), EINVAL);
    assert_eq!(table.seek(&vfs, stats(), pid, 0, 0, SEEK_SET), ESPIPE);
    assert_eq!(table.seek(&vfs, stats(), pid, 40, 0, SEEK_SET), EBADF);
}
