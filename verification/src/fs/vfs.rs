use vstd::prelude::*;

use crate::fs::devfs::{self, DevFs};
use crate::fs::initrd::{self, InitrdEntry};
use crate::fs::procfs::{self, MemStats, ProcFs};
use crate::fs::ramfs::{self, RamFs};
use crate::kernel::syscall::{EINVAL, EISDIR, ENOENT, EROFS};

verus! {

pub const S_IFMT: u32 = 0o170000;
pub const S_IFREG: u32 = 0o100000;
pub const S_IFDIR: u32 = 0o040000;
pub const S_IFCHR: u32 = 0o020000;
pub const S_IFLNK: u32 = 0o120000;

#[derive(Clone, Copy, PartialEq, Eq, Structural, Debug)]
pub enum FileType {
    Regular,
    Directory,
    Device,
    Symlink,
}

impl FileType {
    pub fn as_str(self) -> (r: &'static str)
        ensures
            r@ == file_type_name(self),
    {
        match self {
            FileType::Regular => "regular",
            FileType::Directory => "directory",
            FileType::Device => "device",
            FileType::Symlink => "symlink",
        }
    }
}

pub open spec fn file_type_name(t: FileType) -> Seq<char> {
    match t {
        FileType::Regular => "regular"@,
        FileType::Directory => "directory"@,
        FileType::Device => "device"@,
        FileType::Symlink => "symlink"@,
    }
}

#[derive(Clone, Copy, PartialEq, Eq, Structural, Debug)]
pub enum FileSystemId {
    Initrd,
    Ramfs,
    Devfs,
    Procfs,
    Ext4,
}

#[derive(Clone, Copy, PartialEq, Eq, Structural, Debug)]
pub struct InodeRef {
    pub fs: FileSystemId,
    pub ino: usize,
}


/// What `stat` reports about a file.
#[derive(Clone, Copy, PartialEq, Eq, Structural, Debug)]
pub struct Metadata {
    pub inode: InodeRef,
    pub file_type: FileType,
    pub size: usize,
    pub mode: u16,
    pub nlink: u32,
    pub uid: u32,
    pub gid: u32,
    pub atime: u32,
    pub mtime: u32,
    pub ctime: u32,
}

/// The `S_IF*` bits of a file type.
pub open spec fn type_mode(t: FileType) -> u32 {
    match t {
        FileType::Regular => S_IFREG,
        FileType::Directory => S_IFDIR,
        FileType::Device => S_IFCHR,
        FileType::Symlink => S_IFLNK,
    }
}

/// The number user space sees for a file type in a directory entry.
pub open spec fn type_code(t: FileType) -> u32 {
    match t {
        FileType::Regular => 1,
        FileType::Directory => 2,
        FileType::Device => 3,
        FileType::Symlink => 4,
    }
}

/// The device number each file system reports.
pub open spec fn dev_of(fs: FileSystemId) -> u64 {
    match fs {
        FileSystemId::Initrd => 1,
        FileSystemId::Ramfs => 2,
        FileSystemId::Devfs => 3,
        FileSystemId::Procfs => 4,
        FileSystemId::Ext4 => 5,
    }
}

pub open spec fn mode_of(m: Metadata) -> u32 {
    type_mode(m.file_type) | (m.mode as u32 & 0o7777)
}

/// The number of 512-byte blocks that hold `size` bytes.
pub open spec fn blocks_of(size: usize) -> int {
    (size as int + 511) / 512
}

impl Metadata {
    pub fn new(inode: InodeRef, file_type: FileType, size: usize, mode: u16) -> (r: Self)
        ensures
            r.inode == inode && r.file_type == file_type && r.size == size && r.mode == mode,
            r.nlink == (if file_type == FileType::Directory { 2u32 } else { 1u32 }),
            r.uid == 0 && r.gid == 0 && r.atime == 0 && r.mtime == 0 && r.ctime == 0,
    {
        Metadata {
            inode,
            file_type,
            size,
            mode,
            nlink: match file_type {
                FileType::Directory => 2,
                _ => 1,
            },
            uid: 0,
            gid: 0,
            atime: 0,
            mtime: 0,
            ctime: 0,
        }
    }

    /// The full `st_mode`: type bits and permission bits.
    pub fn linux_mode(self) -> (r: u32)
        ensures
            r == mode_of(self),
    {
        file_type_mode(self.file_type) | (self.mode as u32 & 0o7777)
    }
}

fn block_count(size: usize) -> (r: u64)
    ensures
        r == blocks_of(size),
{
    let s = size as u64;
    let q = s / 512;
    if s % 512 != 0 {
        q + 1
    } else {
        q
    }
}

/// The `stat64` record.
#[derive(Clone, Copy, PartialEq, Eq, Structural, Debug)]
pub struct Stat {
    pub st_dev: u64,
    pub __pad1: u32,
    pub st_ino: u32,
    pub st_mode: u32,
    pub st_nlink: u32,
    pub st_uid: u32,
    pub st_gid: u32,
    pub st_rdev: u64,
    pub __pad2: u32,
    pub st_size: i64,
    pub st_blksize: u32,
    pub st_blocks: u64,
    pub st_atime: u32,
    pub st_atime_nsec: u32,
    pub st_mtime: u32,
    pub st_mtime_nsec: u32,
    pub st_ctime: u32,
    pub st_ctime_nsec: u32,
    pub st_ino64: u64,
}

impl Stat {
    pub fn from_metadata(metadata: Metadata) -> (r: Self)
        ensures
            r.st_dev == dev_of(metadata.inode.fs),
            r.__pad1 == 0 && r.__pad2 == 0,
            r.st_ino == metadata.inode.ino as u32,
            r.st_mode == mode_of(metadata),
            r.st_nlink == metadata.nlink,
            r.st_uid == metadata.uid && r.st_gid == metadata.gid,
            r.st_rdev == (if metadata.file_type == FileType::Device { metadata.inode.ino as u64 } else { 0u64 }),
            r.st_size == metadata.size as i64,
            r.st_blksize == 4096,
            r.st_blocks == blocks_of(metadata.size),
            r.st_atime == metadata.atime && r.st_mtime == metadata.mtime && r.st_ctime == metadata.ctime,
            r.st_atime_nsec == 0 && r.st_mtime_nsec == 0 && r.st_ctime_nsec == 0,
            r.st_ino64 == metadata.inode.ino as u64,
    {
        Stat {
            st_dev: fs_dev(metadata.inode.fs),
            __pad1: 0,
            st_ino: metadata.inode.ino as u32,
            st_mode: metadata.linux_mode(),
            st_nlink: metadata.nlink,
            st_uid: metadata.uid,
            st_gid: metadata.gid,
            st_rdev: match metadata.file_type {
                FileType::Device => metadata.inode.ino as u64,
                _ => 0,
            },
            __pad2: 0,
            st_size: metadata.size as i64,
            st_blksize: 4096,
            st_blocks: block_count(metadata.size),
            st_atime: metadata.atime,
            st_atime_nsec: 0,
            st_mtime: metadata.mtime,
            st_mtime_nsec: 0,
            st_ctime: metadata.ctime,
            st_ctime_nsec: 0,
            st_ino64: metadata.inode.ino as u64,
        }
    }
}

#[derive(Clone, Copy, PartialEq, Eq, Structural, Debug)]
pub struct StatxTimestamp {
    pub tv_sec: i64,
    pub tv_nsec: u32,
    pub __reserved: i32,
}

/// The `statx` record.
#[derive(Clone, Copy, Debug)]
pub struct Statx {
    pub stx_mask: u32,
    pub stx_blksize: u32,
    pub stx_attributes: u64,
    pub stx_nlink: u32,
    pub stx_uid: u32,
    pub stx_gid: u32,
    pub stx_mode: u16,
    pub __spare0: [u16; 1],
    pub stx_ino: u64,
    pub stx_size: u64,
    pub stx_blocks: u64,
    pub stx_attributes_mask: u64,
    pub stx_atime: StatxTimestamp,
    pub stx_btime: StatxTimestamp,
    pub stx_ctime: StatxTimestamp,
    pub stx_mtime: StatxTimestamp,
    pub stx_rdev_major: u32,
    pub stx_rdev_minor: u32,
    pub stx_dev_major: u32,
    pub stx_dev_minor: u32,
    pub __spare2: [u64; 14],
}

pub open spec fn timestamp(seconds: u32) -> StatxTimestamp {
    StatxTimestamp { tv_sec: seconds as i64, tv_nsec: 0, __reserved: 0 }
}

fn statx_time(seconds: u32) -> (r: StatxTimestamp)
    ensures
        r == timestamp(seconds),
{
    StatxTimestamp { tv_sec: seconds as i64, tv_nsec: 0, __reserved: 0 }
}

impl Statx {
    pub fn from_metadata(metadata: Metadata) -> (r: Self)
        ensures
            r.stx_mask == 0x1fff && r.stx_blksize == 4096,
            r.stx_attributes == 0 && r.stx_attributes_mask == 0,
            r.stx_nlink == metadata.nlink,
            r.stx_uid == metadata.uid && r.stx_gid == metadata.gid,
            r.stx_mode == mode_of(metadata) as u16,
            r.__spare0@ == seq![0u16],
            r.stx_ino == metadata.inode.ino as u64,
            r.stx_size == metadata.size as u64,
            r.stx_blocks == blocks_of(metadata.size),
            r.stx_atime == timestamp(metadata.atime),
            r.stx_btime == timestamp(0),
            r.stx_ctime == timestamp(metadata.ctime),
            r.stx_mtime == timestamp(metadata.mtime),
            r.stx_rdev_major == 0,
            r.stx_rdev_minor == (if metadata.file_type == FileType::Device { metadata.inode.ino as u32 } else { 0u32 }),
            r.stx_dev_major == 0,
            r.stx_dev_minor == dev_of(metadata.inode.fs) as u32,
            r.__spare2@ == Seq::new(14, |i: int| 0u64),
    {
        let r = Statx {
            stx_mask: 0x0000_1fff,
            stx_blksize: 4096,
            stx_attributes: 0,
            stx_nlink: metadata.nlink,
            stx_uid: metadata.uid,
            stx_gid: metadata.gid,
            stx_mode: metadata.linux_mode() as u16,
            __spare0: [0; 1],
            stx_ino: metadata.inode.ino as u64,
            stx_size: metadata.size as u64,
            stx_blocks: block_count(metadata.size),
            stx_attributes_mask: 0,
            stx_atime: statx_time(metadata.atime),
            stx_btime: statx_time(0),
            stx_ctime: statx_time(metadata.ctime),
            stx_mtime: statx_time(metadata.mtime),
            stx_rdev_major: 0,
            stx_rdev_minor: match metadata.file_type {
                FileType::Device => metadata.inode.ino as u32,
                _ => 0,
            },
            stx_dev_major: 0,
            stx_dev_minor: fs_dev(metadata.inode.fs) as u32,
            __spare2: [0; 14],
        };
        assert(r.__spare0@ =~= seq![0u16]);
        assert(r.__spare2@ =~= Seq::new(14, |i: int| 0u64));
        r
    }
}

pub const DIR_NAME_LEN: usize = 96;

/// One entry of a directory listing; the name is cut to `DIR_NAME_LEN` bytes.
#[derive(Clone, Copy, Debug)]
pub struct DirEntry {
    pub inode: InodeRef,
    pub file_type: FileType,
    pub name: [u8; DIR_NAME_LEN],
    pub name_len: usize,
}

impl DirEntry {
    /// The bytes of the entry's name.
    pub open spec fn name_bytes(&self) -> Seq<u8> {
        self.name@.take(self.name_len as int)
    }

    pub fn empty() -> (r: Self)
        ensures
            r.inode == (InodeRef { fs: FileSystemId::Ramfs, ino: 0 }),
            r.file_type == FileType::Regular,
            r.name@ == Seq::new(DIR_NAME_LEN as nat, |i: int| 0u8),
            r.name_len == 0,
    {
        let r = DirEntry {
            inode: InodeRef { fs: FileSystemId::Ramfs, ino: 0 },
            file_type: FileType::Regular,
            name: [0; DIR_NAME_LEN],
            name_len: 0,
        };
        assert(r.name@ =~= Seq::new(DIR_NAME_LEN as nat, |i: int| 0u8));
        r
    }

    pub fn new(inode: InodeRef, file_type: FileType, name: &[u8]) -> (r: Self)
        ensures
            entry_for(r, inode, file_type, name@),
    {
        let n: usize = if name.len() < DIR_NAME_LEN { name.len() } else { DIR_NAME_LEN };
        let mut buf = [0u8; DIR_NAME_LEN];
        let mut i: usize = 0;
        while i < n
            invariant
                n <= DIR_NAME_LEN,
                n <= name@.len(),
                i <= n,
                buf@.len() == DIR_NAME_LEN,
                forall|k: int| 0 <= k < i ==> buf@[k] == name@[k],
                forall|k: int| i <= k < DIR_NAME_LEN ==> buf@[k] == 0u8,
            decreases n - i,
        {
            buf[i] = name[i];
            i += 1;
        }
        let r = DirEntry { inode, file_type, name: buf, name_len: n };
        assert(r.name_bytes() =~= name@.take(n as int));
        assert(r.name@.skip(n as int) =~= Seq::new((DIR_NAME_LEN - n) as nat, |i: int| 0u8));
        r
    }
}

/// `e` is the entry `DirEntry::new` makes for a file of type `t` named
/// `name`: the name cut to `DIR_NAME_LEN` bytes and padded with zeros.
pub open spec fn entry_for(e: DirEntry, inode: InodeRef, t: FileType, name: Seq<u8>) -> bool {
    &&& e.inode == inode
    &&& e.file_type == t
    &&& e.name_len == (if name.len() < DIR_NAME_LEN { name.len() as usize } else { DIR_NAME_LEN })
    &&& e.name_bytes() == name.take(e.name_len as int)
    &&& e.name@.skip(e.name_len as int) == Seq::new((DIR_NAME_LEN - e.name_len) as nat, |i: int| 0u8)
}

/// A directory entry as user space reads it.
#[derive(Clone, Copy, Debug)]
pub struct UserDirEntry {
    pub ino: u32,
    pub file_type: u32,
    pub name_len: u32,
    pub name: [u8; DIR_NAME_LEN],
}

impl UserDirEntry {
    pub fn empty() -> (r: Self)
        ensures
            r.ino == 0 && r.file_type == 0 && r.name_len == 0,
            r.name@ == Seq::new(DIR_NAME_LEN as nat, |i: int| 0u8),
    {
        let r = UserDirEntry { ino: 0, file_type: 0, name_len: 0, name: [0; DIR_NAME_LEN] };
        assert(r.name@ =~= Seq::new(DIR_NAME_LEN as nat, |i: int| 0u8));
        r
    }

    pub fn from_dir_entry(entry: DirEntry) -> (r: Self)
        ensures
            r.ino == entry.inode.ino as u32,
            r.file_type == type_code(entry.file_type),
            r.name_len == entry.name_len as u32,
            r.name@ == entry.name@,
    {
        UserDirEntry {
            ino: entry.inode.ino as u32,
            file_type: file_type_code(entry.file_type),
            name_len: entry.name_len as u32,
            name: entry.name,
        }
    }
}

pub fn file_type_code(file_type: FileType) -> (r: u32)
    ensures
        r == type_code(file_type),
{
    match file_type {
        FileType::Regular => 1,
        FileType::Directory => 2,
        FileType::Device => 3,
        FileType::Symlink => 4,
    }
}

pub fn file_type_mode(file_type: FileType) -> (r: u32)
    ensures
        r == type_mode(file_type),
{
    match file_type {
        FileType::Regular => S_IFREG,
        FileType::Directory => S_IFDIR,
        FileType::Device => S_IFCHR,
        FileType::Symlink => S_IFLNK,
    }
}

pub fn fs_dev(fs: FileSystemId) -> (r: u64)
    ensures
        r == dev_of(fs),
{
    match fs {
        FileSystemId::Initrd => 1,
        FileSystemId::Ramfs => 2,
        FileSystemId::Devfs => 3,
        FileSystemId::Procfs => 4,
        FileSystemId::Ext4 => 5,
    }
}

/// A file's name and bytes, as `open` hands them out.
pub struct FileView<'a> {
    pub inode: InodeRef,
    pub name: &'a str,
    pub data: &'a [u8],
}

/// The index of the first NUL byte, or the length when there is none.
pub open spec fn nul_end(s: Seq<u8>) -> int
    decreases s.len(),
{
    if s.len() == 0 {
        0
    } else if s[0] == 0 {
        0
    } else {
        1 + nul_end(s.drop_first())
    }
}

pub proof fn lemma_nul_end_bounds(s: Seq<u8>)
    ensures
        0 <= nul_end(s) <= s.len(),
        forall|k: int| 0 <= k < nul_end(s) ==> s[k] != 0,
        nul_end(s) < s.len() ==> s[nul_end(s)] == 0,
    decreases s.len(),
{
    if s.len() > 0 && s[0] != 0 {
        lemma_nul_end_bounds(s.drop_first());
        assert forall|k: int| 0 <= k < nul_end(s) implies s[k] != 0 by {
            if k > 0 {
                assert(s[k] == s.drop_first()[k - 1]);
            }
        }
    }
}

/// A path as the file systems see it: cut at the first NUL, one leading
/// `/` removed.
pub open spec fn stripped(path: Seq<u8>) -> Seq<u8> {
    let p = path.take(nul_end(path));
    if p.len() > 0 && p[0] == 0x2f {
        p.skip(1)
    } else {
        p
    }
}

fn nul_position(path: &[u8]) -> (r: usize)
    ensures
        r == nul_end(path@),
        r <= path@.len(),
{
    proof {
        lemma_nul_end_bounds(path@);
        assert(path@.skip(0) =~= path@);
    }
    let mut i: usize = 0;
    while i < path.len() && path[i] != 0
        invariant
            i <= path@.len(),
            nul_end(path@) == i + nul_end(path@.skip(i as int)),
        decreases path@.len() - i,
    {
        assert(path@.skip(i as int).drop_first() =~= path@.skip(i + 1));
        i += 1;
    }
    proof {
        if i == path@.len() {
            assert(path@.skip(i as int).len() == 0);
        } else {
            assert(path@.skip(i as int)[0] == 0);
        }
    }
    i
}

pub fn strip_absolute(path: &[u8]) -> (r: &[u8])
    ensures
        r@ == stripped(path@),
{
    let end = nul_position(path);
    let p = vstd::slice::slice_subrange(path, 0, end);
    assert(p@ =~= path@.take(end as int));
    if p.len() > 0 && p[0] == 0x2f {
        let q = vstd::slice::slice_subrange(p, 1, p.len());
        assert(q@ =~= p@.skip(1));
        q
    } else {
        p
    }
}

/// The stripped path, when stripping changed it.
pub fn stripped_absolute_retry(path: &[u8]) -> (r: Option<&[u8]>)
    ensures
        r is Some <==> stripped(path@).len() != path@.len(),
        r matches Some(s) ==> s@ == stripped(path@),
{
    let s = strip_absolute(path);
    if s.len() != path.len() {
        Some(s)
    } else {
        None
    }
}

/// Paths under `/tmp` live in the writable overlay.
pub open spec fn overlay_path(path: Seq<u8>) -> bool {
    let p = stripped(path);
    p == seq![0x74u8, 0x6d, 0x70] || (p.len() >= 4 && p.take(4) == seq![0x74u8, 0x6d, 0x70, 0x2f])
}

pub fn is_ramfs_overlay_path(path: &[u8]) -> (r: bool)
    ensures
        r == overlay_path(path@),
{
    let p = strip_absolute(path);
    if p.len() == 3 && p[0] == 0x74 && p[1] == 0x6d && p[2] == 0x70 {
        assert(p@ =~= seq![0x74u8, 0x6d, 0x70]);
        return true;
    }
    if p.len() >= 4 && p[0] == 0x74 && p[1] == 0x6d && p[2] == 0x70 && p[3] == 0x2f {
        assert(p@.take(4) =~= seq![0x74u8, 0x6d, 0x70, 0x2f]);
        return true;
    }
    proof {
        if p@.len() >= 4 && p@.take(4) == seq![0x74u8, 0x6d, 0x70, 0x2f] {
            assert(p@.take(4)[0] == p@[0]);
            assert(p@.take(4)[1] == p@[1]);
            assert(p@.take(4)[2] == p@[2]);
            assert(p@.take(4)[3] == p@[3]);
        }
        if p@ == seq![0x74u8, 0x6d, 0x70] {
            assert(p@.len() == 3);
        }
    }
    false
}

/// The mounted file systems: the writable ramfs (under `/tmp`, and holding
/// the unpacked external initrd), `/dev`, `/proc`, and the files built into
/// the kernel.
pub struct Vfs<'a> {
    pub ramfs: RamFs,
    pub devfs: DevFs,
    pub procfs: ProcFs,
    pub builtin: &'a [InitrdEntry<'a>],
    pub initrd_external: bool,
    pub initrd_builtin: bool,
}

pub const MAX_LINK_DEPTH: usize = 8;

impl<'a> Vfs<'a> {
    pub open spec fn wf(&self) -> bool {
        &&& self.ramfs.wf()
        &&& self.procfs.wf()
        &&& initrd::files_ok(self.builtin@)
    }

    /// The bytes that `open` shows for `inode`, without rendering
    /// `/proc/meminfo` anew.
    pub open spec fn view_spec(&self, inode: InodeRef) -> Option<Seq<u8>> {
        match inode.fs {
            FileSystemId::Ramfs => match self.ramfs.slot_of(inode) {
                None => None,
                Some(i) => {
                    let n = self.ramfs.nodes@[i];
                    if (n.file_type != FileType::Regular && n.file_type != FileType::Symlink) || !vstd::utf8::valid_utf8(n.name@) {
                        None
                    } else {
                        Some(self.ramfs.contents(inode))
                    }
                },
            },
            FileSystemId::Initrd => match initrd::file_index(self.builtin@, inode.ino) {
                Some(i) => Some(self.builtin@[i].data@),
                None => None,
            },
            FileSystemId::Devfs => if devfs::dev_node(inode.ino) { Some(Seq::empty()) } else { None },
            FileSystemId::Procfs => if inode.ino == procfs::MEMINFO_INO {
                Some(self.procfs.meminfo@)
            } else if inode.ino == procfs::MOUNTS_INO {
                Some(procfs::mounts_text())
            } else if inode.ino == procfs::SELF_EXE_INO {
                Some(procfs::exe_text())
            } else {
                None
            },
            FileSystemId::Ext4 => None,
        }
    }

    pub open spec fn meta_spec(&self, inode: InodeRef, stats: MemStats) -> Option<Metadata> {
        match inode.fs {
            FileSystemId::Initrd => initrd::meta_spec(self.builtin@, inode),
            FileSystemId::Ramfs => match self.ramfs.slot_of(inode) {
                Some(_) => Some(self.ramfs.meta_of(inode)),
                None => None,
            },
            FileSystemId::Devfs => devfs::meta_spec(inode),
            FileSystemId::Procfs => ProcFs::meta_spec(inode, stats),
            FileSystemId::Ext4 => None,
        }
    }

    /// Resolving `path`, following links, `depth` links deep: `/dev` and
    /// `/proc` first, then the `/tmp` overlay, the unpacked initrd and the
    /// built-in files.
    pub open spec fn follow(&self, path: Seq<u8>, depth: int, stats: MemStats) -> Result<InodeRef, u32>
        decreases MAX_LINK_DEPTH + 1 - depth, 1int,
    {
        if depth > MAX_LINK_DEPTH || depth < 0 {
            Err(EINVAL)
        } else {
            let retry = if depth == 0 && stripped(path).len() != path.len() {
                self.follow(stripped(path), depth + 1, stats)
            } else {
                Err(ENOENT)
            };
            if retry is Ok {
                retry
            } else if devfs::lookup_spec(path) is Some {
                Ok(devfs::lookup_spec(path)->Some_0)
            } else if procfs::lookup_spec(path) is Some {
                Ok(procfs::lookup_spec(path)->Some_0)
            } else if overlay_path(path) && self.ramfs.resolve(path) is Some {
                self.follow_link(ramfs::ram_inode(self.ramfs.resolve(path)->Some_0), depth, stats)
            } else if self.initrd_external && !overlay_path(path) && self.ramfs.resolve(path) is Some {
                self.follow_link(ramfs::ram_inode(self.ramfs.resolve(path)->Some_0), depth, stats)
            } else if self.initrd_builtin && initrd::lookup_spec(self.builtin@, path) is Some {
                self.follow_link(initrd::lookup_spec(self.builtin@, path)->Some_0, depth, stats)
            } else {
                Err(ENOENT)
            }
        }
    }

    /// `inode` itself, or where the link it is leads.
    pub open spec fn follow_link(&self, inode: InodeRef, depth: int, stats: MemStats) -> Result<InodeRef, u32>
        decreases MAX_LINK_DEPTH + 1 - depth, 0int,
    {
        match self.meta_spec(inode, stats) {
            None => Err(ENOENT),
            Some(m) => if m.file_type != FileType::Symlink {
                Ok(inode)
            } else {
                match self.view_spec(inode) {
                    None => Err(ENOENT),
                    Some(target) => if depth >= MAX_LINK_DEPTH || depth < 0 {
                        Err(EINVAL)
                    } else {
                        self.follow(target, depth + 1, stats)
                    },
                }
            },
        }
    }

    pub open spec fn lookup_spec(&self, path: Seq<u8>, stats: MemStats) -> Result<InodeRef, u32> {
        match self.follow(path, 0, stats) {
            Ok(i) => Ok(i),
            Err(e) => if stripped(path).len() != path.len() { self.follow(stripped(path), 0, stats) } else { Err(e) },
        }
    }

    pub fn metadata(&self, inode: InodeRef, stats: MemStats) -> (r: Option<Metadata>)
        requires
            self.wf(),
        ensures
            r == self.meta_spec(inode, stats),
    {
        match inode.fs {
            FileSystemId::Initrd => initrd::metadata(self.builtin, inode),
            FileSystemId::Ramfs => self.ramfs.metadata(inode),
            FileSystemId::Devfs => devfs::metadata(inode),
            FileSystemId::Procfs => self.procfs.metadata(inode, stats),
            FileSystemId::Ext4 => None,
        }
    }

    /// The bytes of `inode` as `open` shows them, `/proc/meminfo` as last
    /// rendered.
    pub fn view(&self, inode: InodeRef) -> (r: Option<&[u8]>)
        requires
            self.wf(),
        ensures
            match self.view_spec(inode) {
                Some(d) => r matches Some(x) && x@ == d,
                None => r is None,
            },
    {
        match inode.fs {
            FileSystemId::Initrd => match initrd::open(self.builtin, inode) {
                Some(v) => Some(v.data),
                None => None,
            },
            FileSystemId::Ramfs => match self.ramfs.open(inode) {
                Some(v) => Some(v.data),
                None => None,
            },
            FileSystemId::Devfs => match devfs::open(inode) {
                Some(v) => Some(v.data),
                None => None,
            },
            FileSystemId::Procfs => match self.procfs.open(inode) {
                Some(v) => Some(v.data),
                None => None,
            },
            FileSystemId::Ext4 => None,
        }
    }

    fn lookup_follow(&self, path: &[u8], depth: usize, stats: MemStats) -> (r: Result<InodeRef, u32>)
        requires
            self.wf(),
        ensures
            r == self.follow(path@, depth as int, stats),
        decreases MAX_LINK_DEPTH + 1 - depth, 1int,
    {
        if depth > MAX_LINK_DEPTH {
            return Err(EINVAL);
        }
        if depth == 0 {
            match stripped_absolute_retry(path) {
                Some(s) => {
                    match self.lookup_follow(s, depth + 1, stats) {
                        Ok(i) => {
                            return Ok(i);
                        },
                        Err(_) => {},
                    }
                },
                None => {},
            }
        }
        match devfs::lookup(path) {
            Some(i) => {
                return Ok(i);
            },
            None => {},
        }
        match procfs::lookup(path) {
            Some(i) => {
                return Ok(i);
            },
            None => {},
        }
        let overlay = is_ramfs_overlay_path(path);
        if overlay {
            match self.ramfs.lookup(path) {
                Some(i) => {
                    return self.follow_symlink(i, depth, stats);
                },
                None => {},
            }
        }
        if self.initrd_external && !overlay {
            match self.ramfs.lookup(path) {
                Some(i) => {
                    return self.follow_symlink(i, depth, stats);
                },
                None => {},
            }
        }
        if self.initrd_builtin {
            match initrd::lookup(self.builtin, path) {
                Some(i) => {
                    return self.follow_symlink(i, depth, stats);
                },
                None => {},
            }
        }
        Err(ENOENT)
    }

    fn follow_symlink(&self, inode: InodeRef, depth: usize, stats: MemStats) -> (r: Result<InodeRef, u32>)
        requires
            self.wf(),
            depth <= MAX_LINK_DEPTH,
        ensures
            r == self.follow_link(inode, depth as int, stats),
        decreases MAX_LINK_DEPTH + 1 - depth, 0int,
    {
        let meta = match self.metadata(inode, stats) {
            Some(m) => m,
            None => {
                return Err(ENOENT);
            },
        };
        if meta.file_type != FileType::Symlink {
            return Ok(inode);
        }
        let target = match self.view(inode) {
            Some(d) => d,
            None => {
                return Err(ENOENT);
            },
        };
        if depth >= MAX_LINK_DEPTH {
            return Err(EINVAL);
        }
        self.lookup_follow(target, depth + 1, stats)
    }

    /// Resolves `path`, following links; an absolute path that fails is
    /// tried once more without its leading `/`.
    pub fn lookup(&self, path: &[u8], stats: MemStats) -> (r: Result<InodeRef, u32>)
        requires
            self.wf(),
        ensures
            r == self.lookup_spec(path@, stats),
    {
        match self.lookup_follow(path, 0, stats) {
            Ok(i) => Ok(i),
            Err(e) => {
                let s = strip_absolute(path);
                if s.len() != path.len() {
                    self.lookup_follow(s, 0, stats)
                } else {
                    Err(e)
                }
            },
        }
    }
}

/// What `read` copies from file bytes `data` at `offset` for a buffer of
/// `n` bytes.
pub open spec fn read_spec(data: Seq<u8>, offset: int, n: int) -> Seq<u8> {
    let start = if offset < data.len() { offset } else { data.len() as int };
    let count = if data.len() - start < n { data.len() - start } else { n };
    data.subrange(start, start + count)
}

/// Reading back at `offset` what was just written there gives exactly
/// the written bytes.
pub proof fn lemma_read_after_write(old: Seq<u8>, offset: int, src: Seq<u8>)
    requires
        0 <= offset,
    ensures
        read_spec(ramfs::written(old, offset, src), offset, src.len() as int) == src,
{
    let w = ramfs::written(old, offset, src);
    assert(read_spec(w, offset, src.len() as int) =~= src);
}

/// A write to a ramfs file that succeeded is read back: the file's bytes
/// from `offset` are what was written, the file is as long as the longer of
/// what it was and the end of the write, the bytes it had elsewhere stay, and
/// a gap the write opened past the old end reads as zeros.
pub proof fn lemma_ramfs_write_then_read(old: ramfs::RamFs, new: ramfs::RamFs, inode: InodeRef, offset: usize, src: Seq<u8>, r: Result<usize, u32>)
    requires
        ramfs::write_spec(old, new, inode, offset, src, r),
        r is Ok,
    ensures
        read_spec(new.contents(inode), offset as int, src.len() as int) == src,
        new.contents(inode).len() == if old.contents(inode).len() > offset + src.len() {
            old.contents(inode).len() as int
        } else {
            offset + src.len()
        },
        forall|k: int|
            0 <= k < new.contents(inode).len() && !(offset <= k < offset + src.len()) ==> #[trigger] new.contents(inode)[k]
                == if k < old.contents(inode).len() {
                old.contents(inode)[k]
            } else {
                0u8
            },
{
    let i = old.slot_of(inode)->Some_0;
    let d = ramfs::data_slot(old.nodes@, i);
    let t = old.nodes@[i].link_target;
    if d != i {
        assert(new.nodes@[i] == old.nodes@[i]);
        assert(new.nodes@[t as int].used == old.nodes@[t as int].used);
    } else {
        if t < ramfs::MAX_INODES && t < old.nodes@.len() && t != i {
            assert(new.nodes@[t as int] == old.nodes@[t as int]);
        }
    }
    assert(ramfs::data_slot(new.nodes@, inode.ino as int) == d);
    lemma_read_after_write(old.nodes@[d].data@, offset as int, src);
}

/// Bytes past `offset` that a write did not touch read as before, and a
/// write never shortens a file.
pub proof fn lemma_write_keeps_rest(old: Seq<u8>, offset: int, src: Seq<u8>, k: int)
    requires
        0 <= offset,
        0 <= k < old.len(),
        !(offset <= k < offset + src.len()),
    ensures
        ramfs::written(old, offset, src)[k] == old[k],
        ramfs::written(old, offset, src).len() >= old.len(),
{
}

impl<'a> Vfs<'a> {
    /// A file system with an empty ramfs holding `/tmp`, `/dev`, `/proc`
    /// and the built-in files `builtin`.
    pub fn init(builtin: &'a [InitrdEntry<'a>], initrd_external: bool, initrd_builtin: bool) -> (r: Self)
        requires
            initrd::files_ok(builtin@),
        ensures
            r.wf(),
            r.builtin == builtin,
            r.initrd_external == initrd_external && r.initrd_builtin == initrd_builtin,
            r.ramfs.resolve(seq![0x74u8, 0x6d, 0x70]) is Some,
    {
        let mut ramfs = RamFs::new();
        let tmp: [u8; 3] = [0x74, 0x6d, 0x70];
        let ghost fresh = ramfs;
        proof {
            let t = seq![0x74u8, 0x6d, 0x70];
            assert(tmp@ =~= t);
            reveal_with_fuel(nul_end, 4);
            assert(nul_end(t) == 3);
            assert(t.take(3) =~= t);
            assert(ramfs::normalized(t) =~= t);
            reveal_with_fuel(ramfs::slash_index, 4);
            assert(ramfs::slash_index(t) == 3);
            assert(ramfs::first_component(t) =~= t);
            assert(ramfs::after_component(t) =~= Seq::<u8>::empty());
            assert(ramfs::child_from(fresh.nodes@, 0, t, 1) is None) by {
                ramfs::lemma_no_child_in_fresh(fresh.nodes@, t, 1);
            }
            assert(fresh.resolve(t) is None);
            reveal_with_fuel(ramfs::last_slash, 4);
            assert(ramfs::last_slash(t) == -1);
            assert(ramfs::free_from(fresh.nodes@, 1) == Some(1usize));
        }
        let _ = ramfs.mkdir(&tmp, 0o777);
        proof {
            let t = seq![0x74u8, 0x6d, 0x70];
            assert(ramfs.nodes@[1].used && ramfs.nodes@[1].parent == 0 && ramfs.nodes@[1].name@ == t);
            assert(ramfs::child_from(ramfs.nodes@, 0, t, 1) == Some(1usize));
            assert(ramfs::dot().len() == 1 && ramfs::dot_dot().len() == 2);
            assert(ramfs::walk(ramfs.nodes@, 1, Seq::<u8>::empty()) == Some(1usize));
            assert(ramfs::walk(ramfs.nodes@, 0, t) == Some(1usize));
            assert(ramfs.resolve(t) == Some(1usize));
        }
        Vfs { ramfs, devfs: DevFs::new(), procfs: ProcFs::new(), builtin, initrd_external, initrd_builtin }
    }
}

impl<'a> Vfs<'a> {
    /// Everything but the ramfs stayed.
    pub open spec fn others_same(&self, other: &Vfs<'a>) -> bool {
        &&& self.devfs == other.devfs
        &&& self.procfs == other.procfs
        &&& self.builtin == other.builtin
        &&& self.initrd_external == other.initrd_external
        &&& self.initrd_builtin == other.initrd_builtin
    }

    /// Resolves `path` without following a final link.
    pub open spec fn nofollow_spec(&self, path: Seq<u8>) -> Result<InodeRef, u32>
        decreases path.len(),
    {
        let retry = if stripped(path).len() < path.len() { self.nofollow_spec(stripped(path)) } else { Err(ENOENT) };
        if stripped(path).len() != path.len() && retry is Ok {
            retry
        } else if devfs::lookup_spec(path) is Some {
            Ok(devfs::lookup_spec(path)->Some_0)
        } else if procfs::lookup_spec(path) is Some {
            Ok(procfs::lookup_spec(path)->Some_0)
        } else if overlay_path(path) && self.ramfs.resolve(path) is Some {
            Ok(ramfs::ram_inode(self.ramfs.resolve(path)->Some_0))
        } else if self.initrd_external && !overlay_path(path) && self.ramfs.resolve(path) is Some {
            Ok(ramfs::ram_inode(self.ramfs.resolve(path)->Some_0))
        } else if self.initrd_builtin && initrd::lookup_spec(self.builtin@, path) is Some {
            Ok(initrd::lookup_spec(self.builtin@, path)->Some_0)
        } else {
            Err(ENOENT)
        }
    }

    pub fn lookup_nofollow(&self, path: &[u8]) -> (r: Result<InodeRef, u32>)
        requires
            self.wf(),
        ensures
            r == self.nofollow_spec(path@),
        decreases path@.len(),
    {
        proof {
            lemma_stripped_len(path@);
        }
        match stripped_absolute_retry(path) {
            Some(s) => {
                if s.len() < path.len() {
                    match self.lookup_nofollow(s) {
                        Ok(i) => {
                            return Ok(i);
                        },
                        Err(_) => {},
                    }
                }
            },
            None => {},
        }
        match devfs::lookup(path) {
            Some(i) => {
                return Ok(i);
            },
            None => {},
        }
        match procfs::lookup(path) {
            Some(i) => {
                return Ok(i);
            },
            None => {},
        }
        let overlay = is_ramfs_overlay_path(path);
        if overlay {
            match self.ramfs.lookup(path) {
                Some(i) => {
                    return Ok(i);
                },
                None => {},
            }
        }
        if self.initrd_external && !overlay {
            match self.ramfs.lookup(path) {
                Some(i) => {
                    return Ok(i);
                },
                None => {},
            }
        }
        if self.initrd_builtin {
            match initrd::lookup(self.builtin, path) {
                Some(i) => {
                    return Ok(i);
                },
                None => {},
            }
        }
        Err(ENOENT)
    }

    /// Only the built-in files.
    pub fn lookup_builtin(&self, path: &[u8]) -> (r: Result<InodeRef, u32>)
        requires
            self.wf(),
        ensures
            self.initrd_builtin && initrd::lookup_spec(self.builtin@, path@) is Some ==> r == Ok::<InodeRef, u32>(initrd::lookup_spec(self.builtin@, path@)->Some_0),
            !(self.initrd_builtin && initrd::lookup_spec(self.builtin@, path@) is Some) ==> r == Err::<InodeRef, u32>(ENOENT),
    {
        if self.initrd_builtin {
            match initrd::lookup(self.builtin, path) {
                Some(i) => {
                    return Ok(i);
                },
                None => {},
            }
        }
        Err(ENOENT)
    }

    /// A view of `inode`; `/proc/meminfo` is rendered for `stats` first.
    pub fn open(&mut self, inode: InodeRef, stats: MemStats) -> (r: Option<FileView<'_>>)
        requires
            old(self).wf(),
        ensures
            final(self).wf(),
            final(self).ramfs == old(self).ramfs && final(self).devfs == old(self).devfs && final(self).builtin == old(self).builtin,
            (inode.fs == FileSystemId::Procfs && inode.ino == procfs::MEMINFO_INO) ==> final(self).procfs.meminfo@ == procfs::meminfo_text(stats),
            !(inode.fs == FileSystemId::Procfs && inode.ino == procfs::MEMINFO_INO) ==> final(self).procfs == old(self).procfs,
            match final(self).view_spec(inode) {
                Some(d) => r matches Some(v) && v.inode == inode && v.data@ == d,
                None => r is None,
            },
    {
        if inode.fs == FileSystemId::Procfs && inode.ino == procfs::MEMINFO_INO {
            self.procfs.render(stats);
        }
        match inode.fs {
            FileSystemId::Initrd => initrd::open(self.builtin, inode),
            FileSystemId::Ramfs => self.ramfs.open(inode),
            FileSystemId::Devfs => devfs::open(inode),
            FileSystemId::Procfs => self.procfs.open(inode),
            FileSystemId::Ext4 => None,
        }
    }

    /// Copies the bytes of `inode` from `offset` into `dst`: `EISDIR` for a
    /// directory; devices answer for themselves.
    pub fn read(&mut self, inode: InodeRef, offset: usize, dst: &mut [u8], stats: MemStats, entropy: u32) -> (r: Result<usize, u32>)
        requires
            old(self).wf(),
        ensures
            final(self).wf(),
            final(self).ramfs == old(self).ramfs && final(self).builtin == old(self).builtin,
            ({
                let meta = old(self).meta_spec(inode, stats);
                if meta is Some && meta->Some_0.file_type == FileType::Directory {
                    r == Err::<usize, u32>(EISDIR) && final(dst)@ == old(dst)@
                } else if inode.fs == FileSystemId::Devfs {
                    final(self).procfs == old(self).procfs
                        && ((inode.ino == devfs::DEV_NULL_INO || inode.ino == devfs::DEV_CONSOLE_INO || inode.ino == devfs::DEV_TTY_INO) ==> r == Ok::<usize, u32>(0) && final(dst)@ == old(dst)@)
                        && (inode.ino == devfs::DEV_ZERO_INO ==> r == Ok::<usize, u32>(old(dst)@.len() as usize) && final(dst)@ == Seq::new(old(dst)@.len(), |k: int| 0u8))
                        && (inode.ino == devfs::DEV_URANDOM_INO ==> r == Ok::<usize, u32>(old(dst)@.len() as usize)
                            && final(dst)@ == devfs::random_bytes(old(self).devfs.urandom_state ^ entropy, old(dst)@.len()))
                        && (!devfs::dev_node(inode.ino) ==> r == Err::<usize, u32>(EINVAL))
                } else {
                    match final(self).view_spec(inode) {
                        None => r == Err::<usize, u32>(ENOENT) && final(dst)@ == old(dst)@,
                        Some(data) => {
                            let got = read_spec(data, offset as int, old(dst)@.len() as int);
                            &&& r == Ok::<usize, u32>(got.len() as usize)
                            &&& final(dst)@ == got + old(dst)@.skip(got.len() as int)
                        },
                    }
                }
            }),
    {
        let is_dir = match self.metadata(inode, stats) {
            Some(m) => m.file_type == FileType::Directory,
            None => false,
        };
        if is_dir {
            return Err(EISDIR);
        }
        if inode.fs == FileSystemId::Devfs {
            return self.devfs.read(inode, offset, dst, entropy);
        }
        if inode.fs == FileSystemId::Procfs && inode.ino == procfs::MEMINFO_INO {
            self.procfs.render(stats);
        }
        let data = match self.view(inode) {
            Some(d) => d,
            None => {
                return Err(ENOENT);
            },
        };
        let n = data.len();
        let start = if offset < n { offset } else { n };
        let count = if n - start < dst.len() { n - start } else { dst.len() };
        let ghost d0 = dst@;
        let mut i: usize = 0;
        while i < count
            invariant
                i <= count,
                n == data@.len(),
                start + count <= n,
                count <= dst@.len(),
                dst@.len() == d0.len(),
                forall|k: int| 0 <= k < i ==> #[trigger] dst@[k] == data@[start + k],
                forall|k: int| i <= k < d0.len() ==> #[trigger] dst@[k] == d0[k],
            decreases count - i,
        {
            dst[i] = data[start + i];
            i += 1;
        }
        assert(dst@ =~= data@.subrange(start as int, start + count) + d0.skip(count as int));
        Ok(count)
    }

    /// Writes into a ramfs file, or to a device; the rest is read-only.
    pub fn write(&mut self, inode: InodeRef, offset: usize, src: &[u8], out: &mut Vec<u8>) -> (r: Result<usize, u32>)
        requires
            old(self).wf(),
        ensures
            final(self).wf(),
            final(self).others_same(old(self)),
            final(self).ramfs.regular_count == old(self).ramfs.regular_count,
            inode.fs == FileSystemId::Ramfs ==> ramfs::write_spec(old(self).ramfs, final(self).ramfs, inode, offset, src@, r)
                && final(out)@ == old(out)@,
            inode.fs == FileSystemId::Devfs ==> final(self).ramfs == old(self).ramfs
                && (inode.ino == devfs::DEV_NULL_INO ==> r == Ok::<usize, u32>(src@.len() as usize) && final(out)@ == old(out)@)
                && ((inode.ino == devfs::DEV_CONSOLE_INO || inode.ino == devfs::DEV_TTY_INO) ==> r == Ok::<usize, u32>(src@.len() as usize)
                    && final(out)@ == old(out)@ + devfs::crlf(src@))
                && (!(inode.ino == devfs::DEV_NULL_INO || inode.ino == devfs::DEV_CONSOLE_INO || inode.ino == devfs::DEV_TTY_INO) ==> r == Err::<usize, u32>(EINVAL)),
            (inode.fs != FileSystemId::Ramfs && inode.fs != FileSystemId::Devfs) ==> r == Err::<usize, u32>(EROFS)
                && final(self).ramfs == old(self).ramfs && final(out)@ == old(out)@,
    {
        match inode.fs {
            FileSystemId::Ramfs => self.ramfs.write(inode, offset, src),
            FileSystemId::Devfs => devfs::write(inode, offset, src, out),
            _ => Err(EROFS),
        }
    }

    pub fn truncate(&mut self, inode: InodeRef, size: usize) -> (r: Result<(), u32>)
        requires
            old(self).wf(),
        ensures
            final(self).wf(),
            final(self).others_same(old(self)),
            inode.fs == FileSystemId::Ramfs ==> ramfs::truncate_spec(old(self).ramfs, final(self).ramfs, inode, size, r)
                && final(self).ramfs.regular_count == old(self).ramfs.regular_count,
            inode.fs == FileSystemId::Devfs ==> r == Err::<(), u32>(EINVAL) && final(self).ramfs == old(self).ramfs,
            (inode.fs != FileSystemId::Ramfs && inode.fs != FileSystemId::Devfs) ==> r == Err::<(), u32>(EROFS) && final(self).ramfs == old(self).ramfs,
    {
        match inode.fs {
            FileSystemId::Ramfs => self.ramfs.truncate(inode, size),
            FileSystemId::Devfs => Err(EINVAL),
            _ => Err(EROFS),
        }
    }

    pub fn create_file(&mut self, path: &[u8], mode: u16) -> (r: Result<InodeRef, u32>)
        requires
            old(self).wf(),
        ensures
            final(self).wf(),
            final(self).others_same(old(self)),
            ramfs::create_spec(old(self).ramfs, final(self).ramfs, path@, FileType::Regular, mode, true, r),
    {
        self.ramfs.create_node(path, FileType::Regular, mode, true)
    }

    pub fn mkdir(&mut self, path: &[u8], mode: u16) -> (r: Result<InodeRef, u32>)
        requires
            old(self).wf(),
        ensures
            final(self).wf(),
            final(self).others_same(old(self)),
            ramfs::create_spec(old(self).ramfs, final(self).ramfs, path@, FileType::Directory, mode, false, r),
    {
        self.ramfs.create_node(path, FileType::Directory, mode, false)
    }

    pub fn unlink(&mut self, path: &[u8]) -> (r: Result<(), u32>)
        requires
            old(self).wf(),
        ensures
            final(self).wf(),
            final(self).others_same(old(self)),
            ramfs::unlink_spec(old(self).ramfs, final(self).ramfs, path@, r),
    {
        self.ramfs.unlink(path)
    }

    pub fn link(&mut self, old_path: &[u8], new_path: &[u8]) -> (r: Result<(), u32>)
        requires
            old(self).wf(),
        ensures
            final(self).wf(),
            final(self).others_same(old(self)),
            final(self).ramfs.regular_count == old(self).ramfs.regular_count,
            ramfs::link_spec(old(self).ramfs, final(self).ramfs, old_path@, new_path@, r),
    {
        self.ramfs.link(old_path, new_path)
    }

    pub fn rename(&mut self, old_path: &[u8], new_path: &[u8]) -> (r: Result<(), u32>)
        requires
            old(self).wf(),
        ensures
            final(self).wf(),
            final(self).others_same(old(self)),
            ramfs::rename_spec(old(self).ramfs, final(self).ramfs, old_path@, new_path@, r),
    {
        self.ramfs.rename(old_path, new_path)
    }

    /// The bytes of `inode`, as `open` shows them.
    pub fn file_data(&self, inode: InodeRef) -> (r: Option<&[u8]>)
        requires
            self.wf(),
        ensures
            match self.view_spec(inode) {
                Some(d) => r matches Some(x) && x@ == d,
                None => r is None,
            },
    {
        self.view(inode)
    }

    /// The name `open` shows for `inode`.
    pub fn file_name(&self, inode: InodeRef) -> (r: Option<&str>)
        requires
            self.wf(),
        ensures
            r is Some <==> self.view_spec(inode) is Some,
    {
        match inode.fs {
            FileSystemId::Initrd => match initrd::open(self.builtin, inode) {
                Some(v) => Some(v.name),
                None => None,
            },
            FileSystemId::Ramfs => match self.ramfs.open(inode) {
                Some(v) => Some(v.name),
                None => None,
            },
            FileSystemId::Devfs => match devfs::open(inode) {
                Some(v) => Some(v.name),
                None => None,
            },
            FileSystemId::Procfs => match self.procfs.open(inode) {
                Some(v) => Some(v.name),
                None => None,
            },
            FileSystemId::Ext4 => None,
        }
    }

    /// Copies the target of link `inode` into `dst`: `ENOENT` when it does
    /// not exist, `EINVAL` when it is no link.
    pub fn readlink_inode(&self, inode: InodeRef, dst: &mut [u8], stats: MemStats) -> (r: Result<usize, u32>)
        requires
            self.wf(),
        ensures
            match self.meta_spec(inode, stats) {
                None => r == Err::<usize, u32>(ENOENT) && final(dst)@ == old(dst)@,
                Some(m) => if m.file_type != FileType::Symlink {
                    r == Err::<usize, u32>(EINVAL) && final(dst)@ == old(dst)@
                } else {
                    match self.view_spec(inode) {
                        None => r == Err::<usize, u32>(ENOENT) && final(dst)@ == old(dst)@,
                        Some(d) => {
                            let got = read_spec(d, 0, old(dst)@.len() as int);
                            &&& r == Ok::<usize, u32>(got.len() as usize)
                            &&& final(dst)@ == got + old(dst)@.skip(got.len() as int)
                        },
                    }
                },
            },
    {
        let meta = match self.metadata(inode, stats) {
            Some(m) => m,
            None => {
                return Err(ENOENT);
            },
        };
        if meta.file_type != FileType::Symlink {
            return Err(EINVAL);
        }
        let data = match self.view(inode) {
            Some(d) => d,
            None => {
                return Err(ENOENT);
            },
        };
        let count = if data.len() < dst.len() { data.len() } else { dst.len() };
        let ghost d0 = dst@;
        let mut i: usize = 0;
        while i < count
            invariant
                i <= count,
                count <= data@.len(),
                count <= dst@.len(),
                dst@.len() == d0.len(),
                forall|k: int| 0 <= k < i ==> #[trigger] dst@[k] == data@[k],
                forall|k: int| i <= k < d0.len() ==> #[trigger] dst@[k] == d0[k],
            decreases count - i,
        {
            dst[i] = data[i];
            i += 1;
        }
        assert(dst@ =~= data@.subrange(0, count as int) + d0.skip(count as int));
        Ok(count)
    }

    /// The target of the link at `path`.
    pub fn readlink(&self, path: &[u8], dst: &mut [u8], stats: MemStats) -> (r: Result<usize, u32>)
        requires
            self.wf(),
        ensures
            self.nofollow_spec(path@) matches Err(e) ==> r == Err::<usize, u32>(e) && final(dst)@ == old(dst)@,
            self.nofollow_spec(path@) matches Ok(i) ==> match self.meta_spec(i, stats) {
                None => r == Err::<usize, u32>(ENOENT),
                Some(m) => if m.file_type != FileType::Symlink {
                    r == Err::<usize, u32>(EINVAL)
                } else {
                    match self.view_spec(i) {
                        None => r == Err::<usize, u32>(ENOENT),
                        Some(d) => r == Ok::<usize, u32>(read_spec(d, 0, old(dst)@.len() as int).len() as usize)
                            && final(dst)@ == read_spec(d, 0, old(dst)@.len() as int) + old(dst)@.skip(read_spec(d, 0, old(dst)@.len() as int).len() as int),
                    }
                },
            },
    {
        let inode = match self.lookup_nofollow(path) {
            Ok(i) => i,
            Err(e) => {
                return Err(e);
            },
        };
        self.readlink_inode(inode, dst, stats)
    }

    /// Lists directory `inode` into `dst` from entry `offset` on.
    pub fn read_dir(&self, inode: InodeRef, offset: usize, dst: &mut [DirEntry]) -> (r: Result<usize, u32>)
        requires
            self.wf(),
        ensures
            inode.fs == FileSystemId::Ext4 ==> r == Err::<usize, u32>(ENOENT) && final(dst)@ == old(dst)@,
            r is Ok ==> r->Ok_0 <= old(dst)@.len(),
            final(dst)@.len() == old(dst)@.len(),
    {
        match inode.fs {
            FileSystemId::Ramfs => self.ramfs.read_dir(inode, offset, dst),
            FileSystemId::Initrd => initrd::read_dir(self.builtin, inode, offset, dst),
            FileSystemId::Devfs => devfs::read_dir(inode, offset, dst),
            FileSystemId::Procfs => procfs::read_dir(inode, offset, dst),
            FileSystemId::Ext4 => Err(ENOENT),
        }
    }

    /// The files the initrd provides: the regular files unpacked into the
    /// ramfs and the built-in ones.
    pub fn mounted_files(&self) -> (r: usize)
        ensures
            r == (if self.initrd_external { self.ramfs.regular_count } else { 0usize }).wrapping_add(
                if self.initrd_builtin { self.builtin@.len() as usize } else { 0usize }),
    {
        let mut files: usize = 0;
        if self.initrd_external {
            files = self.ramfs.regular_count();
        }
        if self.initrd_builtin {
            files = files.wrapping_add(initrd::file_count(self.builtin));
        }
        files
    }

    pub fn external_files(&self) -> (r: usize)
        ensures
            r == if self.initrd_external { self.ramfs.regular_count } else { 0usize },
    {
        if self.initrd_external {
            self.ramfs.regular_count()
        } else {
            0
        }
    }

    pub fn builtin_files(&self) -> (r: usize)
        ensures
            r == if self.initrd_builtin { self.builtin@.len() as usize } else { 0usize },
    {
        if self.initrd_builtin {
            initrd::file_count(self.builtin)
        } else {
            0
        }
    }
}

proof fn lemma_stripped_len(path: Seq<u8>)
    ensures
        stripped(path).len() <= path.len(),
{
    lemma_nul_end_bounds(path);
}

} // verus!
