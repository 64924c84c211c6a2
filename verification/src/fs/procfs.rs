use vstd::prelude::*;

use crate::fs::ramfs::{bytes_equal, normalize_path, normalized};
use crate::fs::vfs::{entry_for, DirEntry, FileSystemId, FileType, FileView, InodeRef, Metadata};
use crate::kernel::syscall::ENOENT;

verus! {

pub const ROOT_INO: usize = 0;
pub const MEMINFO_INO: usize = 1;
pub const MOUNTS_INO: usize = 2;
pub const SELF_INO: usize = 3;
pub const SELF_EXE_INO: usize = 4;
pub const MEMINFO_CAP: usize = 160;

pub open spec fn mounts_text() -> Seq<u8> {
    seq![0x72u8, 0x61, 0x6d, 0x66, 0x73, 0x20, 0x2f, 0x20, 0x72, 0x61, 0x6d, 0x66, 0x73, 0x20, 0x72, 0x77, 0x20, 0x30, 0x20, 0x30, 0xa, 0x69, 0x6e, 0x69, 0x74, 0x72, 0x64, 0x20, 0x2f, 0x69, 0x6e, 0x69, 0x74, 0x72, 0x64, 0x20, 0x69, 0x6e, 0x69, 0x74, 0x72, 0x64, 0x20, 0x72, 0x6f, 0x20, 0x30, 0x20, 0x30, 0xa, 0x64, 0x65, 0x76, 0x66, 0x73, 0x20, 0x2f, 0x64, 0x65, 0x76, 0x20, 0x64, 0x65, 0x76, 0x66, 0x73, 0x20, 0x72, 0x77, 0x20, 0x30, 0x20, 0x30, 0xa, 0x70, 0x72, 0x6f, 0x63, 0x66, 0x73, 0x20, 0x2f, 0x70, 0x72, 0x6f, 0x63, 0x20, 0x70, 0x72, 0x6f, 0x63, 0x66, 0x73, 0x20, 0x72, 0x6f, 0x20, 0x30, 0x20, 0x30, 0xa]
}

pub open spec fn exe_text() -> Seq<u8> {
    seq![0x2fu8, 0x62, 0x69, 0x6e, 0x2f, 0x69, 0x6e, 0x69, 0x74]
}

pub open spec fn label_total() -> Seq<u8> {
    seq![0x4du8, 0x65, 0x6d, 0x54, 0x6f, 0x74, 0x61, 0x6c, 0x50, 0x61, 0x67, 0x65, 0x73, 0x3a, 0x20]
}

pub open spec fn label_free() -> Seq<u8> {
    seq![0xau8, 0x4d, 0x65, 0x6d, 0x46, 0x72, 0x65, 0x65, 0x50, 0x61, 0x67, 0x65, 0x73, 0x3a, 0x20]
}

pub open spec fn label_reserved() -> Seq<u8> {
    seq![0xau8, 0x4d, 0x65, 0x6d, 0x52, 0x65, 0x73, 0x65, 0x72, 0x76, 0x65, 0x64, 0x50, 0x61, 0x67, 0x65, 0x73, 0x3a, 0x20]
}

pub open spec fn label_allocated() -> Seq<u8> {
    seq![0xau8, 0x4d, 0x65, 0x6d, 0x41, 0x6c, 0x6c, 0x6f, 0x63, 0x61, 0x74, 0x65, 0x64, 0x50, 0x61, 0x67, 0x65, 0x73, 0x3a, 0x20]
}

pub open spec fn meminfo_name() -> Seq<u8> {
    seq![0x6du8, 0x65, 0x6d, 0x69, 0x6e, 0x66, 0x6f]
}

pub open spec fn mounts_name() -> Seq<u8> {
    seq![0x6du8, 0x6f, 0x75, 0x6e, 0x74, 0x73]
}

pub open spec fn self_name() -> Seq<u8> {
    seq![0x73u8, 0x65, 0x6c, 0x66]
}

pub open spec fn exe_name() -> Seq<u8> {
    seq![0x65u8, 0x78, 0x65]
}

/// The page counts that `/proc/meminfo` reports.
#[derive(Clone, Copy, PartialEq, Eq, Structural, Debug)]
pub struct MemStats {
    pub total: usize,
    pub free: usize,
    pub reserved: usize,
    pub allocated: usize,
}

/// The decimal digits of `v`, most significant first.
pub open spec fn decimal(v: nat) -> Seq<u8>
    decreases v,
{
    if v < 10 {
        seq![(0x30 + v) as u8]
    } else {
        decimal(v / 10).push((0x30 + v % 10) as u8)
    }
}

/// The text of `/proc/meminfo`, cut to its buffer of `MEMINFO_CAP` bytes.
pub open spec fn meminfo_full(s: MemStats) -> Seq<u8> {
    label_total() + decimal(s.total as nat) + label_free() + decimal(s.free as nat) + label_reserved()
        + decimal(s.reserved as nat) + label_allocated() + decimal(s.allocated as nat) + seq![0x0au8]
}

pub open spec fn capped(s: Seq<u8>) -> Seq<u8> {
    if s.len() <= MEMINFO_CAP { s } else { s.take(MEMINFO_CAP as int) }
}

pub open spec fn meminfo_text(s: MemStats) -> Seq<u8> {
    capped(meminfo_full(s))
}

/// Appends what fits of `bytes` to `out`, whose room is `MEMINFO_CAP`.
fn write_bytes(out: &mut Vec<u8>, bytes: &[u8])
    requires
        old(out)@.len() <= MEMINFO_CAP,
    ensures
        final(out)@.len() <= MEMINFO_CAP,
        forall|w: Seq<u8>| old(out)@ == capped(w) ==> final(out)@ == capped(w + bytes@),
{
    let ghost o = out@;
    let room = MEMINFO_CAP - out.len();
    let count = if bytes.len() < room { bytes.len() } else { room };
    let mut i: usize = 0;
    while i < count
        invariant
            i <= count <= bytes@.len(),
            count <= room,
            room == MEMINFO_CAP - o.len(),
            out@ == o + bytes@.take(i as int),
        decreases count - i,
    {
        out.push(bytes[i]);
        assert(out@ =~= o + bytes@.take(i + 1));
        i += 1;
    }
    assert forall|w: Seq<u8>| o == capped(w) implies out@ == capped(w + bytes@) by {
        if w.len() <= MEMINFO_CAP {
            assert(out@ =~= capped(w + bytes@));
        } else {
            assert(count == 0);
            assert(capped(w + bytes@) =~= capped(w));
            assert(out@ =~= o);
        }
    }
}

/// Appends the decimal digits of `value`, as far as they fit.
fn write_usize(out: &mut Vec<u8>, value: usize)
    requires
        old(out)@.len() <= MEMINFO_CAP,
    ensures
        final(out)@.len() <= MEMINFO_CAP,
        forall|w: Seq<u8>| old(out)@ == capped(w) ==> final(out)@ == capped(w + decimal(value as nat)),
{
    let mut digits: Vec<u8> = Vec::new();
    let mut v = value;
    if v == 0 {
        digits.push(0x30);
        assert(digits@ =~= decimal(0));
    } else {
        let mut rev: Vec<u8> = Vec::new();
        while v != 0
            invariant
                v <= value,
                value != 0,
                decimal(value as nat) == (if v == 0 { Seq::<u8>::empty() } else { decimal(v as nat) }) + rev@.reverse(),
            decreases v,
        {
            let d = (0x30 + v % 10) as u8;
            proof {
                if v >= 10 {
                    assert(decimal(v as nat) == decimal((v / 10) as nat).push(d));
                    assert(decimal((v / 10) as nat).push(d) + rev@.reverse() =~= decimal((v / 10) as nat) + rev@.push(d).reverse());
                } else {
                    assert(decimal(v as nat) == seq![d]);
                    assert(seq![d] + rev@.reverse() =~= Seq::<u8>::empty() + rev@.push(d).reverse());
                }
            }
            rev.push(d);
            v = v / 10;
        }
        let mut k: usize = rev.len();
        while k > 0
            invariant
                k <= rev@.len(),
                digits@ == rev@.skip(k as int).reverse(),
            decreases k,
        {
            k -= 1;
            digits.push(rev[k]);
            assert(digits@ =~= rev@.skip(k as int).reverse());
        }
        assert(rev@.skip(0) =~= rev@);
        assert(digits@ =~= decimal(value as nat));
    }
    write_bytes(out, digits.as_slice());
}

fn bytes_vec(which: u8) -> (r: Vec<u8>)
    ensures
        which == 0 ==> r@ == label_total(),
        which == 1 ==> r@ == label_free(),
        which == 2 ==> r@ == label_reserved(),
        which == 3 ==> r@ == label_allocated(),
        which == 4 ==> r@ == mounts_text(),
        which == 5 ==> r@ == exe_text(),
        which == 6 ==> r@ == meminfo_name(),
        which == 7 ==> r@ == mounts_name(),
        which == 8 ==> r@ == self_name(),
        which >= 9 ==> r@ == exe_name(),
{
    let r = if which == 0 {
        vec![0x4du8, 0x65, 0x6d, 0x54, 0x6f, 0x74, 0x61, 0x6c, 0x50, 0x61, 0x67, 0x65, 0x73, 0x3a, 0x20]
    } else if which == 1 {
        vec![0xau8, 0x4d, 0x65, 0x6d, 0x46, 0x72, 0x65, 0x65, 0x50, 0x61, 0x67, 0x65, 0x73, 0x3a, 0x20]
    } else if which == 2 {
        vec![0xau8, 0x4d, 0x65, 0x6d, 0x52, 0x65, 0x73, 0x65, 0x72, 0x76, 0x65, 0x64, 0x50, 0x61, 0x67, 0x65, 0x73, 0x3a, 0x20]
    } else if which == 3 {
        vec![0xau8, 0x4d, 0x65, 0x6d, 0x41, 0x6c, 0x6c, 0x6f, 0x63, 0x61, 0x74, 0x65, 0x64, 0x50, 0x61, 0x67, 0x65, 0x73, 0x3a, 0x20]
    } else if which == 4 {
        vec![0x72u8, 0x61, 0x6d, 0x66, 0x73, 0x20, 0x2f, 0x20, 0x72, 0x61, 0x6d, 0x66, 0x73, 0x20, 0x72, 0x77, 0x20, 0x30, 0x20, 0x30, 0xa, 0x69, 0x6e, 0x69, 0x74, 0x72, 0x64, 0x20, 0x2f, 0x69, 0x6e, 0x69, 0x74, 0x72, 0x64, 0x20, 0x69, 0x6e, 0x69, 0x74, 0x72, 0x64, 0x20, 0x72, 0x6f, 0x20, 0x30, 0x20, 0x30, 0xa, 0x64, 0x65, 0x76, 0x66, 0x73, 0x20, 0x2f, 0x64, 0x65, 0x76, 0x20, 0x64, 0x65, 0x76, 0x66, 0x73, 0x20, 0x72, 0x77, 0x20, 0x30, 0x20, 0x30, 0xa, 0x70, 0x72, 0x6f, 0x63, 0x66, 0x73, 0x20, 0x2f, 0x70, 0x72, 0x6f, 0x63, 0x20, 0x70, 0x72, 0x6f, 0x63, 0x66, 0x73, 0x20, 0x72, 0x6f, 0x20, 0x30, 0x20, 0x30, 0xa]
    } else if which == 5 {
        vec![0x2fu8, 0x62, 0x69, 0x6e, 0x2f, 0x69, 0x6e, 0x69, 0x74]
    } else if which == 6 {
        vec![0x6du8, 0x65, 0x6d, 0x69, 0x6e, 0x66, 0x6f]
    } else if which == 7 {
        vec![0x6du8, 0x6f, 0x75, 0x6e, 0x74, 0x73]
    } else if which == 8 {
        vec![0x73u8, 0x65, 0x6c, 0x66]
    } else {
        vec![0x65u8, 0x78, 0x65]
    };
    proof {
        if which == 0 { assert(r@ =~= label_total()); }
        if which == 1 { assert(r@ =~= label_free()); }
        if which == 2 { assert(r@ =~= label_reserved()); }
        if which == 3 { assert(r@ =~= label_allocated()); }
        if which == 4 { assert(r@ =~= mounts_text()); }
        if which == 5 { assert(r@ =~= exe_text()); }
        if which == 6 { assert(r@ =~= meminfo_name()); }
        if which == 7 { assert(r@ =~= mounts_name()); }
        if which == 8 { assert(r@ =~= self_name()); }
        if which >= 9 { assert(r@ =~= exe_name()); }
    }
    r
}

/// Renders `/proc/meminfo` for the page counts `stats`.
pub fn write_meminfo(stats: MemStats) -> (r: Vec<u8>)
    ensures
        r@ == meminfo_text(stats),
{
    let mut out: Vec<u8> = Vec::new();
    let ghost w0 = Seq::<u8>::empty();
    assert(out@ == capped(w0));
    write_bytes(&mut out, bytes_vec(0).as_slice());
    write_usize(&mut out, stats.total);
    write_bytes(&mut out, bytes_vec(1).as_slice());
    write_usize(&mut out, stats.free);
    write_bytes(&mut out, bytes_vec(2).as_slice());
    write_usize(&mut out, stats.reserved);
    write_bytes(&mut out, bytes_vec(3).as_slice());
    write_usize(&mut out, stats.allocated);
    let nl: [u8; 1] = [0x0a];
    write_bytes(&mut out, &nl);
    proof {
        let t = label_total();
        assert(Seq::<u8>::empty() + t =~= t);
        assert(nl@ =~= seq![0x0au8]);
    }
    out
}

pub open spec fn proc_inode(ino: usize) -> InodeRef {
    InodeRef { fs: FileSystemId::Procfs, ino }
}

fn inode(ino: usize) -> (r: InodeRef)
    ensures
        r == proc_inode(ino),
{
    InodeRef { fs: FileSystemId::Procfs, ino }
}

pub open spec fn proc_prefix() -> Seq<u8> {
    seq![0x70u8, 0x72, 0x6f, 0x63, 0x2f]
}

pub open spec fn self_prefix() -> Seq<u8> {
    self_name().push(0x2f)
}

/// `proc` is the directory; under it `meminfo`, `mounts`, `self` and
/// `self/exe`.
pub open spec fn lookup_spec(path: Seq<u8>) -> Option<InodeRef> {
    let p = normalized(path);
    if p == proc_prefix().take(4) || p == proc_prefix() {
        Some(proc_inode(ROOT_INO))
    } else if !(p.len() >= 5 && p.take(5) == proc_prefix()) {
        None
    } else {
        let name = p.skip(5);
        if name == self_name() || name == self_prefix() {
            Some(proc_inode(SELF_INO))
        } else if name.len() >= 5 && name.take(5) == self_prefix() {
            if name.skip(5) == exe_name() { Some(proc_inode(SELF_EXE_INO)) } else { None }
        } else if name == meminfo_name() {
            Some(proc_inode(MEMINFO_INO))
        } else if name == mounts_name() {
            Some(proc_inode(MOUNTS_INO))
        } else {
            None
        }
    }
}

/// Whether `s` starts with `prefix`.
fn starts_with(s: &[u8], prefix: &[u8]) -> (r: bool)
    ensures
        r == (s@.len() >= prefix@.len() && s@.take(prefix@.len() as int) == prefix@),
{
    if s.len() < prefix.len() {
        return false;
    }
    let head = vstd::slice::slice_subrange(s, 0, prefix.len());
    assert(head@ =~= s@.take(prefix@.len() as int));
    bytes_equal(head, prefix)
}

pub fn lookup(path: &[u8]) -> (r: Option<InodeRef>)
    ensures
        r == lookup_spec(path@),
{
    let p = normalize_path(path);
    let proc_dir: [u8; 5] = [0x70, 0x72, 0x6f, 0x63, 0x2f];
    assert(proc_dir@ =~= proc_prefix());
    let proc_word = vstd::slice::slice_subrange(&proc_dir, 0, 4);
    assert(proc_word@ =~= proc_prefix().take(4));
    if bytes_equal(p, proc_word) || bytes_equal(p, &proc_dir) {
        return Some(inode(ROOT_INO));
    }
    if !starts_with(p, &proc_dir) {
        return None;
    }
    let name = vstd::slice::slice_subrange(p, 5, p.len());
    assert(name@ =~= p@.skip(5));
    let self_word = bytes_vec(8);
    let mut self_dir = bytes_vec(8);
    self_dir.push(0x2f);
    if bytes_equal(name, self_word.as_slice()) || bytes_equal(name, self_dir.as_slice()) {
        return Some(inode(SELF_INO));
    }
    if starts_with(name, self_dir.as_slice()) {
        let rest = vstd::slice::slice_subrange(name, 5, name.len());
        assert(rest@ =~= name@.skip(5));
        let exe = bytes_vec(9);
        if bytes_equal(rest, exe.as_slice()) {
            return Some(inode(SELF_EXE_INO));
        }
        return None;
    }
    let meminfo = bytes_vec(6);
    if bytes_equal(name, meminfo.as_slice()) {
        return Some(inode(MEMINFO_INO));
    }
    let mounts = bytes_vec(7);
    if bytes_equal(name, mounts.as_slice()) {
        return Some(inode(MOUNTS_INO));
    }
    None
}

/// The proc file system: the last rendered `/proc/meminfo` and the fixed
/// texts of `/proc/mounts` and `/proc/self/exe`.
pub struct ProcFs {
    pub meminfo: Vec<u8>,
    pub mounts: Vec<u8>,
    pub exe: Vec<u8>,
}

impl ProcFs {
    pub open spec fn wf(&self) -> bool {
        self.mounts@ == mounts_text() && self.exe@ == exe_text()
    }

    pub fn new() -> (r: Self)
        ensures
            r.wf(),
            r.meminfo@.len() == 0,
    {
        ProcFs { meminfo: Vec::new(), mounts: bytes_vec(4), exe: bytes_vec(5) }
    }

    /// Renders `/proc/meminfo` anew.
    pub fn render(&mut self, stats: MemStats)
        requires
            old(self).wf(),
        ensures
            final(self).wf(),
            final(self).meminfo@ == meminfo_text(stats),
    {
        self.meminfo = write_meminfo(stats);
    }

    pub open spec fn meta_spec(inode: InodeRef, stats: MemStats) -> Option<Metadata> {
        if inode.fs != FileSystemId::Procfs {
            None
        } else if inode.ino == ROOT_INO || inode.ino == SELF_INO {
            Some(Metadata { inode, file_type: FileType::Directory, size: if inode.ino == ROOT_INO { 3 } else { 1 }, mode: 0o555, nlink: 2, uid: 0, gid: 0, atime: 0, mtime: 0, ctime: 0 })
        } else if inode.ino == MEMINFO_INO || inode.ino == MOUNTS_INO || inode.ino == SELF_EXE_INO {
            let size = if inode.ino == MEMINFO_INO {
                meminfo_text(stats).len()
            } else if inode.ino == MOUNTS_INO {
                mounts_text().len()
            } else {
                exe_text().len()
            };
            Some(Metadata {
                inode,
                file_type: if inode.ino == SELF_EXE_INO { FileType::Symlink } else { FileType::Regular },
                size: size as usize,
                mode: 0o444,
                nlink: 1,
                uid: 0,
                gid: 0,
                atime: 0,
                mtime: 0,
                ctime: 0,
            })
        } else {
            None
        }
    }

    /// The metadata of `inode`; the size of `/proc/meminfo` is that of its
    /// rendering for `stats`.
    pub fn metadata(&self, inode: InodeRef, stats: MemStats) -> (r: Option<Metadata>)
        requires
            self.wf(),
        ensures
            r == ProcFs::meta_spec(inode, stats),
    {
        if inode.fs != FileSystemId::Procfs {
            return None;
        }
        if inode.ino == ROOT_INO {
            return Some(Metadata::new(inode, FileType::Directory, 3, 0o555));
        }
        if inode.ino == SELF_INO {
            return Some(Metadata::new(inode, FileType::Directory, 1, 0o555));
        }
        let size = if inode.ino == MEMINFO_INO {
            write_meminfo(stats).len()
        } else if inode.ino == MOUNTS_INO {
            self.mounts.len()
        } else if inode.ino == SELF_EXE_INO {
            self.exe.len()
        } else {
            return None;
        };
        let file_type = if inode.ino == SELF_EXE_INO { FileType::Symlink } else { FileType::Regular };
        Some(Metadata::new(inode, file_type, size, 0o444))
    }

    /// The files' names and bytes; `/proc/meminfo` shows its last
    /// rendering.
    pub fn open(&self, inode: InodeRef) -> (r: Option<FileView<'_>>)
        requires
            self.wf(),
        ensures
            (inode.fs == FileSystemId::Procfs && inode.ino == MEMINFO_INO) ==> (r matches Some(v) && v.inode == inode && v.data@ == self.meminfo@),
            (inode.fs == FileSystemId::Procfs && inode.ino == MOUNTS_INO) ==> (r matches Some(v) && v.inode == inode && v.data@ == mounts_text()),
            (inode.fs == FileSystemId::Procfs && inode.ino == SELF_EXE_INO) ==> (r matches Some(v) && v.inode == inode && v.data@ == exe_text()),
            !(inode.fs == FileSystemId::Procfs && (inode.ino == MEMINFO_INO || inode.ino == MOUNTS_INO || inode.ino == SELF_EXE_INO)) ==> r is None,
    {
        if inode.fs != FileSystemId::Procfs {
            return None;
        }
        if inode.ino == MEMINFO_INO {
            Some(FileView { inode, name: "meminfo", data: self.meminfo.as_slice() })
        } else if inode.ino == MOUNTS_INO {
            Some(FileView { inode, name: "mounts", data: self.mounts.as_slice() })
        } else if inode.ino == SELF_EXE_INO {
            Some(FileView { inode, name: "exe", data: self.exe.as_slice() })
        } else {
            None
        }
    }
}

/// The entries of directory `ino`: its inode number, type and name.
pub open spec fn dir_nodes(ino: usize) -> Seq<(usize, FileType, Seq<u8>)> {
    if ino == ROOT_INO {
        seq![(MEMINFO_INO, FileType::Regular, meminfo_name()), (MOUNTS_INO, FileType::Regular, mounts_name()), (SELF_INO, FileType::Directory, self_name())]
    } else {
        seq![(SELF_EXE_INO, FileType::Symlink, exe_name())]
    }
}

fn dir_node(dir: usize, k: usize) -> (r: (usize, FileType, Vec<u8>))
    requires
        k < dir_nodes(dir).len(),
    ensures
        r.0 == dir_nodes(dir)[k as int].0 && r.1 == dir_nodes(dir)[k as int].1 && r.2@ == dir_nodes(dir)[k as int].2,
{
    if dir == ROOT_INO {
        if k == 0 {
            (MEMINFO_INO, FileType::Regular, bytes_vec(6))
        } else if k == 1 {
            (MOUNTS_INO, FileType::Regular, bytes_vec(7))
        } else {
            (SELF_INO, FileType::Directory, bytes_vec(8))
        }
    } else {
        (SELF_EXE_INO, FileType::Symlink, bytes_vec(9))
    }
}

/// Lists `/proc` or `/proc/self` from entry `offset` on.
pub fn read_dir(inode: InodeRef, offset: usize, dst: &mut [DirEntry]) -> (r: Result<usize, u32>)
    ensures
        (inode.fs != FileSystemId::Procfs || (inode.ino != ROOT_INO && inode.ino != SELF_INO)) ==> r == Err::<usize, u32>(ENOENT) && final(dst)@ == old(dst)@,
        (inode.fs == FileSystemId::Procfs && (inode.ino == ROOT_INO || inode.ino == SELF_INO)) ==> {
            let nodes = dir_nodes(inode.ino);
            let avail = if nodes.len() > offset { nodes.len() - offset } else { 0 };
            let w = if avail < old(dst)@.len() { avail } else { old(dst)@.len() as int };
            &&& r == Ok::<usize, u32>(w as usize)
            &&& final(dst)@.len() == old(dst)@.len()
            &&& forall|k: int| 0 <= k < w ==> entry_for(#[trigger] final(dst)@[k], proc_inode(nodes[offset + k].0), nodes[offset + k].1, nodes[offset + k].2)
            &&& forall|k: int| w <= k < old(dst)@.len() ==> #[trigger] final(dst)@[k] == old(dst)@[k]
        },
{
    if inode.fs != FileSystemId::Procfs || (inode.ino != ROOT_INO && inode.ino != SELF_INO) {
        return Err(ENOENT);
    }
    let dir = inode.ino;
    let count: usize = if dir == ROOT_INO { 3 } else { 1 };
    let ghost d0 = dst@;
    let ghost nodes = dir_nodes(dir);
    let mut written: usize = 0;
    let mut index: usize = offset;
    while index < count && written < dst.len()
        invariant
            count == nodes.len(),
            nodes == dir_nodes(dir),
            dst@.len() == d0.len(),
            offset <= index,
            index <= count || index == offset,
            written == index - offset,
            written <= dst@.len(),
            forall|k: int| 0 <= k < written ==> entry_for(#[trigger] dst@[k], proc_inode(nodes[offset + k].0), nodes[offset + k].1, nodes[offset + k].2),
            forall|k: int| written <= k < d0.len() ==> #[trigger] dst@[k] == d0[k],
        decreases count - index,
    {
        let (ino, file_type, name) = dir_node(dir, index);
        dst[written] = DirEntry::new(self::inode(ino), file_type, name.as_slice());
        written += 1;
        index += 1;
    }
    Ok(written)
}

} // verus!
