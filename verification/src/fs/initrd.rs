use vstd::prelude::*;
use vstd::string::StringSliceAdditionalSpecFns;

use crate::fs::ramfs::{bytes_equal, last_slash, lemma_last_slash, trim_nul};
use crate::fs::vfs::{entry_for, nul_end, DirEntry, FileSystemId, FileType, FileView, InodeRef, Metadata};
use crate::kernel::syscall::EINVAL;

verus! {

pub const ROOT_INO: usize = 0;
pub const FIRST_FILE_INO: usize = 1;

/// A file built into the kernel image.
#[derive(Clone, Copy, Debug)]
pub struct InitrdEntry<'a> {
    pub name: &'a str,
    pub data: &'a [u8],
    pub mode: u16,
}

pub open spec fn initrd_inode(ino: usize) -> InodeRef {
    InodeRef { fs: FileSystemId::Initrd, ino }
}

pub fn inode(ino: usize) -> (r: InodeRef)
    ensures
        r == initrd_inode(ino),
{
    InodeRef { fs: FileSystemId::Initrd, ino }
}

/// The files are few; their inode numbers follow their order.
pub open spec fn files_ok(files: Seq<InitrdEntry>) -> bool {
    files.len() + FIRST_FILE_INO <= usize::MAX
}

pub fn file_count(files: &[InitrdEntry]) -> (r: usize)
    ensures
        r == files@.len(),
{
    files.len()
}

/// The first file whose name is `path`.
pub open spec fn file_named_from(files: Seq<InitrdEntry>, path: Seq<u8>, k: int) -> Option<int>
    decreases files.len() - k,
{
    if k < 0 || k >= files.len() {
        None
    } else if files[k].name.spec_bytes() == path {
        Some(k)
    } else {
        file_named_from(files, path, k + 1)
    }
}

pub proof fn lemma_file_named_range(files: Seq<InitrdEntry>, path: Seq<u8>, k: int)
    ensures
        file_named_from(files, path, k) matches Some(i) ==> 0 <= k <= i < files.len(),
    decreases files.len() - k,
{
    if 0 <= k < files.len() {
        lemma_file_named_range(files, path, k + 1);
    }
}

/// `/` is the root; a file is found by its full name.
pub open spec fn lookup_spec(files: Seq<InitrdEntry>, path: Seq<u8>) -> Option<InodeRef> {
    let p = path.take(nul_end(path));
    if p == seq![0x2fu8] {
        Some(initrd_inode(ROOT_INO))
    } else {
        match file_named_from(files, p, 0) {
            Some(i) => Some(initrd_inode((FIRST_FILE_INO + i) as usize)),
            None => None,
        }
    }
}

pub fn lookup(files: &[InitrdEntry], path: &[u8]) -> (r: Option<InodeRef>)
    requires
        files_ok(files@),
    ensures
        r == lookup_spec(files@, path@),
{
    let p = trim_nul(path);
    if p.len() == 1 && p[0] == 0x2f {
        assert(p@ =~= seq![0x2fu8]);
        return Some(inode(ROOT_INO));
    }
    proof {
        if p@ == seq![0x2fu8] {
            assert(p@.len() == 1);
        }
        lemma_file_named_range(files@, p@, 0);
    }
    let mut k: usize = 0;
    while k < files.len()
        invariant
            k <= files@.len(),
            files_ok(files@),
            p@ == path@.take(nul_end(path@)),
            p@ != seq![0x2fu8],
            file_named_from(files@, p@, 0) == file_named_from(files@, p@, k as int),
        decreases files@.len() - k,
    {
        if bytes_equal(p, files[k].name.as_bytes()) {
            return Some(inode(FIRST_FILE_INO + k));
        }
        k += 1;
    }
    None
}

/// The file that inode number `ino` names.
pub open spec fn file_index(files: Seq<InitrdEntry>, ino: usize) -> Option<int> {
    if ino >= FIRST_FILE_INO && ino - FIRST_FILE_INO < files.len() {
        Some(ino - FIRST_FILE_INO)
    } else {
        None
    }
}

pub fn file_by_ino<'a>(files: &[InitrdEntry<'a>], ino: usize) -> (r: Option<InitrdEntry<'a>>)
    ensures
        match file_index(files@, ino) {
            Some(i) => r == Some(files@[i]),
            None => r is None,
        },
{
    if ino < FIRST_FILE_INO {
        return None;
    }
    let index = ino - FIRST_FILE_INO;
    if index < files.len() {
        Some(files[index])
    } else {
        None
    }
}

pub open spec fn meta_spec(files: Seq<InitrdEntry>, inode: InodeRef) -> Option<Metadata> {
    if inode.fs != FileSystemId::Initrd {
        None
    } else if inode.ino == ROOT_INO {
        Some(Metadata {
            inode,
            file_type: FileType::Directory,
            size: files.len() as usize,
            mode: 0o555,
            nlink: 2,
            uid: 0,
            gid: 0,
            atime: 0,
            mtime: 0,
            ctime: 0,
        })
    } else {
        match file_index(files, inode.ino) {
            None => None,
            Some(i) => Some(Metadata {
                inode,
                file_type: FileType::Regular,
                size: files[i].data@.len() as usize,
                mode: files[i].mode,
                nlink: 1,
                uid: 0,
                gid: 0,
                atime: 0,
                mtime: 0,
                ctime: 0,
            }),
        }
    }
}

pub fn metadata(files: &[InitrdEntry], inode: InodeRef) -> (r: Option<Metadata>)
    ensures
        r == meta_spec(files@, inode),
{
    if inode.fs != FileSystemId::Initrd {
        return None;
    }
    if inode.ino == ROOT_INO {
        return Some(Metadata::new(inode, FileType::Directory, files.len(), 0o555));
    }
    match file_by_ino(files, inode.ino) {
        Some(file) => Some(Metadata::new(inode, FileType::Regular, file.data.len(), file.mode)),
        None => None,
    }
}

pub fn open<'a>(files: &[InitrdEntry<'a>], inode: InodeRef) -> (r: Option<FileView<'a>>)
    ensures
        inode.fs != FileSystemId::Initrd ==> r is None,
        inode.fs == FileSystemId::Initrd ==> match file_index(files@, inode.ino) {
            Some(i) => r matches Some(v) && v.inode == inode && v.name == files@[i].name && v.data == files@[i].data,
            None => r is None,
        },
{
    if inode.fs != FileSystemId::Initrd {
        return None;
    }
    match file_by_ino(files, inode.ino) {
        Some(file) => Some(FileView { inode, name: file.name, data: file.data }),
        None => None,
    }
}

/// What follows the last `/` of a name.
pub open spec fn base_name(s: Seq<u8>) -> Seq<u8> {
    s.skip(last_slash(s) + 1)
}

pub fn trim_name(bytes: &[u8]) -> (r: &[u8])
    ensures
        r@ == base_name(bytes@),
{
    proof {
        lemma_last_slash(bytes@);
        assert(bytes@.take(bytes@.len() as int) =~= bytes@);
        assert(bytes@.skip(0) =~= bytes@);
    }
    let mut i: usize = bytes.len();
    while i > 0
        invariant
            i <= bytes@.len(),
            last_slash(bytes@) == last_slash(bytes@.take(i as int)),
        decreases i,
    {
        assert(bytes@.take(i as int).last() == bytes@[i - 1]);
        if bytes[i - 1] == 0x2f {
            let r = vstd::slice::slice_subrange(bytes, i, bytes.len());
            assert(r@ =~= bytes@.skip(i as int));
            return r;
        }
        assert(bytes@.take(i as int).drop_last() =~= bytes@.take(i - 1));
        i -= 1;
    }
    bytes
}

/// Lists the root: one entry per file, named by the last part of its name.
pub fn read_dir(files: &[InitrdEntry], inode: InodeRef, offset: usize, dst: &mut [DirEntry]) -> (r: Result<usize, u32>)
    requires
        files_ok(files@),
    ensures
        (inode.fs != FileSystemId::Initrd || inode.ino != ROOT_INO) ==> r == Err::<usize, u32>(EINVAL) && final(dst)@ == old(dst)@,
        (inode.fs == FileSystemId::Initrd && inode.ino == ROOT_INO) ==> {
            let avail = if files@.len() > offset { files@.len() - offset } else { 0 };
            let w = if avail < old(dst)@.len() { avail } else { old(dst)@.len() as int };
            &&& r == Ok::<usize, u32>(w as usize)
            &&& final(dst)@.len() == old(dst)@.len()
            &&& forall|k: int| 0 <= k < w ==> entry_for(#[trigger] final(dst)@[k], initrd_inode((FIRST_FILE_INO + offset + k) as usize), FileType::Regular, base_name(files@[offset + k].name.spec_bytes()))
            &&& forall|k: int| w <= k < old(dst)@.len() ==> #[trigger] final(dst)@[k] == old(dst)@[k]
        },
{
    if inode.fs != FileSystemId::Initrd || inode.ino != ROOT_INO {
        return Err(EINVAL);
    }
    let ghost d0 = dst@;
    let mut written: usize = 0;
    let mut index: usize = offset;
    while index < files.len() && written < dst.len()
        invariant
            files_ok(files@),
            dst@.len() == d0.len(),
            offset <= index,
            index <= files@.len() || written == 0,
            written == index - offset,
            written <= dst@.len(),
            forall|k: int| 0 <= k < written ==> entry_for(#[trigger] dst@[k], initrd_inode((FIRST_FILE_INO + offset + k) as usize), FileType::Regular, base_name(files@[offset + k].name.spec_bytes())),
            forall|k: int| written <= k < d0.len() ==> #[trigger] dst@[k] == d0[k],
        decreases files@.len() - index,
    {
        let file = files[index];
        dst[written] = DirEntry::new(self::inode(FIRST_FILE_INO + index), FileType::Regular, trim_name(file.name.as_bytes()));
        written += 1;
        index += 1;
    }
    Ok(written)
}

} // verus!
