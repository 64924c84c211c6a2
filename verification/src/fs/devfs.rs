use vstd::prelude::*;

use crate::fs::ramfs::{bytes_equal, normalize_path, normalized};
use crate::fs::vfs::{entry_for, DirEntry, FileSystemId, FileType, FileView, InodeRef, Metadata};
use crate::kernel::syscall::{EINVAL, ENOENT};

verus! {

pub const ROOT_INO: usize = 0;
pub const DEV_CONSOLE_INO: usize = 1;
pub const DEV_NULL_INO: usize = 2;
pub const DEV_ZERO_INO: usize = 3;
pub const DEV_URANDOM_INO: usize = 4;
pub const DEV_TTY_INO: usize = 5;
pub const DEV_NODE_COUNT: usize = 5;

/// The device files, by inode number 1 to 5.
pub open spec fn dev_name(ino: int) -> Seq<u8> {
    if ino == DEV_CONSOLE_INO {
        seq![0x63u8, 0x6f, 0x6e, 0x73, 0x6f, 0x6c, 0x65]
    } else if ino == DEV_NULL_INO {
        seq![0x6eu8, 0x75, 0x6c, 0x6c]
    } else if ino == DEV_ZERO_INO {
        seq![0x7au8, 0x65, 0x72, 0x6f]
    } else if ino == DEV_URANDOM_INO {
        seq![0x75u8, 0x72, 0x61, 0x6e, 0x64, 0x6f, 0x6d]
    } else {
        seq![0x74u8, 0x74, 0x79]
    }
}

pub open spec fn dev_mode(ino: int) -> u16 {
    if ino == DEV_URANDOM_INO { 0o444 } else { 0o666 }
}

pub open spec fn dev_node(ino: usize) -> bool {
    1 <= ino <= DEV_NODE_COUNT
}

pub open spec fn dev_inode(ino: usize) -> InodeRef {
    InodeRef { fs: FileSystemId::Devfs, ino }
}

fn inode(ino: usize) -> (r: InodeRef)
    ensures
        r == dev_inode(ino),
{
    InodeRef { fs: FileSystemId::Devfs, ino }
}

/// The name of device `ino`, as bytes.
fn node_name(ino: usize) -> (r: Vec<u8>)
    requires
        dev_node(ino),
    ensures
        r@ == dev_name(ino as int),
{
    let r = if ino == DEV_CONSOLE_INO {
        vec![0x63u8, 0x6f, 0x6e, 0x73, 0x6f, 0x6c, 0x65]
    } else if ino == DEV_NULL_INO {
        vec![0x6eu8, 0x75, 0x6c, 0x6c]
    } else if ino == DEV_ZERO_INO {
        vec![0x7au8, 0x65, 0x72, 0x6f]
    } else if ino == DEV_URANDOM_INO {
        vec![0x75u8, 0x72, 0x61, 0x6e, 0x64, 0x6f, 0x6d]
    } else {
        vec![0x74u8, 0x74, 0x79]
    };
    assert(r@ =~= dev_name(ino as int));
    r
}

fn node_str(ino: usize) -> (r: &'static str)
    requires
        dev_node(ino),
    ensures
        ino == DEV_CONSOLE_INO ==> r@ == "console"@,
        ino == DEV_NULL_INO ==> r@ == "null"@,
        ino == DEV_ZERO_INO ==> r@ == "zero"@,
        ino == DEV_URANDOM_INO ==> r@ == "urandom"@,
        ino == DEV_TTY_INO ==> r@ == "tty"@,
{
    if ino == DEV_CONSOLE_INO {
        "console"
    } else if ino == DEV_NULL_INO {
        "null"
    } else if ino == DEV_ZERO_INO {
        "zero"
    } else if ino == DEV_URANDOM_INO {
        "urandom"
    } else {
        "tty"
    }
}

pub open spec fn dev_prefix() -> Seq<u8> {
    seq![0x64u8, 0x65, 0x76, 0x2f]
}

/// `dev` is the directory; `dev/NAME` a device.
pub open spec fn lookup_spec(path: Seq<u8>) -> Option<InodeRef> {
    let p = normalized(path);
    if p == seq![0x64u8, 0x65, 0x76] || p == dev_prefix() {
        Some(dev_inode(ROOT_INO))
    } else if p.len() >= 4 && p.take(4) == dev_prefix() {
        let name = p.skip(4);
        if exists|i: int| 1 <= i <= DEV_NODE_COUNT && dev_name(i) == name {
            Some(dev_inode((choose|i: int| 1 <= i <= DEV_NODE_COUNT && dev_name(i) == name) as usize))
        } else {
            None
        }
    } else {
        None
    }
}

proof fn lemma_names_distinct(i: int, j: int)
    requires
        1 <= i <= DEV_NODE_COUNT,
        1 <= j <= DEV_NODE_COUNT,
        dev_name(i) == dev_name(j),
    ensures
        i == j,
{
    if i != j {
        assert(dev_name(i)[0] != dev_name(j)[0] || dev_name(i).len() != dev_name(j).len() || dev_name(i)[1] != dev_name(j)[1]);
    }
}

pub fn lookup(path: &[u8]) -> (r: Option<InodeRef>)
    ensures
        r == lookup_spec(path@),
{
    let p = normalize_path(path);
    let is_dev3 = p.len() == 3 && p[0] == 0x64 && p[1] == 0x65 && p[2] == 0x76;
    let is_dev4 = p.len() == 4 && p[0] == 0x64 && p[1] == 0x65 && p[2] == 0x76 && p[3] == 0x2f;
    proof {
        if is_dev3 {
            assert(p@ =~= seq![0x64u8, 0x65, 0x76]);
        }
        if is_dev4 {
            assert(p@ =~= dev_prefix());
        }
        if p@ == seq![0x64u8, 0x65, 0x76] {
            assert(p@.len() == 3 && p@[0] == 0x64 && p@[1] == 0x65 && p@[2] == 0x76);
        }
        if p@ == dev_prefix() {
            assert(p@.len() == 4 && p@[0] == 0x64 && p@[1] == 0x65 && p@[2] == 0x76 && p@[3] == 0x2f);
        }
    }
    if is_dev3 || is_dev4 {
        return Some(inode(ROOT_INO));
    }
    let has_prefix = p.len() >= 4 && p[0] == 0x64 && p[1] == 0x65 && p[2] == 0x76 && p[3] == 0x2f;
    proof {
        if has_prefix {
            assert(p@.take(4) =~= dev_prefix());
        }
        if p@.len() >= 4 && p@.take(4) == dev_prefix() {
            assert(p@.take(4)[0] == 0x64 && p@.take(4)[1] == 0x65 && p@.take(4)[2] == 0x76 && p@.take(4)[3] == 0x2f);
        }
    }
    if !has_prefix {
        return None;
    }
    let name = vstd::slice::slice_subrange(p, 4, p.len());
    assert(name@ =~= p@.skip(4));
    let mut ino: usize = 1;
    while ino <= DEV_NODE_COUNT
        invariant
            1 <= ino <= DEV_NODE_COUNT + 1,
            forall|j: int| 1 <= j < ino ==> dev_name(j) != name@,
            name@ == p@.skip(4),
            p@ == normalized(path@),
            p@ != seq![0x64u8, 0x65, 0x76] && p@ != dev_prefix(),
            p@.len() >= 4 && p@.take(4) == dev_prefix(),
        decreases DEV_NODE_COUNT + 1 - ino,
    {
        let candidate = node_name(ino);
        if bytes_equal(name, candidate.as_slice()) {
            proof {
                assert forall|j: int| 1 <= j <= DEV_NODE_COUNT && dev_name(j) == name@ implies j == ino by {
                    lemma_names_distinct(j, ino as int);
                }
            }
            return Some(inode(ino));
        }
        ino += 1;
    }
    None
}

pub open spec fn meta_spec(inode: InodeRef) -> Option<Metadata> {
    if inode.fs != FileSystemId::Devfs {
        None
    } else if inode.ino == ROOT_INO {
        Some(Metadata { inode, file_type: FileType::Directory, size: DEV_NODE_COUNT, mode: 0o755, nlink: 2, uid: 0, gid: 0, atime: 0, mtime: 0, ctime: 0 })
    } else if dev_node(inode.ino) {
        Some(Metadata { inode, file_type: FileType::Device, size: 0, mode: dev_mode(inode.ino as int), nlink: 1, uid: 0, gid: 0, atime: 0, mtime: 0, ctime: 0 })
    } else {
        None
    }
}

pub fn metadata(inode: InodeRef) -> (r: Option<Metadata>)
    ensures
        r == meta_spec(inode),
{
    if inode.fs != FileSystemId::Devfs {
        return None;
    }
    if inode.ino == ROOT_INO {
        return Some(Metadata::new(inode, FileType::Directory, DEV_NODE_COUNT, 0o755));
    }
    if inode.ino >= 1 && inode.ino <= DEV_NODE_COUNT {
        let mode: u16 = if inode.ino == DEV_URANDOM_INO { 0o444 } else { 0o666 };
        return Some(Metadata::new(inode, FileType::Device, 0, mode));
    }
    None
}

/// Devices have a name and no bytes.
pub fn open(inode: InodeRef) -> (r: Option<FileView<'static>>)
    ensures
        (inode.fs == FileSystemId::Devfs && dev_node(inode.ino)) ==> (r matches Some(v) && v.inode == inode && v.data@.len() == 0),
        !(inode.fs == FileSystemId::Devfs && dev_node(inode.ino)) ==> r is None,
{
    if inode.fs != FileSystemId::Devfs || inode.ino < 1 || inode.ino > DEV_NODE_COUNT {
        return None;
    }
    let empty: &'static [u8] = &[];
    Some(FileView { inode, name: node_str(inode.ino), data: empty })
}

/// What a console write sends: each line feed preceded by a carriage
/// return.
pub open spec fn crlf(src: Seq<u8>) -> Seq<u8>
    decreases src.len(),
{
    if src.len() == 0 {
        Seq::empty()
    } else {
        let prev = crlf(src.drop_last());
        if src.last() == 0x0a { prev + seq![0x0du8, 0x0a] } else { prev.push(src.last()) }
    }
}

/// Writes to a device: `/dev/null` swallows the bytes; the console and
/// the terminal append them, line feeds turned into CR LF, to `out`.
pub fn write(inode: InodeRef, offset: usize, src: &[u8], out: &mut Vec<u8>) -> (r: Result<usize, u32>)
    ensures
        inode.ino == DEV_NULL_INO ==> r == Ok::<usize, u32>(src@.len() as usize) && final(out)@ == old(out)@,
        (inode.ino == DEV_CONSOLE_INO || inode.ino == DEV_TTY_INO) ==> r == Ok::<usize, u32>(src@.len() as usize)
            && final(out)@ == old(out)@ + crlf(src@),
        !(inode.ino == DEV_NULL_INO || inode.ino == DEV_CONSOLE_INO || inode.ino == DEV_TTY_INO) ==> r == Err::<usize, u32>(EINVAL)
            && final(out)@ == old(out)@,
{
    if inode.ino == DEV_NULL_INO {
        return Ok(src.len());
    }
    if inode.ino != DEV_CONSOLE_INO && inode.ino != DEV_TTY_INO {
        return Err(EINVAL);
    }
    let ghost o = out@;
    let mut i: usize = 0;
    while i < src.len()
        invariant
            i <= src@.len(),
            out@ == o + crlf(src@.take(i as int)),
        decreases src@.len() - i,
    {
        assert(src@.take(i + 1).drop_last() =~= src@.take(i as int));
        if src[i] == 0x0a {
            out.push(0x0d);
        }
        out.push(src[i]);
        assert(out@ =~= o + crlf(src@.take(i + 1)));
        i += 1;
    }
    assert(src@.take(src@.len() as int) =~= src@);
    Ok(src.len())
}

/// One step of the xorshift generator behind `/dev/urandom`.
pub open spec fn xorshift(s: u32) -> u32 {
    let a = s ^ (s << 13u32);
    let b = a ^ (a >> 17u32);
    b ^ (b << 5u32)
}

/// The generator state after `n` steps from `s`.
pub open spec fn xorshift_n(s: u32, n: nat) -> u32
    decreases n,
{
    if n == 0 { s } else { xorshift(xorshift_n(s, (n - 1) as nat)) }
}

/// The bytes `/dev/urandom` gives from state `s`: the top byte of each
/// successive state.
pub open spec fn random_bytes(s: u32, n: nat) -> Seq<u8> {
    Seq::new(n, |k: int| (xorshift_n(s, (k + 1) as nat) >> 24u32) as u8)
}

/// The device file system; it keeps the state of `/dev/urandom`.
pub struct DevFs {
    pub urandom_state: u32,
}

impl DevFs {
    pub fn new() -> (r: Self)
        ensures
            r.urandom_state == 0x6d2b_79f5,
    {
        DevFs { urandom_state: 0x6d2b_79f5 }
    }

    /// Fills `dst` from the generator, seeded by its state mixed with
    /// `entropy` (the caller's free page count and timer, xored).
    pub fn fill_urandom(&mut self, dst: &mut [u8], entropy: u32)
        ensures
            final(dst)@ == random_bytes(old(self).urandom_state ^ entropy, old(dst)@.len()),
            final(self).urandom_state == xorshift_n(old(self).urandom_state ^ entropy, old(dst)@.len()).wrapping_add(0x9e37_79b9),
    {
        let ghost s0 = self.urandom_state ^ entropy;
        let mut state = self.urandom_state ^ entropy;
        let mut i: usize = 0;
        while i < dst.len()
            invariant
                i <= dst@.len(),
                state == xorshift_n(s0, i as nat),
                dst@.len() == old(dst)@.len(),
                forall|k: int| 0 <= k < i ==> #[trigger] dst@[k] == random_bytes(s0, old(dst)@.len())[k],
            decreases dst@.len() - i,
        {
            state = state ^ (state << 13u32);
            state = state ^ (state >> 17u32);
            state = state ^ (state << 5u32);
            dst[i] = (state >> 24u32) as u8;
            i += 1;
        }
        assert(dst@ =~= random_bytes(s0, old(dst)@.len()));
        self.urandom_state = state.wrapping_add(0x9e37_79b9);
    }

    /// Reads from a device: nothing from null, console and terminal; zeros
    /// from `/dev/zero`; generator bytes from `/dev/urandom`.
    pub fn read(&mut self, inode: InodeRef, offset: usize, dst: &mut [u8], entropy: u32) -> (r: Result<usize, u32>)
        ensures
            (inode.ino == DEV_NULL_INO || inode.ino == DEV_CONSOLE_INO || inode.ino == DEV_TTY_INO) ==> r == Ok::<usize, u32>(0)
                && final(dst)@ == old(dst)@ && final(self).urandom_state == old(self).urandom_state,
            inode.ino == DEV_ZERO_INO ==> r == Ok::<usize, u32>(old(dst)@.len() as usize)
                && final(dst)@ == Seq::new(old(dst)@.len(), |k: int| 0u8) && final(self).urandom_state == old(self).urandom_state,
            inode.ino == DEV_URANDOM_INO ==> r == Ok::<usize, u32>(old(dst)@.len() as usize)
                && final(dst)@ == random_bytes(old(self).urandom_state ^ entropy, old(dst)@.len())
                && final(self).urandom_state == xorshift_n(old(self).urandom_state ^ entropy, old(dst)@.len()).wrapping_add(0x9e37_79b9),
            !(dev_node(inode.ino)) ==> r == Err::<usize, u32>(EINVAL) && final(dst)@ == old(dst)@
                && final(self).urandom_state == old(self).urandom_state,
    {
        if inode.ino == DEV_NULL_INO || inode.ino == DEV_CONSOLE_INO || inode.ino == DEV_TTY_INO {
            return Ok(0);
        }
        if inode.ino == DEV_ZERO_INO {
            let mut i: usize = 0;
            while i < dst.len()
                invariant
                    i <= dst@.len(),
                    dst@.len() == old(dst)@.len(),
                    forall|k: int| 0 <= k < i ==> #[trigger] dst@[k] == 0u8,
                decreases dst@.len() - i,
            {
                dst[i] = 0;
                i += 1;
            }
            assert(dst@ =~= Seq::new(old(dst)@.len(), |k: int| 0u8));
            return Ok(dst.len());
        }
        if inode.ino == DEV_URANDOM_INO {
            self.fill_urandom(dst, entropy);
            return Ok(dst.len());
        }
        Err(EINVAL)
    }
}

/// Lists `/dev`: the devices in inode order from `offset` on.
pub fn read_dir(inode: InodeRef, offset: usize, dst: &mut [DirEntry]) -> (r: Result<usize, u32>)
    ensures
        (inode.fs != FileSystemId::Devfs || inode.ino != ROOT_INO) ==> r == Err::<usize, u32>(ENOENT) && final(dst)@ == old(dst)@,
        (inode.fs == FileSystemId::Devfs && inode.ino == ROOT_INO) ==> {
            let avail = if DEV_NODE_COUNT > offset { DEV_NODE_COUNT - offset } else { 0 };
            let w = if avail < old(dst)@.len() { avail } else { old(dst)@.len() as int };
            &&& r == Ok::<usize, u32>(w as usize)
            &&& final(dst)@.len() == old(dst)@.len()
            &&& forall|k: int| 0 <= k < w ==> entry_for(#[trigger] final(dst)@[k], dev_inode((offset + k + 1) as usize), FileType::Device, dev_name(offset + k + 1))
            &&& forall|k: int| w <= k < old(dst)@.len() ==> #[trigger] final(dst)@[k] == old(dst)@[k]
        },
{
    if inode.fs != FileSystemId::Devfs || inode.ino != ROOT_INO {
        return Err(ENOENT);
    }
    let ghost d0 = dst@;
    let mut written: usize = 0;
    let mut index: usize = offset;
    while index < DEV_NODE_COUNT && written < dst.len()
        invariant
            dst@.len() == d0.len(),
            offset <= index,
            index <= DEV_NODE_COUNT || index == offset,
            written == index - offset,
            written <= dst@.len(),
            forall|k: int| 0 <= k < written ==> entry_for(#[trigger] dst@[k], dev_inode((offset + k + 1) as usize), FileType::Device, dev_name(offset + k + 1)),
            forall|k: int| written <= k < d0.len() ==> #[trigger] dst@[k] == d0[k],
        decreases DEV_NODE_COUNT - index,
    {
        let name = node_name(index + 1);
        dst[written] = DirEntry::new(self::inode(index + 1), FileType::Device, name.as_slice());
        written += 1;
        index += 1;
    }
    Ok(written)
}

} // verus!
