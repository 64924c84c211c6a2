use vstd::prelude::*;

use crate::fs::vfs::InodeRef;
use crate::kernel::address::{PhysAddr, VirtAddr, PAGE_SIZE, USER_TOP};
use crate::kernel::ipc::{PipeEnd, PipeId};
use crate::kernel::syscall::{EBADF, EEXIST, EFAULT, EINVAL, EMFILE, ENOMEM, EAGAIN, ECHILD, O_CLOEXEC};
use crate::kernel::orphans::{
    adopter_in, distinct_pids, lemma_adopter_safe, lemma_free_slot, lemma_child_unchanged, lemma_free_ready, lemma_progress_end,
    lemma_progress_free, lemma_progress_reparent, lemma_progress_skip, lemma_progress_start, orphan_progress,
    orphaned, orphaning_ok,
};
use crate::kernel::vma_lemmas::{
    covered, cut, lemma_cut_len, lemma_cut_wf, lemma_merge, lemma_relabel_at, lemma_relabel_wf,
    lemma_split, lemma_vma_at_append, lemma_vma_at_some, lemma_vma_at_unique, merge_at, overlaps,
    lemma_insert_sorted, lemma_split_straddle, protected_attrs, relabel, relabel_all, split_at, straddles, surrounds,
    vm_attrs, vma_at,
    vmas_wf,
};

verus! {

pub const MAX_PROCESSES: usize = 16;
pub const MAX_FILES: usize = 32;
pub const MAX_FILE_HANDLES: usize = 64;
pub const MAX_ADDRESS_SPACE_L2: usize = 128;
pub const MAX_ADDRESS_SPACE_REGIONS: usize = 128;
pub const MAX_VMAS: usize = 128;
pub const USER_STACK_PAGES: usize = 32;
pub const USER_STACK_SIZE: usize = 131072;
pub const USER_STACK_SLOT_SIZE: usize = 1048576;
pub const USER_MMAP_BASE: usize = 0x5000_0000;
pub const USER_MMAP_TOP: usize = 0x7000_0000;

pub const VM_READ: u32 = 1;
pub const VM_WRITE: u32 = 2;
pub const VM_EXEC: u32 = 4;
pub const VM_USER: u32 = 8;
pub const VM_STACK: u32 = 16;
pub const VM_ANON: u32 = 32;
pub const VM_FILE: u32 = 64;
pub const VM_HEAP: u32 = 128;
pub const VM_MMAP: u32 = 256;
pub const VM_FIXED: u32 = 512;

pub const FD_CLOEXEC: u32 = 1;
pub const CWD_MAX: usize = 96;

/// Copies a vector of plain values element by element.
pub fn copy_vec<T: Copy>(v: &Vec<T>) -> (r: Vec<T>)
    ensures
        r@ == v@,
{
    let mut r: Vec<T> = Vec::new();
    let mut i: usize = 0;
    while i < v.len()
        invariant
            i <= v.len(),
            r@ == v@.subrange(0, i as int),
        decreases v.len() - i,
    {
        r.push(v[i]);
        i += 1;
        assert(r@ =~= v@.subrange(0, i as int));
    }
    assert(r@ =~= v@);
    r
}

/// Builds a vector of `n` copies of `x`.
pub fn filled_vec<T: Copy>(x: T, n: usize) -> (r: Vec<T>)
    ensures
        r@ == Seq::new(n as nat, |_i: int| x),
{
    let mut r: Vec<T> = Vec::new();
    let mut i: usize = 0;
    while i < n
        invariant
            i <= n,
            r@ == Seq::new(i as nat, |_i: int| x),
        decreases n - i,
    {
        r.push(x);
        i += 1;
        assert(r@ =~= Seq::new(i as nat, |_i: int| x));
    }
    r
}

#[derive(Clone, Copy, PartialEq, Eq, Structural, Debug)]
pub struct Credentials {
    pub uid: u32,
    pub euid: u32,
    pub gid: u32,
    pub egid: u32,
    pub umask: u16,
}

impl Credentials {
    pub fn root() -> (r: Self)
        ensures
            r == (Credentials { uid: 0, euid: 0, gid: 0, egid: 0, umask: 0o022 }),
    {
        Self { uid: 0, euid: 0, gid: 0, egid: 0, umask: 0o022 }
    }
}

#[derive(Clone, Copy, PartialEq, Eq, Structural, Debug)]
pub struct ProcessId(pub usize);

impl ProcessId {
    pub fn new(value: usize) -> (r: Self)
        ensures
            r.0 == value,
    {
        Self(value)
    }

    pub fn as_usize(self) -> (r: usize)
        ensures
            r == self.0,
    {
        self.0
    }

    pub fn is_valid(self) -> (r: bool)
        ensures
            r == (self.0 != 0),
    {
        self.0 != 0
    }
}

#[derive(Clone, Copy, PartialEq, Eq, Structural, Debug)]
pub struct ThreadId(pub usize);

impl ThreadId {
    pub fn new(value: usize) -> (r: Self)
        ensures
            r.0 == value,
    {
        Self(value)
    }

    pub fn as_usize(self) -> (r: usize)
        ensures
            r == self.0,
    {
        self.0
    }
}

#[derive(Clone, Copy, PartialEq, Eq, Structural, Debug)]
pub enum ThreadMode {
    Kernel,
    User,
}

impl ThreadMode {
    pub fn as_str(self) -> (r: &'static str)
        ensures
            r@ == (match self {
                ThreadMode::Kernel => "kernel"@,
                ThreadMode::User => "user"@,
            }),
    {
        match self {
            ThreadMode::Kernel => "kernel",
            ThreadMode::User => "user",
        }
    }

    pub fn is_user(self) -> (r: bool)
        ensures
            r == (self == ThreadMode::User),
    {
        match self {
            ThreadMode::User => true,
            ThreadMode::Kernel => false,
        }
    }
}

#[derive(Clone, Copy, PartialEq, Eq, Structural, Debug)]
pub enum ProcessState {
    Empty,
    Alive,
    Zombie,
}

impl ProcessState {
    pub fn as_str(self) -> (r: &'static str)
        ensures
            r@ == (match self {
                ProcessState::Empty => "empty"@,
                ProcessState::Alive => "alive"@,
                ProcessState::Zombie => "zombie"@,
            }),
    {
        match self {
            ProcessState::Empty => "empty",
            ProcessState::Alive => "alive",
            ProcessState::Zombie => "zombie",
        }
    }
}

#[derive(Clone, Copy, PartialEq, Eq, Structural, Debug)]
pub enum AddressSpaceKind {
    Kernel,
    User,
}

impl AddressSpaceKind {
    pub fn as_str(self) -> (r: &'static str)
        ensures
            r@ == (match self {
                AddressSpaceKind::Kernel => "kernel"@,
                AddressSpaceKind::User => "user"@,
            }),
    {
        match self {
            AddressSpaceKind::Kernel => "kernel",
            AddressSpaceKind::User => "user",
        }
    }

    pub fn is_user(self) -> (r: bool)
        ensures
            r == (self == AddressSpaceKind::User),
    {
        match self {
            AddressSpaceKind::User => true,
            AddressSpaceKind::Kernel => false,
        }
    }
}

/// What an open file handle refers to.
#[derive(Clone, Copy, PartialEq, Eq, Structural, Debug)]
pub enum FileObject {
    Closed,
    Console,
    ConsoleIn,
    ConsoleOut,
    ConsoleErr,
    Regular { inode: InodeRef },
    Directory { inode: InodeRef },
    Device { inode: InodeRef },
    Pipe { id: PipeId, end: PipeEnd },
}

impl FileObject {
    pub open spec fn readable(self) -> bool {
        match self {
            FileObject::Console | FileObject::ConsoleIn | FileObject::Regular { .. }
            | FileObject::Directory { .. } | FileObject::Device { .. } => true,
            FileObject::Pipe { end, .. } => end == PipeEnd::Read,
            _ => false,
        }
    }

    pub open spec fn writable(self) -> bool {
        match self {
            FileObject::Console | FileObject::ConsoleOut | FileObject::ConsoleErr
            | FileObject::Regular { .. } | FileObject::Device { .. } => true,
            FileObject::Pipe { end, .. } => end == PipeEnd::Write,
            _ => false,
        }
    }

    pub open spec fn inode_of(self) -> Option<InodeRef> {
        match self {
            FileObject::Regular { inode } => Some(inode),
            FileObject::Directory { inode } => Some(inode),
            FileObject::Device { inode } => Some(inode),
            _ => None,
        }
    }

    pub fn can_read(self) -> (r: bool)
        ensures
            r == self.readable(),
    {
        match self {
            FileObject::Console | FileObject::ConsoleIn | FileObject::Regular { .. }
            | FileObject::Directory { .. } | FileObject::Device { .. } => true,
            FileObject::Pipe { end: PipeEnd::Read, .. } => true,
            _ => false,
        }
    }

    pub fn can_write(self) -> (r: bool)
        ensures
            r == self.writable(),
    {
        match self {
            FileObject::Console | FileObject::ConsoleOut | FileObject::ConsoleErr
            | FileObject::Regular { .. } | FileObject::Device { .. } => true,
            FileObject::Pipe { end: PipeEnd::Write, .. } => true,
            _ => false,
        }
    }

    pub fn inode(self) -> (r: Option<InodeRef>)
        ensures
            r == self.inode_of(),
    {
        match self {
            FileObject::Regular { inode } => Some(inode),
            FileObject::Directory { inode } => Some(inode),
            FileObject::Device { inode } => Some(inode),
            _ => None,
        }
    }
}

/// A run of pages owned by an address space: `pages` pages at `virt`, backed at `phys`.
#[derive(Clone, Copy, PartialEq, Eq, Structural, Debug)]
pub struct UserRegion {
    pub virt: VirtAddr,
    pub phys: PhysAddr,
    pub pages: usize,
}

impl UserRegion {
    pub fn empty() -> (r: Self)
        ensures
            r == (UserRegion { virt: VirtAddr(0), phys: PhysAddr(0), pages: 0 }),
    {
        UserRegion { virt: VirtAddr(0), phys: PhysAddr(0), pages: 0 }
    }
}

/// A virtual memory area `[start, end)` with its protection flags and backing file.
#[derive(Clone, Copy, PartialEq, Eq, Structural, Debug)]
pub struct VmArea {
    pub start: VirtAddr,
    pub end: VirtAddr,
    pub flags: u32,
    pub file: Option<InodeRef>,
}

impl VmArea {
    pub open spec fn covers(self, addr: int) -> bool {
        self.start.0 <= addr < self.end.0
    }

    pub fn empty() -> (r: Self)
        ensures
            r == (VmArea { start: VirtAddr(0), end: VirtAddr(0), flags: 0, file: None }),
    {
        VmArea { start: VirtAddr(0), end: VirtAddr(0), flags: 0, file: None }
    }

    pub fn contains(self, addr: VirtAddr) -> (r: bool)
        ensures
            r == self.covers(addr.0 as int),
    {
        addr.0 >= self.start.0 && addr.0 < self.end.0
    }

    pub fn can_read(self) -> (r: bool)
        ensures
            r == (self.flags & VM_READ != 0),
    {
        self.flags & VM_READ != 0
    }

    pub fn can_write(self) -> (r: bool)
        ensures
            r == (self.flags & VM_WRITE != 0),
    {
        self.flags & VM_WRITE != 0
    }

    pub fn can_exec(self) -> (r: bool)
        ensures
            r == (self.flags & VM_EXEC != 0),
    {
        self.flags & VM_EXEC != 0
    }
}

#[derive(Clone, Copy, PartialEq, Eq, Structural, Debug)]
pub struct FileHandleId(pub usize);

impl FileHandleId {
    pub fn invalid() -> (r: Self)
        ensures
            r.0 == usize::MAX,
    {
        Self(usize::MAX)
    }

    pub fn new(value: usize) -> (r: Self)
        ensures
            r.0 == value,
    {
        Self(value)
    }

    pub fn as_usize(self) -> (r: usize)
        ensures
            r == self.0,
    {
        self.0
    }

    pub fn is_valid(self) -> (r: bool)
        ensures
            r == (self.0 != usize::MAX),
    {
        self.0 != usize::MAX
    }
}

/// An open file description, shared by the descriptors that refer to it.
#[derive(Clone, Copy, PartialEq, Eq, Structural, Debug)]
pub struct FileHandle {
    pub object: FileObject,
    pub offset: usize,
    pub ref_count: u16,
    pub flags: u32,
}

impl FileHandle {
    pub open spec fn open_spec(self) -> bool {
        self.object != FileObject::Closed
    }

    pub fn closed() -> (r: Self)
        ensures
            r == (FileHandle { object: FileObject::Closed, offset: 0, ref_count: 0, flags: 0 }),
    {
        FileHandle { object: FileObject::Closed, offset: 0, ref_count: 0, flags: 0 }
    }

    pub fn new(object: FileObject, flags: u32) -> (r: Self)
        ensures
            r == (FileHandle { object, offset: 0, ref_count: 1, flags }),
    {
        FileHandle { object, offset: 0, ref_count: 1, flags }
    }

    pub open spec fn closed_spec() -> Self {
        FileHandle { object: FileObject::Closed, offset: 0, ref_count: 0, flags: 0 }
    }

    pub fn is_open(self) -> (r: bool)
        ensures
            r == self.open_spec(),
    {
        !(self.object == FileObject::Closed)
    }
}

/// A per-process descriptor slot pointing at a shared handle.
#[derive(Clone, Copy, PartialEq, Eq, Structural, Debug)]
pub struct FileDescriptor {
    pub handle: FileHandleId,
    pub fd_flags: u32,
}

impl FileDescriptor {
    pub open spec fn open_spec(self) -> bool {
        self.handle.0 != usize::MAX
    }

    pub fn closed() -> (r: Self)
        ensures
            r == (FileDescriptor { handle: FileHandleId(usize::MAX), fd_flags: 0 }),
    {
        FileDescriptor { handle: FileHandleId(usize::MAX), fd_flags: 0 }
    }

    pub fn new(handle: FileHandleId, fd_flags: u32) -> (r: Self)
        ensures
            r == (FileDescriptor { handle, fd_flags }),
    {
        FileDescriptor { handle, fd_flags }
    }

    pub open spec fn closed_spec() -> Self {
        FileDescriptor { handle: FileHandleId(usize::MAX), fd_flags: 0 }
    }

    pub fn is_open(self) -> (r: bool)
        ensures
            r == self.open_spec(),
    {
        self.handle.0 != usize::MAX
    }

    pub fn close_on_exec(self) -> (r: bool)
        ensures
            r == (self.fd_flags & FD_CLOEXEC != 0),
    {
        self.fd_flags & FD_CLOEXEC != 0
    }
}


/// Whether descriptor `d` is open and refers to handle `h`.
pub open spec fn refers(d: FileDescriptor, h: int) -> bool {
    d.open_spec() && d.handle.0 == h
}

/// The number of open descriptors in `fds` that refer to handle `h`.
pub open spec fn fd_refs(fds: Seq<FileDescriptor>, h: int) -> nat
    decreases fds.len(),
{
    if fds.len() == 0 {
        0
    } else {
        fd_refs(fds.drop_last(), h) + if refers(fds.last(), h) {
            1nat
        } else {
            0nat
        }
    }
}

/// Replacing one descriptor changes the reference count of a handle by at most one each way.
pub proof fn lemma_fd_refs_update(fds: Seq<FileDescriptor>, i: int, d: FileDescriptor, h: int)
    requires
        0 <= i < fds.len(),
    ensures
        fd_refs(fds.update(i, d), h) + (if refers(fds[i], h) { 1int } else { 0int }) == fd_refs(
            fds,
            h,
        ) + (if refers(d, h) { 1int } else { 0int }),
    decreases fds.len(),
{
    let u = fds.update(i, d);
    if i == fds.len() - 1 {
        assert(u.drop_last() =~= fds.drop_last());
    } else {
        lemma_fd_refs_update(fds.drop_last(), i, d, h);
        assert(u.drop_last() =~= fds.drop_last().update(i, d));
    }
}

/// A handle with no references has no open descriptor pointing at it.
pub proof fn lemma_fd_refs_zero(fds: Seq<FileDescriptor>, h: int)
    ensures
        fd_refs(fds, h) == 0 <==> forall|i: int| 0 <= i < fds.len() ==> !refers(#[trigger] fds[i], h),
    decreases fds.len(),
{
    if fds.len() > 0 {
        lemma_fd_refs_zero(fds.drop_last(), h);
        if fd_refs(fds, h) == 0 {
            assert forall|i: int| 0 <= i < fds.len() implies !refers(#[trigger] fds[i], h) by {
                if i < fds.len() - 1 {
                    assert(fds[i] == fds.drop_last()[i]);
                }
            }
        } else {
            if forall|i: int| 0 <= i < fds.len() ==> !refers(#[trigger] fds[i], h) {
                assert forall|i: int| 0 <= i < fds.drop_last().len() implies !refers(
                    #[trigger] fds.drop_last()[i],
                    h,
                ) by {
                    assert(fds.drop_last()[i] == fds[i]);
                }
                assert(!refers(fds[fds.len() - 1], h));
            }
        }
    }
}

/// No descriptor is open in a sequence of closed descriptors.
pub proof fn lemma_fd_refs_bound(fds: Seq<FileDescriptor>, h: int)
    ensures
        fd_refs(fds, h) <= fds.len(),
    decreases fds.len(),
{
    if fds.len() > 0 {
        lemma_fd_refs_bound(fds.drop_last(), h);
    }
}

/// Whether a descriptor is closed by a sweep: every open one, or only those marked close-on-exec.
pub open spec fn closes(d: FileDescriptor, all: bool) -> bool {
    d.open_spec() && (all || d.fd_flags & FD_CLOEXEC != 0)
}

/// The number of descriptors in `fds` that a sweep closes and that refer to handle `h`.
pub open spec fn closing_refs(fds: Seq<FileDescriptor>, h: int, all: bool) -> nat
    decreases fds.len(),
{
    if fds.len() == 0 {
        0
    } else {
        closing_refs(fds.drop_last(), h, all) + if closes(fds.last(), all) && fds.last().handle.0 == h {
            1nat
        } else {
            0nat
        }
    }
}

/// A handle after `c` of its references have been dropped.
pub open spec fn after_closing(hd: FileHandle, c: nat) -> FileHandle {
    if c == 0 {
        hd
    } else if c < hd.ref_count {
        FileHandle { ref_count: (hd.ref_count - c) as u16, ..hd }
    } else {
        FileHandle::closed_spec()
    }
}

/// The objects a sweep over the first `n` descriptors releases, in order.
pub open spec fn closed_objects(
    fds: Seq<FileDescriptor>,
    handles: Seq<FileHandle>,
    all: bool,
    n: nat,
) -> Seq<FileObject>
    decreases n,
{
    if n == 0 || n > fds.len() {
        Seq::empty()
    } else {
        let prev = closed_objects(fds, handles, all, (n - 1) as nat);
        let d = fds[n - 1];
        let h = d.handle.0 as int;
        if closes(d, all) && closing_refs(fds.subrange(0, n as int), h, all) == handles[h].ref_count {
            prev.push(handles[h].object)
        } else {
            prev
        }
    }
}

/// Descriptors a sweep closes are among those that refer to the handle.
pub proof fn lemma_closing_refs_le(fds: Seq<FileDescriptor>, h: int, all: bool)
    ensures
        closing_refs(fds, h, all) <= fd_refs(fds, h),
    decreases fds.len(),
{
    if fds.len() > 0 {
        lemma_closing_refs_le(fds.drop_last(), h, all);
    }
}

/// A prefix closes no more references than the whole sequence.
pub proof fn lemma_closing_refs_prefix(fds: Seq<FileDescriptor>, i: int, h: int, all: bool)
    requires
        0 <= i <= fds.len(),
    ensures
        closing_refs(fds.subrange(0, i), h, all) <= closing_refs(fds, h, all),
    decreases fds.len() - i,
{
    if i < fds.len() {
        lemma_closing_refs_prefix(fds, i + 1, h, all);
        assert(fds.subrange(0, i + 1).drop_last() =~= fds.subrange(0, i));
    } else {
        assert(fds.subrange(0, i) =~= fds);
    }
}

/// The number of open descriptors.
pub open spec fn open_fd_count(fds: Seq<FileDescriptor>) -> nat
    decreases fds.len(),
{
    if fds.len() == 0 {
        0
    } else {
        open_fd_count(fds.drop_last()) + if fds.last().open_spec() {
            1nat
        } else {
            0nat
        }
    }
}

/// The objects of the open handles, in handle order.
pub open spec fn open_objects(handles: Seq<FileHandle>) -> Seq<FileObject>
    decreases handles.len(),
{
    if handles.len() == 0 {
        Seq::empty()
    } else {
        let prev = open_objects(handles.drop_last());
        if handles.last().open_spec() {
            prev.push(handles.last().object)
        } else {
            prev
        }
    }
}

/// The slot of the first closed descriptor at or after `from`.
pub open spec fn first_closed_fd(fds: Seq<FileDescriptor>, from: int) -> Option<int> {
    if exists|i: int| from <= i < fds.len() && 0 <= i && !(#[trigger] fds[i]).open_spec() {
        Some(
            choose|i: int|
                from <= i < fds.len() && 0 <= i && !(#[trigger] fds[i]).open_spec() && forall|j: int|
                    from <= j < i && 0 <= j ==> (#[trigger] fds[j]).open_spec(),
        )
    } else {
        None
    }
}

/// The slot of the first closed handle.
pub open spec fn first_closed_handle(handles: Seq<FileHandle>) -> Option<int> {
    if exists|i: int| 0 <= i < handles.len() && !(#[trigger] handles[i]).open_spec() {
        Some(
            choose|i: int|
                0 <= i < handles.len() && !(#[trigger] handles[i]).open_spec() && forall|j: int|
                    0 <= j < i ==> (#[trigger] handles[j]).open_spec(),
        )
    } else {
        None
    }
}

/// What `FileTable::set_fd_flags` leaves behind, from table `o` to table `n`.
pub open spec fn set_fd_flags_post(o: FileTable, n: FileTable, fd: usize, flags: u32, r: Result<(), u32>) -> bool {
    &&& n.handles@ == o.handles@
    &&& o.fd_open(fd as int) ==> r == Ok::<(), u32>(()) && n.fds@ == o.fds@.update(
        fd as int,
        FileDescriptor { handle: o.fds@[fd as int].handle, fd_flags: flags },
    )
    &&& !o.fd_open(fd as int) ==> r == Err::<(), u32>(EBADF) && n.fds@ == o.fds@
}

/// What `FileTable::open` leaves behind, from table `o` to table `n`.
pub open spec fn open_post(
    o: FileTable,
    n: FileTable,
    object: FileObject,
    flags: u32,
    fd_flags: u32,
    r: Result<usize, u32>,
) -> bool {
    match (first_closed_fd(o.fds@, 0), first_closed_handle(o.handles@)) {
        (Some(fd), Some(h)) => r == Ok::<usize, u32>(fd as usize) && n.fds@ == o.fds@.update(
            fd,
            FileDescriptor { handle: FileHandleId(h as usize), fd_flags },
        ) && n.handles@ == o.handles@.update(h, FileHandle { object, offset: 0, ref_count: 1, flags }),
        _ => r == Err::<usize, u32>(EMFILE) && n.fds@ == o.fds@ && n.handles@ == o.handles@,
    }
}

/// What `FileTable::duplicate_from` leaves behind, from table `o` to table `n`.
pub open spec fn duplicate_from_post(
    o: FileTable,
    n: FileTable,
    old_fd: usize,
    min_fd: usize,
    fd_flags: u32,
    r: Result<usize, u32>,
) -> bool {
    if !o.fd_open(old_fd as int) {
        r == Err::<usize, u32>(EBADF) && n.fds@ == o.fds@ && n.handles@ == o.handles@
    } else {
        let d = o.fds@[old_fd as int];
        let oh = o.handles@[d.handle.0 as int];
        match first_closed_fd(o.fds@, min_fd as int) {
            None => r == Err::<usize, u32>(EMFILE) && n.fds@ == o.fds@ && n.handles@ == o.handles@,
            Some(fd) => if oh.ref_count == u16::MAX {
                r == Err::<usize, u32>(EMFILE) && n.fds@ == o.fds@ && n.handles@ == o.handles@
            } else {
                r == Ok::<usize, u32>(fd as usize) && n.fds@ == o.fds@.update(
                    fd,
                    FileDescriptor { handle: d.handle, fd_flags },
                ) && n.handles@ == o.handles@.update(
                    d.handle.0 as int,
                    FileHandle { ref_count: (oh.ref_count + 1) as u16, ..oh },
                )
            },
        }
    }
}

/// What `FileTable::duplicate_to` leaves behind, from table `o` to table `n`.
pub open spec fn duplicate_to_post(
    o: FileTable,
    n: FileTable,
    old_fd: usize,
    new_fd: usize,
    fd_flags: u32,
    r: Result<Option<FileObject>, u32>,
) -> bool {
    if old_fd >= MAX_FILES || new_fd >= MAX_FILES || !o.fd_open(old_fd as int) {
        r == Err::<Option<FileObject>, u32>(EBADF) && n.fds@ == o.fds@ && n.handles@ == o.handles@
    } else {
        let d = o.fds@[old_fd as int];
        let h = d.handle.0 as int;
        let oh = o.handles@[h];
        let handles1 = o.handles@.update(h, FileHandle { ref_count: (oh.ref_count + 1) as u16, ..oh });
        if old_fd == new_fd {
            r == Ok::<Option<FileObject>, u32>(None) && n.fds@ == o.fds@.update(
                new_fd as int,
                FileDescriptor { handle: d.handle, fd_flags },
            ) && n.handles@ == o.handles@
        } else if oh.ref_count == u16::MAX {
            r == Err::<Option<FileObject>, u32>(EMFILE) && n.fds@ == o.fds@ && n.handles@ == o.handles@
        } else if !o.fd_open(new_fd as int) {
            r == Err::<Option<FileObject>, u32>(EBADF) && n.fds@ == o.fds@ && n.handles@ == handles1
        } else {
            let g = o.fds@[new_fd as int].handle.0 as int;
            let gh = handles1[g];
            &&& n.fds@ == o.fds@.update(new_fd as int, FileDescriptor { handle: d.handle, fd_flags })
            &&& if gh.ref_count > 1 {
                r == Ok::<Option<FileObject>, u32>(None) && n.handles@ == handles1.update(
                    g,
                    FileHandle { ref_count: (gh.ref_count - 1) as u16, ..gh },
                )
            } else {
                r == Ok::<Option<FileObject>, u32>(Some(gh.object)) && n.handles@ == handles1.update(
                    g,
                    FileHandle::closed_spec(),
                )
            }
        }
    }
}

/// Every open handle of `t` is counted exactly once per descriptor that
/// refers to it.
pub open spec fn refs_exact(t: FileTable) -> bool {
    forall|h: int|
        0 <= h < MAX_FILE_HANDLES && (#[trigger] t.handles@[h]).open_spec() ==> t.handles@[h].ref_count == fd_refs(
            t.fds@,
            h,
        )
}

/// Duplicating an open descriptor onto itself or onto another open
/// descriptor keeps every open handle's count equal to the number of
/// descriptors that refer to it.
pub proof fn lemma_duplicate_keeps_refs(
    o: FileTable,
    n: FileTable,
    old_fd: usize,
    new_fd: usize,
    fd_flags: u32,
    r: Result<Option<FileObject>, u32>,
)
    requires
        o.wf(),
        refs_exact(o),
        duplicate_to_post(o, n, old_fd, new_fd, fd_flags, r),
        old_fd < MAX_FILES && new_fd < MAX_FILES,
        o.fd_open(old_fd as int),
        old_fd == new_fd || o.fd_open(new_fd as int),
    ensures
        refs_exact(n),
{
    let d = o.fds@[old_fd as int];
    let h = d.handle.0 as int;
    let oh = o.handles@[h];
    let nd = FileDescriptor { handle: d.handle, fd_flags };
    if old_fd == new_fd {
        assert forall|k: int| 0 <= k < MAX_FILE_HANDLES && (#[trigger] n.handles@[k]).open_spec() implies n.handles@[k].ref_count
            == fd_refs(n.fds@, k) by {
            lemma_fd_refs_update(o.fds@, new_fd as int, nd, k);
        }
    } else if oh.ref_count == u16::MAX {
        assert(n.fds@ == o.fds@ && n.handles@ == o.handles@);
    } else {
        let g = o.fds@[new_fd as int].handle.0 as int;
        assert(o.handles@[g].open_spec());
        lemma_fd_refs_update(o.fds@, new_fd as int, nd, g);
        lemma_fd_refs_update(o.fds@, new_fd as int, nd, h);
        assert forall|k: int| 0 <= k < MAX_FILE_HANDLES && (#[trigger] n.handles@[k]).open_spec() implies n.handles@[k].ref_count
            == fd_refs(n.fds@, k) by {
            lemma_fd_refs_update(o.fds@, new_fd as int, nd, k);
        }
    }
}

/// What `FileTable::close` leaves behind, from table `o` to table `n`.
pub open spec fn close_post(o: FileTable, n: FileTable, fd: usize, r: Result<Option<FileObject>, u32>) -> bool {
    if !o.fd_open(fd as int) {
        r == Err::<Option<FileObject>, u32>(EBADF) && n.fds@ == o.fds@ && n.handles@ == o.handles@
    } else {
        let h = o.fds@[fd as int].handle.0 as int;
        let oh = o.handles@[h];
        &&& n.fds@ == o.fds@.update(fd as int, FileDescriptor::closed_spec())
        &&& if oh.ref_count > 1 {
            r == Ok::<Option<FileObject>, u32>(None) && n.handles@ == o.handles@.update(
                h,
                FileHandle { ref_count: (oh.ref_count - 1) as u16, ..oh },
            )
        } else {
            r == Ok::<Option<FileObject>, u32>(Some(oh.object)) && n.handles@ == o.handles@.update(
                h,
                FileHandle::closed_spec(),
            )
        }
    }
}

/// What closing the descriptors that `closes(_, all)` picks leaves behind,
/// from table `o` to table `n`, with the released objects in `r`.
pub open spec fn closing_post(o: FileTable, n: FileTable, all: bool, r: ClosedFiles) -> bool {
    &&& n.fds@ == Seq::new(
        MAX_FILES as nat,
        |j: int|
            if closes(o.fds@[j], all) {
                FileDescriptor::closed_spec()
            } else {
                o.fds@[j]
            },
    )
    &&& forall|h: int|
        0 <= h < MAX_FILE_HANDLES ==> #[trigger] n.handles@[h] == after_closing(
            o.handles@[h],
            closing_refs(o.fds@, h, all),
        )
    &&& r.objects@ == closed_objects(o.fds@, o.handles@, all, MAX_FILES as nat)
}

/// The descriptor table of a process together with the handles it shares.
pub struct FileTable {
    pub fds: Vec<FileDescriptor>,
    pub handles: Vec<FileHandle>,
}

/// The objects released when descriptors were closed, in closing order.
pub struct ClosedFiles {
    pub objects: Vec<FileObject>,
}

impl ClosedFiles {
    pub fn new() -> (r: Self)
        ensures
            r.objects@ == Seq::<FileObject>::empty(),
    {
        ClosedFiles { objects: Vec::new() }
    }

    /// Records a released object; beyond `MAX_FILES` entries further objects are not kept.
    pub fn push(&mut self, object: FileObject)
        ensures
            final(self).objects@ == if old(self).objects@.len() < MAX_FILES {
                old(self).objects@.push(object)
            } else {
                old(self).objects@
            },
    {
        if self.objects.len() < MAX_FILES {
            self.objects.push(object);
        }
    }

    pub fn iter(&self) -> (r: &[FileObject])
        ensures
            r@ == self.objects@,
    {
        self.objects.as_slice()
    }
}

impl FileTable {
    /// Every open descriptor points at an open handle, and every open handle
    /// counts at least the descriptors that refer to it.
    pub open spec fn wf(&self) -> bool {
        &&& self.fds@.len() == MAX_FILES
        &&& self.handles@.len() == MAX_FILE_HANDLES
        &&& forall|i: int|
            0 <= i < MAX_FILES && (#[trigger] self.fds@[i]).open_spec() ==> self.fds@[i].handle.0
                < MAX_FILE_HANDLES && self.handles@[self.fds@[i].handle.0 as int].open_spec()
        &&& forall|h: int|
            0 <= h < MAX_FILE_HANDLES && (#[trigger] self.handles@[h]).open_spec()
                ==> self.handles@[h].ref_count >= 1 && self.handles@[h].ref_count >= fd_refs(
                self.fds@,
                h,
            )
    }

    /// The handle that descriptor `fd` refers to, if the descriptor is open.
    pub open spec fn lookup(&self, fd: int) -> Option<FileHandle> {
        if 0 <= fd < self.fds@.len() && self.fds@[fd].open_spec() && self.fds@[fd].handle.0
            < self.handles@.len() && self.handles@[self.fds@[fd].handle.0 as int].open_spec() {
            Some(self.handles@[self.fds@[fd].handle.0 as int])
        } else {
            None
        }
    }

    pub open spec fn fd_open(&self, fd: int) -> bool {
        0 <= fd < self.fds@.len() && self.fds@[fd].open_spec()
    }

    /// No descriptor and no handle is open.
    pub open spec fn all_closed(&self) -> bool {
        &&& forall|i: int| 0 <= i < MAX_FILES ==> !(#[trigger] self.fds@[i]).open_spec()
        &&& forall|i: int| 0 <= i < MAX_FILE_HANDLES ==> !(#[trigger] self.handles@[i]).open_spec()
    }

    pub fn empty() -> (r: Self)
        ensures
            r.wf(),
            r.all_closed(),
    {
        let r = FileTable {
            fds: filled_vec(FileDescriptor::closed(), MAX_FILES),
            handles: filled_vec(FileHandle::closed(), MAX_FILE_HANDLES),
        };
        proof {
            assert forall|h: int|
                0 <= h < MAX_FILE_HANDLES && (#[trigger] r.handles@[h]).open_spec() implies false by {}
        }
        r
    }

    /// Descriptors 0, 1 and 2 are console input, output and error, each on a
    /// handle of its own, and nothing else is open.
    pub open spec fn is_stdio(&self) -> bool {
        &&& self.lookup(0) == Some(FileHandle { object: FileObject::ConsoleIn, offset: 0, ref_count: 1, flags: 0 })
        &&& self.lookup(1) == Some(FileHandle { object: FileObject::ConsoleOut, offset: 0, ref_count: 1, flags: 0 })
        &&& self.lookup(2) == Some(FileHandle { object: FileObject::ConsoleErr, offset: 0, ref_count: 1, flags: 0 })
        &&& self.fds@[0].fd_flags == 0 && self.fds@[1].fd_flags == 0 && self.fds@[2].fd_flags == 0
        &&& forall|i: int| 3 <= i < MAX_FILES ==> !(#[trigger] self.fds@[i]).open_spec()
        &&& forall|i: int| 3 <= i < MAX_FILE_HANDLES ==> !(#[trigger] self.handles@[i]).open_spec()
    }

    /// A copy of this table: the same descriptors over the same handles.
    pub fn duplicate(&self) -> (r: Self)
        ensures
            r.fds@ == self.fds@,
            r.handles@ == self.handles@,
    {
        FileTable { fds: copy_vec(&self.fds), handles: copy_vec(&self.handles) }
    }

    /// A table whose descriptors 0, 1 and 2 are console input, output and error.
    pub fn with_stdio() -> (r: Self)
        ensures
            r.wf(),
            r.is_stdio(),
            r.lookup(0) == Some(FileHandle { object: FileObject::ConsoleIn, offset: 0, ref_count: 1, flags: 0 }),
            r.lookup(1) == Some(FileHandle { object: FileObject::ConsoleOut, offset: 0, ref_count: 1, flags: 0 }),
            r.lookup(2) == Some(FileHandle { object: FileObject::ConsoleErr, offset: 0, ref_count: 1, flags: 0 }),
            r.fds@[0].fd_flags == 0 && r.fds@[1].fd_flags == 0 && r.fds@[2].fd_flags == 0,
            forall|i: int| 3 <= i < MAX_FILES ==> !(#[trigger] r.fds@[i]).open_spec(),
            forall|i: int| 3 <= i < MAX_FILE_HANDLES ==> !(#[trigger] r.handles@[i]).open_spec(),
    {
        let mut fds = filled_vec(FileDescriptor::closed(), MAX_FILES);
        let mut handles = filled_vec(FileHandle::closed(), MAX_FILE_HANDLES);
        handles.set(0, FileHandle::new(FileObject::ConsoleIn, 0));
        handles.set(1, FileHandle::new(FileObject::ConsoleOut, 0));
        handles.set(2, FileHandle::new(FileObject::ConsoleErr, 0));
        fds.set(0, FileDescriptor::new(FileHandleId::new(0), 0));
        fds.set(1, FileDescriptor::new(FileHandleId::new(1), 0));
        fds.set(2, FileDescriptor::new(FileHandleId::new(2), 0));
        let r = FileTable { fds, handles };
        proof {
            assert forall|h: int|
                0 <= h < MAX_FILE_HANDLES && (#[trigger] r.handles@[h]).open_spec() implies r.handles@[h].ref_count
                >= 1 && r.handles@[h].ref_count >= fd_refs(r.fds@, h) by {
                lemma_fd_refs_single(r.fds@, h);
            }
        }
        r
    }

    pub fn get(&self, fd: usize) -> (r: Option<FileHandle>)
        requires
            self.wf(),
        ensures
            r == self.lookup(fd as int),
    {
        if fd >= self.fds.len() {
            return None;
        }
        let desc = self.fds[fd];
        if !desc.is_open() {
            return None;
        }
        self.handle(desc.handle)
    }

    pub fn fd_flags(&self, fd: usize) -> (r: Option<u32>)
        ensures
            r == if self.fd_open(fd as int) {
                Some(self.fds@[fd as int].fd_flags)
            } else {
                None
            },
    {
        if fd < self.fds.len() && self.fds[fd].is_open() {
            Some(self.fds[fd].fd_flags)
        } else {
            None
        }
    }

    pub fn set_fd_flags(&mut self, fd: usize, flags: u32) -> (r: Result<(), u32>)
        requires
            old(self).wf(),
        ensures
            final(self).wf(),
            set_fd_flags_post(*old(self), *final(self), fd, flags, r),
    {
        if fd >= self.fds.len() || !self.fds[fd].is_open() {
            return Err(EBADF);
        }
        let handle = self.fds[fd].handle;
        proof {
            let nd = FileDescriptor { handle, fd_flags: flags };
            assert forall|h: int| 0 <= h < MAX_FILE_HANDLES implies fd_refs(self.fds@.update(fd as int, nd), h) == fd_refs(self.fds@, h) by {
                lemma_fd_refs_update(self.fds@, fd as int, nd, h);
            }
        }
        self.fds.set(fd, FileDescriptor::new(handle, flags));
        Ok(())
    }

    /// Opens `object` on the lowest closed descriptor with a fresh handle.
    pub fn open(&mut self, object: FileObject, flags: u32, fd_flags: u32) -> (r: Result<usize, u32>)
        requires
            old(self).wf(),
            object != FileObject::Closed,
        ensures
            final(self).wf(),
            open_post(*old(self), *final(self), object, flags, fd_flags, r),
    {
        let fd = match self.find_closed_fd(0) {
            Some(fd) => fd,
            None => {
                return Err(EMFILE);
            },
        };
        let ghost h0 = first_closed_handle(old(self).handles@);
        let handle = match self.alloc_handle(object, flags) {
            Ok(handle) => handle,
            Err(e) => {
                return Err(e);
            },
        };
        let ghost h = handle.0 as int;
        proof {
            assert forall|i: int| 0 <= i < MAX_FILES implies !refers(#[trigger] old(self).fds@[i], h) by {
                if refers(old(self).fds@[i], h) {
                    assert(old(self).handles@[h].open_spec());
                }
            }
            lemma_fd_refs_zero(old(self).fds@, h);
            let nd = FileDescriptor { handle, fd_flags };
            assert forall|k: int| 0 <= k < MAX_FILE_HANDLES implies fd_refs(self.fds@.update(fd as int, nd), k)
                == fd_refs(self.fds@, k) + (if k == h { 1int } else { 0int }) by {
                lemma_fd_refs_update(self.fds@, fd as int, nd, k);
            }
        }
        self.fds.set(fd, FileDescriptor::new(handle, fd_flags));
        Ok(fd)
    }

    /// Duplicates `old_fd` onto the lowest closed descriptor at or after `min_fd`.
    pub fn duplicate_from(&mut self, old_fd: usize, min_fd: usize, fd_flags: u32) -> (r: Result<
        usize,
        u32,
    >)
        requires
            old(self).wf(),
        ensures
            final(self).wf(),
            duplicate_from_post(*old(self), *final(self), old_fd, min_fd, fd_flags, r),
    {
        if old_fd >= self.fds.len() {
            return Err(EBADF);
        }
        let src = self.fds[old_fd];
        if !src.is_open() {
            return Err(EBADF);
        }
        let fd = match self.find_closed_fd(min_fd) {
            Some(fd) => fd,
            None => {
                return Err(EMFILE);
            },
        };
        match self.inc_ref(src.handle) {
            Ok(()) => {},
            Err(e) => {
                return Err(e);
            },
        }
        proof {
            let nd = FileDescriptor { handle: src.handle, fd_flags };
            assert forall|k: int| 0 <= k < MAX_FILE_HANDLES implies fd_refs(self.fds@.update(fd as int, nd), k)
                == fd_refs(self.fds@, k) + (if k == src.handle.0 { 1int } else { 0int }) by {
                lemma_fd_refs_update(self.fds@, fd as int, nd, k);
            }
        }
        self.fds.set(fd, FileDescriptor::new(src.handle, fd_flags));
        Ok(fd)
    }

    /// Makes `new_fd` refer to the handle of `old_fd`, closing what `new_fd` held.
    /// A closed `new_fd` is refused with `EBADF` after the handle of `old_fd`
    /// has gained its extra reference.
    pub fn duplicate_to(&mut self, old_fd: usize, new_fd: usize, fd_flags: u32) -> (r: Result<
        Option<FileObject>,
        u32,
    >)
        requires
            old(self).wf(),
        ensures
            final(self).wf(),
            duplicate_to_post(*old(self), *final(self), old_fd, new_fd, fd_flags, r),
    {
        if old_fd >= MAX_FILES || new_fd >= MAX_FILES {
            return Err(EBADF);
        }
        let src = self.fds[old_fd];
        if !src.is_open() {
            return Err(EBADF);
        }
        if old_fd == new_fd {
            proof {
                let nd = FileDescriptor { handle: src.handle, fd_flags };
                assert forall|k: int| 0 <= k < MAX_FILE_HANDLES implies fd_refs(self.fds@.update(new_fd as int, nd), k)
                    == fd_refs(self.fds@, k) by {
                    lemma_fd_refs_update(self.fds@, new_fd as int, nd, k);
                }
            }
            self.fds.set(new_fd, FileDescriptor::new(src.handle, fd_flags));
            return Ok(None);
        }
        match self.inc_ref(src.handle) {
            Ok(()) => {},
            Err(e) => {
                return Err(e);
            },
        }
        let closed = match self.detach_fd(new_fd) {
            Ok(c) => c,
            Err(e) => {
                return Err(e);
            },
        };
        proof {
            let nd = FileDescriptor { handle: src.handle, fd_flags };
            let h = src.handle.0 as int;
            lemma_fd_refs_update(old(self).fds@, new_fd as int, FileDescriptor::closed_spec(), h);
            assert forall|k: int| 0 <= k < MAX_FILE_HANDLES implies fd_refs(self.fds@.update(new_fd as int, nd), k)
                == fd_refs(self.fds@, k) + (if k == src.handle.0 { 1int } else { 0int }) by {
                lemma_fd_refs_update(self.fds@, new_fd as int, nd, k);
            }
            assert(self.fds@.update(new_fd as int, nd) =~= old(self).fds@.update(new_fd as int, nd));
            assert(self.handles@[h].open_spec());
            assert(self.handles@[h].ref_count >= fd_refs(self.fds@, h) + 1);
        }
        self.fds.set(new_fd, FileDescriptor::new(src.handle, fd_flags));
        Ok(closed)
    }

    /// Closes descriptor `fd`, releasing its handle with the last reference.
    pub fn close(&mut self, fd: usize) -> (r: Result<Option<FileObject>, u32>)
        requires
            old(self).wf(),
        ensures
            final(self).wf(),
            close_post(*old(self), *final(self), fd, r),
    {
        if fd >= MAX_FILES || !self.fds[fd].is_open() {
            return Err(EBADF);
        }
        self.detach_fd(fd)
    }

    /// Closes every descriptor that `all` or its close-on-exec flag selects, in
    /// descriptor order, and lists the objects whose last reference went away.
    fn close_matching(&mut self, all: bool) -> (r: ClosedFiles)
        requires
            old(self).wf(),
        ensures
            final(self).wf(),
            final(self).fds@ == Seq::new(
                MAX_FILES as nat,
                |j: int|
                    if closes(old(self).fds@[j], all) {
                        FileDescriptor::closed_spec()
                    } else {
                        old(self).fds@[j]
                    },
            ),
            forall|h: int|
                0 <= h < MAX_FILE_HANDLES ==> #[trigger] final(self).handles@[h] == after_closing(
                    old(self).handles@[h],
                    closing_refs(old(self).fds@, h, all),
                ),
            r.objects@ == closed_objects(old(self).fds@, old(self).handles@, all, MAX_FILES as nat),
    {
        let mut closed = ClosedFiles::new();
        let ghost ofds = self.fds@;
        let ghost ohs = self.handles@;
        let mut fd: usize = 0;
        assert(self.fds@ =~= Seq::new(
            MAX_FILES as nat,
            |j: int| if j < 0 && closes(ofds[j], all) { FileDescriptor::closed_spec() } else { ofds[j] },
        ));
        proof {
            assert forall|h: int| 0 <= h < MAX_FILE_HANDLES implies #[trigger] self.handles@[h] == after_closing(
                ohs[h],
                closing_refs(ofds.subrange(0, 0), h, all),
            ) by {
                assert(ofds.subrange(0, 0).len() == 0);
            }
        }
        while fd < MAX_FILES
            invariant
                fd <= MAX_FILES,
                old(self).wf(),
                ofds == old(self).fds@,
                ohs == old(self).handles@,
                self.wf(),
                self.fds@ == Seq::new(
                    MAX_FILES as nat,
                    |j: int|
                        if j < fd && closes(ofds[j], all) {
                            FileDescriptor::closed_spec()
                        } else {
                            ofds[j]
                        },
                ),
                forall|h: int|
                    0 <= h < MAX_FILE_HANDLES ==> #[trigger] self.handles@[h] == after_closing(
                        ohs[h],
                        closing_refs(ofds.subrange(0, fd as int), h, all),
                    ),
                closed.objects@ == closed_objects(ofds, ohs, all, fd as nat),
                closed.objects@.len() <= fd,
            decreases MAX_FILES - fd,
        {
            let ghost prefix = ofds.subrange(0, fd as int);
            let ghost next = ofds.subrange(0, fd + 1);
            assert(next.drop_last() =~= prefix);
            let d = self.fds[fd];
            if d.is_open() && (all || d.close_on_exec()) {
                let ghost h = d.handle.0 as int;
                proof {
                    assert(d == ofds[fd as int]);
                    lemma_closing_refs_prefix(ofds, fd + 1, h, all);
                    lemma_closing_refs_le(ofds, h, all);
                    assert(ohs[h].open_spec()) by {
                        assert(old(self).handles@[h].open_spec());
                    }
                    lemma_fd_refs_update(self.fds@, fd as int, FileDescriptor::closed_spec(), h);
                }
                let res = self.detach_fd(fd);
                match res {
                    Ok(Some(object)) => {
                        closed.push(object);
                    },
                    _ => {},
                }
                proof {
                    assert forall|k: int| 0 <= k < MAX_FILE_HANDLES implies #[trigger] self.handles@[k]
                        == after_closing(ohs[k], closing_refs(next, k, all)) by {
                        if k != h {
                            assert(closing_refs(next, k, all) == closing_refs(prefix, k, all));
                        }
                    }
                }
            } else {
                proof {
                    assert forall|k: int| 0 <= k < MAX_FILE_HANDLES implies #[trigger] self.handles@[k]
                        == after_closing(ohs[k], closing_refs(next, k, all)) by {
                        assert(closing_refs(next, k, all) == closing_refs(prefix, k, all));
                    }
                }
            }
            fd += 1;
            proof {
                assert(self.fds@ =~= Seq::new(
                    MAX_FILES as nat,
                    |j: int| if j < fd && closes(ofds[j], all) { FileDescriptor::closed_spec() } else { ofds[j] },
                ));
            }
        }
        proof {
            assert(ofds.subrange(0, MAX_FILES as int) =~= ofds);
        }
        closed
    }

    /// Closes the descriptors marked close-on-exec.
    pub fn close_on_exec(&mut self) -> (r: ClosedFiles)
        requires
            old(self).wf(),
        ensures
            final(self).wf(),
            closing_post(*old(self), *final(self), false, r),
    {
        self.close_matching(false)
    }

    /// Closes every open descriptor.
    pub fn close_all(&mut self) -> (r: ClosedFiles)
        requires
            old(self).wf(),
        ensures
            final(self).wf(),
            closing_post(*old(self), *final(self), true, r),
    {
        self.close_matching(true)
    }

    /// The number of open descriptors.
    pub fn open_count(&self) -> (r: usize)
        requires
            self.fds@.len() <= MAX_FILES,
        ensures
            r == open_fd_count(self.fds@),
    {
        let mut count: usize = 0;
        let mut i: usize = 0;
        while i < self.fds.len()
            invariant
                i <= self.fds@.len() <= MAX_FILES,
                count == open_fd_count(self.fds@.subrange(0, i as int)),
                count <= i,
            decreases self.fds.len() - i,
        {
            assert(self.fds@.subrange(0, i + 1).drop_last() =~= self.fds@.subrange(0, i as int));
            if self.fds[i].is_open() {
                count += 1;
            }
            i += 1;
        }
        assert(self.fds@.subrange(0, i as int) =~= self.fds@);
        count
    }

    /// The objects of all open handles, in handle order.
    pub fn for_each_open_object(&self) -> (r: Vec<FileObject>)
        ensures
            r@ == open_objects(self.handles@),
    {
        let mut out: Vec<FileObject> = Vec::new();
        let mut i: usize = 0;
        while i < self.handles.len()
            invariant
                i <= self.handles@.len(),
                out@ == open_objects(self.handles@.subrange(0, i as int)),
            decreases self.handles.len() - i,
        {
            assert(self.handles@.subrange(0, i + 1).drop_last() =~= self.handles@.subrange(0, i as int));
            if self.handles[i].is_open() {
                out.push(self.handles[i].object);
            }
            i += 1;
        }
        assert(self.handles@.subrange(0, i as int) =~= self.handles@);
        out
    }

    /// Mutable access to the handle that descriptor `fd` refers to.
    pub fn get_mut(&mut self, fd: usize) -> (r: Option<&mut FileHandle>)
        requires
            old(self).wf(),
        ensures
            final(self).fds@ == old(self).fds@,
            match r {
                None => old(self).lookup(fd as int) == None::<FileHandle> && final(self).handles@
                    == old(self).handles@,
                Some(_) => old(self).lookup(fd as int) == Some(*r.unwrap()) && final(self).handles@
                    == old(self).handles@.update(
                    old(self).fds@[fd as int].handle.0 as int,
                    *final(r.unwrap()),
                ),
            },
    {
        if fd >= self.fds.len() || !self.fds[fd].is_open() {
            return None;
        }
        let h = self.fds[fd].handle.0;
        if h >= self.handles.len() || !self.handles[h].is_open() {
            return None;
        }
        Some(&mut self.handles[h])
    }

    /// Finds the first closed descriptor at or after `from`.
    fn find_closed_fd(&self, from: usize) -> (r: Option<usize>)
        ensures
            match r {
                Some(i) => first_closed_fd(self.fds@, from as int) == Some(i as int),
                None => first_closed_fd(self.fds@, from as int) == None::<int>,
            },
    {
        let mut i = from;
        while i < self.fds.len()
            invariant
                from <= i,
                forall|j: int| from <= j < i && j < self.fds@.len() ==> (#[trigger] self.fds@[j]).open_spec(),
            decreases self.fds.len() - i,
        {
            if !self.fds[i].is_open() {
                let ghost w = choose|k: int|
                    from <= k < self.fds@.len() && 0 <= k && !(#[trigger] self.fds@[k]).open_spec()
                        && forall|j: int| from <= j < k && 0 <= j ==> (#[trigger] self.fds@[j]).open_spec();
                assert(from <= i < self.fds@.len() && !self.fds@[i as int].open_spec() && forall|j: int|
                    from <= j < i && 0 <= j ==> (#[trigger] self.fds@[j]).open_spec());
                proof {
                    if w < i {
                        assert(self.fds@[w].open_spec());
                    }
                    if w > i {
                        assert(self.fds@[i as int].open_spec());
                    }
                }
                return Some(i);
            }
            i += 1;
        }
        None
    }

    /// Claims the first closed handle for `object`.
    fn alloc_handle(&mut self, object: FileObject, flags: u32) -> (r: Result<FileHandleId, u32>)
        requires
            old(self).wf(),
            object != FileObject::Closed,
        ensures
            final(self).fds@ == old(self).fds@,
            match first_closed_handle(old(self).handles@) {
                Some(h) => r == Ok::<FileHandleId, u32>(FileHandleId(h as usize)) && final(self).handles@
                    == old(self).handles@.update(h, FileHandle { object, offset: 0, ref_count: 1, flags }),
                None => r == Err::<FileHandleId, u32>(EMFILE) && final(self).handles@ == old(
                    self,
                ).handles@,
            },
    {
        let mut i: usize = 0;
        while i < self.handles.len()
            invariant
                self.handles@.len() == MAX_FILE_HANDLES,
                i <= self.handles@.len(),
                forall|j: int| 0 <= j < i ==> (#[trigger] self.handles@[j]).open_spec(),
                self.fds@ == old(self).fds@,
                self.handles@ == old(self).handles@,
            decreases self.handles.len() - i,
        {
            if !self.handles[i].is_open() {
                let ghost w = choose|k: int|
                    0 <= k < self.handles@.len() && !(#[trigger] self.handles@[k]).open_spec()
                        && forall|j: int| 0 <= j < k ==> (#[trigger] self.handles@[j]).open_spec();
                assert(0 <= i < self.handles@.len() && !self.handles@[i as int].open_spec() && forall|j: int|
                    0 <= j < i ==> (#[trigger] self.handles@[j]).open_spec());
                proof {
                    if w < i {
                        assert(self.handles@[w].open_spec());
                    }
                    if w > i {
                        assert(self.handles@[i as int].open_spec());
                    }
                }
                self.handles.set(i, FileHandle::new(object, flags));
                return Ok(FileHandleId::new(i));
            }
            i += 1;
        }
        Err(EMFILE)
    }

    /// Adds a reference to an open handle.
    fn inc_ref(&mut self, handle: FileHandleId) -> (r: Result<(), u32>)
        ensures
            final(self).fds@ == old(self).fds@,
            if handle.0 < old(self).handles@.len() && old(self).handles@[handle.0 as int].open_spec() {
                let old_h = old(self).handles@[handle.0 as int];
                if old_h.ref_count < u16::MAX {
                    r == Ok::<(), u32>(()) && final(self).handles@ == old(self).handles@.update(
                        handle.0 as int,
                        FileHandle { ref_count: (old_h.ref_count + 1) as u16, ..old_h },
                    )
                } else {
                    r == Err::<(), u32>(EMFILE) && final(self).handles@ == old(self).handles@
                }
            } else {
                r == Err::<(), u32>(EBADF) && final(self).handles@ == old(self).handles@
            },
    {
        if handle.0 >= self.handles.len() || !self.handles[handle.0].is_open() {
            return Err(EBADF);
        }
        let file = self.handles[handle.0];
        match file.ref_count.checked_add(1) {
            Some(count) => {
                self.handles.set(handle.0, FileHandle { ref_count: count, ..file });
                Ok(())
            },
            None => Err(EMFILE),
        }
    }

    /// Closes descriptor `fd`; the handle is released with its last reference.
    fn detach_fd(&mut self, fd: usize) -> (r: Result<Option<FileObject>, u32>)
        requires
            old(self).wf(),
        ensures
            final(self).wf(),
            !old(self).fd_open(fd as int) ==> r == Err::<Option<FileObject>, u32>(EBADF) && final(self).fds@
                == old(self).fds@ && final(self).handles@ == old(self).handles@,
            old(self).fd_open(fd as int) ==> ({
                let h = old(self).fds@[fd as int].handle.0 as int;
                let oh = old(self).handles@[h];
                &&& final(self).fds@ == old(self).fds@.update(fd as int, FileDescriptor::closed_spec())
                &&& if oh.ref_count > 1 {
                    r == Ok::<Option<FileObject>, u32>(None) && final(self).handles@ == old(self).handles@.update(
                        h,
                        FileHandle { ref_count: (oh.ref_count - 1) as u16, ..oh },
                    )
                } else {
                    r == Ok::<Option<FileObject>, u32>(Some(oh.object)) && final(self).handles@ == old(
                        self,
                    ).handles@.update(h, FileHandle::closed_spec())
                }
            }),
    {
        if fd >= self.fds.len() || !self.fds[fd].is_open() {
            return Err(EBADF);
        }
        let handle = self.fds[fd].handle;
        let ghost h = handle.0 as int;
        proof {
            assert forall|k: int| 0 <= k < MAX_FILE_HANDLES implies fd_refs(self.fds@.update(fd as int, FileDescriptor::closed_spec()), k)
                + (if k == h { 1int } else { 0int }) == fd_refs(self.fds@, k) by {
                lemma_fd_refs_update(self.fds@, fd as int, FileDescriptor::closed_spec(), k);
            }
        }
        self.fds.set(fd, FileDescriptor::closed());
        let file = self.handles[handle.0];
        if file.ref_count > 1 {
            self.handles.set(handle.0, FileHandle { ref_count: file.ref_count - 1, ..file });
            return Ok(None);
        }
        let object = file.object;
        proof {
            lemma_fd_refs_zero(self.fds@, h);
        }
        self.handles.set(handle.0, FileHandle::closed());
        Ok(Some(object))
    }

    fn handle(&self, handle: FileHandleId) -> (r: Option<FileHandle>)
        ensures
            r == if handle.0 < self.handles@.len() && self.handles@[handle.0 as int].open_spec() {
                Some(self.handles@[handle.0 as int])
            } else {
                None
            },
    {
        if handle.0 < self.handles.len() && self.handles[handle.0].is_open() {
            Some(self.handles[handle.0])
        } else {
            None
        }
    }
}

/// A sequence holding at most one reference to each handle, at its own index.
proof fn lemma_fd_refs_single(fds: Seq<FileDescriptor>, h: int)
    requires
        forall|i: int| 0 <= i < fds.len() && (#[trigger] fds[i]).open_spec() ==> fds[i].handle.0 == i,
    ensures
        fd_refs(fds, h) <= 1,
    decreases fds.len(),
{
    if fds.len() > 0 {
        let init = fds.drop_last();
        assert forall|i: int| 0 <= i < init.len() && (#[trigger] init[i]).open_spec() implies init[i].handle.0 == i by {
            assert(init[i] == fds[i]);
        }
        lemma_fd_refs_single(init, h);
        if refers(fds.last(), h) {
            assert(h == fds.len() - 1);
            assert forall|i: int| 0 <= i < init.len() implies !refers(#[trigger] init[i], h) by {
                assert(init[i] == fds[i]);
            }
            lemma_fd_refs_zero(init, h);
        }
    }
}


/// The address space of a process: page-table ownership, owned memory and its areas.
pub struct AddressSpace {
    pub kind: AddressSpaceKind,
    pub page_table_root: PhysAddr,
    pub asid: u16,
    pub l1_pages: usize,
    pub owned_l2: Vec<PhysAddr>,
    pub owned_regions: Vec<UserRegion>,
    pub vmas: Vec<VmArea>,
    pub entry: VirtAddr,
    pub user_start: VirtAddr,
    pub user_end: VirtAddr,
    pub brk_start: VirtAddr,
    pub brk: VirtAddr,
    pub mmap_base: VirtAddr,
    pub mmap_next: VirtAddr,
    pub phdr: VirtAddr,
    pub phnum: usize,
    pub phent: usize,
    pub interp_base: VirtAddr,
    pub interp_entry: VirtAddr,
    pub stack_bottom: VirtAddr,
    pub stack_top: VirtAddr,
}

/// The first byte past region `r`.
pub open spec fn region_end(r: UserRegion) -> int {
    r.virt.0 + r.pages * PAGE_SIZE
}

/// Both ends of region `r` fit in the address width.
pub open spec fn region_fits(r: UserRegion) -> bool {
    region_end(r) <= usize::MAX && r.phys.0 + r.pages * PAGE_SIZE <= usize::MAX
}

/// The first region that holds all of `[lo, hi)`.
pub open spec fn first_within(s: Seq<UserRegion>, lo: int, hi: int) -> Option<int> {
    if exists|i: int| 0 <= i < s.len() && (#[trigger] s[i]).virt.0 <= lo && hi <= region_end(s[i]) {
        Some(
            choose|i: int|
                0 <= i < s.len() && (#[trigger] s[i]).virt.0 <= lo && hi <= region_end(s[i]) && forall|j: int|
                    0 <= j < i ==> !((#[trigger] s[j]).virt.0 <= lo && hi <= region_end(s[j])),
        )
    } else {
        None
    }
}

/// The region that `first_within` picks holds the whole range.
proof fn lemma_first_within(s: Seq<UserRegion>, lo: int, hi: int)
    ensures
        first_within(s, lo, hi) matches Some(i) ==> 0 <= i < s.len() && s[i].virt.0 <= lo && hi <= region_end(
            s[i],
        ),
{
    if exists|i: int| 0 <= i < s.len() && (#[trigger] s[i]).virt.0 <= lo && hi <= region_end(s[i]) {
        let w = choose|i: int| 0 <= i < s.len() && (#[trigger] s[i]).virt.0 <= lo && hi <= region_end(s[i]);
        lemma_first_index_exists(s, lo, hi, w);
    }
}

proof fn lemma_first_index_exists(s: Seq<UserRegion>, lo: int, hi: int, w: int)
    requires
        0 <= w < s.len(),
        s[w].virt.0 <= lo && hi <= region_end(s[w]),
    ensures
        exists|i: int|
            0 <= i < s.len() && (#[trigger] s[i]).virt.0 <= lo && hi <= region_end(s[i]) && forall|j: int|
                0 <= j < i ==> !((#[trigger] s[j]).virt.0 <= lo && hi <= region_end(s[j])),
    decreases w,
{
    if exists|j: int| 0 <= j < w && (#[trigger] s[j]).virt.0 <= lo && hi <= region_end(s[j]) {
        let j = choose|j: int| 0 <= j < w && (#[trigger] s[j]).virt.0 <= lo && hi <= region_end(s[j]);
        lemma_first_index_exists(s, lo, hi, j);
    }
}

/// Exchanging two entries keeps the multiset of a sequence.
proof fn lemma_swap_to_multiset<A>(s: Seq<A>, i: int, j: int)
    requires
        0 <= i < s.len(),
        0 <= j < s.len(),
    ensures
        s.update(i, s[j]).update(j, s[i]).to_multiset() == s.to_multiset(),
{
    broadcast use vstd::multiset::group_multiset_axioms, vstd::seq_lib::to_multiset_contains;

    let s1 = s.update(i, s[j]);
    vstd::seq_lib::to_multiset_update(s, i, s[j]);
    vstd::seq_lib::to_multiset_update(s1, j, s[i]);
    assert(s.to_multiset().contains(s[i]));
    if i == j {
        assert(s1.update(j, s[i]) =~= s);
    } else {
        assert(s1[j] == s[j]);
        assert(s.to_multiset().insert(s[j]).remove(s[i]).insert(s[i]).remove(s[j]) =~= s.to_multiset());
    }
}

/// Regions in order of their virtual address.
pub open spec fn regions_sorted(s: Seq<UserRegion>) -> bool {
    forall|p: int, q: int| 0 <= p < q < s.len() ==> (#[trigger] s[p]).virt.0 <= (#[trigger] s[q]).virt.0
}

/// No area straddles `y`.
pub open spec fn no_straddle(s: Seq<VmArea>, y: int) -> bool {
    forall|i: int| 0 <= i < s.len() ==> !straddles(#[trigger] s[i], y)
}

/// The index of the first area whose start lies beyond `x`, where `x` is to be inserted.
pub open spec fn insert_pos(s: Seq<VmArea>, x: int) -> int {
    if exists|i: int| 0 <= i < s.len() && (#[trigger] s[i]).start.0 > x {
        choose|i: int|
            0 <= i < s.len() && (#[trigger] s[i]).start.0 > x && forall|j: int|
                0 <= j < i ==> (#[trigger] s[j]).start.0 <= x
    } else {
        s.len() as int
    }
}

/// The first area with exactly the bounds `[start, end)`.
pub open spec fn exact_pos(s: Seq<VmArea>, start: int, end: int) -> Option<int> {
    if exists|i: int| 0 <= i < s.len() && (#[trigger] s[i]).start.0 == start && s[i].end.0 == end {
        Some(
            choose|i: int|
                0 <= i < s.len() && (#[trigger] s[i]).start.0 == start && s[i].end.0 == end && forall|
                    j: int,
                | 0 <= j < i ==> !((#[trigger] s[j]).start.0 == start && s[j].end.0 == end),
        )
    } else {
        None
    }
}

/// Whether the area covering `a` grants the access `write` asks for.
pub open spec fn grants(s: Seq<VmArea>, a: int, write: bool) -> bool {
    match vma_at(s, a) {
        Some(v) => if write {
            v.flags & VM_WRITE != 0
        } else {
            v.flags & VM_READ != 0
        },
        None => false,
    }
}

impl AddressSpace {
    /// Bounded tables and a well-formed list of areas.
    pub open spec fn wf(&self) -> bool {
        &&& self.owned_l2@.len() <= MAX_ADDRESS_SPACE_L2
        &&& self.owned_regions@.len() <= MAX_ADDRESS_SPACE_REGIONS
        &&& self.vmas@.len() <= MAX_VMAS
        &&& vmas_wf(self.vmas@)
        &&& forall|i: int| 0 <= i < self.owned_regions@.len() ==> region_fits(#[trigger] self.owned_regions@[i])
    }

    /// The fields that the area operations leave alone.
    pub open spec fn same_except_vmas(&self, other: &AddressSpace) -> bool {
        &&& self.kind == other.kind
        &&& self.page_table_root == other.page_table_root
        &&& self.asid == other.asid
        &&& self.l1_pages == other.l1_pages
        &&& self.owned_l2@ == other.owned_l2@
        &&& self.owned_regions@ == other.owned_regions@
        &&& self.entry == other.entry
        &&& self.user_start == other.user_start
        &&& self.user_end == other.user_end
        &&& self.brk_start == other.brk_start
        &&& self.brk == other.brk
        &&& self.mmap_base == other.mmap_base
        &&& self.mmap_next == other.mmap_next
        &&& self.phdr == other.phdr
        &&& self.phnum == other.phnum
        &&& self.phent == other.phent
        &&& self.interp_base == other.interp_base
        &&& self.interp_entry == other.interp_entry
        &&& self.stack_bottom == other.stack_bottom
        &&& self.stack_top == other.stack_top
    }

    /// A copy of this address space with the same fields and areas.
    pub fn duplicate(&self) -> (r: Self)
        ensures
            r.same_except_vmas(self),
            r.vmas@ == self.vmas@,
    {
        AddressSpace {
            kind: self.kind,
            page_table_root: self.page_table_root,
            asid: self.asid,
            l1_pages: self.l1_pages,
            owned_l2: copy_vec(&self.owned_l2),
            owned_regions: copy_vec(&self.owned_regions),
            vmas: copy_vec(&self.vmas),
            entry: self.entry,
            user_start: self.user_start,
            user_end: self.user_end,
            brk_start: self.brk_start,
            brk: self.brk,
            mmap_base: self.mmap_base,
            mmap_next: self.mmap_next,
            phdr: self.phdr,
            phnum: self.phnum,
            phent: self.phent,
            interp_base: self.interp_base,
            interp_entry: self.interp_entry,
            stack_bottom: self.stack_bottom,
            stack_top: self.stack_top,
        }
    }

    /// The kernel's own address space rooted at `page_table_root`.
    pub fn kernel(page_table_root: PhysAddr) -> (r: Self)
        ensures
            r.wf(),
            r.kind == AddressSpaceKind::Kernel,
            r.page_table_root == page_table_root,
            r.asid == 0 && r.l1_pages == 0,
            r.owned_l2@.len() == 0 && r.owned_regions@.len() == 0 && r.vmas@.len() == 0,
            r.entry.0 == 0 && r.user_start.0 == 0 && r.user_end.0 == 0 && r.brk_start.0 == 0
                && r.brk.0 == 0 && r.mmap_base.0 == 0 && r.mmap_next.0 == 0 && r.phdr.0 == 0
                && r.phnum == 0 && r.phent == 0 && r.interp_base.0 == 0 && r.interp_entry.0 == 0
                && r.stack_bottom.0 == 0 && r.stack_top.0 == 0,
    {
        AddressSpace {
            kind: AddressSpaceKind::Kernel,
            page_table_root,
            asid: 0,
            l1_pages: 0,
            owned_l2: Vec::new(),
            owned_regions: Vec::new(),
            vmas: Vec::new(),
            entry: VirtAddr(0),
            user_start: VirtAddr(0),
            user_end: VirtAddr(0),
            brk_start: VirtAddr(0),
            brk: VirtAddr(0),
            mmap_base: VirtAddr(0),
            mmap_next: VirtAddr(0),
            phdr: VirtAddr(0),
            phnum: 0,
            phent: 0,
            interp_base: VirtAddr(0),
            interp_entry: VirtAddr(0),
            stack_bottom: VirtAddr(0),
            stack_top: VirtAddr(0),
        }
    }

    /// A fresh user address space with the mmap cursor at `USER_MMAP_BASE`.
    pub fn user(
        page_table_root: PhysAddr,
        asid: u16,
        l1_pages: usize,
        entry: VirtAddr,
        user_start: VirtAddr,
        user_end: VirtAddr,
        stack_bottom: VirtAddr,
        stack_top: VirtAddr,
    ) -> (r: Self)
        ensures
            r.wf(),
            r.kind == AddressSpaceKind::User,
            r.page_table_root == page_table_root,
            r.asid == asid && r.l1_pages == l1_pages,
            r.owned_l2@.len() == 0 && r.owned_regions@.len() == 0 && r.vmas@.len() == 0,
            r.entry == entry && r.user_start == user_start && r.user_end == user_end,
            r.stack_bottom == stack_bottom && r.stack_top == stack_top,
            r.brk_start.0 == 0 && r.brk.0 == 0 && r.phdr.0 == 0 && r.phnum == 0 && r.phent == 0
                && r.interp_base.0 == 0 && r.interp_entry.0 == 0,
            r.mmap_base.0 == USER_MMAP_BASE && r.mmap_next.0 == USER_MMAP_BASE,
    {
        AddressSpace {
            kind: AddressSpaceKind::User,
            page_table_root,
            asid,
            l1_pages,
            owned_l2: Vec::new(),
            owned_regions: Vec::new(),
            vmas: Vec::new(),
            entry,
            user_start,
            user_end,
            brk_start: VirtAddr(0),
            brk: VirtAddr(0),
            mmap_base: VirtAddr(USER_MMAP_BASE),
            mmap_next: VirtAddr(USER_MMAP_BASE),
            phdr: VirtAddr(0),
            phnum: 0,
            phent: 0,
            interp_base: VirtAddr(0),
            interp_entry: VirtAddr(0),
            stack_bottom,
            stack_top,
        }
    }

    /// Records ownership of a second-level table; a zero address is ignored.
    pub fn try_add_owned_l2(&mut self, table: PhysAddr) -> (r: Result<(), u32>)
        requires
            old(self).wf(),
        ensures
            final(self).wf(),
            final(self).same_except_vmas(old(self)) || final(self).owned_l2@ != old(self).owned_l2@,
            final(self).vmas@ == old(self).vmas@,
            final(self).owned_regions@ == old(self).owned_regions@,
            table.0 == 0 ==> r == Ok::<(), u32>(()) && final(self).owned_l2@ == old(self).owned_l2@,
            table.0 != 0 && old(self).owned_l2@.len() >= MAX_ADDRESS_SPACE_L2 ==> r == Err::<(), u32>(ENOMEM)
                && final(self).owned_l2@ == old(self).owned_l2@,
            table.0 != 0 && old(self).owned_l2@.len() < MAX_ADDRESS_SPACE_L2 ==> r == Ok::<(), u32>(())
                && final(self).owned_l2@ == old(self).owned_l2@.push(table),
    {
        if table.0 == 0 {
            return Ok(());
        }
        if self.owned_l2.len() >= MAX_ADDRESS_SPACE_L2 {
            return Err(ENOMEM);
        }
        self.owned_l2.push(table);
        Ok(())
    }

    /// Records ownership of a second-level table, which must fit.
    pub fn add_owned_l2(&mut self, table: PhysAddr)
        requires
            old(self).wf(),
            table.0 == 0 || old(self).owned_l2@.len() < MAX_ADDRESS_SPACE_L2,
        ensures
            final(self).wf(),
            final(self).vmas@ == old(self).vmas@,
            final(self).owned_regions@ == old(self).owned_regions@,
            final(self).owned_l2@ == if table.0 == 0 {
                old(self).owned_l2@
            } else {
                old(self).owned_l2@.push(table)
            },
    {
        let _ = self.try_add_owned_l2(table);
    }

    /// Records ownership of `pages` pages at `virt` backed at `phys`; an empty run is ignored.
    pub fn try_add_owned_region(&mut self, virt: VirtAddr, phys: PhysAddr, pages: usize) -> (r: Result<
        (),
        u32,
    >)
        requires
            old(self).wf(),
            region_fits(UserRegion { virt, phys, pages }),
        ensures
            final(self).wf(),
            final(self).vmas@ == old(self).vmas@,
            final(self).owned_l2@ == old(self).owned_l2@,
            pages == 0 ==> r == Ok::<(), u32>(()) && final(self).owned_regions@ == old(self).owned_regions@,
            pages != 0 && old(self).owned_regions@.len() >= MAX_ADDRESS_SPACE_REGIONS ==> r == Err::<
                (),
                u32,
            >(ENOMEM) && final(self).owned_regions@ == old(self).owned_regions@,
            pages != 0 && old(self).owned_regions@.len() < MAX_ADDRESS_SPACE_REGIONS ==> r == Ok::<
                (),
                u32,
            >(()) && final(self).owned_regions@ == old(self).owned_regions@.push(
                UserRegion { virt, phys, pages },
            ),
    {
        if pages == 0 {
            return Ok(());
        }
        if self.owned_regions.len() >= MAX_ADDRESS_SPACE_REGIONS {
            return Err(ENOMEM);
        }
        self.owned_regions.push(UserRegion { virt, phys, pages });
        Ok(())
    }

    /// Records an owned run of pages, which must fit.
    pub fn add_owned_region(&mut self, virt: VirtAddr, phys: PhysAddr, pages: usize)
        requires
            old(self).wf(),
            region_fits(UserRegion { virt, phys, pages }),
            pages == 0 || old(self).owned_regions@.len() < MAX_ADDRESS_SPACE_REGIONS,
        ensures
            final(self).wf(),
            final(self).vmas@ == old(self).vmas@,
            final(self).owned_l2@ == old(self).owned_l2@,
            final(self).owned_regions@ == if pages == 0 {
                old(self).owned_regions@
            } else {
                old(self).owned_regions@.push(UserRegion { virt, phys, pages })
            },
    {
        let _ = self.try_add_owned_region(virt, phys, pages);
    }

    /// The first region holding all of `[lo, hi)`.
    fn find_region_within(&self, lo: usize, hi: usize) -> (r: Option<usize>)
        requires
            self.wf(),
        ensures
            match r {
                Some(i) => i < self.owned_regions@.len() && first_within(self.owned_regions@, lo as int, hi as int)
                    == Some(i as int),
                None => first_within(self.owned_regions@, lo as int, hi as int) == None::<int>,
            },
    {
        let ghost s = self.owned_regions@;
        let mut i: usize = 0;
        while i < self.owned_regions.len()
            invariant
                i <= s.len(),
                s == self.owned_regions@,
                self.wf(),
                forall|j: int| 0 <= j < i ==> !((#[trigger] s[j]).virt.0 <= lo && hi <= region_end(s[j])),
            decreases self.owned_regions.len() - i,
        {
            let region = self.owned_regions[i];
            assert(region_fits(s[i as int]));
            let reg_end = region.virt.0 + region.pages * PAGE_SIZE;
            if region.virt.0 <= lo && hi <= reg_end {
                let ghost w = choose|k: int|
                    0 <= k < s.len() && (#[trigger] s[k]).virt.0 <= lo && hi <= region_end(s[k]) && forall|j: int|
                        0 <= j < k ==> !((#[trigger] s[j]).virt.0 <= lo && hi <= region_end(s[j]));
                assert(s[i as int].virt.0 <= lo && hi <= region_end(s[i as int]));
                proof {
                    if w < i {
                        assert(!(s[w].virt.0 <= lo && hi <= region_end(s[w])));
                    }
                    if w > i {
                        assert(!(s[i as int].virt.0 <= lo && hi <= region_end(s[i as int])));
                    }
                }
                return Some(i);
            }
            i += 1;
        }
        None
    }

    /// Takes out the owned region of exactly `pages` pages at `virt`; a region
    /// that merely holds the range ends the search without a result.
    pub fn remove_owned_region(&mut self, virt: VirtAddr, pages: usize) -> (r: Option<UserRegion>)
        requires
            old(self).wf(),
            pages * PAGE_SIZE <= usize::MAX,
        ensures
            final(self).wf(),
            final(self).vmas@ == old(self).vmas@,
            final(self).owned_l2@ == old(self).owned_l2@,
            virt.0 + pages * PAGE_SIZE > usize::MAX ==> r == None::<UserRegion> && final(self).owned_regions@
                == old(self).owned_regions@,
            virt.0 + pages * PAGE_SIZE <= usize::MAX ==> match first_within(
                old(self).owned_regions@,
                virt.0 as int,
                virt.0 + pages * PAGE_SIZE,
            ) {
                Some(i) => if old(self).owned_regions@[i].virt == virt && old(self).owned_regions@[i].pages
                    == pages {
                    r == Some(old(self).owned_regions@[i]) && final(self).owned_regions@ == old(
                        self,
                    ).owned_regions@.remove(i)
                } else {
                    r == None::<UserRegion> && final(self).owned_regions@ == old(self).owned_regions@
                },
                None => r == None::<UserRegion> && final(self).owned_regions@ == old(self).owned_regions@,
            },
    {
        let end = match virt.0.checked_add(pages * PAGE_SIZE) {
            Some(end) => end,
            None => {
                return None;
            },
        };
        match self.find_region_within(virt.0, end) {
            None => None,
            Some(i) => {
                let region = self.owned_regions[i];
                if region.virt.0 == virt.0 && region.pages == pages {
                    let ghost s = self.owned_regions@;
                    let removed = self.owned_regions.remove(i);
                    proof {
                        assert forall|k: int| 0 <= k < self.owned_regions@.len() implies region_fits(
                            #[trigger] self.owned_regions@[k],
                        ) by {
                            if k >= i {
                                assert(self.owned_regions@[k] == s[k + 1]);
                            } else {
                                assert(self.owned_regions@[k] == s[k]);
                            }
                        }
                    }
                    Some(removed)
                } else {
                    None
                }
            },
        }
    }

    /// Takes `[start, start + pages pages)` out of the owned region that holds
    /// it, keeping what lies before and after, and returns the part taken.
    #[verifier::rlimit(100)]
    #[verifier::spinoff_prover]
    pub fn remove_owned_range(&mut self, start: VirtAddr, pages: usize) -> (r: Result<UserRegion, u32>)
        requires
            old(self).wf(),
        ensures
            final(self).wf(),
            final(self).vmas@ == old(self).vmas@,
            final(self).owned_l2@ == old(self).owned_l2@,
            pages * PAGE_SIZE > usize::MAX || start.0 + pages * PAGE_SIZE > usize::MAX ==> r == Err::<
                UserRegion,
                u32,
            >(EINVAL) && final(self).owned_regions@ == old(self).owned_regions@,
            pages * PAGE_SIZE <= usize::MAX && start.0 + pages * PAGE_SIZE <= usize::MAX ==> ({
                let s = old(self).owned_regions@;
                let end = start.0 + pages * PAGE_SIZE;
                match first_within(s, start.0 as int, end) {
                    None => r == Err::<UserRegion, u32>(EINVAL) && final(self).owned_regions@ == s,
                    Some(i) => {
                        let reg = s[i];
                        let offset = start.0 - reg.virt.0;
                        let prefix = offset / (PAGE_SIZE as int);
                        let suffix = (region_end(reg) - end) / (PAGE_SIZE as int);
                        let removed = UserRegion {
                            virt: start,
                            phys: PhysAddr((reg.phys.0 + offset) as usize),
                            pages,
                        };
                        let tail = UserRegion {
                            virt: VirtAddr(end as usize),
                            phys: PhysAddr((reg.phys.0 + offset + pages * PAGE_SIZE) as usize),
                            pages: suffix as usize,
                        };
                        if prefix == 0 && suffix == 0 {
                            r == Ok::<UserRegion, u32>(removed) && final(self).owned_regions@ == s.remove(i)
                        } else if prefix != 0 && suffix == 0 {
                            r == Ok::<UserRegion, u32>(removed) && final(self).owned_regions@ == s.update(
                                i,
                                UserRegion { pages: prefix as usize, ..reg },
                            )
                        } else if prefix == 0 {
                            r == Ok::<UserRegion, u32>(removed) && final(self).owned_regions@ == s.update(
                                i,
                                tail,
                            )
                        } else if s.len() >= MAX_ADDRESS_SPACE_REGIONS {
                            r == Err::<UserRegion, u32>(ENOMEM) && final(self).owned_regions@ == s
                        } else {
                            &&& r == Ok::<UserRegion, u32>(removed)
                            &&& regions_sorted(final(self).owned_regions@)
                            &&& final(self).owned_regions@.to_multiset() == s.update(
                                i,
                                UserRegion { pages: prefix as usize, ..reg },
                            ).push(tail).to_multiset()
                        }
                    },
                }
            }),
    {
        let len = match pages.checked_mul(PAGE_SIZE) {
            Some(len) => len,
            None => {
                return Err(EINVAL);
            },
        };
        let end = match start.0.checked_add(len) {
            Some(end) => end,
            None => {
                return Err(EINVAL);
            },
        };
        let i = match self.find_region_within(start.0, end) {
            Some(i) => i,
            None => {
                return Err(EINVAL);
            },
        };
        let ghost s = self.owned_regions@;
        proof {
            lemma_first_within(s, start.0 as int, end as int);
        }
        let region = self.owned_regions[i];
        assert(region_fits(s[i as int]));
        let region_start = region.virt.0;
        let reg_end = region_start + region.pages * PAGE_SIZE;
        let phys_offset = start.0 - region_start;
        let removed = UserRegion { virt: start, phys: PhysAddr(region.phys.0 + phys_offset), pages };
        let prefix_pages = phys_offset / PAGE_SIZE;
        let suffix_pages = (reg_end - end) / PAGE_SIZE;
        proof {
            assert(suffix_pages * PAGE_SIZE <= reg_end - end) by (nonlinear_arith)
                requires
                    suffix_pages == (reg_end - end) / 4096,
                    reg_end >= end,
            ;
            assert(prefix_pages * PAGE_SIZE <= phys_offset) by (nonlinear_arith)
                requires
                    prefix_pages == phys_offset / 4096,
            ;
        }
        if prefix_pages == 0 && suffix_pages == 0 {
            self.owned_regions.remove(i);
            proof {
                assert forall|k: int| 0 <= k < self.owned_regions@.len() implies region_fits(
                    #[trigger] self.owned_regions@[k],
                ) by {
                    if k >= i {
                        assert(self.owned_regions@[k] == s[k + 1]);
                    } else {
                        assert(self.owned_regions@[k] == s[k]);
                    }
                }
            }
        } else if prefix_pages != 0 && suffix_pages == 0 {
            self.owned_regions.set(i, UserRegion { pages: prefix_pages, ..region });
            proof {
                assert forall|k: int| 0 <= k < self.owned_regions@.len() implies region_fits(
                    #[trigger] self.owned_regions@[k],
                ) by {
                    if k != i {
                        assert(self.owned_regions@[k] == s[k]);
                    }
                }
            }
        } else if prefix_pages == 0 {
            let tail = UserRegion {
                virt: VirtAddr(end),
                phys: PhysAddr(region.phys.0 + phys_offset + len),
                pages: suffix_pages,
            };
            self.owned_regions.set(i, tail);
            proof {
                assert forall|k: int| 0 <= k < self.owned_regions@.len() implies region_fits(
                    #[trigger] self.owned_regions@[k],
                ) by {
                    if k != i {
                        assert(self.owned_regions@[k] == s[k]);
                    }
                }
            }
        } else {
            if self.owned_regions.len() >= MAX_ADDRESS_SPACE_REGIONS {
                return Err(ENOMEM);
            }
            let tail = UserRegion {
                virt: VirtAddr(end),
                phys: PhysAddr(region.phys.0 + phys_offset + len),
                pages: suffix_pages,
            };
            self.owned_regions.set(i, UserRegion { pages: prefix_pages, ..region });
            self.owned_regions.push(tail);
            proof {
                assert forall|k: int| 0 <= k < self.owned_regions@.len() implies region_fits(
                    #[trigger] self.owned_regions@[k],
                ) by {
                    if k != i && k < s.len() {
                        assert(self.owned_regions@[k] == s[k]);
                    }
                }
            }
            self.sort_owned_regions();
        }
        Ok(removed)
    }

    /// Sorts the owned regions by virtual address, moving each into place in turn.
    fn sort_owned_regions(&mut self)
        requires
            old(self).wf(),
        ensures
            final(self).wf(),
            final(self).vmas@ == old(self).vmas@,
            final(self).owned_l2@ == old(self).owned_l2@,
            regions_sorted(final(self).owned_regions@),
            final(self).owned_regions@.to_multiset() == old(self).owned_regions@.to_multiset(),
    {
        let n = self.owned_regions.len();
        if n == 0 {
            return;
        }
        let mut i: usize = 1;
        while i < n
            invariant
                1 <= i <= n,
                n == self.owned_regions@.len(),
                self.wf(),
                self.vmas@ == old(self).vmas@,
                self.owned_l2@ == old(self).owned_l2@,
                regions_sorted(self.owned_regions@.subrange(0, i as int)),
                self.owned_regions@.to_multiset() == old(self).owned_regions@.to_multiset(),
            decreases n - i,
        {
            let mut j = i;
            proof {
                let t = self.owned_regions@;
                assert forall|p: int, q: int| 0 <= p < q < i implies (#[trigger] t[p]).virt.0 <= (
                #[trigger] t[q]).virt.0 by {
                    assert(t.subrange(0, i as int)[p] == t[p] && t.subrange(0, i as int)[q] == t[q]);
                }
            }
            while j > 0 && self.owned_regions[j - 1].virt.0 > self.owned_regions[j].virt.0
                invariant
                    0 <= j <= i < n,
                    n == self.owned_regions@.len(),
                    self.wf(),
                    self.vmas@ == old(self).vmas@,
                    self.owned_l2@ == old(self).owned_l2@,
                    self.owned_regions@.to_multiset() == old(self).owned_regions@.to_multiset(),
                    forall|p: int, q: int|
                        0 <= p < q <= i && q != j ==> (#[trigger] self.owned_regions@[p]).virt.0
                            <= (#[trigger] self.owned_regions@[q]).virt.0,
                decreases j,
            {
                let a = self.owned_regions[j - 1];
                let b = self.owned_regions[j];
                let ghost s = self.owned_regions@;
                self.owned_regions.set(j - 1, b);
                self.owned_regions.set(j, a);
                proof {
                    lemma_swap_to_multiset(s, j - 1, j as int);
                    assert(self.owned_regions@ == s.update(j - 1, b).update(j as int, a));
                    assert forall|k: int| 0 <= k < self.owned_regions@.len() implies region_fits(
                        #[trigger] self.owned_regions@[k],
                    ) by {
                        if k != j - 1 && k != j {
                            assert(self.owned_regions@[k] == s[k]);
                        } else if k == j {
                            assert(region_fits(s[j - 1]));
                        } else {
                            assert(region_fits(s[j as int]));
                        }
                    }
                }
                j -= 1;
            }
            proof {
                let t = self.owned_regions@;
                assert forall|p: int, q: int| 0 <= p < q < i + 1 implies (#[trigger] t.subrange(0, i + 1)[p]).virt.0
                    <= (#[trigger] t.subrange(0, i + 1)[q]).virt.0 by {
                    assert(t.subrange(0, i + 1)[p] == t[p] && t.subrange(0, i + 1)[q] == t[q]);
                    if q == j && p < j - 1 {
                        assert(t[p].virt.0 <= t[j - 1].virt.0);
                    }
                }
            }
            i += 1;
        }
        assert(self.owned_regions@.subrange(0, n as int) =~= self.owned_regions@);
    }

    /// The area covering `addr`.
    pub fn find_vma(&self, addr: VirtAddr) -> (r: Option<VmArea>)
        ensures
            r == vma_at(self.vmas@, addr.0 as int),
    {
        let ghost s = self.vmas@;
        let mut i: usize = 0;
        while i < self.vmas.len()
            invariant
                i <= s.len(),
                s == self.vmas@,
                vma_at(s.subrange(0, i as int), addr.0 as int) is None,
            decreases self.vmas.len() - i,
        {
            let v = self.vmas[i];
            assert(s.subrange(0, i + 1).drop_last() =~= s.subrange(0, i as int));
            if v.contains(addr) {
                proof {
                    assert(s =~= s.subrange(0, i + 1) + s.subrange(i + 1, s.len() as int));
                    lemma_vma_at_append(s.subrange(0, i + 1), s.subrange(i + 1, s.len() as int), addr.0 as int);
                }
                return Some(v);
            }
            i += 1;
        }
        assert(s.subrange(0, i as int) =~= s);
        None
    }

    /// Adds the area `[start, end)`, keeping the areas sorted.
    #[verifier::rlimit(60)]
    pub fn try_add_vma(&mut self, start: VirtAddr, end: VirtAddr, flags: u32, file: Option<InodeRef>) -> (r:
        Result<(), u32>)
        requires
            old(self).wf(),
        ensures
            final(self).wf(),
            final(self).same_except_vmas(old(self)),
            start.0 >= end.0 ==> r == Err::<(), u32>(EINVAL) && final(self).vmas@ == old(self).vmas@,
            start.0 < end.0 && end.0 > USER_TOP ==> r == Err::<(), u32>(EFAULT) && final(self).vmas@
                == old(self).vmas@,
            start.0 < end.0 && end.0 <= USER_TOP && old(self).vmas@.len() >= MAX_VMAS ==> r == Err::<
                (),
                u32,
            >(ENOMEM) && final(self).vmas@ == old(self).vmas@,
            start.0 < end.0 && end.0 <= USER_TOP && old(self).vmas@.len() < MAX_VMAS ==> if exists|i: int|
                0 <= i < old(self).vmas@.len() && overlaps(
                    #[trigger] old(self).vmas@[i],
                    start.0 as int,
                    end.0 as int,
                ) {
                r == Err::<(), u32>(EEXIST) && final(self).vmas@ == old(self).vmas@
            } else {
                r == Ok::<(), u32>(()) && final(self).vmas@ == old(self).vmas@.insert(
                    insert_pos(old(self).vmas@, start.0 as int),
                    VmArea { start, end, flags, file },
                )
            },
    {
        if start.0 >= end.0 {
            return Err(EINVAL);
        }
        if end.0 > USER_TOP {
            return Err(EFAULT);
        }
        if self.vmas.len() >= MAX_VMAS {
            return Err(ENOMEM);
        }
        let ghost s = self.vmas@;
        let mut i: usize = 0;
        while i < self.vmas.len()
            invariant
                i <= s.len(),
                s == self.vmas@,
                s == old(self).vmas@,
                self.wf(),
                self.same_except_vmas(old(self)),
                old(self).wf(),
                start.0 < end.0 <= USER_TOP,
                old(self).vmas@.len() < MAX_VMAS,
                forall|j: int| 0 <= j < i ==> !overlaps(#[trigger] s[j], start.0 as int, end.0 as int),
            decreases self.vmas.len() - i,
        {
            let v = self.vmas[i];
            if start.0 < v.end.0 && end.0 > v.start.0 {
                assert(overlaps(s[i as int], start.0 as int, end.0 as int));
                return Err(EEXIST);
            }
            i += 1;
        }
        let v = VmArea { start, end, flags, file };
        let pos = self.sorted_position(start);
        proof {
            lemma_insert_sorted(s, pos as int, v);
        }
        self.vmas.insert(pos, v);
        Ok(())
    }

    /// Adds an area that must be valid, free and fit.
    pub fn add_vma(&mut self, start: VirtAddr, end: VirtAddr, flags: u32, file: Option<InodeRef>)
        requires
            old(self).wf(),
            start.0 < end.0 <= USER_TOP,
            old(self).vmas@.len() < MAX_VMAS,
            forall|i: int| 0 <= i < old(self).vmas@.len() ==> !overlaps(
                #[trigger] old(self).vmas@[i],
                start.0 as int,
                end.0 as int,
            ),
        ensures
            final(self).wf(),
            final(self).same_except_vmas(old(self)),
            final(self).vmas@ == old(self).vmas@.insert(
                insert_pos(old(self).vmas@, start.0 as int),
                VmArea { start, end, flags, file },
            ),
    {
        let _ = self.try_add_vma(start, end, flags, file);
    }

    /// Where an area starting at `start` goes in the sorted list.
    fn sorted_position(&self, start: VirtAddr) -> (r: usize)
        ensures
            r as int == insert_pos(self.vmas@, start.0 as int),
            r <= self.vmas@.len(),
            forall|j: int| 0 <= j < r ==> (#[trigger] self.vmas@[j]).start.0 <= start.0,
            forall|j: int| r <= j < self.vmas@.len() ==> (#[trigger] self.vmas@[j]).start.0 > start.0
                || !vmas_wf(self.vmas@),
    {
        let ghost s = self.vmas@;
        let mut i: usize = 0;
        while i < self.vmas.len()
            invariant
                i <= s.len(),
                s == self.vmas@,
                forall|j: int| 0 <= j < i ==> (#[trigger] s[j]).start.0 <= start.0,
            decreases self.vmas.len() - i,
        {
            if self.vmas[i].start.0 > start.0 {
                let ghost w = choose|k: int|
                    0 <= k < s.len() && (#[trigger] s[k]).start.0 > start.0 && forall|j: int|
                        0 <= j < k ==> (#[trigger] s[j]).start.0 <= start.0;
                assert(0 <= i < s.len() && s[i as int].start.0 > start.0);
                proof {
                    if w < i {
                        assert(s[w].start.0 <= start.0);
                    }
                    if w > i {
                        assert(s[i as int].start.0 <= start.0);
                    }
                    assert forall|j: int| i <= j < s.len() implies (#[trigger] s[j]).start.0 > start.0 || !vmas_wf(s) by {
                        if vmas_wf(s) && j > i {
                            assert(s[i as int].end.0 <= s[j].start.0);
                            assert(s[i as int].start.0 < s[i as int].end.0);
                        }
                    }
                }
                return i;
            }
            i += 1;
        }
        i
    }

    /// Removes the first area with exactly the bounds `[start, end)`.
    pub fn remove_vma_exact(&mut self, start: VirtAddr, end: VirtAddr) -> (r: Option<VmArea>)
        requires
            old(self).wf(),
        ensures
            final(self).wf(),
            final(self).same_except_vmas(old(self)),
            match exact_pos(old(self).vmas@, start.0 as int, end.0 as int) {
                Some(i) => r == Some(old(self).vmas@[i]) && final(self).vmas@ == old(self).vmas@.remove(i),
                None => r == None::<VmArea> && final(self).vmas@ == old(self).vmas@,
            },
    {
        let ghost s = self.vmas@;
        let mut i: usize = 0;
        while i < self.vmas.len()
            invariant
                i <= s.len(),
                s == self.vmas@,
                self.same_except_vmas(old(self)),
                s == old(self).vmas@,
                old(self).wf(),
                forall|j: int| 0 <= j < i ==> !((#[trigger] s[j]).start.0 == start.0 && s[j].end.0 == end.0),
            decreases self.vmas.len() - i,
        {
            let v = self.vmas[i];
            if v.start.0 == start.0 && v.end.0 == end.0 {
                let ghost w = choose|k: int|
                    0 <= k < s.len() && (#[trigger] s[k]).start.0 == start.0 && s[k].end.0 == end.0
                        && forall|j: int| 0 <= j < k ==> !((#[trigger] s[j]).start.0 == start.0 && s[j].end.0 == end.0);
                assert(s[i as int].start.0 == start.0 && s[i as int].end.0 == end.0);
                proof {
                    if w < i {
                        assert(!(s[w].start.0 == start.0 && s[w].end.0 == end.0));
                    }
                    if w > i {
                        assert(!(s[i as int].start.0 == start.0 && s[i as int].end.0 == end.0));
                    }
                    let n = s.remove(i as int);
                    assert forall|p: int, q: int| 0 <= p < q < n.len() implies (#[trigger] n[p]).end.0 <= (
                    #[trigger] n[q]).start.0 by {
                        if p < i {
                            if q < i {
                                assert(n[q] == s[q]);
                            } else {
                                assert(n[q] == s[q + 1]);
                            }
                        } else {
                            assert(n[p] == s[p + 1] && n[q] == s[q + 1]);
                        }
                    }
                    assert forall|p: int| 0 <= p < n.len() implies (#[trigger] n[p]).start.0 < n[p].end.0 by {
                        if p >= i {
                            assert(n[p] == s[p + 1]);
                        }
                    }
                }
                let removed = self.vmas.remove(i);
                return Some(removed);
            }
            i += 1;
        }
        None
    }

    /// Whether every address of `[start, end)` is covered, walking area by area.
    fn covers_range(&self, start: usize, end: usize) -> (r: bool)
        ensures
            r == covered(self.vmas@, start as int, end as int),
    {
        let mut cursor = start;
        while cursor < end
            invariant
                start <= cursor,
                covered(self.vmas@, start as int, cursor as int),
            decreases end - cursor,
        {
            let found = self.find_vma(VirtAddr(cursor));
            match found {
                None => {
                    assert(vma_at(self.vmas@, cursor as int) is None);
                    return false;
                },
                Some(v) => {
                    proof {
                        lemma_vma_at_some(self.vmas@, cursor as int);
                        let k = choose|k: int| 0 <= k < self.vmas@.len() && self.vmas@[k] == v;
                        assert forall|a: int| start <= a < (if v.end.0 < end { v.end.0 } else { end }) implies (#[trigger] vma_at(self.vmas@, a)).is_some() by {
                            if a >= cursor {
                                lemma_vma_at_some(self.vmas@, a);
                                assert(self.vmas@[k].covers(a));
                            }
                        }
                    }
                    cursor = if v.end.0 < end { v.end.0 } else { end };
                },
            }
        }
        true
    }

    /// Whether some area straddles `x`, and which.
    fn straddling(&self, x: usize) -> (r: Option<usize>)
        ensures
            match r {
                Some(i) => i < self.vmas@.len() && straddles(self.vmas@[i as int], x as int),
                None => forall|i: int| 0 <= i < self.vmas@.len() ==> !straddles(#[trigger] self.vmas@[i], x as int),
            },
    {
        let mut i: usize = 0;
        while i < self.vmas.len()
            invariant
                i <= self.vmas@.len(),
                forall|j: int| 0 <= j < i ==> !straddles(#[trigger] self.vmas@[j], x as int),
            decreases self.vmas.len() - i,
        {
            if self.vmas[i].start.0 < x && x < self.vmas[i].end.0 {
                return Some(i);
            }
            i += 1;
        }
        None
    }

    /// Takes `[start, end)` out of every area, whether or not it is all mapped.
    fn cut_range(&mut self, start: VirtAddr, end: VirtAddr) -> (r: Result<(), u32>)
        requires
            old(self).wf(),
            start.0 < end.0,
        ensures
            final(self).wf(),
            final(self).same_except_vmas(old(self)),
            (exists|i: int| 0 <= i < old(self).vmas@.len() && surrounds(#[trigger] old(self).vmas@[i], start.0 as int, end.0 as int))
                && old(self).vmas@.len() >= MAX_VMAS ==> r == Err::<(), u32>(ENOMEM) && final(self).vmas@
                == old(self).vmas@,
            !((exists|i: int| 0 <= i < old(self).vmas@.len() && surrounds(#[trigger] old(self).vmas@[i], start.0 as int, end.0 as int))
                && old(self).vmas@.len() >= MAX_VMAS) ==> r == Ok::<(), u32>(()) && final(self).vmas@
                == cut(old(self).vmas@, start.0 as int, end.0 as int),
    {
        let ghost s = self.vmas@;
        let mut surrounded = false;
        let mut i: usize = 0;
        while i < self.vmas.len()
            invariant
                i <= s.len(),
                s == self.vmas@,
                surrounded == exists|j: int| 0 <= j < i && surrounds(#[trigger] s[j], start.0 as int, end.0 as int),
            decreases self.vmas.len() - i,
        {
            if self.vmas[i].start.0 < start.0 && end.0 < self.vmas[i].end.0 {
                surrounded = true;
            }
            i += 1;
        }
        if surrounded && self.vmas.len() >= MAX_VMAS {
            return Err(ENOMEM);
        }
        let mut out: Vec<VmArea> = Vec::new();
        let mut i: usize = 0;
        while i < self.vmas.len()
            invariant
                i <= s.len(),
                s == self.vmas@,
                out@ == cut(s.subrange(0, i as int), start.0 as int, end.0 as int),
            decreases self.vmas.len() - i,
        {
            let v = self.vmas[i];
            assert(s.subrange(0, i + 1).drop_last() =~= s.subrange(0, i as int));
            if end.0 <= v.start.0 || start.0 >= v.end.0 {
                out.push(v);
            } else {
                if start.0 > v.start.0 {
                    out.push(VmArea { end: start, ..v });
                }
                if end.0 < v.end.0 {
                    out.push(VmArea { start: end, ..v });
                }
            }
            proof {
                assert(out@ =~= cut(s.subrange(0, i + 1), start.0 as int, end.0 as int));
            }
            i += 1;
        }
        proof {
            assert(s.subrange(0, i as int) =~= s);
            lemma_cut_wf(s, start.0 as int, end.0 as int);
            lemma_cut_len(s, start.0 as int, end.0 as int);
        }
        self.vmas = out;
        Ok(())
    }

    /// Unmaps `[start, end)`, which must be mapped throughout.
    pub fn unmap_vma_range(&mut self, start: VirtAddr, end: VirtAddr) -> (r: Result<(), u32>)
        requires
            old(self).wf(),
        ensures
            final(self).wf(),
            final(self).same_except_vmas(old(self)),
            start.0 >= end.0 || !covered(old(self).vmas@, start.0 as int, end.0 as int) ==> r == Err::<
                (),
                u32,
            >(EINVAL) && final(self).vmas@ == old(self).vmas@,
            start.0 < end.0 && covered(old(self).vmas@, start.0 as int, end.0 as int) ==> if (exists|i: int|
                0 <= i < old(self).vmas@.len() && surrounds(
                    #[trigger] old(self).vmas@[i],
                    start.0 as int,
                    end.0 as int,
                )) && old(self).vmas@.len() >= MAX_VMAS {
                r == Err::<(), u32>(ENOMEM) && final(self).vmas@ == old(self).vmas@
            } else {
                r == Ok::<(), u32>(()) && final(self).vmas@ == cut(old(self).vmas@, start.0 as int, end.0 as int)
            },
    {
        if start.0 >= end.0 {
            return Err(EINVAL);
        }
        if !self.covers_range(start.0, end.0) {
            return Err(EINVAL);
        }
        self.cut_range(start, end)
    }

    /// Unmaps whatever is mapped in `[start, end)`.
    pub fn unmap_vma_range_lenient(&mut self, start: VirtAddr, end: VirtAddr) -> (r: Result<(), u32>)
        requires
            old(self).wf(),
        ensures
            final(self).wf(),
            final(self).same_except_vmas(old(self)),
            start.0 >= end.0 ==> r == Err::<(), u32>(EINVAL) && final(self).vmas@ == old(self).vmas@,
            start.0 < end.0 ==> if (exists|i: int|
                0 <= i < old(self).vmas@.len() && surrounds(
                    #[trigger] old(self).vmas@[i],
                    start.0 as int,
                    end.0 as int,
                )) && old(self).vmas@.len() >= MAX_VMAS {
                r == Err::<(), u32>(ENOMEM) && final(self).vmas@ == old(self).vmas@
            } else {
                r == Ok::<(), u32>(()) && final(self).vmas@ == cut(old(self).vmas@, start.0 as int, end.0 as int)
            },
    {
        if start.0 >= end.0 {
            return Err(EINVAL);
        }
        self.cut_range(start, end)
    }

    /// Splits the area straddling `x`, if any, at `x`.
    fn split_straddling(&mut self, x: usize) -> (r: Result<(), u32>)
        requires
            old(self).wf(),
        ensures
            final(self).wf(),
            final(self).same_except_vmas(old(self)),
            forall|a: int| #[trigger] vm_attrs(final(self).vmas@, a) == vm_attrs(old(self).vmas@, a),
            r is Ok ==> no_straddle(final(self).vmas@, x as int),
            no_straddle(old(self).vmas@, x as int) ==> r == Ok::<(), u32>(()) && final(self).vmas@ == old(self).vmas@,
            !no_straddle(old(self).vmas@, x as int) && old(self).vmas@.len() >= MAX_VMAS ==> r == Err::<(), u32>(ENOMEM)
                && final(self).vmas@ == old(self).vmas@,
            !no_straddle(old(self).vmas@, x as int) && old(self).vmas@.len() < MAX_VMAS ==> r == Ok::<(), u32>(())
                && exists|i: int| 0 <= i < old(self).vmas@.len() && straddles(#[trigger] old(self).vmas@[i], x as int)
                && final(self).vmas@ == split_at(old(self).vmas@, i, x as int),
    {
        match self.straddling(x) {
            None => Ok(()),
            Some(i) => {
                if self.vmas.len() >= MAX_VMAS {
                    return Err(ENOMEM);
                }
                let v = self.vmas[i];
                let ghost s = self.vmas@;
                proof {
                    lemma_split(s, i as int, x as int);
                }
                self.vmas.set(i, VmArea { end: VirtAddr(x), ..v });
                self.vmas.insert(i + 1, VmArea { start: VirtAddr(x), ..v });
                proof {
                    assert(self.vmas@ =~= split_at(s, i as int, x as int));
                    let n = self.vmas@;
                    assert forall|j: int| 0 <= j < n.len() implies !straddles(#[trigger] n[j], x as int) by {
                        if j < i {
                            assert(n[j] == s[j]);
                            assert(s[j].end.0 <= s[i as int].start.0);
                        } else if j > i + 1 {
                            assert(n[j] == s[j - 1]);
                            assert(s[i as int].end.0 <= s[j - 1].start.0);
                        }
                    }
                }
                Ok(())
            },
        }
    }

    /// Joins every pair of touching areas that have the same attributes.
    fn merge_adjacent_vmas(&mut self)
        requires
            old(self).wf(),
        ensures
            final(self).wf(),
            final(self).same_except_vmas(old(self)),
            forall|a: int| #[trigger] vm_attrs(final(self).vmas@, a) == vm_attrs(old(self).vmas@, a),
            final(self).vmas@.len() <= old(self).vmas@.len(),
            forall|i: int| 0 <= i < final(self).vmas@.len() - 1 ==> !mergeable(#[trigger] final(self).vmas@[i], final(self).vmas@[i + 1]),
    {
        let mut index: usize = 0;
        while index + 1 < self.vmas.len()
            invariant
                index <= self.vmas@.len(),
                self.wf(),
                self.same_except_vmas(old(self)),
                forall|a: int| #[trigger] vm_attrs(self.vmas@, a) == vm_attrs(old(self).vmas@, a),
                self.vmas@.len() <= old(self).vmas@.len(),
                forall|i: int| 0 <= i < index ==> !mergeable(#[trigger] self.vmas@[i], self.vmas@[i + 1]),
            decreases self.vmas.len() - index,
        {
            let current = self.vmas[index];
            let next = self.vmas[index + 1];
            if current.end.0 == next.start.0 && current.flags == next.flags && current.file == next.file {
                let ghost s = self.vmas@;
                proof {
                    lemma_merge(s, index as int);
                }
                self.vmas.set(index, VmArea { end: next.end, ..current });
                self.vmas.remove(index + 1);
                assert(self.vmas@ =~= merge_at(s, index as int));
                proof {
                    assert forall|i: int| 0 <= i < index implies !mergeable(#[trigger] self.vmas@[i], self.vmas@[i + 1]) by {
                        assert(self.vmas@[i] == s[i]);
                        if i + 1 < index {
                            assert(self.vmas@[i + 1] == s[i + 1]);
                        } else {
                            assert(self.vmas@[i + 1].start == s[i + 1].start && self.vmas@[i + 1].flags == s[i + 1].flags
                                && self.vmas@[i + 1].file == s[i + 1].file);
                        }
                    }
                }
            } else {
                index += 1;
            }
        }
    }

    /// Gives `[start, end)`, which must be mapped throughout, the protection `prot_flags`.
    pub fn protect_vma_range(&mut self, start: VirtAddr, end: VirtAddr, prot_flags: u32) -> (r: Result<
        (),
        u32,
    >)
        requires
            old(self).wf(),
        ensures
            final(self).wf(),
            final(self).same_except_vmas(old(self)),
            start.0 >= end.0 || !covered(old(self).vmas@, start.0 as int, end.0 as int) ==> r == Err::<
                (),
                u32,
            >(EINVAL) && final(self).vmas@ == old(self).vmas@,
            r == Err::<(), u32>(ENOMEM) ==> forall|a: int| #[trigger] vm_attrs(final(self).vmas@, a) == vm_attrs(old(self).vmas@, a),
            r is Ok ==> forall|a: int| #[trigger] vm_attrs(final(self).vmas@, a) == protected_attrs(
                vm_attrs(old(self).vmas@, a),
                a,
                start.0 as int,
                end.0 as int,
                prot_flags,
            ),
            start.0 < end.0 && covered(old(self).vmas@, start.0 as int, end.0 as int) ==> (r is Ok <==> !(
                (!no_straddle(old(self).vmas@, start.0 as int) && old(self).vmas@.len() >= MAX_VMAS) || (
                !no_straddle(old(self).vmas@, end.0 as int) && old(self).vmas@.len() + (if no_straddle(
                    old(self).vmas@,
                    start.0 as int,
                ) {
                    0int
                } else {
                    1int
                }) >= MAX_VMAS))),
            r is Ok || r == Err::<(), u32>(EINVAL) || r == Err::<(), u32>(ENOMEM),
            r is Ok ==> forall|i: int|
                0 <= i < final(self).vmas@.len() - 1 ==> !mergeable(#[trigger] final(self).vmas@[i], final(self).vmas@[i + 1]),
    {
        if start.0 >= end.0 {
            return Err(EINVAL);
        }
        if !self.covers_range(start.0, end.0) {
            return Err(EINVAL);
        }
        let ghost s0 = self.vmas@;
        match self.split_straddling(start.0) {
            Ok(()) => {},
            Err(e) => {
                return Err(e);
            },
        }
        let ghost s1 = self.vmas@;
        proof {
            if !no_straddle(s0, start.0 as int) && s0.len() < MAX_VMAS {
                let i = choose|i: int| 0 <= i < s0.len() && straddles(#[trigger] s0[i], start.0 as int)
                    && s1 == split_at(s0, i, start.0 as int);
                lemma_split_straddle(s0, i, start.0 as int, end.0 as int);
            }
        }
        match self.split_straddling(end.0) {
            Ok(()) => {},
            Err(e) => {
                return Err(e);
            },
        }
        let ghost s2 = self.vmas@;
        proof {
            if !no_straddle(s1, end.0 as int) && s1.len() < MAX_VMAS {
                let i = choose|i: int| 0 <= i < s1.len() && straddles(#[trigger] s1[i], end.0 as int)
                    && s2 == split_at(s1, i, end.0 as int);
                lemma_split_straddle(s1, i, end.0 as int, start.0 as int);
            }
            assert(no_straddle(s2, start.0 as int));
            assert(!(VM_READ | VM_WRITE | VM_EXEC) == 0xffff_fff8u32) by (bit_vector);
        }
        let mut i: usize = 0;
        while i < self.vmas.len()
            invariant
                i <= self.vmas@.len(),
                vmas_wf(s2),
                no_straddle(s2, start.0 as int),
                no_straddle(s2, end.0 as int),
                forall|a: int| #[trigger] vm_attrs(s2, a) == vm_attrs(s0, a),
                old(self).wf(),
                s0 == old(self).vmas@,
                start.0 < end.0,
                !(VM_READ | VM_WRITE | VM_EXEC) == 0xffff_fff8u32,
                self.vmas@.len() == s2.len(),
                self.same_except_vmas(old(self)),
                self.vmas@ == Seq::new(
                    s2.len(),
                    |j: int|
                        if j < i {
                            relabel(s2[j], start.0 as int, end.0 as int, prot_flags)
                        } else {
                            s2[j]
                        },
                ),
            decreases self.vmas.len() - i,
        {
            let v = self.vmas[i];
            if start.0 <= v.start.0 && v.end.0 <= end.0 {
                self.vmas.set(i, VmArea { flags: (v.flags & !(VM_READ | VM_WRITE | VM_EXEC)) | prot_flags | VM_USER, ..v });
            }
            i += 1;
            proof {
                assert(self.vmas@ =~= Seq::new(
                    s2.len(),
                    |j: int| if j < i { relabel(s2[j], start.0 as int, end.0 as int, prot_flags) } else { s2[j] },
                ));
            }
        }
        proof {
            assert(self.vmas@ =~= relabel_all(s2, start.0 as int, end.0 as int, prot_flags));
            lemma_relabel_wf(s2, start.0 as int, end.0 as int, prot_flags);
            assert forall|a: int| #[trigger] vm_attrs(self.vmas@, a) == protected_attrs(
                vm_attrs(s0, a),
                a,
                start.0 as int,
                end.0 as int,
                prot_flags,
            ) by {
                lemma_relabel_at(s2, start.0 as int, end.0 as int, prot_flags, a);
                lemma_vma_at_some(s2, a);
                if vma_at(s2, a) is Some {
                    let v = vma_at(s2, a).unwrap();
                    let k = choose|k: int| 0 <= k < s2.len() && s2[k] == v;
                    assert(!straddles(s2[k], start.0 as int));
                    assert(!straddles(s2[k], end.0 as int));
                    assert(vm_attrs(s2, a) == vm_attrs(s0, a));
                } else {
                    if start.0 <= a < end.0 {
                        assert(vm_attrs(s2, a) == vm_attrs(s0, a));
                    }
                }
            }
        }
        self.merge_adjacent_vmas();
        Ok(())
    }

    /// Whether `[start, start + len)` is mapped throughout with the access `write` asks for.
    pub fn contains_user_range(&self, start: VirtAddr, len: usize, write: bool) -> (r: bool)
        requires
            self.wf(),
        ensures
            r == (len == 0 || (start.0 + len <= usize::MAX && forall|a: int|
                start.0 <= a < start.0 + len ==> #[trigger] grants(self.vmas@, a, write))),
    {
        if len == 0 {
            return true;
        }
        let end = match start.0.checked_add(len) {
            Some(end) => end,
            None => {
                return false;
            },
        };
        let mut cursor = start.0;
        while cursor < end
            invariant
                start.0 <= cursor,
                end == start.0 + len,
                self.wf(),
                forall|a: int| start.0 <= a < cursor ==> #[trigger] grants(self.vmas@, a, write),
            decreases end - cursor,
        {
            let found = self.find_vma(VirtAddr(cursor));
            match found {
                None => {
                    assert(!grants(self.vmas@, cursor as int, write));
                    return false;
                },
                Some(v) => {
                    if write && !v.can_write() {
                        assert(!grants(self.vmas@, cursor as int, write));
                        return false;
                    }
                    if !write && !v.can_read() {
                        assert(!grants(self.vmas@, cursor as int, write));
                        return false;
                    }
                    proof {
                        lemma_vma_at_some(self.vmas@, cursor as int);
                        let k = choose|k: int| 0 <= k < self.vmas@.len() && self.vmas@[k] == v;
                        assert forall|a: int| start.0 <= a < (if v.end.0 < end { v.end.0 } else { end }) implies #[trigger] grants(self.vmas@, a, write) by {
                            if a >= cursor {
                                lemma_vma_at_unique(self.vmas@, k, a);
                            }
                        }
                    }
                    cursor = if v.end.0 < end { v.end.0 } else { end };
                },
            }
        }
        true
    }
}


/// A process slot: identity, state, memory, open files and working directory.
pub struct ProcessControlBlock {
    pub pid: ProcessId,
    pub parent: ProcessId,
    pub name: &'static str,
    pub state: ProcessState,
    pub address_space: AddressSpace,
    pub files: FileTable,
    pub creds: Credentials,
    pub cwd: Vec<u8>,
    pub main_thread: ThreadId,
    pub thread_count: usize,
    pub exit_code: i32,
    pub resources_reaped: bool,
}

/// The credentials every process starts with.
pub open spec fn root_credentials() -> Credentials {
    Credentials { uid: 0, euid: 0, gid: 0, egid: 0, umask: 0o022 }
}

impl ProcessControlBlock {
    pub open spec fn wf(&self) -> bool {
        &&& self.address_space.wf()
        &&& self.files.wf()
        &&& self.cwd@.len() < CWD_MAX
    }

    /// A process just started as `pid` under `parent`, in the root directory
    /// with the console on its first three descriptors.
    pub open spec fn started(
        &self,
        pid: ProcessId,
        parent: ProcessId,
        name: &'static str,
        address_space: AddressSpace,
    ) -> bool {
        &&& self.pid == pid
        &&& self.parent == parent
        &&& self.name == name
        &&& self.state == ProcessState::Alive
        &&& self.address_space == address_space
        &&& self.files.is_stdio()
        &&& self.creds == root_credentials()
        &&& self.cwd@ == seq![47u8]
        &&& self.main_thread.0 == 0
        &&& self.thread_count == 1
        &&& self.exit_code == 0
        &&& !self.resources_reaped
    }

    /// A child of `parent` forked from `p` as `pid`: it shares the files,
    /// credentials, name and directory of `p` and runs in `address_space`.
    pub open spec fn forked_from(
        &self,
        p: ProcessControlBlock,
        pid: ProcessId,
        parent: ProcessId,
        address_space: AddressSpace,
    ) -> bool {
        &&& self.pid == pid
        &&& self.parent == parent
        &&& self.name == p.name
        &&& self.state == ProcessState::Alive
        &&& self.address_space == address_space
        &&& self.files.fds@ == p.files.fds@
        &&& self.files.handles@ == p.files.handles@
        &&& self.creds == p.creds
        &&& self.cwd@ == p.cwd@
        &&& self.main_thread == p.main_thread
        &&& self.thread_count == 1
        &&& self.exit_code == 0
        &&& !self.resources_reaped
    }

    /// A free slot.
    pub fn empty() -> (r: Self)
        ensures
            r.wf(),
            r.pid.0 == 0 && r.parent.0 == 0,
            r.state == ProcessState::Empty,
            r.address_space.kind == AddressSpaceKind::Kernel,
            r.files.all_closed(),
            r.creds == root_credentials(),
            r.cwd@.len() == 0,
            r.main_thread.0 == 0 && r.thread_count == 0 && r.exit_code == 0,
            r.resources_reaped,
    {
        ProcessControlBlock {
            pid: ProcessId::new(0),
            parent: ProcessId::new(0),
            name: "",
            state: ProcessState::Empty,
            address_space: AddressSpace::kernel(PhysAddr::new(0)),
            files: FileTable::empty(),
            creds: Credentials::root(),
            cwd: Vec::new(),
            main_thread: ThreadId::new(0),
            thread_count: 0,
            exit_code: 0,
            resources_reaped: true,
        }
    }

    pub fn new(pid: ProcessId, parent: ProcessId, name: &'static str, address_space: AddressSpace) -> (r:
        Self)
        requires
            address_space.wf(),
        ensures
            r.wf(),
            r.started(pid, parent, name, address_space),
    {
        let mut cwd: Vec<u8> = Vec::new();
        cwd.push(0x2f);
        ProcessControlBlock {
            pid,
            parent,
            name,
            state: ProcessState::Alive,
            address_space,
            files: FileTable::with_stdio(),
            creds: Credentials::root(),
            cwd,
            main_thread: ThreadId::new(0),
            thread_count: 1,
            exit_code: 0,
            resources_reaped: false,
        }
    }
}

/// Slot `p` is in use by process `pid`.
pub open spec fn holds_pid(p: ProcessControlBlock, pid: ProcessId) -> bool {
    pid.0 != 0 && p.pid == pid && p.state != ProcessState::Empty
}

/// The first slot at or after `i` in use by `pid`.
pub open spec fn slot_from(s: Seq<ProcessControlBlock>, pid: ProcessId, i: int) -> Option<int>
    decreases s.len() - i,
{
    if i < 0 || i >= s.len() {
        None
    } else if holds_pid(s[i], pid) {
        Some(i)
    } else {
        slot_from(s, pid, i + 1)
    }
}

/// The first free slot at or after `i`.
pub open spec fn free_from(s: Seq<ProcessControlBlock>, i: int) -> Option<int>
    decreases s.len() - i,
{
    if i < 0 || i >= s.len() {
        None
    } else if s[i].state == ProcessState::Empty {
        Some(i)
    } else {
        free_from(s, i + 1)
    }
}

/// The identifier handed out after `n`: the next one, wrapping to 1.
pub open spec fn pid_after(n: usize) -> usize {
    if n == usize::MAX {
        1
    } else {
        (n + 1) as usize
    }
}

pub proof fn lemma_slot_from(s: Seq<ProcessControlBlock>, pid: ProcessId, i: int)
    requires
        0 <= i <= s.len(),
    ensures
        match slot_from(s, pid, i) {
            Some(k) => i <= k < s.len() && holds_pid(s[k], pid) && forall|j: int|
                i <= j < k ==> !holds_pid(#[trigger] s[j], pid),
            None => forall|j: int| i <= j < s.len() ==> !holds_pid(#[trigger] s[j], pid),
        },
    decreases s.len() - i,
{
    if i < s.len() {
        lemma_slot_from(s, pid, i + 1);
    }
}

pub proof fn lemma_free_from(s: Seq<ProcessControlBlock>, i: int)
    requires
        0 <= i <= s.len(),
    ensures
        match free_from(s, i) {
            Some(k) => i <= k < s.len() && s[k].state == ProcessState::Empty && forall|j: int|
                i <= j < k ==> (#[trigger] s[j]).state != ProcessState::Empty,
            None => forall|j: int| i <= j < s.len() ==> (#[trigger] s[j]).state != ProcessState::Empty,
        },
    decreases s.len() - i,
{
    if i < s.len() {
        lemma_free_from(s, i + 1);
    }
}

/// The table of process slots.
pub struct ProcessTable {
    pub entries: Vec<ProcessControlBlock>,
    pub next_pid: usize,
    pub init_pid: ProcessId,
}

impl ProcessTable {
    pub open spec fn wf(&self) -> bool {
        &&& self.entries@.len() == MAX_PROCESSES
        &&& forall|i: int| 0 <= i < MAX_PROCESSES ==> (#[trigger] self.entries@[i]).wf()
        &&& self.next_pid >= 1
    }

    /// The slot of process `pid`.
    pub open spec fn slot(&self, pid: ProcessId) -> Option<int> {
        slot_from(self.entries@, pid, 0)
    }

    /// The first free slot.
    pub open spec fn free_slot(&self) -> Option<int> {
        free_from(self.entries@, 0)
    }

    /// Nothing changed from `o`.
    pub open spec fn same(&self, o: &ProcessTable) -> bool {
        self.entries@ == o.entries@ && self.next_pid == o.next_pid && self.init_pid == o.init_pid
    }

    /// Only slot `k` may differ from `o`.
    pub open spec fn only_slot(&self, o: &ProcessTable, k: int) -> bool {
        &&& self.entries@.len() == o.entries@.len()
        &&& forall|j: int| 0 <= j < o.entries@.len() && j != k ==> #[trigger] self.entries@[j] == o.entries@[j]
        &&& self.next_pid == o.next_pid
        &&& self.init_pid == o.init_pid
    }

    pub fn new() -> (r: Self)
        ensures
            r.wf(),
            forall|i: int| 0 <= i < MAX_PROCESSES ==> (#[trigger] r.entries@[i]).state == ProcessState::Empty,
            r.next_pid == 1,
            r.init_pid.0 == 0,
    {
        let mut entries: Vec<ProcessControlBlock> = Vec::new();
        let mut i: usize = 0;
        while i < MAX_PROCESSES
            invariant
                i <= MAX_PROCESSES,
                entries@.len() == i,
                forall|j: int|
                    0 <= j < i ==> (#[trigger] entries@[j]).wf() && entries@[j].state == ProcessState::Empty,
            decreases MAX_PROCESSES - i,
        {
            entries.push(ProcessControlBlock::empty());
            i += 1;
        }
        ProcessTable { entries, next_pid: 1, init_pid: ProcessId::new(0) }
    }

    /// The slot of process `pid`.
    fn index_of(&self, pid: ProcessId) -> (r: Option<usize>)
        ensures
            match r {
                Some(k) => k < self.entries@.len() && self.slot(pid) == Some(k as int) && holds_pid(
                    self.entries@[k as int],
                    pid,
                ),
                None => self.slot(pid) == None::<int>,
            },
    {
        proof {
            lemma_slot_from(self.entries@, pid, 0);
        }
        if !pid.is_valid() {
            return None;
        }
        let mut i: usize = 0;
        while i < self.entries.len()
            invariant
                i <= self.entries@.len(),
                pid.0 != 0,
                slot_from(self.entries@, pid, 0) == slot_from(self.entries@, pid, i as int),
            decreases self.entries@.len() - i,
        {
            if self.entries[i].pid == pid && self.entries[i].state != ProcessState::Empty {
                return Some(i);
            }
            i += 1;
        }
        None
    }

    /// The first free slot.
    fn find_free(&self) -> (r: Option<usize>)
        ensures
            match r {
                Some(k) => k < self.entries@.len() && self.free_slot() == Some(k as int),
                None => self.free_slot() == None::<int>,
            },
    {
        let mut i: usize = 0;
        while i < self.entries.len()
            invariant
                i <= self.entries@.len(),
                free_from(self.entries@, 0) == free_from(self.entries@, i as int),
            decreases self.entries@.len() - i,
        {
            if self.entries[i].state == ProcessState::Empty {
                return Some(i);
            }
            i += 1;
        }
        None
    }

    fn advance_pid(&mut self) -> (r: ProcessId)
        requires
            old(self).next_pid >= 1,
        ensures
            r.0 == old(self).next_pid,
            final(self).next_pid == pid_after(old(self).next_pid),
            final(self).next_pid >= 1,
            final(self).entries@ == old(self).entries@,
            final(self).init_pid == old(self).init_pid,
    {
        let pid = ProcessId::new(self.next_pid);
        self.next_pid = if self.next_pid == usize::MAX {
            1
        } else {
            self.next_pid + 1
        };
        pid
    }

    /// Starts a process in the first free slot; the table must have one.
    pub fn create(&mut self, name: &'static str, parent: ProcessId, address_space: AddressSpace) -> (r:
        ProcessId)
        requires
            old(self).wf(),
            address_space.wf(),
            old(self).free_slot() is Some,
        ensures
            final(self).wf(),
            ({
                let k = old(self).free_slot()->0;
                &&& r.0 == old(self).next_pid
                &&& final(self).entries@.len() == MAX_PROCESSES
                &&& forall|j: int| 0 <= j < MAX_PROCESSES && j != k ==> #[trigger] final(self).entries@[j] == old(self).entries@[j]
                &&& final(self).entries@[k].started(r, parent, name, address_space)
                &&& final(self).next_pid == pid_after(old(self).next_pid)
                &&& final(self).init_pid == old(self).init_pid
            }),
    {
        match self.try_create(name, parent, address_space) {
            Ok(pid) => pid,
            Err(_) => ProcessId::new(0),
        }
    }

    /// Starts a process in the first free slot, or answers `ENOMEM` when every slot is in use.
    pub fn try_create(&mut self, name: &'static str, parent: ProcessId, address_space: AddressSpace) -> (r:
        Result<ProcessId, u32>)
        requires
            old(self).wf(),
            address_space.wf(),
        ensures
            final(self).wf(),
            match old(self).free_slot() {
                None => r == Err::<ProcessId, u32>(ENOMEM) && final(self).same(old(self)),
                Some(k) => {
                    &&& r == Ok::<ProcessId, u32>(ProcessId(old(self).next_pid))
                    &&& final(self).entries@.len() == MAX_PROCESSES
                    &&& forall|j: int| 0 <= j < MAX_PROCESSES && j != k ==> #[trigger] final(self).entries@[j] == old(self).entries@[j]
                    &&& final(self).entries@[k].started(
                        ProcessId(old(self).next_pid),
                        parent,
                        name,
                        address_space,
                    )
                    &&& final(self).next_pid == pid_after(old(self).next_pid)
                    &&& final(self).init_pid == old(self).init_pid
                },
            },
    {
        let slot = match self.find_free() {
            Some(slot) => slot,
            None => {
                return Err(ENOMEM);
            },
        };
        let pid = self.advance_pid();
        let pcb = ProcessControlBlock::new(pid, parent, name, address_space);
        self.entries.set(slot, pcb);
        Ok(pid)
    }

    /// Starts a child of `parent_pid` that shares its files, credentials and
    /// directory and runs in `address_space`.
    pub fn try_fork_from(&mut self, parent_pid: ProcessId, address_space: AddressSpace) -> (r: Result<
        ProcessId,
        u32,
    >)
        requires
            old(self).wf(),
            address_space.wf(),
        ensures
            final(self).wf(),
            match old(self).slot(parent_pid) {
                None => r == Err::<ProcessId, u32>(EINVAL) && final(self).same(old(self)),
                Some(p) => match old(self).free_slot() {
                    None => r == Err::<ProcessId, u32>(ENOMEM) && final(self).same(old(self)),
                    Some(k) => {
                        &&& r == Ok::<ProcessId, u32>(ProcessId(old(self).next_pid))
                        &&& final(self).entries@.len() == MAX_PROCESSES
                        &&& forall|j: int| 0 <= j < MAX_PROCESSES && j != k ==> #[trigger] final(self).entries@[j] == old(self).entries@[j]
                        &&& final(self).entries@[k].forked_from(
                            old(self).entries@[p],
                            ProcessId(old(self).next_pid),
                            parent_pid,
                            address_space,
                        )
                        &&& final(self).next_pid == pid_after(old(self).next_pid)
                        &&& final(self).init_pid == old(self).init_pid
                    },
                },
            },
    {
        let p = match self.index_of(parent_pid) {
            Some(p) => p,
            None => {
                return Err(EINVAL);
            },
        };
        let slot = match self.find_free() {
            Some(slot) => slot,
            None => {
                return Err(ENOMEM);
            },
        };
        let pid = self.advance_pid();
        assert(self.entries@[p as int].wf());
        let child = ProcessControlBlock {
            pid,
            parent: parent_pid,
            name: self.entries[p].name,
            state: ProcessState::Alive,
            address_space,
            files: self.entries[p].files.duplicate(),
            creds: self.entries[p].creds,
            cwd: copy_vec(&self.entries[p].cwd),
            main_thread: self.entries[p].main_thread,
            thread_count: 1,
            exit_code: 0,
            resources_reaped: false,
        };
        self.entries.set(slot, child);
        Ok(pid)
    }

    pub fn has_free_slot(&self) -> (r: bool)
        ensures
            r == (self.free_slot() is Some),
    {
        self.find_free().is_some()
    }

    pub fn rename(&mut self, pid: ProcessId, name: &'static str)
        requires
            old(self).wf(),
        ensures
            final(self).wf(),
            match old(self).slot(pid) {
                None => final(self).same(old(self)),
                Some(k) => final(self).only_slot(old(self), k) && final(self).entries@[k]
                    == ProcessControlBlock { name, ..old(self).entries@[k] },
            },
    {
        if let Some(k) = self.index_of(pid) {
            self.entries[k].name = name;
        }
    }

    pub fn set_main_thread(&mut self, pid: ProcessId, tid: ThreadId)
        requires
            old(self).wf(),
        ensures
            final(self).wf(),
            match old(self).slot(pid) {
                None => final(self).same(old(self)),
                Some(k) => final(self).only_slot(old(self), k) && final(self).entries@[k]
                    == ProcessControlBlock { main_thread: tid, ..old(self).entries@[k] },
            },
    {
        if let Some(k) = self.index_of(pid) {
            self.entries[k].main_thread = tid;
        }
    }

    /// Makes `pid` the process that adopts orphans, if it is alive.
    pub fn set_init_process(&mut self, pid: ProcessId)
        requires
            old(self).wf(),
        ensures
            final(self).wf(),
            final(self).entries@ == old(self).entries@,
            final(self).next_pid == old(self).next_pid,
            final(self).init_pid == match old(self).slot(pid) {
                Some(k) => if old(self).entries@[k].state == ProcessState::Alive {
                    pid
                } else {
                    old(self).init_pid
                },
                None => old(self).init_pid,
            },
    {
        if let Some(k) = self.index_of(pid) {
            if self.entries[k].state == ProcessState::Alive {
                self.init_pid = pid;
            }
        }
    }

    pub fn mark_zombie(&mut self, pid: ProcessId, exit_code: i32)
        requires
            old(self).wf(),
        ensures
            final(self).wf(),
            match old(self).slot(pid) {
                None => final(self).same(old(self)),
                Some(k) => final(self).only_slot(old(self), k) && final(self).entries@[k]
                    == ProcessControlBlock {
                    state: ProcessState::Zombie,
                    exit_code,
                    ..old(self).entries@[k]
                },
            },
    {
        if let Some(k) = self.index_of(pid) {
            self.entries[k].state = ProcessState::Zombie;
            self.entries[k].exit_code = exit_code;
        }
    }
}


/// The number of slots in use.
pub open spec fn live_count(s: Seq<ProcessControlBlock>) -> nat
    decreases s.len(),
{
    if s.len() == 0 {
        0
    } else {
        live_count(s.drop_last()) + if s.last().state != ProcessState::Empty {
            1nat
        } else {
            0nat
        }
    }
}

pub proof fn lemma_live_count_update(s: Seq<ProcessControlBlock>, i: int, p: ProcessControlBlock)
    requires
        0 <= i < s.len(),
    ensures
        live_count(s.update(i, p)) + (if s[i].state != ProcessState::Empty {
            1int
        } else {
            0int
        }) == live_count(s) + (if p.state != ProcessState::Empty {
            1int
        } else {
            0int
        }),
    decreases s.len(),
{
    if i == s.len() - 1 {
        assert(s.update(i, p).drop_last() =~= s.drop_last());
    } else {
        lemma_live_count_update(s.drop_last(), i, p);
        assert(s.update(i, p).drop_last() =~= s.drop_last().update(i, p));
    }
}

pub proof fn lemma_live_count_mono(o: Seq<ProcessControlBlock>, n: Seq<ProcessControlBlock>)
    requires
        o.len() == n.len(),
        forall|j: int|
            0 <= j < n.len() && (#[trigger] n[j]).state != ProcessState::Empty ==> o[j].state
                != ProcessState::Empty,
    ensures
        live_count(n) <= live_count(o),
    decreases n.len(),
{
    if n.len() > 0 {
        lemma_live_count_mono(o.drop_last(), n.drop_last());
    }
}

/// Slot `n` is slot `o` unchanged, freed because `o` was a reaped zombie, or
/// `o` under another parent.
pub open spec fn adopted_or_freed(o: ProcessControlBlock, n: ProcessControlBlock) -> bool {
    ||| n == o
    ||| (o.state == ProcessState::Zombie && o.resources_reaped && n.state == ProcessState::Empty && n.pid.0 == 0)
    ||| (o.state != ProcessState::Empty && n == ProcessControlBlock { parent: n.parent, ..o })
}

/// Area `b` starts where `a` ends, with the same flags and file, so the two
/// could be one.
pub open spec fn mergeable(a: VmArea, b: VmArea) -> bool {
    a.end.0 == b.start.0 && a.flags == b.flags && a.file == b.file
}

/// Every slot of `n` stands to the same slot of `o` as `adopted_or_freed` says.
pub open spec fn all_adopted_or_freed(o: Seq<ProcessControlBlock>, n: Seq<ProcessControlBlock>) -> bool {
    o.len() == n.len() && forall|j: int| 0 <= j < o.len() ==> adopted_or_freed(o[j], #[trigger] n[j])
}

/// Each slot of `n` is the slot of `o` as it was, or free, or has `init` or
/// nobody as its parent.
pub open spec fn parents_only_to(o: Seq<ProcessControlBlock>, n: Seq<ProcessControlBlock>, init: ProcessId) -> bool {
    forall|j: int|
        0 <= j < o.len() ==> #[trigger] n[j] == o[j] || n[j].state == ProcessState::Empty || n[j].parent
            == init || n[j].parent.0 == 0
}

/// No used slot of `n` has `parent` as its parent.
pub open spec fn no_child_of(n: Seq<ProcessControlBlock>, parent: ProcessId) -> bool {
    forall|j: int| 0 <= j < n.len() ==> (#[trigger] n[j]).state == ProcessState::Empty || n[j].parent != parent
}

proof fn lemma_adopted_trans(a: Seq<ProcessControlBlock>, b: Seq<ProcessControlBlock>, c: Seq<ProcessControlBlock>)
    requires
        all_adopted_or_freed(a, b),
        all_adopted_or_freed(b, c),
    ensures
        all_adopted_or_freed(a, c),
{
    assert forall|j: int| 0 <= j < a.len() implies adopted_or_freed(a[j], #[trigger] c[j]) by {
        assert(adopted_or_freed(a[j], b[j]));
        assert(adopted_or_freed(b[j], c[j]));
    }
}

/// The first slot at or after `i` holding a child of `parent` (the one
/// `requested`, if that is a valid identifier) that is a reaped zombie.
pub open spec fn is_child(p: ProcessControlBlock, parent: ProcessId, requested: ProcessId) -> bool {
    p.state != ProcessState::Empty && p.parent == parent && (requested.0 != 0 ==> p.pid == requested)
}

pub open spec fn reapable(p: ProcessControlBlock) -> bool {
    p.state == ProcessState::Zombie && p.resources_reaped
}

pub open spec fn reapable_from(s: Seq<ProcessControlBlock>, parent: ProcessId, requested: ProcessId, i: int) -> Option<
    int,
>
    decreases s.len() - i,
{
    if i < 0 || i >= s.len() {
        None
    } else if is_child(s[i], parent, requested) && reapable(s[i]) {
        Some(i)
    } else {
        reapable_from(s, parent, requested, i + 1)
    }
}

/// The number of slots holding a child of `parent`.
pub open spec fn child_count(s: Seq<ProcessControlBlock>, parent: ProcessId) -> nat
    decreases s.len(),
{
    if s.len() == 0 {
        0
    } else {
        child_count(s.drop_last(), parent) + if s.last().state != ProcessState::Empty && s.last().parent
            == parent {
            1nat
        } else {
            0nat
        }
    }
}

impl ProcessTable {
    /// Who takes over the children of `old_parent`: the init process while it
    /// is alive and is not `old_parent` itself, else nobody.
    pub open spec fn adopter(&self, old_parent: ProcessId) -> ProcessId {
        adopter_in(self.entries@, self.init_pid, old_parent)
    }

    fn adoptive_parent(&self, old_parent: ProcessId) -> (r: ProcessId)
        ensures
            r == self.adopter(old_parent),
    {
        if self.init_pid.is_valid() && self.init_pid != old_parent {
            if let Some(k) = self.index_of(self.init_pid) {
                if self.entries[k].state == ProcessState::Alive {
                    return self.init_pid;
                }
            }
        }
        ProcessId::new(0)
    }

    /// Hands the children of `parent` to the adopter and frees those that are
    /// reaped zombies, doing the same for their own children in turn.
    fn orphan_children(&mut self, parent: ProcessId)
        requires
            old(self).wf(),
        ensures
            final(self).wf(),
            all_adopted_or_freed(old(self).entries@, final(self).entries@),
            parents_only_to(old(self).entries@, final(self).entries@, old(self).init_pid),
            parent != old(self).init_pid && parent.0 != 0 ==> no_child_of(final(self).entries@, parent),
            orphaning_ok(old(self).entries@, parent) ==> orphaned(
                old(self).entries@,
                final(self).entries@,
                parent,
                old(self).adopter(parent),
            ),
            final(self).next_pid == old(self).next_pid,
            final(self).init_pid == old(self).init_pid,
        decreases live_count(old(self).entries@),
    {
        let adoptive = self.adoptive_parent(parent);
        proof {
            lemma_progress_start(self.entries@, parent, adoptive);
            if orphaning_ok(self.entries@, parent) {
                lemma_adopter_safe(self.entries@, self.init_pid, parent);
            }
        }
        let mut slot: usize = 0;
        while slot < self.entries.len()
            invariant
                self.wf(),
                adoptive == adopter_in(old(self).entries@, old(self).init_pid, parent),
                orphaning_ok(old(self).entries@, parent) ==> {
                    &&& orphan_progress(old(self).entries@, self.entries@, parent, adoptive, slot as int)
                    &&& adoptive != parent
                    &&& (adoptive.0 == 0 || forall|j: int|
                        0 <= j < MAX_PROCESSES && holds_pid(#[trigger] old(self).entries@[j], adoptive)
                            ==> old(self).entries@[j].state == ProcessState::Alive)
                },
                all_adopted_or_freed(old(self).entries@, self.entries@),
                parents_only_to(old(self).entries@, self.entries@, old(self).init_pid),
                adoptive == old(self).init_pid || adoptive.0 == 0,
                slot <= self.entries@.len(),
                parent != old(self).init_pid && parent.0 != 0 ==> forall|j: int|
                    0 <= j < slot ==> (#[trigger] self.entries@[j]).state == ProcessState::Empty
                        || self.entries@[j].parent != parent,
                live_count(self.entries@) <= live_count(old(self).entries@),
                self.next_pid == old(self).next_pid,
                self.init_pid == old(self).init_pid,
            decreases MAX_PROCESSES - slot,
        {
            if self.entries[slot].state == ProcessState::Empty || self.entries[slot].parent != parent {
                proof {
                    if orphaning_ok(old(self).entries@, parent) {
                        lemma_progress_skip(old(self).entries@, self.entries@, parent, adoptive, slot as int);
                    }
                }
                slot += 1;
                continue;
            }
            proof {
                if orphaning_ok(old(self).entries@, parent) {
                    lemma_child_unchanged(old(self).entries@, self.entries@, parent, adoptive, slot as int, slot as int);
                }
            }
            if self.entries[slot].state == ProcessState::Zombie && self.entries[slot].resources_reaped {
                let child = self.entries[slot].pid;
                let ghost before = self.entries@;
                self.entries.set(slot, ProcessControlBlock::empty());
                proof {
                    lemma_live_count_update(before, slot as int, self.entries@[slot as int]);
                    assert(all_adopted_or_freed(old(self).entries@, self.entries@)) by {
                        assert forall|j: int| 0 <= j < MAX_PROCESSES implies adopted_or_freed(
                            old(self).entries@[j],
                            #[trigger] self.entries@[j],
                        ) by {
                            if j != slot {
                                assert(self.entries@[j] == before[j]);
                            } else {
                                assert(adopted_or_freed(old(self).entries@[j], before[j]));
                            }
                        }
                    }
                }
                let ghost mid = self.entries@;
                proof {
                    assert forall|j: int| 0 <= j < old(self).entries@.len() implies #[trigger] mid[j]
                        == old(self).entries@[j] || mid[j].state == ProcessState::Empty || mid[j].parent
                        == old(self).init_pid || mid[j].parent.0 == 0 by {
                        if j != slot {
                            assert(mid[j] == before[j]);
                        }
                    }
                    assert(parents_only_to(old(self).entries@, mid, old(self).init_pid));
                    assert(forall|j: int| 0 <= j < slot ==> mid[j] == before[j]);
                }
                proof {
                    if orphaning_ok(old(self).entries@, parent) {
                        lemma_free_ready(
                            old(self).entries@,
                            before,
                            mid,
                            parent,
                            adoptive,
                            old(self).init_pid,
                            slot as int,
                        );
                    }
                }
                self.orphan_children(child);
                proof {
                    if orphaning_ok(old(self).entries@, parent) {
                        lemma_progress_free(
                            old(self).entries@,
                            before,
                            mid,
                            self.entries@,
                            parent,
                            adoptive,
                            slot as int,
                        );
                    }
                    lemma_adopted_trans(old(self).entries@, mid, self.entries@);
                    lemma_live_count_mono(mid, self.entries@);
                    let now = self.entries@;
                    assert forall|j: int| 0 <= j < old(self).entries@.len() implies #[trigger] now[j]
                        == old(self).entries@[j] || now[j].state == ProcessState::Empty || now[j].parent
                        == old(self).init_pid || now[j].parent.0 == 0 by {
                        assert(now[j] == mid[j] || now[j].state == ProcessState::Empty || now[j].parent
                            == old(self).init_pid || now[j].parent.0 == 0);
                        assert(mid[j] == old(self).entries@[j] || mid[j].state == ProcessState::Empty
                            || mid[j].parent == old(self).init_pid || mid[j].parent.0 == 0);
                    }
                    if parent != old(self).init_pid && parent.0 != 0 {
                        assert forall|j: int| 0 <= j < slot + 1 implies (#[trigger] now[j]).state
                            == ProcessState::Empty || now[j].parent != parent by {
                            assert(now[j] == mid[j] || now[j].state == ProcessState::Empty || now[j].parent
                                == old(self).init_pid || now[j].parent.0 == 0);
                            if j < slot {
                                assert(mid[j] == before[j]);
                            }
                        }
                    }
                }
            } else {
                let ghost before = self.entries@;
                self.entries[slot].parent = adoptive;
                proof {
                    if orphaning_ok(old(self).entries@, parent) {
                        assert(self.entries@ == before.update(
                            slot as int,
                            ProcessControlBlock { parent: adoptive, ..before[slot as int] },
                        ));
                        lemma_progress_reparent(
                            old(self).entries@,
                            before,
                            self.entries@,
                            parent,
                            adoptive,
                            slot as int,
                        );
                    }
                    let now = self.entries@;
                    assert forall|j: int| 0 <= j < old(self).entries@.len() implies #[trigger] now[j]
                        == old(self).entries@[j] || now[j].state == ProcessState::Empty || now[j].parent
                        == old(self).init_pid || now[j].parent.0 == 0 by {
                        if j != slot {
                            assert(now[j] == before[j]);
                        }
                    }
                    if parent != old(self).init_pid && parent.0 != 0 {
                        assert forall|j: int| 0 <= j < slot + 1 implies (#[trigger] now[j]).state
                            == ProcessState::Empty || now[j].parent != parent by {
                            if j != slot {
                                assert(now[j] == before[j]);
                            }
                        }
                    }
                    lemma_live_count_update(before, slot as int, self.entries@[slot as int]);
                    assert forall|j: int| 0 <= j < MAX_PROCESSES implies adopted_or_freed(
                        old(self).entries@[j],
                        #[trigger] self.entries@[j],
                    ) by {
                        if j != slot {
                            assert(self.entries@[j] == before[j]);
                        } else {
                            assert(adopted_or_freed(old(self).entries@[j], before[j]));
                        }
                    }
                }
            }
            slot += 1;
        }
        proof {
            if orphaning_ok(old(self).entries@, parent) {
                lemma_progress_end(old(self).entries@, self.entries@, parent, adoptive);
            }
        }
    }

    /// Frees the slot of `pid` and orphans its children.
    pub fn release(&mut self, pid: ProcessId)
        requires
            old(self).wf(),
        ensures
            final(self).wf(),
            final(self).next_pid == old(self).next_pid,
            final(self).init_pid == old(self).init_pid,
            match old(self).slot(pid) {
                None => final(self).same(old(self)),
                Some(k) => {
                    &&& final(self).entries@[k].state == ProcessState::Empty && final(self).entries@[k].pid.0 == 0
                    &&& forall|j: int|
                        0 <= j < MAX_PROCESSES && j != k ==> adopted_or_freed(
                            old(self).entries@[j],
                            #[trigger] final(self).entries@[j],
                        )
                    &&& distinct_pids(old(self).entries@) ==> orphaned(
                        old(self).entries@.update(k, final(self).entries@[k]),
                        final(self).entries@,
                        pid,
                        old(self).adopter(pid),
                    )
                },
            },
            old(self).slot(pid) is Some ==> parents_only_to(old(self).entries@, final(self).entries@, old(self).init_pid),
            old(self).slot(pid) is Some && pid != old(self).init_pid && pid.0 != 0 ==> no_child_of(final(self).entries@, pid),
    {
        if let Some(k) = self.index_of(pid) {
            let ghost start = self.entries@;
            self.entries.set(k, ProcessControlBlock::empty());
            let ghost mid = self.entries@;
            proof {
                if distinct_pids(start) {
                    lemma_slot_from(start, pid, 0);
                    lemma_free_slot(start, k as int, mid[k as int], self.init_pid);
                }
            }
            self.orphan_children(pid);
            proof {
                if distinct_pids(start) {
                    let now = self.entries@;
                    assert(now[k as int] == mid[k as int]);
                    assert(start.update(k as int, now[k as int]) == mid);
                }
                let now = self.entries@;
                assert forall|j: int| 0 <= j < old(self).entries@.len() implies #[trigger] now[j]
                    == old(self).entries@[j] || now[j].state == ProcessState::Empty || now[j].parent
                    == old(self).init_pid || now[j].parent.0 == 0 by {
                    assert(now[j] == mid[j] || now[j].state == ProcessState::Empty || now[j].parent
                        == old(self).init_pid || now[j].parent.0 == 0);
                    if j != k {
                        assert(mid[j] == old(self).entries@[j]);
                    }
                }
                assert(adopted_or_freed(mid[k as int], self.entries@[k as int]));
                assert forall|j: int| 0 <= j < MAX_PROCESSES && j != k implies adopted_or_freed(
                    old(self).entries@[j],
                    #[trigger] self.entries@[j],
                ) by {
                    assert(mid[j] == old(self).entries@[j]);
                    assert(adopted_or_freed(mid[j], self.entries@[j]));
                }
            }
        }
    }

    /// Marks the resources of `pid` as reaped: its threads are gone, its files
    /// closed, and `replacement` takes the place of its address space, which
    /// is handed back.
    pub fn mark_resources_reaped(&mut self, pid: ProcessId, replacement_address_space: AddressSpace) -> (r:
        Option<AddressSpace>)
        requires
            old(self).wf(),
            replacement_address_space.wf(),
        ensures
            final(self).wf(),
            match old(self).slot(pid) {
                None => r == None::<AddressSpace> && final(self).same(old(self)),
                Some(k) => if old(self).entries@[k].resources_reaped {
                    r == None::<AddressSpace> && final(self).same(old(self))
                } else {
                    &&& r == Some(old(self).entries@[k].address_space)
                    &&& final(self).only_slot(old(self), k)
                    &&& final(self).entries@[k] == ProcessControlBlock {
                        resources_reaped: true,
                        thread_count: 0,
                        files: final(self).entries@[k].files,
                        address_space: replacement_address_space,
                        ..old(self).entries@[k]
                    }
                    &&& final(self).entries@[k].files.all_closed()
                },
            },
    {
        let k = match self.index_of(pid) {
            Some(k) => k,
            None => {
                return None;
            },
        };
        if self.entries[k].resources_reaped {
            return None;
        }
        self.entries[k].resources_reaped = true;
        self.entries[k].thread_count = 0;
        self.entries[k].files = FileTable::empty();
        let mut taken = replacement_address_space;
        std::mem::swap(&mut self.entries[k].address_space, &mut taken);
        Some(taken)
    }

    /// A copy of the address space of `pid`.
    pub fn address_space(&self, pid: ProcessId) -> (r: Option<AddressSpace>)
        ensures
            match self.slot(pid) {
                None => r == None::<AddressSpace>,
                Some(k) => r is Some && r->0.same_except_vmas(&self.entries@[k].address_space) && r->0.vmas@
                    == self.entries@[k].address_space.vmas@,
            },
    {
        match self.index_of(pid) {
            Some(k) => Some(self.entries[k].address_space.duplicate()),
            None => None,
        }
    }

    /// The address space of `pid`, to change in place.
    pub fn address_space_mut(&mut self, pid: ProcessId) -> (r: Option<&mut AddressSpace>)
        ensures
            final(self).next_pid == old(self).next_pid,
            final(self).init_pid == old(self).init_pid,
            match old(self).slot(pid) {
                None => r is None && final(self).entries@ == old(self).entries@,
                Some(k) => r is Some && *r->0 == old(self).entries@[k].address_space && final(self).entries@
                    == old(self).entries@.update(
                    k,
                    ProcessControlBlock { address_space: *final(r->0), ..old(self).entries@[k] },
                ),
            },
    {
        match self.index_of(pid) {
            Some(k) => Some(&mut self.entries[k].address_space),
            None => None,
        }
    }

    /// Puts `address_space` in place of the address space of `pid`, which is handed back.
    pub fn replace_address_space(&mut self, pid: ProcessId, address_space: AddressSpace) -> (r: Option<
        AddressSpace,
    >)
        requires
            old(self).wf(),
            address_space.wf(),
        ensures
            final(self).wf(),
            match old(self).slot(pid) {
                None => r == None::<AddressSpace> && final(self).same(old(self)),
                Some(k) => r == Some(old(self).entries@[k].address_space) && final(self).only_slot(old(self), k)
                    && final(self).entries@[k] == ProcessControlBlock { address_space, ..old(self).entries@[k] },
            },
    {
        let k = match self.index_of(pid) {
            Some(k) => k,
            None => {
                return None;
            },
        };
        let mut taken = address_space;
        std::mem::swap(&mut self.entries[k].address_space, &mut taken);
        Some(taken)
    }

    /// Closes the close-on-exec descriptors of `pid`.
    pub fn close_on_exec(&mut self, pid: ProcessId) -> (r: Result<ClosedFiles, u32>)
        requires
            old(self).wf(),
        ensures
            final(self).wf(),
            match old(self).slot(pid) {
                None => r is Err && r->Err_0 == EINVAL && final(self).same(old(self)),
                Some(k) => r is Ok && final(self).only_slot(old(self), k) && final(self).entries@[k]
                    == ProcessControlBlock { files: final(self).entries@[k].files, ..old(self).entries@[k] }
                    && closing_post(old(self).entries@[k].files, final(self).entries@[k].files, false, r->Ok_0),
            },
    {
        let k = match self.index_of(pid) {
            Some(k) => k,
            None => {
                return Err(EINVAL);
            },
        };
        assert(self.entries@[k as int].wf());
        let closed = self.entries[k].files.close_on_exec();
        Ok(closed)
    }

    /// Closes every descriptor of `pid`.
    pub fn close_all_files(&mut self, pid: ProcessId) -> (r: Result<ClosedFiles, u32>)
        requires
            old(self).wf(),
        ensures
            final(self).wf(),
            match old(self).slot(pid) {
                None => r is Err && r->Err_0 == EINVAL && final(self).same(old(self)),
                Some(k) => r is Ok && final(self).only_slot(old(self), k) && final(self).entries@[k]
                    == ProcessControlBlock { files: final(self).entries@[k].files, ..old(self).entries@[k] }
                    && closing_post(old(self).entries@[k].files, final(self).entries@[k].files, true, r->Ok_0),
            },
    {
        let k = match self.index_of(pid) {
            Some(k) => k,
            None => {
                return Err(EINVAL);
            },
        };
        assert(self.entries@[k as int].wf());
        let closed = self.entries[k].files.close_all();
        Ok(closed)
    }

    /// The working directory of `pid`.
    pub fn cwd(&self, pid: ProcessId) -> (r: Option<&[u8]>)
        ensures
            match self.slot(pid) {
                None => r is None,
                Some(k) => r is Some && r->0@ == self.entries@[k].cwd@,
            },
    {
        match self.index_of(pid) {
            Some(k) => Some(self.entries[k].cwd.as_slice()),
            None => None,
        }
    }

    /// Sets the working directory of `pid`; the path must be non-empty and
    /// shorter than `CWD_MAX`.
    pub fn set_cwd(&mut self, pid: ProcessId, path: &[u8]) -> (r: Result<(), u32>)
        requires
            old(self).wf(),
        ensures
            final(self).wf(),
            path@.len() == 0 || path@.len() >= CWD_MAX || old(self).slot(pid) is None ==> r == Err::<(), u32>(
                EINVAL,
            ) && final(self).same(old(self)),
            !(path@.len() == 0 || path@.len() >= CWD_MAX || old(self).slot(pid) is None) ==> ({
                let k = old(self).slot(pid)->0;
                &&& r == Ok::<(), u32>(())
                &&& final(self).only_slot(old(self), k)
                &&& final(self).entries@[k] == ProcessControlBlock {
                    cwd: final(self).entries@[k].cwd,
                    ..old(self).entries@[k]
                }
                &&& final(self).entries@[k].cwd@ == path@
            }),
    {
        if path.len() == 0 || path.len() >= CWD_MAX {
            return Err(EINVAL);
        }
        let k = match self.index_of(pid) {
            Some(k) => k,
            None => {
                return Err(EINVAL);
            },
        };
        let mut cwd: Vec<u8> = Vec::new();
        let mut i: usize = 0;
        while i < path.len()
            invariant
                i <= path@.len(),
                cwd@ == path@.subrange(0, i as int),
            decreases path@.len() - i,
        {
            cwd.push(path[i]);
            i += 1;
            assert(cwd@ =~= path@.subrange(0, i as int));
        }
        assert(cwd@ =~= path@);
        self.entries[k].cwd = cwd;
        Ok(())
    }
}


impl ProcessTable {
    /// Reaps a zombie child of `parent` (only `requested`, if that is a valid
    /// identifier): the first whose resources are already reaped is released
    /// and its identifier and exit code returned. `EAGAIN` when there are
    /// children but none is ready, `ECHILD` when there are none.
    pub fn take_zombie_child(&mut self, parent: ProcessId, requested: ProcessId) -> (r: Result<
        (ProcessId, i32),
        u32,
    >)
        requires
            old(self).wf(),
        ensures
            final(self).wf(),
            final(self).next_pid == old(self).next_pid,
            final(self).init_pid == old(self).init_pid,
            match reapable_from(old(self).entries@, parent, requested, 0) {
                Some(k) => {
                    let c = old(self).entries@[k];
                    &&& r == Ok::<(ProcessId, i32), u32>((c.pid, c.exit_code))
                    &&& match old(self).slot(c.pid) {
                        Some(s) => {
                            &&& final(self).entries@[s].state == ProcessState::Empty
                            &&& forall|j: int|
                                0 <= j < MAX_PROCESSES && j != s ==> adopted_or_freed(
                                    old(self).entries@[j],
                                    #[trigger] final(self).entries@[j],
                                )
                            &&& distinct_pids(old(self).entries@) ==> orphaned(
                                old(self).entries@.update(s, final(self).entries@[s]),
                                final(self).entries@,
                                c.pid,
                                old(self).adopter(c.pid),
                            )
                        },
                        None => final(self).same(old(self)),
                    }
                },
                None => final(self).same(old(self)) && r == Err::<(ProcessId, i32), u32>(
                    if exists|j: int|
                        0 <= j < MAX_PROCESSES && is_child(#[trigger] old(self).entries@[j], parent, requested) {
                        EAGAIN
                    } else {
                        ECHILD
                    },
                ),
            },
    {
        let mut has_child = false;
        let mut slot: usize = 0;
        while slot < self.entries.len()
            invariant
                self.wf(),
                self.same(old(self)),
                slot <= MAX_PROCESSES,
                reapable_from(self.entries@, parent, requested, 0) == reapable_from(
                    self.entries@,
                    parent,
                    requested,
                    slot as int,
                ),
                has_child == exists|j: int| 0 <= j < slot && is_child(#[trigger] self.entries@[j], parent, requested),
            decreases MAX_PROCESSES - slot,
        {
            let state = self.entries[slot].state;
            if state == ProcessState::Empty || self.entries[slot].parent != parent {
                slot += 1;
                continue;
            }
            if requested.is_valid() && self.entries[slot].pid != requested {
                slot += 1;
                continue;
            }
            has_child = true;
            assert(is_child(self.entries@[slot as int], parent, requested));
            if state == ProcessState::Zombie && self.entries[slot].resources_reaped {
                let pid = self.entries[slot].pid;
                let exit_code = self.entries[slot].exit_code;
                self.release(pid);
                return Ok((pid, exit_code));
            }
            slot += 1;
        }
        if has_child {
            Err(EAGAIN)
        } else {
            Err(ECHILD)
        }
    }

    /// The parent of `pid`, or the invalid identifier when there is no such process.
    pub fn parent_of(&self, pid: ProcessId) -> (r: ProcessId)
        ensures
            r == match self.slot(pid) {
                Some(k) => self.entries@[k].parent,
                None => ProcessId(0),
            },
    {
        match self.index_of(pid) {
            Some(k) => self.entries[k].parent,
            None => ProcessId::new(0),
        }
    }

    /// Whether the parent of `pid` is a valid, alive process.
    pub fn has_live_parent(&self, pid: ProcessId) -> (r: bool)
        ensures
            r == ({
                let parent = match self.slot(pid) {
                    Some(k) => self.entries@[k].parent,
                    None => ProcessId(0),
                };
                parent.0 != 0 && match self.slot(parent) {
                    Some(k) => self.entries@[k].state == ProcessState::Alive,
                    None => false,
                }
            }),
    {
        let parent = self.parent_of(pid);
        if !parent.is_valid() {
            return false;
        }
        match self.index_of(parent) {
            Some(k) => self.entries[k].state == ProcessState::Alive,
            None => false,
        }
    }

    /// The handle behind descriptor `fd` of `pid`.
    pub open spec fn file_of(&self, pid: ProcessId, fd: int) -> Option<FileHandle> {
        match self.slot(pid) {
            Some(k) => self.entries@[k].files.lookup(fd),
            None => None,
        }
    }

    pub fn can_write_fd(&self, pid: ProcessId, fd: usize) -> (r: bool)
        requires
            self.wf(),
        ensures
            r == match self.file_of(pid, fd as int) {
                Some(h) => h.object.writable(),
                None => false,
            },
    {
        match self.file(pid, fd) {
            Some(h) => h.object.can_write(),
            None => false,
        }
    }

    pub fn can_read_fd(&self, pid: ProcessId, fd: usize) -> (r: bool)
        requires
            self.wf(),
        ensures
            r == match self.file_of(pid, fd as int) {
                Some(h) => h.object.readable(),
                None => false,
            },
    {
        match self.file(pid, fd) {
            Some(h) => h.object.can_read(),
            None => false,
        }
    }

    pub fn file(&self, pid: ProcessId, fd: usize) -> (r: Option<FileHandle>)
        requires
            self.wf(),
        ensures
            r == self.file_of(pid, fd as int),
    {
        match self.index_of(pid) {
            Some(k) => {
                assert(self.entries@[k as int].wf());
                self.entries[k].files.get(fd)
            },
            None => None,
        }
    }

    /// The handle behind descriptor `fd` of `pid`, to change in place.
    pub fn file_mut(&mut self, pid: ProcessId, fd: usize) -> (r: Option<&mut FileHandle>)
        requires
            old(self).wf(),
        ensures
            final(self).next_pid == old(self).next_pid,
            final(self).init_pid == old(self).init_pid,
            final(self).entries@.len() == old(self).entries@.len(),
            match r {
                None => {
                    &&& old(self).file_of(pid, fd as int) == None::<FileHandle>
                    &&& old(self).slot(pid) is None ==> final(self).entries@ == old(self).entries@
                    &&& old(self).slot(pid) is Some ==> {
                        let k = old(self).slot(pid)->0;
                        &&& forall|j: int| 0 <= j < MAX_PROCESSES && j != k ==> #[trigger] final(self).entries@[j] == old(self).entries@[j]
                        &&& final(self).entries@[k] == ProcessControlBlock {
                            files: final(self).entries@[k].files,
                            ..old(self).entries@[k]
                        }
                        &&& final(self).entries@[k].files.fds@ == old(self).entries@[k].files.fds@
                        &&& final(self).entries@[k].files.handles@ == old(self).entries@[k].files.handles@
                    }
                },
                Some(h) => {
                    let k = old(self).slot(pid)->0;
                    let o = old(self).entries@[k];
                    &&& old(self).file_of(pid, fd as int) == Some(*h)
                    &&& forall|j: int| 0 <= j < MAX_PROCESSES && j != k ==> #[trigger] final(self).entries@[j] == old(self).entries@[j]
                    &&& final(self).entries@[k] == ProcessControlBlock { files: final(self).entries@[k].files, ..o }
                    &&& final(self).entries@[k].files.fds@ == o.files.fds@
                    &&& final(self).entries@[k].files.handles@ == o.files.handles@.update(
                        o.files.fds@[fd as int].handle.0 as int,
                        *final(h),
                    )
                },
            },
    {
        match self.index_of(pid) {
            Some(k) => {
                assert(self.entries@[k as int].wf());
                self.entries[k].files.get_mut(fd)
            },
            None => None,
        }
    }

    pub fn fd_flags(&self, pid: ProcessId, fd: usize) -> (r: Option<u32>)
        ensures
            r == match self.slot(pid) {
                Some(k) => if self.entries@[k].files.fd_open(fd as int) {
                    Some(self.entries@[k].files.fds@[fd as int].fd_flags)
                } else {
                    None
                },
                None => None,
            },
    {
        match self.index_of(pid) {
            Some(k) => self.entries[k].files.fd_flags(fd),
            None => None,
        }
    }

    /// The process `pid` with only its file table changed to what `post`
    /// allows; `EINVAL` when there is no such process.
    pub open spec fn files_changed(&self, o: &ProcessTable, pid: ProcessId) -> bool {
        let k = o.slot(pid)->0;
        &&& self.only_slot(o, k)
        &&& self.entries@[k] == ProcessControlBlock { files: self.entries@[k].files, ..o.entries@[k] }
    }

    pub fn set_fd_flags(&mut self, pid: ProcessId, fd: usize, flags: u32) -> (r: Result<(), u32>)
        requires
            old(self).wf(),
        ensures
            final(self).wf(),
            old(self).slot(pid) is None ==> r == Err::<(), u32>(EINVAL) && final(self).same(old(self)),
            old(self).slot(pid) is Some ==> final(self).files_changed(old(self), pid) && set_fd_flags_post(
                old(self).entries@[old(self).slot(pid)->0].files,
                final(self).entries@[old(self).slot(pid)->0].files,
                fd,
                flags,
                r,
            ),
    {
        let k = match self.index_of(pid) {
            Some(k) => k,
            None => {
                return Err(EINVAL);
            },
        };
        assert(self.entries@[k as int].wf());
        self.entries[k].files.set_fd_flags(fd, flags)
    }

    /// Opens `object` for `pid` on its lowest free descriptor; `O_CLOEXEC` in
    /// `flags` marks the descriptor close-on-exec.
    pub fn open_file(&mut self, pid: ProcessId, object: FileObject, flags: u32) -> (r: Result<usize, u32>)
        requires
            old(self).wf(),
            object != FileObject::Closed,
        ensures
            final(self).wf(),
            old(self).slot(pid) is None ==> r == Err::<usize, u32>(EINVAL) && final(self).same(old(self)),
            old(self).slot(pid) is Some ==> final(self).files_changed(old(self), pid) && open_post(
                old(self).entries@[old(self).slot(pid)->0].files,
                final(self).entries@[old(self).slot(pid)->0].files,
                object,
                flags,
                if flags & O_CLOEXEC != 0 {
                    FD_CLOEXEC
                } else {
                    0
                },
                r,
            ),
    {
        let k = match self.index_of(pid) {
            Some(k) => k,
            None => {
                return Err(EINVAL);
            },
        };
        assert(self.entries@[k as int].wf());
        let fd_flags = if flags & O_CLOEXEC != 0 {
            FD_CLOEXEC
        } else {
            0
        };
        self.entries[k].files.open(object, flags, fd_flags)
    }

    pub fn close_file(&mut self, pid: ProcessId, fd: usize) -> (r: Result<Option<FileObject>, u32>)
        requires
            old(self).wf(),
        ensures
            final(self).wf(),
            old(self).slot(pid) is None ==> r == Err::<Option<FileObject>, u32>(EINVAL) && final(self).same(
                old(self),
            ),
            old(self).slot(pid) is Some ==> final(self).files_changed(old(self), pid) && close_post(
                old(self).entries@[old(self).slot(pid)->0].files,
                final(self).entries@[old(self).slot(pid)->0].files,
                fd,
                r,
            ),
    {
        let k = match self.index_of(pid) {
            Some(k) => k,
            None => {
                return Err(EINVAL);
            },
        };
        assert(self.entries@[k as int].wf());
        self.entries[k].files.close(fd)
    }

    pub fn duplicate_file_from(&mut self, pid: ProcessId, fd: usize, min_fd: usize, cloexec: bool) -> (r:
        Result<usize, u32>)
        requires
            old(self).wf(),
        ensures
            final(self).wf(),
            old(self).slot(pid) is None ==> r == Err::<usize, u32>(EINVAL) && final(self).same(old(self)),
            old(self).slot(pid) is Some ==> final(self).files_changed(old(self), pid) && duplicate_from_post(
                old(self).entries@[old(self).slot(pid)->0].files,
                final(self).entries@[old(self).slot(pid)->0].files,
                fd,
                min_fd,
                if cloexec {
                    FD_CLOEXEC
                } else {
                    0
                },
                r,
            ),
    {
        let k = match self.index_of(pid) {
            Some(k) => k,
            None => {
                return Err(EINVAL);
            },
        };
        assert(self.entries@[k as int].wf());
        self.entries[k].files.duplicate_from(
            fd,
            min_fd,
            if cloexec {
                FD_CLOEXEC
            } else {
                0
            },
        )
    }

    pub fn duplicate_file_to(&mut self, pid: ProcessId, old_fd: usize, new_fd: usize, cloexec: bool) -> (r:
        Result<Option<FileObject>, u32>)
        requires
            old(self).wf(),
        ensures
            final(self).wf(),
            old(self).slot(pid) is None ==> r == Err::<Option<FileObject>, u32>(EINVAL) && final(self).same(
                old(self),
            ),
            old(self).slot(pid) is Some ==> final(self).files_changed(old(self), pid) && duplicate_to_post(
                old(self).entries@[old(self).slot(pid)->0].files,
                final(self).entries@[old(self).slot(pid)->0].files,
                old_fd,
                new_fd,
                if cloexec {
                    FD_CLOEXEC
                } else {
                    0
                },
                r,
            ),
    {
        let k = match self.index_of(pid) {
            Some(k) => k,
            None => {
                return Err(EINVAL);
            },
        };
        assert(self.entries@[k as int].wf());
        self.entries[k].files.duplicate_to(
            old_fd,
            new_fd,
            if cloexec {
                FD_CLOEXEC
            } else {
                0
            },
        )
    }

    pub fn open_file_count(&self, pid: ProcessId) -> (r: usize)
        requires
            self.wf(),
        ensures
            r == match self.slot(pid) {
                Some(k) => open_fd_count(self.entries@[k].files.fds@),
                None => 0,
            },
    {
        match self.index_of(pid) {
            Some(k) => {
                assert(self.entries@[k as int].wf());
                self.entries[k].files.open_count()
            },
            None => 0,
        }
    }

    /// The objects of the open handles of `pid`, in handle order.
    pub fn for_each_file_object(&self, pid: ProcessId) -> (r: Result<Vec<FileObject>, u32>)
        ensures
            match self.slot(pid) {
                Some(k) => r is Ok && r->Ok_0@ == open_objects(self.entries@[k].files.handles@),
                None => r is Err && r->Err_0 == EINVAL,
            },
    {
        match self.index_of(pid) {
            Some(k) => Ok(self.entries[k].files.for_each_open_object()),
            None => Err(EINVAL),
        }
    }

    pub fn credentials(&self, pid: ProcessId) -> (r: Option<Credentials>)
        ensures
            r == match self.slot(pid) {
                Some(k) => Some(self.entries@[k].creds),
                None => None,
            },
    {
        match self.index_of(pid) {
            Some(k) => Some(self.entries[k].creds),
            None => None,
        }
    }

    /// The file creation mask of `pid`, `0o022` when there is no such process.
    pub fn umask(&self, pid: ProcessId) -> (r: u16)
        ensures
            r == match self.slot(pid) {
                Some(k) => self.entries@[k].creds.umask,
                None => 0o022,
            },
    {
        match self.credentials(pid) {
            Some(creds) => creds.umask,
            None => 0o022,
        }
    }

    pub fn vma_count(&self, pid: ProcessId) -> (r: usize)
        ensures
            r == match self.slot(pid) {
                Some(k) => self.entries@[k].address_space.vmas@.len(),
                None => 0,
            },
    {
        match self.index_of(pid) {
            Some(k) => self.entries[k].address_space.vmas.len(),
            None => 0,
        }
    }

    pub fn owned_region_count(&self, pid: ProcessId) -> (r: usize)
        ensures
            r == match self.slot(pid) {
                Some(k) => self.entries@[k].address_space.owned_regions@.len(),
                None => 0,
            },
    {
        match self.index_of(pid) {
            Some(k) => self.entries[k].address_space.owned_regions.len(),
            None => 0,
        }
    }

    /// The name of the state of `pid`, `"missing"` when there is no such process.
    pub fn state_str(&self, pid: ProcessId) -> (r: &'static str)
        ensures
            r@ == match self.slot(pid) {
                Some(k) => match self.entries@[k].state {
                    ProcessState::Empty => "empty"@,
                    ProcessState::Alive => "alive"@,
                    ProcessState::Zombie => "zombie"@,
                },
                None => "missing"@,
            },
    {
        match self.index_of(pid) {
            Some(k) => self.entries[k].state.as_str(),
            None => "missing",
        }
    }

    /// The kind of the address space of `pid`, `"missing"` when there is no such process.
    pub fn address_space_kind(&self, pid: ProcessId) -> (r: &'static str)
        ensures
            r@ == match self.slot(pid) {
                Some(k) => match self.entries@[k].address_space.kind {
                    AddressSpaceKind::Kernel => "kernel"@,
                    AddressSpaceKind::User => "user"@,
                },
                None => "missing"@,
            },
    {
        match self.index_of(pid) {
            Some(k) => self.entries[k].address_space.kind.as_str(),
            None => "missing",
        }
    }

    /// Moves every child of `old_parent` to `new_parent` and counts them.
    pub fn reparent_children(&mut self, old_parent: ProcessId, new_parent: ProcessId) -> (r: usize)
        requires
            old(self).wf(),
        ensures
            final(self).wf(),
            final(self).next_pid == old(self).next_pid,
            final(self).init_pid == old(self).init_pid,
            r == child_count(old(self).entries@, old_parent),
            final(self).entries@.len() == MAX_PROCESSES,
            forall|j: int|
                0 <= j < MAX_PROCESSES ==> #[trigger] final(self).entries@[j] == if old(self).entries@[j].state
                    != ProcessState::Empty && old(self).entries@[j].parent == old_parent {
                    ProcessControlBlock { parent: new_parent, ..old(self).entries@[j] }
                } else {
                    old(self).entries@[j]
                },
    {
        let ghost o = old(self).entries@;
        let mut count: usize = 0;
        let mut slot: usize = 0;
        while slot < self.entries.len()
            invariant
                self.wf(),
                slot <= MAX_PROCESSES,
                self.next_pid == old(self).next_pid,
                self.init_pid == old(self).init_pid,
                o.len() == MAX_PROCESSES,
                count == child_count(o.subrange(0, slot as int), old_parent),
                count <= slot,
                forall|j: int|
                    0 <= j < MAX_PROCESSES ==> #[trigger] self.entries@[j] == if j < slot && o[j].state
                        != ProcessState::Empty && o[j].parent == old_parent {
                        ProcessControlBlock { parent: new_parent, ..o[j] }
                    } else {
                        o[j]
                    },
            decreases MAX_PROCESSES - slot,
        {
            assert(o.subrange(0, slot + 1).drop_last() =~= o.subrange(
                0,
                slot as int,
            ));
            if self.entries[slot].state != ProcessState::Empty && self.entries[slot].parent == old_parent {
                self.entries[slot].parent = new_parent;
                count += 1;
            }
            slot += 1;
        }
        assert(o.subrange(0, MAX_PROCESSES as int) =~= o);
        count
    }

    /// Orphans the children of `parent` as releasing it would.
    pub fn orphan_children_of(&mut self, parent: ProcessId)
        requires
            old(self).wf(),
        ensures
            final(self).wf(),
            all_adopted_or_freed(old(self).entries@, final(self).entries@),
            parents_only_to(old(self).entries@, final(self).entries@, old(self).init_pid),
            parent != old(self).init_pid && parent.0 != 0 ==> no_child_of(final(self).entries@, parent),
            orphaning_ok(old(self).entries@, parent) ==> orphaned(
                old(self).entries@,
                final(self).entries@,
                parent,
                old(self).adopter(parent),
            ),
            final(self).next_pid == old(self).next_pid,
            final(self).init_pid == old(self).init_pid,
    {
        self.orphan_children(parent);
    }
}

/// The top of the user stack of thread slot `slot`.
pub fn user_stack_top(slot: usize) -> (r: usize)
    requires
        slot * USER_STACK_SLOT_SIZE <= USER_TOP,
    ensures
        r == USER_TOP - slot * USER_STACK_SLOT_SIZE,
{
    USER_TOP - slot * USER_STACK_SLOT_SIZE
}

/// The lowest address of the user stack of thread slot `slot`.
pub fn user_stack_bottom(slot: usize) -> (r: usize)
    requires
        slot * USER_STACK_SLOT_SIZE + USER_STACK_SIZE <= USER_TOP,
    ensures
        r == USER_TOP - slot * USER_STACK_SLOT_SIZE - USER_STACK_SIZE,
{
    user_stack_top(slot) - USER_STACK_SIZE
}

} // verus!
