use vstd::prelude::*;

use crate::fs::procfs::MemStats;
use crate::fs::vfs::{InodeRef, Vfs};
use crate::kernel::ipc::{PipeEnd, PipeId};
use crate::kernel::process::{
    lemma_slot_from, FileHandle, FileObject, ProcessControlBlock, ProcessId, ProcessTable, MAX_FILE_HANDLES, MAX_PROCESSES,
};
use crate::kernel::syscall::{EBADF, EINVAL, EISDIR, ESPIPE, O_APPEND, SEEK_CUR, SEEK_END, SEEK_SET};

verus! {

/// The most bytes one step of a read or write moves.
pub const IO_CHUNK: usize = 128;

/// What a `read` of `len` bytes from a descriptor comes to: an answer at
/// once, or a read from the object behind it of at most `len` bytes.
#[derive(Clone, Copy, PartialEq, Eq, Structural, Debug)]
pub enum ReadPlan {
    /// Answer with this value.
    Answer(u32),
    /// Read up to `len` bytes of the file from `offset`, a chunk at a time.
    Regular { inode: InodeRef, offset: usize, len: usize },
    /// Read one chunk of up to `len` bytes from the device.
    Device { inode: InodeRef, len: usize },
    /// Read one chunk of up to `len` bytes from the pipe; wait when empty.
    Pipe { id: PipeId, len: usize },
    /// Take up to `len` bytes of console input; wait when there is none.
    Console { len: usize },
}

/// What a `write` of `len` bytes to a descriptor comes to.
#[derive(Clone, Copy, PartialEq, Eq, Structural, Debug)]
pub enum WritePlan {
    /// Answer with this value.
    Answer(u32),
    /// Write to the file from `offset`, or from its end when `append`.
    Regular { inode: InodeRef, offset: usize, append: bool },
    /// Write to the device.
    Device { inode: InodeRef },
    /// Write into the pipe until it is full.
    Pipe { id: PipeId },
    /// Write to the console.
    Console,
}

pub open spec fn chunk_of(len: usize) -> usize {
    if len < IO_CHUNK { len } else { IO_CHUNK }
}

/// What a read of `len` bytes from descriptor `fd` of process `pid` comes
/// to: `EBADF` unless the descriptor is open for reading, zero for an empty
/// read, `EISDIR` for a directory, and otherwise a read of the object.
pub open spec fn read_plan_spec(table: ProcessTable, pid: ProcessId, fd: usize, len: usize) -> ReadPlan {
    match table.file_of(pid, fd as int) {
        None => ReadPlan::Answer(EBADF),
        Some(f) => if !f.object.readable() {
            ReadPlan::Answer(EBADF)
        } else if len == 0 {
            ReadPlan::Answer(0)
        } else {
            match f.object {
                FileObject::Regular { inode } => ReadPlan::Regular { inode, offset: f.offset, len },
                FileObject::Device { inode } => ReadPlan::Device { inode, len: chunk_of(len) },
                FileObject::Pipe { id, end: PipeEnd::Read } => ReadPlan::Pipe { id, len: chunk_of(len) },
                FileObject::Directory { .. } => ReadPlan::Answer(EISDIR),
                FileObject::Console => ReadPlan::Console { len: chunk_of(len) },
                FileObject::ConsoleIn => ReadPlan::Console { len: chunk_of(len) },
                _ => ReadPlan::Answer(EBADF),
            }
        },
    }
}

/// What a write of `len` bytes to descriptor `fd` of process `pid` comes
/// to: `EBADF` unless the descriptor is open for writing, zero for an empty
/// write, `EISDIR` for a directory, and otherwise a write to the object.
pub open spec fn write_plan_spec(table: ProcessTable, pid: ProcessId, fd: usize, len: usize) -> WritePlan {
    match table.file_of(pid, fd as int) {
        None => WritePlan::Answer(EBADF),
        Some(f) => if !f.object.writable() {
            WritePlan::Answer(EBADF)
        } else if len == 0 {
            WritePlan::Answer(0)
        } else {
            match f.object {
                FileObject::Regular { inode } => WritePlan::Regular {
                    inode,
                    offset: f.offset,
                    append: f.flags & O_APPEND != 0,
                },
                FileObject::Device { inode } => WritePlan::Device { inode },
                FileObject::Pipe { id, end: PipeEnd::Write } => WritePlan::Pipe { id },
                FileObject::Directory { .. } => WritePlan::Answer(EISDIR),
                FileObject::Console => WritePlan::Console,
                FileObject::ConsoleOut => WritePlan::Console,
                FileObject::ConsoleErr => WritePlan::Console,
                _ => WritePlan::Answer(EBADF),
            }
        },
    }
}

fn chunk(len: usize) -> (r: usize)
    ensures
        r == chunk_of(len),
{
    if len < IO_CHUNK {
        len
    } else {
        IO_CHUNK
    }
}

impl ProcessTable {
    /// Decides a read, as `read_plan_spec` says.
    pub fn read_plan(&self, pid: ProcessId, fd: usize, len: usize) -> (r: ReadPlan)
        requires
            self.wf(),
        ensures
            r == read_plan_spec(*self, pid, fd, len),
    {
        let f = match self.file(pid, fd) {
            Some(f) => f,
            None => {
                return ReadPlan::Answer(EBADF);
            },
        };
        if !f.object.can_read() {
            return ReadPlan::Answer(EBADF);
        }
        if len == 0 {
            return ReadPlan::Answer(0);
        }
        match f.object {
            FileObject::Regular { inode } => ReadPlan::Regular { inode, offset: f.offset, len },
            FileObject::Device { inode } => ReadPlan::Device { inode, len: chunk(len) },
            FileObject::Pipe { id, end: PipeEnd::Read } => ReadPlan::Pipe { id, len: chunk(len) },
            FileObject::Directory { .. } => ReadPlan::Answer(EISDIR),
            FileObject::Console => ReadPlan::Console { len: chunk(len) },
            FileObject::ConsoleIn => ReadPlan::Console { len: chunk(len) },
            _ => ReadPlan::Answer(EBADF),
        }
    }

    /// Decides a write, as `write_plan_spec` says.
    pub fn write_plan(&self, pid: ProcessId, fd: usize, len: usize) -> (r: WritePlan)
        requires
            self.wf(),
        ensures
            r == write_plan_spec(*self, pid, fd, len),
    {
        let f = match self.file(pid, fd) {
            Some(f) => f,
            None => {
                return WritePlan::Answer(EBADF);
            },
        };
        if !f.object.can_write() {
            return WritePlan::Answer(EBADF);
        }
        if len == 0 {
            return WritePlan::Answer(0);
        }
        match f.object {
            FileObject::Regular { inode } => WritePlan::Regular { inode, offset: f.offset, append: f.flags & O_APPEND != 0 },
            FileObject::Device { inode } => WritePlan::Device { inode },
            FileObject::Pipe { id, end: PipeEnd::Write } => WritePlan::Pipe { id },
            FileObject::Directory { .. } => WritePlan::Answer(EISDIR),
            FileObject::Console => WritePlan::Console,
            FileObject::ConsoleOut => WritePlan::Console,
            FileObject::ConsoleErr => WritePlan::Console,
            _ => WritePlan::Answer(EBADF),
        }
    }
}

/// `x` held within the range of `isize`.
pub open spec fn clamp_isize(x: int) -> int {
    if x > isize::MAX {
        isize::MAX as int
    } else if x < isize::MIN {
        isize::MIN as int
    } else {
        x
    }
}

/// Where a seek by `offset` from `whence` puts the open file `f`, whose
/// object's metadata `vfs` gives, or the error it meets.
pub open spec fn seek_target(vfs: Vfs, stats: MemStats, f: Option<FileHandle>, offset: i32, whence: u32) -> Result<int, u32> {
    match f {
        None => Err(EBADF),
        Some(h) => match h.object.inode_of() {
            None => Err(ESPIPE),
            Some(inode) => match vfs.meta_spec(inode, stats) {
                None => Err(EBADF),
                Some(m) => if whence != SEEK_SET && whence != SEEK_CUR && whence != SEEK_END {
                    Err(EINVAL)
                } else {
                    let base: int = if whence == SEEK_SET {
                        0
                    } else if whence == SEEK_CUR {
                        (h.offset as isize) as int
                    } else {
                        (m.size as isize) as int
                    };
                    let n = clamp_isize(base + offset);
                    if n < 0 {
                        Err(EINVAL)
                    } else {
                        Ok(n)
                    }
                },
            },
        },
    }
}

impl ProcessTable {
    /// Moves the offset of descriptor `fd` of process `pid` by `offset`
    /// from the start, the current offset or the end, as `whence` says, and
    /// answers the new offset; the table is left as it was on an error.
    pub fn seek(&mut self, vfs: &Vfs, stats: MemStats, pid: ProcessId, fd: usize, offset: i32, whence: u32) -> (r: u32)
        requires
            old(self).wf(),
            vfs.wf(),
        ensures
            final(self).wf(),
            final(self).next_pid == old(self).next_pid && final(self).init_pid == old(self).init_pid,
            match seek_target(*vfs, stats, old(self).file_of(pid, fd as int), offset, whence) {
                Err(e) => r == e && final(self).entries@ == old(self).entries@,
                Ok(n) => {
                    let k = old(self).slot(pid)->0;
                    let o = old(self).entries@[k];
                    let h = o.files.fds@[fd as int].handle.0 as int;
                    &&& r == n as u32
                    &&& forall|j: int| 0 <= j < MAX_PROCESSES && j != k ==> #[trigger] final(self).entries@[j] == old(self).entries@[j]
                    &&& final(self).entries@[k] == ProcessControlBlock { files: final(self).entries@[k].files, ..o }
                    &&& final(self).entries@[k].files.fds@ == o.files.fds@
                    &&& final(self).entries@[k].files.handles@ == o.files.handles@.update(
                        h,
                        FileHandle { offset: n as usize, ..o.files.handles@[h] },
                    )
                },
            },
    {
        let f = match self.file(pid, fd) {
            Some(f) => f,
            None => {
                return EBADF;
            },
        };
        let inode = match f.object.inode() {
            Some(i) => i,
            None => {
                return ESPIPE;
            },
        };
        let meta = match vfs.metadata(inode, stats) {
            Some(m) => m,
            None => {
                return EBADF;
            },
        };
        let base: isize = if whence == SEEK_SET {
            0
        } else if whence == SEEK_CUR {
            f.offset as isize
        } else if whence == SEEK_END {
            meta.size as isize
        } else {
            return EINVAL;
        };
        let sum: i128 = base as i128 + offset as i128;
        let n: i128 = if sum > isize::MAX as i128 {
            isize::MAX as i128
        } else if sum < isize::MIN as i128 {
            isize::MIN as i128
        } else {
            sum
        };
        if n < 0 {
            return EINVAL;
        }
        let ghost before = *self;
        match self.file_mut(pid, fd) {
            Some(h) => {
                h.offset = n as usize;
            },
            None => {},
        }
        proof {
            let k = before.slot(pid)->0;
            lemma_slot_from(before.entries@, pid, 0);
            let o = before.entries@[k];
            let nf = self.entries@[k].files;
            let h = o.files.fds@[fd as int].handle.0 as int;
            assert(o.wf());
            assert(nf.handles@[h].open_spec() == o.files.handles@[h].open_spec());
            assert forall|g: int| 0 <= g < MAX_FILE_HANDLES implies (#[trigger] nf.handles@[g]).open_spec()
                == o.files.handles@[g].open_spec() && nf.handles@[g].ref_count == o.files.handles@[g].ref_count by {
            }
            assert(nf.wf());
            assert(self.entries@[k].wf());
            assert forall|i: int| 0 <= i < MAX_PROCESSES implies (#[trigger] self.entries@[i]).wf() by {
                if i != k {
                    assert(self.entries@[i] == before.entries@[i]);
                }
            }
        }
        n as u32
    }
}

/// The answer to a read or write that stopped on the error `err` after
/// `done` bytes: the error when nothing moved, else the count.
pub fn partial_answer(done: usize, err: u32) -> (r: u32)
    requires
        done <= u32::MAX,
    ensures
        r == if done == 0 { err } else { done as u32 },
{
    if done == 0 {
        err
    } else {
        done as u32
    }
}

/// The size of the next chunk of a transfer of `len` bytes of which
/// `done` have moved.
pub fn next_chunk(len: usize, done: usize) -> (r: usize)
    requires
        done <= len,
    ensures
        r == chunk_of((len - done) as usize),
{
    chunk(len - done)
}

} // verus!
