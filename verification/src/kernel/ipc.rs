use vstd::prelude::*;

use crate::kernel::process::filled_vec;
use crate::kernel::syscall::{ENOENT, ENOSPC};

verus! {

pub const MAX_PIPES: usize = 8;
pub const PIPE_CAPACITY: usize = 256;
pub const PIPE_WAIT_BASE: u32 = 0x5049_0000;

#[derive(Clone, Copy, PartialEq, Eq, Structural, Debug)]
pub struct PipeId(pub usize);

impl PipeId {
    pub fn new(value: usize) -> (r: Self)
        ensures
            r.0 == value,
    {
        PipeId(value)
    }

    pub fn as_usize(self) -> (r: usize)
        ensures
            r == self.0,
    {
        self.0
    }
}

#[derive(Clone, Copy, PartialEq, Eq, Structural, Debug)]
pub enum PipeEnd {
    Read,
    Write,
}

/// The outcome of a pipe read or write.
#[derive(Clone, Copy, PartialEq, Eq, Structural, Debug)]
pub enum PipeIo {
    Read { bytes: usize, wake_writer: bool },
    Write { bytes: usize, wake_reader: bool },
    WouldBlock { channel: u32 },
    Closed,
    Error(u32),
}

/// A ring buffer of `PIPE_CAPACITY` bytes with its reader and writer counts.
pub struct Pipe {
    pub used: bool,
    pub buffer: Vec<u8>,
    pub read_pos: usize,
    pub len: usize,
    pub readers: u16,
    pub writers: u16,
}

/// `((a % C) + b) % C == (a + b) % C` for the pipe capacity `C`.
proof fn lemma_ring_mod(a: int, b: int)
    requires
        a >= 0,
        b >= 0,
    ensures
        ((a % (PIPE_CAPACITY as int)) + b) % (PIPE_CAPACITY as int) == (a + b) % (PIPE_CAPACITY as int),
{
    vstd::arithmetic::div_mod::lemma_add_mod_noop_right(b, a, PIPE_CAPACITY as int);
}

impl Pipe {
    pub open spec fn wf(&self) -> bool {
        &&& self.buffer@.len() == PIPE_CAPACITY
        &&& self.read_pos < PIPE_CAPACITY
        &&& self.len <= PIPE_CAPACITY
    }

    /// The bytes waiting to be read, oldest first.
    pub open spec fn contents(&self) -> Seq<u8> {
        Seq::new(
            self.len as nat,
            |i: int| self.buffer@[(self.read_pos + i) % (PIPE_CAPACITY as int)],
        )
    }

    pub fn empty() -> (r: Self)
        ensures
            r.wf(),
            !r.used,
            r.read_pos == 0 && r.len == 0,
            r.readers == 0 && r.writers == 0,
    {
        Pipe { used: false, buffer: filled_vec(0u8, PIPE_CAPACITY), read_pos: 0, len: 0, readers: 0, writers: 0 }
    }

    /// Where the next written byte goes.
    pub fn write_pos(&self) -> (r: usize)
        requires
            self.wf(),
        ensures
            r == (self.read_pos + self.len) % (PIPE_CAPACITY as int),
            r < PIPE_CAPACITY,
    {
        (self.read_pos + self.len) % PIPE_CAPACITY
    }
}

pub open spec fn read_wait_spec(id: PipeId) -> u32 {
    PIPE_WAIT_BASE | ((id.0 as u32) << 1u32)
}

pub open spec fn write_wait_spec(id: PipeId) -> u32 {
    PIPE_WAIT_BASE | ((id.0 as u32) << 1u32) | 1u32
}

/// The channel that readers of pipe `id` sleep on.
pub fn read_wait_channel(id: PipeId) -> (r: u32)
    ensures
        r == read_wait_spec(id),
{
    PIPE_WAIT_BASE | ((id.0 as u32) << 1u32)
}

/// The channel that writers of pipe `id` sleep on.
pub fn write_wait_channel(id: PipeId) -> (r: u32)
    ensures
        r == write_wait_spec(id),
{
    PIPE_WAIT_BASE | ((id.0 as u32) << 1u32) | 1u32
}

/// The first unused pipe slot at or after `i`.
pub open spec fn unused_from(s: Seq<Pipe>, i: int) -> Option<int>
    decreases s.len() - i,
{
    if i < 0 || i >= s.len() {
        None
    } else if !s[i].used {
        Some(i)
    } else {
        unused_from(s, i + 1)
    }
}

/// The number of pipes in use.
pub open spec fn used_count(s: Seq<Pipe>) -> nat
    decreases s.len(),
{
    if s.len() == 0 {
        0
    } else {
        used_count(s.drop_last()) + if s.last().used {
            1nat
        } else {
            0nat
        }
    }
}

/// All the pipes of the system.
pub struct PipeTable {
    pub pipes: Vec<Pipe>,
}

/// What `PipeTable::read` does: from table `o` to `n`, with the destination
/// going from `d0` to `d1`, answering `r`.
pub open spec fn read_post(o: PipeTable, n: PipeTable, id: PipeId, d0: Seq<u8>, d1: Seq<u8>, r: PipeIo) -> bool {
    if !o.is_open(id) {
        r == PipeIo::Error(ENOENT) && n.pipes@ == o.pipes@ && d1 == d0
    } else if d0.len() == 0 {
        r == (PipeIo::Read { bytes: 0, wake_writer: false }) && n.pipes@ == o.pipes@ && d1 == d0
    } else if o.pipe(id).len == 0 {
        n.pipes@ == o.pipes@ && d1 == d0 && r == if o.pipe(id).writers == 0 {
            PipeIo::Closed
        } else {
            PipeIo::WouldBlock { channel: read_wait_spec(id) }
        }
    } else {
        let c = o.pipe(id).contents();
        let count: int = if d0.len() < c.len() {
            d0.len() as int
        } else {
            c.len() as int
        };
        &&& r == (PipeIo::Read { bytes: count as usize, wake_writer: true })
        &&& d1 == c.take(count as int) + d0.skip(count as int)
        &&& n.others_same(o, id)
        &&& n.pipe(id).contents() == c.skip(count as int)
        &&& n.pipe(id).used && n.pipe(id).readers == o.pipe(id).readers && n.pipe(id).writers == o.pipe(
            id,
        ).writers
    }
}

/// What `PipeTable::write` does: from table `o` to `n`, writing from `src`, answering `r`.
pub open spec fn write_post(o: PipeTable, n: PipeTable, id: PipeId, src: Seq<u8>, r: PipeIo) -> bool {
    if !o.is_open(id) {
        r == PipeIo::Error(ENOENT) && n.pipes@ == o.pipes@
    } else if src.len() == 0 {
        r == (PipeIo::Write { bytes: 0, wake_reader: false }) && n.pipes@ == o.pipes@
    } else if o.pipe(id).readers == 0 {
        r == PipeIo::Closed && n.pipes@ == o.pipes@
    } else if o.pipe(id).len == PIPE_CAPACITY {
        r == (PipeIo::WouldBlock { channel: write_wait_spec(id) }) && n.pipes@ == o.pipes@
    } else {
        let c = o.pipe(id).contents();
        let room: int = PIPE_CAPACITY - c.len();
        let count: int = if src.len() < room {
            src.len() as int
        } else {
            room
        };
        &&& r == (PipeIo::Write { bytes: count as usize, wake_reader: true })
        &&& n.others_same(o, id)
        &&& n.pipe(id).contents() == c + src.take(count as int)
        &&& n.pipe(id).used && n.pipe(id).readers == o.pipe(id).readers && n.pipe(id).writers == o.pipe(
            id,
        ).writers
    }
}

impl PipeTable {
    pub open spec fn wf(&self) -> bool {
        &&& self.pipes@.len() == MAX_PIPES
        &&& forall|i: int| 0 <= i < MAX_PIPES ==> (#[trigger] self.pipes@[i]).wf()
    }

    pub open spec fn is_open(&self, id: PipeId) -> bool {
        id.0 < self.pipes@.len() && self.pipes@[id.0 as int].used
    }

    pub open spec fn pipe(&self, id: PipeId) -> Pipe {
        self.pipes@[id.0 as int]
    }

    /// Every pipe but `id` is as in `o`.
    pub open spec fn others_same(&self, o: PipeTable, id: PipeId) -> bool {
        &&& self.pipes@.len() == o.pipes@.len()
        &&& forall|j: int| 0 <= j < o.pipes@.len() && j != id.0 ==> #[trigger] self.pipes@[j] == o.pipes@[j]
    }

    pub fn new() -> (r: Self)
        ensures
            r.wf(),
            forall|i: int| 0 <= i < MAX_PIPES ==> !(#[trigger] r.pipes@[i]).used,
    {
        let mut pipes: Vec<Pipe> = Vec::new();
        let mut i: usize = 0;
        while i < MAX_PIPES
            invariant
                i <= MAX_PIPES,
                pipes@.len() == i,
                forall|j: int| 0 <= j < i ==> (#[trigger] pipes@[j]).wf() && !pipes@[j].used,
            decreases MAX_PIPES - i,
        {
            pipes.push(Pipe::empty());
            i += 1;
        }
        PipeTable { pipes }
    }

    /// Opens a pipe in the first unused slot with one reader and one writer;
    /// `ENOSPC` when every slot is in use.
    pub fn create(&mut self) -> (r: Result<PipeId, u32>)
        requires
            old(self).wf(),
        ensures
            final(self).wf(),
            match unused_from(old(self).pipes@, 0) {
                None => r == Err::<PipeId, u32>(ENOSPC) && final(self).pipes@ == old(self).pipes@,
                Some(k) => {
                    &&& r == Ok::<PipeId, u32>(PipeId(k as usize))
                    &&& final(self).others_same(*old(self), PipeId(k as usize))
                    &&& final(self).pipes@[k].used
                    &&& final(self).pipes@[k].readers == 1 && final(self).pipes@[k].writers == 1
                    &&& final(self).pipes@[k].contents() == Seq::<u8>::empty()
                },
            },
    {
        let mut index: usize = 0;
        while index < MAX_PIPES
            invariant
                self.wf(),
                self.pipes@ == old(self).pipes@,
                index <= MAX_PIPES,
                unused_from(old(self).pipes@, 0) == unused_from(old(self).pipes@, index as int),
            decreases MAX_PIPES - index,
        {
            if !self.pipes[index].used {
                let mut pipe = Pipe::empty();
                pipe.used = true;
                pipe.readers = 1;
                pipe.writers = 1;
                self.pipes.set(index, pipe);
                assert(self.pipes@[index as int].contents() =~= Seq::<u8>::empty());
                return Ok(PipeId::new(index));
            }
            index += 1;
        }
        Err(ENOSPC)
    }

    /// Moves the oldest bytes of pipe `id` into `dst`, as many as fit.
    pub fn read(&mut self, id: PipeId, dst: &mut [u8]) -> (r: PipeIo)
        requires
            old(self).wf(),
        ensures
            final(self).wf(),
            read_post(*old(self), *final(self), id, old(dst)@, final(dst)@, r),
    {
        if id.0 >= MAX_PIPES || !self.pipes[id.0].used {
            return PipeIo::Error(ENOENT);
        }
        if dst.len() == 0 {
            return PipeIo::Read { bytes: 0, wake_writer: false };
        }
        let k = id.0;
        assert(self.pipes@[k as int].wf());
        if self.pipes[k].len == 0 {
            if self.pipes[k].writers == 0 {
                return PipeIo::Closed;
            }
            return PipeIo::WouldBlock { channel: read_wait_channel(id) };
        }
        let ghost c = self.pipes@[k as int].contents();
        let ghost d0 = dst@;
        let plen = self.pipes[k].len;
        let count = if dst.len() < plen {
            dst.len()
        } else {
            plen
        };
        let start = self.pipes[k].read_pos;
        let mut pos = start;
        let mut i: usize = 0;
        while i < count
            invariant
                i <= count,
                count <= d0.len(),
                count <= c.len(),
                dst@.len() == d0.len(),
                self.wf(),
                self.pipes@ == old(self).pipes@,
                k < MAX_PIPES,
                c == self.pipes@[k as int].contents(),
                start == self.pipes@[k as int].read_pos,
                pos == (start + i) % (PIPE_CAPACITY as int),
                forall|j: int| 0 <= j < i ==> #[trigger] dst@[j] == c[j],
                forall|j: int| i <= j < d0.len() ==> #[trigger] dst@[j] == d0[j],
            decreases count - i,
        {
            assert(self.pipes@[k as int].wf());
            dst[i] = self.pipes[k].buffer[pos];
            proof {
                lemma_ring_mod(start + i, 1);
            }
            pos = (pos + 1) % PIPE_CAPACITY;
            i += 1;
        }
        let ghost before = self.pipes@[k as int];
        self.pipes[k].read_pos = pos;
        self.pipes[k].len = plen - count;
        proof {
            let np = self.pipes@[k as int];
            assert forall|j: int| 0 <= j < np.len implies #[trigger] np.contents()[j] == c.skip(count as int)[j] by {
                lemma_ring_mod(start + count, j);
            }
            assert(np.contents() =~= c.skip(count as int));
            assert(dst@ =~= c.take(count as int) + d0.skip(count as int));
        }
        PipeIo::Read { bytes: count, wake_writer: plen - count < PIPE_CAPACITY }
    }

    /// Appends to pipe `id` as much of `src` as there is room for.
    pub fn write(&mut self, id: PipeId, src: &[u8]) -> (r: PipeIo)
        requires
            old(self).wf(),
        ensures
            final(self).wf(),
            write_post(*old(self), *final(self), id, src@, r),
    {
        if id.0 >= MAX_PIPES || !self.pipes[id.0].used {
            return PipeIo::Error(ENOENT);
        }
        if src.len() == 0 {
            return PipeIo::Write { bytes: 0, wake_reader: false };
        }
        let k = id.0;
        assert(self.pipes@[k as int].wf());
        if self.pipes[k].readers == 0 {
            return PipeIo::Closed;
        }
        let plen = self.pipes[k].len;
        if plen == PIPE_CAPACITY {
            return PipeIo::WouldBlock { channel: write_wait_channel(id) };
        }
        let ghost c = self.pipes@[k as int].contents();
        let ghost o = self.pipes@;
        let room = PIPE_CAPACITY - plen;
        let count = if src.len() < room {
            src.len()
        } else {
            room
        };
        let start = self.pipes[k].read_pos;
        let wstart = self.pipes[k].write_pos();
        let mut pos = wstart;
        let mut i: usize = 0;
        while i < count
            invariant
                i <= count,
                count <= src@.len(),
                plen + count <= PIPE_CAPACITY,
                self.wf(),
                k < MAX_PIPES,
                self.pipes@.len() == o.len(),
                forall|j: int| 0 <= j < o.len() && j != k ==> #[trigger] self.pipes@[j] == o[j],
                self.pipes@[k as int] == (Pipe { buffer: self.pipes@[k as int].buffer, ..o[k as int] }),
                start == o[k as int].read_pos,
                plen == o[k as int].len,
                c == o[k as int].contents(),
                wstart == (start + plen) % (PIPE_CAPACITY as int),
                pos == (start + plen + i) % (PIPE_CAPACITY as int),
                forall|j: int| 0 <= j < plen ==> #[trigger] self.pipes@[k as int].buffer@[(start + j) % (PIPE_CAPACITY as int)] == c[j],
                forall|j: int| 0 <= j < i ==> #[trigger] self.pipes@[k as int].buffer@[(start + plen + j) % (PIPE_CAPACITY as int)] == src@[j],
            decreases count - i,
        {
            let ghost b0 = self.pipes@[k as int].buffer@;
            self.pipes[k].buffer.set(pos, src[i]);
            proof {
                let b1 = self.pipes@[k as int].buffer@;
                assert forall|j: int| 0 <= j < plen implies #[trigger] b1[(start + j) % (PIPE_CAPACITY as int)] == c[j] by {
                    assert((start + j) % (PIPE_CAPACITY as int) != pos) by {
                        lemma_ring_distinct(start as int, j, plen + i);
                    }
                }
                assert forall|j: int| 0 <= j < i + 1 implies #[trigger] b1[(start + plen + j) % (PIPE_CAPACITY as int)] == src@[j] by {
                    if j < i {
                        assert((start + plen + j) % (PIPE_CAPACITY as int) != pos) by {
                            lemma_ring_distinct(start as int, plen + j, plen + i);
                        }
                    }
                }
                lemma_ring_mod(start + plen + i, 1);
            }
            pos = (pos + 1) % PIPE_CAPACITY;
            i += 1;
        }
        self.pipes[k].len = plen + count;
        proof {
            let np = self.pipes@[k as int];
            assert forall|j: int| 0 <= j < np.len implies #[trigger] np.contents()[j] == (c + src@.take(count as int))[j] by {
                if j >= plen {
                    assert(start + j == start + plen + (j - plen));
                }
            }
            assert(np.contents() =~= c + src@.take(count as int));
        }
        PipeIo::Write { bytes: count, wake_reader: count != 0 }
    }

    /// Drops one reference to the given end of pipe `id`; the pipe is freed
    /// when neither end has any left.
    pub fn close(&mut self, id: PipeId, end: PipeEnd)
        requires
            old(self).wf(),
        ensures
            final(self).wf(),
            !old(self).is_open(id) ==> final(self).pipes@ == old(self).pipes@,
            old(self).is_open(id) ==> ({
                let p = old(self).pipe(id);
                let readers = if end == PipeEnd::Read && p.readers > 0 {
                    (p.readers - 1) as u16
                } else {
                    p.readers
                };
                let writers = if end == PipeEnd::Write && p.writers > 0 {
                    (p.writers - 1) as u16
                } else {
                    p.writers
                };
                &&& final(self).others_same(*old(self), id)
                &&& if readers == 0 && writers == 0 {
                    !final(self).pipe(id).used && final(self).pipe(id).len == 0
                        && final(self).pipe(id).readers == 0 && final(self).pipe(id).writers == 0
                } else {
                    final(self).pipe(id) == (Pipe { readers, writers, ..p })
                }
            }),
    {
        if id.0 >= MAX_PIPES || !self.pipes[id.0].used {
            return;
        }
        let k = id.0;
        match end {
            PipeEnd::Read => {
                let v = self.pipes[k].readers;
                self.pipes[k].readers = if v > 0 {
                    v - 1
                } else {
                    0
                };
            },
            PipeEnd::Write => {
                let v = self.pipes[k].writers;
                self.pipes[k].writers = if v > 0 {
                    v - 1
                } else {
                    0
                };
            },
        }
        if self.pipes[k].readers == 0 && self.pipes[k].writers == 0 {
            self.pipes.set(k, Pipe::empty());
        }
    }

    /// Adds one reference to the given end of pipe `id`, saturating.
    pub fn add_ref(&mut self, id: PipeId, end: PipeEnd)
        requires
            old(self).wf(),
        ensures
            final(self).wf(),
            !old(self).is_open(id) ==> final(self).pipes@ == old(self).pipes@,
            old(self).is_open(id) ==> ({
                let p = old(self).pipe(id);
                &&& final(self).others_same(*old(self), id)
                &&& final(self).pipe(id) == if end == PipeEnd::Read {
                    Pipe {
                        readers: if p.readers == u16::MAX {
                            p.readers
                        } else {
                            (p.readers + 1) as u16
                        },
                        ..p
                    }
                } else {
                    Pipe {
                        writers: if p.writers == u16::MAX {
                            p.writers
                        } else {
                            (p.writers + 1) as u16
                        },
                        ..p
                    }
                }
            }),
    {
        if id.0 >= MAX_PIPES || !self.pipes[id.0].used {
            return;
        }
        let k = id.0;
        match end {
            PipeEnd::Read => {
                let v = self.pipes[k].readers;
                self.pipes[k].readers = if v == u16::MAX {
                    v
                } else {
                    v + 1
                };
            },
            PipeEnd::Write => {
                let v = self.pipes[k].writers;
                self.pipes[k].writers = if v == u16::MAX {
                    v
                } else {
                    v + 1
                };
            },
        }
    }

    /// The number of pipes in use.
    pub fn active_count(&self) -> (r: usize)
        requires
            self.wf(),
        ensures
            r == used_count(self.pipes@),
    {
        let mut count: usize = 0;
        let mut index: usize = 0;
        while index < MAX_PIPES
            invariant
                self.wf(),
                index <= MAX_PIPES,
                count <= index,
                count == used_count(self.pipes@.subrange(0, index as int)),
            decreases MAX_PIPES - index,
        {
            assert(self.pipes@.subrange(0, index + 1).drop_last() =~= self.pipes@.subrange(0, index as int));
            if self.pipes[index].used {
                count += 1;
            }
            index += 1;
        }
        assert(self.pipes@.subrange(0, MAX_PIPES as int) =~= self.pipes@);
        count
    }

    /// The number of bytes waiting in pipe `id`, 0 for a pipe not in use.
    pub fn available(&self, id: PipeId) -> (r: usize)
        requires
            self.wf(),
        ensures
            r == if self.is_open(id) {
                self.pipe(id).contents().len()
            } else {
                0
            },
    {
        if id.0 >= MAX_PIPES {
            return 0;
        }
        if self.pipes[id.0].used {
            self.pipes[id.0].len
        } else {
            0
        }
    }

    pub fn has_writers(&self, id: PipeId) -> (r: bool)
        requires
            self.wf(),
        ensures
            r == (self.is_open(id) && self.pipe(id).writers != 0),
    {
        if id.0 >= MAX_PIPES {
            return false;
        }
        self.pipes[id.0].used && self.pipes[id.0].writers != 0
    }
}

/// Two positions less than a capacity apart fall on different ring slots.
proof fn lemma_ring_distinct(start: int, a: int, b: int)
    requires
        start >= 0,
        0 <= a < b < PIPE_CAPACITY,
    ensures
        (start + a) % (PIPE_CAPACITY as int) != (start + b) % (PIPE_CAPACITY as int),
{
    let c = PIPE_CAPACITY as int;
    vstd::arithmetic::div_mod::lemma_fundamental_div_mod(start + a, c);
    vstd::arithmetic::div_mod::lemma_fundamental_div_mod(start + b, c);
    if (start + a) % c == (start + b) % c {
        let qa = (start + a) / c;
        let qb = (start + b) / c;
        assert(c * qb - c * qa == b - a);
        assert(c * (qb - qa) == b - a) by (nonlinear_arith)
            requires
                c * qb - c * qa == b - a,
        ;
        assert(false) by (nonlinear_arith)
            requires
                c * (qb - qa) == b - a,
                0 < b - a < c,
                c == 256,
        ;
    }
}

/// Bytes written to an open, empty pipe are read back first and in order:
/// whatever a read returns after a write is a prefix of what was written.
pub proof fn lemma_pipe_fifo(
    t0: PipeTable,
    t1: PipeTable,
    t2: PipeTable,
    id: PipeId,
    src: Seq<u8>,
    w: PipeIo,
    d0: Seq<u8>,
    d1: Seq<u8>,
    r: PipeIo,
)
    requires
        t0.is_open(id),
        t0.pipe(id).contents().len() == 0,
        write_post(t0, t1, id, src, w),
        read_post(t1, t2, id, d0, d1, r),
    ensures
        match (w, r) {
            (PipeIo::Write { bytes: n, .. }, PipeIo::Read { bytes: k, .. }) => k <= n && d1.take(k as int)
                == src.take(k as int),
            _ => true,
        },
{
    match (w, r) {
        (PipeIo::Write { bytes: n, .. }, PipeIo::Read { bytes: k, .. }) => {
            if src.len() > 0 && k > 0 {
                let c = t1.pipe(id).contents();
                assert(c =~= src.take(n as int));
                assert(d1.take(k as int) =~= src.take(k as int));
            }
        },
        _ => {},
    }
}

/// A read consumes exactly the bytes it returns: what stays in the pipe is
/// what followed them.
pub proof fn lemma_pipe_read_consumes(o: PipeTable, n: PipeTable, id: PipeId, d0: Seq<u8>, d1: Seq<u8>, r: PipeIo)
    requires
        o.is_open(id),
        read_post(o, n, id, d0, d1, r),
    ensures
        match r {
            PipeIo::Read { bytes: k, .. } => d1.take(k as int) + n.pipe(id).contents() == o.pipe(id).contents(),
            _ => n.pipes@ == o.pipes@,
        },
{
    match r {
        PipeIo::Read { bytes: k, .. } => {
            if d0.len() > 0 && o.pipe(id).len > 0 {
                let c = o.pipe(id).contents();
                assert(d1.take(k as int) =~= c.take(k as int));
                assert(c.take(k as int) + c.skip(k as int) =~= c);
            } else {
                assert(d1.take(k as int) + n.pipe(id).contents() =~= o.pipe(id).contents());
            }
        },
        _ => {},
    }
}

} // verus!
