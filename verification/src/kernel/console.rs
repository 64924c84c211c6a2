use vstd::prelude::*;

use crate::kernel::process::filled_vec;
use crate::kernel::task::wrap_inc;

verus! {

pub const INPUT_WAIT_CHANNEL: u32 = 0x434f_4e53;
pub const INPUT_CAPACITY: usize = 256;
pub const LINE_CAPACITY: usize = 128;

pub const LFLAG_ISIG: u32 = 0x0000_0001;
pub const LFLAG_ICANON: u32 = 0x0000_0002;
pub const LFLAG_ECHO: u32 = 0x0000_0008;
pub const LFLAG_ECHOE: u32 = 0x0000_0010;
pub const LFLAG_ECHOK: u32 = 0x0000_0020;
pub const LFLAG_ECHOCTL: u32 = 0x0000_0200;
pub const LFLAG_IEXTEN: u32 = 0x0000_8000;

pub const DEFAULT_IFLAG: u32 = 0x0000_0500;
pub const DEFAULT_OFLAG: u32 = 0x0000_0005;
pub const DEFAULT_CFLAG: u32 = 0x0000_00bf;
pub const DEFAULT_LFLAG: u32 = 0x0000_823b;

#[derive(Clone, Copy, PartialEq, Eq, Structural, Debug)]
pub enum ConsoleMode {
    Canonical,
    Raw,
}

impl ConsoleMode {
    pub fn as_str(self) -> (r: &'static str)
        ensures
            r@ == match self {
                ConsoleMode::Canonical => "canonical"@,
                ConsoleMode::Raw => "raw"@,
            },
    {
        match self {
            ConsoleMode::Canonical => "canonical",
            ConsoleMode::Raw => "raw",
        }
    }
}

/// A ring of `N` bytes.
pub struct RingBuffer<const N: usize> {
    pub buf: Vec<u8>,
    pub head: usize,
    pub len: usize,
}

impl<const N: usize> RingBuffer<N> {
    pub open spec fn wf(&self) -> bool {
        &&& 0 < N < 0x1000_0000
        &&& self.buf@.len() == N
        &&& self.head < N
        &&& self.len <= N
    }

    /// The bytes in the ring, oldest first.
    pub open spec fn contents(&self) -> Seq<u8> {
        Seq::new(self.len as nat, |i: int| self.buf@[(self.head + i) % (N as int)])
    }

    pub fn new() -> (r: Self)
        requires
            0 < N < 0x1000_0000,
        ensures
            r.wf(),
            r.contents() == Seq::<u8>::empty(),
    {
        let r = RingBuffer { buf: filled_vec(0u8, N), head: 0, len: 0 };
        assert(r.contents() =~= Seq::<u8>::empty());
        r
    }

    /// Appends `byte` unless the ring is full.
    pub fn push(&mut self, byte: u8) -> (r: bool)
        requires
            old(self).wf(),
        ensures
            final(self).wf(),
            r == (old(self).len < N),
            final(self).contents() == if r {
                old(self).contents().push(byte)
            } else {
                old(self).contents()
            },
    {
        if self.len == N {
            return false;
        }
        let ghost o = self.contents();
        let tail = (self.head + self.len) % N;
        self.buf.set(tail, byte);
        self.len = self.len + 1;
        proof {
            assert forall|i: int| 0 <= i < self.len - 1 implies #[trigger] self.buf@[(self.head + i) % (N as int)] == o[i] by {
                lemma_mod_distinct(self.head as int, i, (self.len - 1) as int, N as int);
            }
        }
        assert(self.contents() =~= o.push(byte));
        true
    }

    /// Takes the oldest byte.
    pub fn pop(&mut self) -> (r: Option<u8>)
        requires
            old(self).wf(),
        ensures
            final(self).wf(),
            old(self).len == 0 ==> r == None::<u8> && final(self).contents() == old(self).contents(),
            old(self).len > 0 ==> r == Some(old(self).contents()[0]) && final(self).contents() == old(
                self,
            ).contents().drop_first(),
    {
        if self.len == 0 {
            return None;
        }
        let ghost o = self.contents();
        let h = self.head;
        let byte = self.buf[h];
        self.head = (h + 1) % N;
        self.len = self.len - 1;
        proof {
            assert forall|i: int| 0 <= i < self.len implies #[trigger] self.buf@[(self.head + i) % (N as int)] == o[i + 1] by {
                vstd::arithmetic::div_mod::lemma_add_mod_noop_right(i, h + 1, N as int);
            }
            assert((h + 0) % (N as int) == h) by {
                vstd::arithmetic::div_mod::lemma_small_mod(h as nat, N as nat);
            }
        }
        assert(self.contents() =~= o.drop_first());
        Some(byte)
    }

    /// Moves as many of the oldest bytes as fit into `dst` and counts them.
    pub fn pop_into(&mut self, dst: &mut [u8]) -> (r: usize)
        requires
            old(self).wf(),
        ensures
            final(self).wf(),
            r == if old(dst)@.len() < old(self).len {
                old(dst)@.len()
            } else {
                old(self).len as nat
            },
            final(dst)@ == old(self).contents().take(r as int) + old(dst)@.skip(r as int),
            final(self).contents() == old(self).contents().skip(r as int),
    {
        let ghost c = self.contents();
        let ghost d0 = dst@;
        let mut copied: usize = 0;
        while copied < dst.len()
            invariant
                self.wf(),
                copied <= d0.len(),
                dst@.len() == d0.len(),
                copied <= c.len(),
                self.contents() == c.skip(copied as int),
                forall|j: int| 0 <= j < copied ==> dst@[j] == c[j],
                forall|j: int| copied <= j < d0.len() ==> dst@[j] == d0[j],
            ensures
                self.wf(),
                dst@.len() == d0.len(),
                copied == if d0.len() < c.len() {
                    d0.len()
                } else {
                    c.len()
                },
                self.contents() == c.skip(copied as int),
                forall|j: int| 0 <= j < copied ==> dst@[j] == c[j],
                forall|j: int| copied <= j < d0.len() ==> dst@[j] == d0[j],
            decreases d0.len() - copied,
        {
            let byte = match self.pop() {
                Some(b) => b,
                None => {
                    assert(self.contents().len() == 0);
                    assert(c.skip(copied as int).len() == c.len() - copied);
                    assert(copied == c.len());
                    break;
                },
            };
            assert(c.skip(copied as int).drop_first() =~= c.skip(copied + 1));
            dst[copied] = byte;
            copied += 1;
        }
        assert(dst@ =~= c.take(copied as int) + d0.skip(copied as int));
        copied
    }

    pub fn len(&self) -> (r: usize)
        ensures
            r == self.len,
    {
        self.len
    }
}

/// Positions less than a ring apart fall on different slots of a ring of `n`.
pub proof fn lemma_mod_distinct(start: int, a: int, b: int, n: int)
    requires
        start >= 0,
        0 <= a < b,
        b - a < n,
    ensures
        (start + a) % n != (start + b) % n,
{
    vstd::arithmetic::div_mod::lemma_fundamental_div_mod(start + a, n);
    vstd::arithmetic::div_mod::lemma_fundamental_div_mod(start + b, n);
    if (start + a) % n == (start + b) % n {
        let qa = (start + a) / n;
        let qb = (start + b) / n;
        assert(n * (qb - qa) == b - a) by (nonlinear_arith)
            requires
                n * qb + (start + b) % n == start + b,
                n * qa + (start + a) % n == start + a,
                (start + a) % n == (start + b) % n,
        ;
        assert(false) by (nonlinear_arith)
            requires
                n * (qb - qa) == b - a,
                0 < b - a < n,
        ;
    }
}

/// The line being typed in canonical mode.
pub struct LineBuffer {
    pub buf: Vec<u8>,
    pub len: usize,
}

impl LineBuffer {
    pub open spec fn wf(&self) -> bool {
        self.buf@.len() == LINE_CAPACITY && self.len <= LINE_CAPACITY
    }

    pub open spec fn text(&self) -> Seq<u8> {
        self.buf@.subrange(0, self.len as int)
    }

    pub fn new() -> (r: Self)
        ensures
            r.wf(),
            r.text() == Seq::<u8>::empty(),
    {
        let r = LineBuffer { buf: filled_vec(0u8, LINE_CAPACITY), len: 0 };
        assert(r.text() =~= Seq::<u8>::empty());
        r
    }

    pub fn push(&mut self, byte: u8) -> (r: bool)
        requires
            old(self).wf(),
        ensures
            final(self).wf(),
            r == (old(self).len < LINE_CAPACITY),
            final(self).text() == if r {
                old(self).text().push(byte)
            } else {
                old(self).text()
            },
    {
        if self.len == LINE_CAPACITY {
            return false;
        }
        let ghost o = self.text();
        self.buf.set(self.len, byte);
        self.len = self.len + 1;
        assert(self.text() =~= o.push(byte));
        true
    }

    pub fn backspace(&mut self) -> (r: bool)
        requires
            old(self).wf(),
        ensures
            final(self).wf(),
            r == (old(self).len > 0),
            final(self).text() == if r {
                old(self).text().drop_last()
            } else {
                old(self).text()
            },
    {
        if self.len == 0 {
            return false;
        }
        self.len = self.len - 1;
        assert(self.text() =~= old(self).text().drop_last());
        true
    }

    pub fn clear(&mut self)
        requires
            old(self).wf(),
        ensures
            final(self).wf(),
            final(self).text() == Seq::<u8>::empty(),
    {
        self.len = 0;
        assert(self.text() =~= Seq::<u8>::empty());
    }

    /// Moves the line into `dst` as far as there is room, clearing it, and
    /// says whether all of it fit.
    pub fn flush_into(&mut self, dst: &mut RingBuffer<INPUT_CAPACITY>) -> (r: bool)
        requires
            old(self).wf(),
            old(dst).wf(),
        ensures
            final(self).wf(),
            final(dst).wf(),
            final(self).text() == Seq::<u8>::empty(),
            ({
                let room = INPUT_CAPACITY - old(dst).len;
                let line = old(self).text();
                let n = if line.len() < room {
                    line.len() as int
                } else {
                    room
                };
                &&& r == (line.len() <= room)
                &&& final(dst).contents() == old(dst).contents() + line.take(n)
            }),
    {
        let ghost line = self.text();
        let ghost c0 = dst.contents();
        let mut ok = true;
        let mut index: usize = 0;
        while index < self.len
            invariant
                self.wf(),
                dst.wf(),
                line == self.text(),
                index <= self.len,
                c0.len() <= INPUT_CAPACITY,
                ok == (index <= INPUT_CAPACITY - c0.len()),
                dst.contents() == c0 + line.take(if index < INPUT_CAPACITY - c0.len() {
                    index as int
                } else {
                    INPUT_CAPACITY - c0.len()
                }),
            decreases self.len - index,
        {
            proof {
                assert(dst.contents().len() == dst.len);
            }
            let pushed = dst.push(self.buf[index]);
            proof {
                let room = INPUT_CAPACITY - c0.len();
                assert(pushed == (index < room));
            }
            ok = ok && pushed;
            proof {
                let room = INPUT_CAPACITY - c0.len();
                if index < room {
                    assert(line.take(index + 1) =~= line.take(index as int).push(line[index as int]));
                }
            }
            index += 1;
        }
        self.len = 0;
        assert(self.text() =~= Seq::<u8>::empty());
        ok
    }
}

/// The console's input state: the line discipline settings, the line being
/// typed, the bytes ready to be read, and counters.
pub struct ConsoleInput {
    pub mode: ConsoleMode,
    pub iflag: u32,
    pub oflag: u32,
    pub cflag: u32,
    pub lflag: u32,
    pub cc: [u8; 19],
    pub ready: RingBuffer<INPUT_CAPACITY>,
    pub line: LineBuffer,
    pub dropped: u64,
    pub received: u64,
    pub lines: u64,
    pub interrupts: u64,
}

/// The control characters a terminal starts with.
pub fn default_cc() -> (r: [u8; 19])
    ensures
        r@ == seq![0x03u8, 0x1c, 0x7f, 0x15, 0x04, 0, 1, 0, 0x11, 0x13, 0x1a, 0, 0x12, 0x0f, 0x17, 0x16, 0, 0, 0],
{
    let r = [0x03u8, 0x1c, 0x7f, 0x15, 0x04, 0, 1, 0, 0x11, 0x13, 0x1a, 0, 0x12, 0x0f, 0x17, 0x16, 0, 0, 0];
    assert(r@ =~= seq![0x03u8, 0x1c, 0x7f, 0x15, 0x04, 0, 1, 0, 0x11, 0x13, 0x1a, 0, 0x12, 0x0f, 0x17, 0x16, 0, 0, 0]);
    r
}

pub open spec fn echo_on(lflag: u32) -> bool {
    lflag & LFLAG_ECHO != 0
}

pub open spec fn echoctl_on(lflag: u32) -> bool {
    lflag & LFLAG_ECHOCTL != 0
}

pub open spec fn isig_on(lflag: u32) -> bool {
    lflag & LFLAG_ISIG != 0
}

impl ConsoleInput {
    pub open spec fn wf(&self) -> bool {
        self.ready.wf() && self.line.wf()
    }

    pub fn new() -> (r: Self)
        ensures
            r.wf(),
            r.mode == ConsoleMode::Canonical,
            r.lflag == DEFAULT_LFLAG && r.iflag == DEFAULT_IFLAG && r.oflag == DEFAULT_OFLAG && r.cflag
                == DEFAULT_CFLAG,
            r.ready.contents() == Seq::<u8>::empty(),
            r.line.text() == Seq::<u8>::empty(),
            r.dropped == 0 && r.received == 0 && r.lines == 0 && r.interrupts == 0,
    {
        ConsoleInput {
            mode: ConsoleMode::Canonical,
            iflag: DEFAULT_IFLAG,
            oflag: DEFAULT_OFLAG,
            cflag: DEFAULT_CFLAG,
            lflag: DEFAULT_LFLAG,
            cc: default_cc(),
            ready: RingBuffer::new(),
            line: LineBuffer::new(),
            dropped: 0,
            received: 0,
            lines: 0,
            interrupts: 0,
        }
    }

    pub fn echo_enabled(&self) -> (r: bool)
        ensures
            r == echo_on(self.lflag),
    {
        self.lflag & LFLAG_ECHO != 0
    }

    pub fn echoctl_enabled(&self) -> (r: bool)
        ensures
            r == echoctl_on(self.lflag),
    {
        self.lflag & LFLAG_ECHOCTL != 0
    }

    pub fn isig_enabled(&self) -> (r: bool)
        ensures
            r == isig_on(self.lflag),
    {
        self.lflag & LFLAG_ISIG != 0
    }
}

/// `s` with `bytes` appended when `on`.
pub open spec fn echoed(s: Seq<u8>, on: bool, bytes: Seq<u8>) -> Seq<u8> {
    if on {
        s + bytes
    } else {
        s
    }
}

/// The settings and counters a step leaves alone.
pub open spec fn same_settings(o: &ConsoleInput, n: &ConsoleInput) -> bool {
    &&& n.mode == o.mode && n.iflag == o.iflag && n.oflag == o.oflag && n.cflag == o.cflag && n.lflag == o.lflag
    &&& n.cc == o.cc
}

/// How canonical mode takes `byte`: the ready bytes, the line, the drop,
/// line and interrupt counts, what is echoed, and the answer.
pub open spec fn canonical_step(o: &ConsoleInput, byte: u8) -> (Seq<u8>, Seq<u8>, u64, u64, u64, Seq<u8>, bool) {
    let ready = o.ready.contents();
    let line = o.line.text();
    let echo = echo_on(o.lflag);
    if byte == 13 || byte == 10 {
        if line.len() == LINE_CAPACITY {
            (
                ready,
                Seq::empty(),
                wrap_inc(o.dropped),
                o.lines,
                o.interrupts,
                if echo {
                    seq![13u8, 10u8]
                } else {
                    Seq::empty()
                },
                false,
            )
        } else {
            let l = line.push(10);
            let room = INPUT_CAPACITY - ready.len();
            let n = if l.len() < room {
                l.len() as int
            } else {
                room
            };
            let ok = l.len() <= room;
            (
                ready + l.take(n),
                Seq::empty(),
                if ok {
                    o.dropped
                } else {
                    wrap_inc(o.dropped)
                },
                if ok {
                    wrap_inc(o.lines)
                } else {
                    o.lines
                },
                o.interrupts,
                if echo {
                    seq![13u8, 10u8]
                } else {
                    Seq::empty()
                },
                ok,
            )
        }
    } else if byte == 3 {
        let ok = ready.len() < INPUT_CAPACITY;
        (
            if ok {
                ready.push(10)
            } else {
                ready
            },
            Seq::empty(),
            if ok {
                o.dropped
            } else {
                wrap_inc(o.dropped)
            },
            if ok {
                wrap_inc(o.lines)
            } else {
                o.lines
            },
            if isig_on(o.lflag) {
                wrap_inc(o.interrupts)
            } else {
                o.interrupts
            },
            if echo && echoctl_on(o.lflag) {
                seq![0x5eu8, 0x43u8, 13u8, 10u8]
            } else {
                Seq::empty()
            },
            ok,
        )
    } else if byte == 8 || byte == 0x7f {
        let erased = line.len() > 0;
        (
            ready,
            if erased {
                line.drop_last()
            } else {
                line
            },
            o.dropped,
            o.lines,
            o.interrupts,
            if erased && echo {
                seq![8u8, 0x20u8, 8u8]
            } else {
                Seq::empty()
            },
            erased,
        )
    } else if byte >= 0x20 || byte == 9 {
        if line.len() < LINE_CAPACITY {
            (
                ready,
                line.push(byte),
                o.dropped,
                o.lines,
                o.interrupts,
                if echo {
                    seq![byte]
                } else {
                    Seq::empty()
                },
                true,
            )
        } else {
            (ready, line, wrap_inc(o.dropped), o.lines, o.interrupts, Seq::empty(), false)
        }
    } else {
        (ready, line, o.dropped, o.lines, o.interrupts, Seq::empty(), true)
    }
}

/// Canonical line editing: Ctrl-C throws away the line being typed and hands
/// readers an empty line (a lone line feed) while there is room; a line end
/// hands readers the typed line and a line feed when they fit, and starts
/// an empty line; erasing drops the last typed byte; a printable byte joins
/// the line while it has room. Only a line end or Ctrl-C hands readers
/// anything.
pub proof fn lemma_canonical_editing(o: ConsoleInput, byte: u8)
    ensures
        byte == 3 ==> canonical_step(&o, byte).1 == Seq::<u8>::empty() && canonical_step(&o, byte).0 == if o.ready.contents().len()
            < INPUT_CAPACITY {
            o.ready.contents().push(10)
        } else {
            o.ready.contents()
        },
        (byte == 13 || byte == 10) ==> canonical_step(&o, byte).1 == Seq::<u8>::empty(),
        (byte == 13 || byte == 10) && o.line.text().len() < LINE_CAPACITY && o.ready.contents().len() + o.line.text().len()
            + 1 <= INPUT_CAPACITY ==> canonical_step(&o, byte).0 == o.ready.contents() + o.line.text() + seq![10u8],
        (byte == 8 || byte == 0x7f) ==> canonical_step(&o, byte).1 == if o.line.text().len() > 0 {
            o.line.text().drop_last()
        } else {
            o.line.text()
        },
        ((byte >= 0x20 && byte != 0x7f) || byte == 9) && o.line.text().len() < LINE_CAPACITY ==> canonical_step(&o, byte).1
            == o.line.text().push(byte),
        byte != 3 && byte != 13 && byte != 10 ==> canonical_step(&o, byte).0 == o.ready.contents(),
        byte == 3 ==> canonical_step(&o, byte).4 == if isig_on(o.lflag) {
            wrap_inc(o.interrupts)
        } else {
            o.interrupts
        },
        byte != 3 ==> canonical_step(&o, byte).4 == o.interrupts,
        ((byte >= 0x20 && byte != 0x7f) || byte == 9) && o.line.text().len() < LINE_CAPACITY ==> canonical_step(&o, byte).5
            == if echo_on(o.lflag) {
            seq![byte]
        } else {
            Seq::<u8>::empty()
        },
{
    if (byte == 13 || byte == 10) && o.line.text().len() < LINE_CAPACITY && o.ready.contents().len() + o.line.text().len()
        + 1 <= INPUT_CAPACITY {
        let l = o.line.text().push(10);
        assert(l.take(l.len() as int) =~= l);
        assert(o.ready.contents() + l =~= o.ready.contents() + o.line.text() + seq![10u8]);
    }
}

/// How raw mode takes `byte`, in the same terms as `canonical_step`.
pub open spec fn raw_step(o: &ConsoleInput, byte: u8) -> (Seq<u8>, Seq<u8>, u64, u64, u64, Seq<u8>, bool) {
    let ready = o.ready.contents();
    let line = o.line.text();
    let echo = echo_on(o.lflag);
    if byte == 3 && isig_on(o.lflag) {
        (
            ready,
            line,
            o.dropped,
            o.lines,
            wrap_inc(o.interrupts),
            if echo && echoctl_on(o.lflag) {
                seq![0x5eu8, 0x43u8, 13u8, 10u8]
            } else {
                Seq::empty()
            },
            true,
        )
    } else {
        let shown: Seq<u8> = if !echo {
            Seq::empty()
        } else if byte == 13 || byte == 10 {
            seq![13u8, 10u8]
        } else if byte == 8 || byte == 0x7f {
            seq![8u8, 0x20u8, 8u8]
        } else if byte >= 0x20 || byte == 9 {
            seq![byte]
        } else {
            Seq::empty()
        };
        let ok = ready.len() < INPUT_CAPACITY;
        (
            if ok {
                ready.push(byte)
            } else {
                ready
            },
            line,
            if ok {
                o.dropped
            } else {
                wrap_inc(o.dropped)
            },
            o.lines,
            o.interrupts,
            shown,
            ok,
        )
    }
}

/// Raw mode hands every byte to readers as it comes, while there is room,
/// and leaves the line alone; only Ctrl-C with signals on is held back, and
/// counted as an interrupt instead.
pub proof fn lemma_raw_passes_bytes(o: ConsoleInput, byte: u8)
    ensures
        !(byte == 3 && isig_on(o.lflag)) ==> raw_step(&o, byte).0 == if o.ready.contents().len() < INPUT_CAPACITY {
            o.ready.contents().push(byte)
        } else {
            o.ready.contents()
        },
        !(byte == 3 && isig_on(o.lflag)) ==> raw_step(&o, byte).4 == o.interrupts,
        byte == 3 && isig_on(o.lflag) ==> raw_step(&o, byte).0 == o.ready.contents() && raw_step(&o, byte).4 == wrap_inc(
            o.interrupts,
        ),
        raw_step(&o, byte).1 == o.line.text(),
{
}

/// `n` is `o` after a step that ends as `step` says, with `e0` and `e1` the
/// echo output before and after.
pub open spec fn stepped(
    o: &ConsoleInput,
    n: &ConsoleInput,
    step: (Seq<u8>, Seq<u8>, u64, u64, u64, Seq<u8>, bool),
    e0: Seq<u8>,
    e1: Seq<u8>,
    r: bool,
) -> bool {
    &&& n.ready.contents() == step.0
    &&& n.line.text() == step.1
    &&& n.dropped == step.2
    &&& n.lines == step.3
    &&& n.interrupts == step.4
    &&& e1 == e0 + step.5
    &&& r == step.6
    &&& same_settings(o, n)
}

fn wrapping_inc(x: u64) -> (r: u64)
    ensures
        r == wrap_inc(x),
{
    if x == u64::MAX {
        0
    } else {
        x + 1
    }
}

fn echo_bytes(echo: &mut Vec<u8>, bytes: &[u8])
    ensures
        final(echo)@ == old(echo)@ + bytes@,
{
    let ghost e0 = echo@;
    let mut i: usize = 0;
    while i < bytes.len()
        invariant
            i <= bytes@.len(),
            echo@ == e0 + bytes@.take(i as int),
        decreases bytes@.len() - i,
    {
        echo.push(bytes[i]);
        i += 1;
        assert(echo@ =~= e0 + bytes@.take(i as int));
    }
    assert(bytes@.take(bytes@.len() as int) =~= bytes@);
}

impl ConsoleInput {
    /// Takes `byte` in canonical mode: editing the line, ending it, or
    /// interrupting; what should be echoed goes to `echo`.
    pub fn push_canonical(&mut self, byte: u8, echo: &mut Vec<u8>) -> (r: bool)
        requires
            old(self).wf(),
        ensures
            final(self).wf(),
            final(self).received == old(self).received,
            stepped(old(self), final(self), canonical_step(old(self), byte), old(echo)@, final(echo)@, r),
    {
        if byte == 13 || byte == 10 {
            if self.echo_enabled() {
                let crlf = [13u8, 10u8];
                echo_bytes(echo, crlf.as_slice());
                assert(crlf@ =~= seq![13u8, 10u8]);
            } else {
                assert(echo@ =~= old(echo)@ + Seq::<u8>::empty());
            }
            if !self.line.push(10) {
                self.dropped = wrapping_inc(self.dropped);
                self.line.len = 0;
                assert(self.line.text() =~= Seq::<u8>::empty());
                return false;
            }
            let ok = self.line.flush_into(&mut self.ready);
            if ok {
                self.lines = wrapping_inc(self.lines);
            } else {
                self.dropped = wrapping_inc(self.dropped);
            }
            ok
        } else if byte == 3 {
            if self.echo_enabled() && self.echoctl_enabled() {
                let ctl = [0x5eu8, 0x43u8, 13u8, 10u8];
                echo_bytes(echo, ctl.as_slice());
                assert(ctl@ =~= seq![0x5eu8, 0x43u8, 13u8, 10u8]);
            } else {
                assert(echo@ =~= old(echo)@ + Seq::<u8>::empty());
            }
            self.line.clear();
            if self.isig_enabled() {
                self.interrupts = wrapping_inc(self.interrupts);
            }
            if self.ready.push(10) {
                self.lines = wrapping_inc(self.lines);
                true
            } else {
                self.dropped = wrapping_inc(self.dropped);
                false
            }
        } else if byte == 8 || byte == 0x7f {
            let erased = self.line.backspace();
            if erased && self.echo_enabled() {
                let rub = [8u8, 0x20u8, 8u8];
                echo_bytes(echo, rub.as_slice());
                assert(rub@ =~= seq![8u8, 0x20u8, 8u8]);
            } else {
                assert(echo@ =~= old(echo)@ + Seq::<u8>::empty());
            }
            erased
        } else if byte >= 0x20 || byte == 9 {
            if self.line.push(byte) {
                if self.echo_enabled() {
                    echo.push(byte);
                    assert(echo@ =~= old(echo)@ + seq![byte]);
                } else {
                    assert(echo@ =~= old(echo)@ + Seq::<u8>::empty());
                }
                true
            } else {
                assert(echo@ =~= old(echo)@ + Seq::<u8>::empty());
                self.dropped = wrapping_inc(self.dropped);
                false
            }
        } else {
            assert(echo@ =~= old(echo)@ + Seq::<u8>::empty());
            true
        }
    }

    /// Takes `byte` in raw mode: it goes straight to the ready bytes, but
    /// for an interrupt when signals are on.
    pub fn push_ready(&mut self, byte: u8, echo: &mut Vec<u8>) -> (r: bool)
        requires
            old(self).wf(),
        ensures
            final(self).wf(),
            final(self).received == old(self).received,
            stepped(old(self), final(self), raw_step(old(self), byte), old(echo)@, final(echo)@, r),
    {
        if byte == 3 && self.isig_enabled() {
            if self.echo_enabled() && self.echoctl_enabled() {
                let ctl = [0x5eu8, 0x43u8, 13u8, 10u8];
                echo_bytes(echo, ctl.as_slice());
                assert(ctl@ =~= seq![0x5eu8, 0x43u8, 13u8, 10u8]);
            } else {
                assert(echo@ =~= old(echo)@ + Seq::<u8>::empty());
            }
            self.interrupts = wrapping_inc(self.interrupts);
            return true;
        }
        if self.echo_enabled() {
            if byte == 13 || byte == 10 {
                let crlf = [13u8, 10u8];
                echo_bytes(echo, crlf.as_slice());
                assert(crlf@ =~= seq![13u8, 10u8]);
            } else if byte == 8 || byte == 0x7f {
                let rub = [8u8, 0x20u8, 8u8];
                echo_bytes(echo, rub.as_slice());
                assert(rub@ =~= seq![8u8, 0x20u8, 8u8]);
            } else if byte >= 0x20 || byte == 9 {
                echo.push(byte);
                assert(echo@ =~= old(echo)@ + seq![byte]);
            } else {
                assert(echo@ =~= old(echo)@ + Seq::<u8>::empty());
            }
        } else {
            assert(echo@ =~= old(echo)@ + Seq::<u8>::empty());
        }
        if self.ready.push(byte) {
            true
        } else {
            self.dropped = wrapping_inc(self.dropped);
            false
        }
    }

    /// Takes one received byte in the current mode, counting it.
    pub fn push(&mut self, byte: u8, echo: &mut Vec<u8>) -> (r: bool)
        requires
            old(self).wf(),
        ensures
            final(self).wf(),
            final(self).received == wrap_inc(old(self).received),
            stepped(
                old(self),
                final(self),
                if old(self).mode == ConsoleMode::Raw {
                    raw_step(old(self), byte)
                } else {
                    canonical_step(old(self), byte)
                },
                old(echo)@,
                final(echo)@,
                r,
            ),
    {
        self.received = wrapping_inc(self.received);
        match self.mode {
            ConsoleMode::Raw => self.push_ready(byte, echo),
            ConsoleMode::Canonical => self.push_canonical(byte, echo),
        }
    }

    /// Sets the terminal flags and control characters; the mode follows ICANON.
    pub fn set_termios(&mut self, iflag: u32, oflag: u32, cflag: u32, lflag: u32, cc: [u8; 19])
        requires
            old(self).wf(),
        ensures
            final(self).wf(),
            final(self).iflag == iflag && final(self).oflag == oflag && final(self).cflag == cflag
                && final(self).lflag == lflag && final(self).cc == cc,
            final(self).mode == if lflag & LFLAG_ICANON != 0 {
                ConsoleMode::Canonical
            } else {
                ConsoleMode::Raw
            },
            final(self).ready.contents() == old(self).ready.contents(),
            final(self).line.text() == old(self).line.text(),
    {
        self.iflag = iflag;
        self.oflag = oflag;
        self.cflag = cflag;
        self.lflag = lflag;
        self.cc = cc;
        self.mode = if lflag & LFLAG_ICANON != 0 {
            ConsoleMode::Canonical
        } else {
            ConsoleMode::Raw
        };
    }
}

/// Switches the console to `mode`: canonical mode turns line editing, echo
/// and signals on; raw mode turns line editing off.
pub fn set_mode(input: &mut ConsoleInput, mode: ConsoleMode)
    requires
        old(input).wf(),
    ensures
        final(input).wf(),
        final(input).mode == mode,
        final(input).lflag == match mode {
            ConsoleMode::Canonical => old(input).lflag | (LFLAG_ICANON | LFLAG_ECHO | LFLAG_ISIG),
            ConsoleMode::Raw => old(input).lflag & !LFLAG_ICANON,
        },
        final(input).ready.contents() == old(input).ready.contents(),
        final(input).line.text() == old(input).line.text(),
{
    input.mode = mode;
    match mode {
        ConsoleMode::Canonical => input.lflag = input.lflag | (LFLAG_ICANON | LFLAG_ECHO | LFLAG_ISIG),
        ConsoleMode::Raw => input.lflag = input.lflag & !LFLAG_ICANON,
    }
}

pub fn set_termios(input: &mut ConsoleInput, iflag: u32, oflag: u32, cflag: u32, lflag: u32, cc: [u8; 19])
    requires
        old(input).wf(),
    ensures
        final(input).wf(),
        final(input).iflag == iflag && final(input).oflag == oflag && final(input).cflag == cflag
            && final(input).lflag == lflag && final(input).cc == cc,
        final(input).mode == if lflag & LFLAG_ICANON != 0 {
            ConsoleMode::Canonical
        } else {
            ConsoleMode::Raw
        },
        final(input).ready.contents() == old(input).ready.contents(),
        final(input).line.text() == old(input).line.text(),
{
    input.set_termios(iflag, oflag, cflag, lflag, cc);
}

pub fn termios(input: &ConsoleInput) -> (r: (u32, u32, u32, u32, [u8; 19]))
    ensures
        r == (input.iflag, input.oflag, input.cflag, input.lflag, input.cc),
{
    (input.iflag, input.oflag, input.cflag, input.lflag, input.cc)
}

pub fn mode(input: &ConsoleInput) -> (r: ConsoleMode)
    ensures
        r == input.mode,
{
    input.mode
}

/// Feeds one received byte to the line discipline; what it echoes goes to `echo`.
pub fn push_input(input: &mut ConsoleInput, byte: u8, echo: &mut Vec<u8>) -> (r: bool)
    requires
        old(input).wf(),
    ensures
        final(input).wf(),
        final(input).received == wrap_inc(old(input).received),
        stepped(
            old(input),
            final(input),
            if old(input).mode == ConsoleMode::Raw {
                raw_step(old(input), byte)
            } else {
                canonical_step(old(input), byte)
            },
            old(echo)@,
            final(echo)@,
            r,
        ),
{
    input.push(byte, echo)
}

/// Moves ready bytes into `dst` and counts them.
pub fn pop_into(input: &mut ConsoleInput, dst: &mut [u8]) -> (r: usize)
    requires
        old(input).wf(),
    ensures
        final(input).wf(),
        r == if old(dst)@.len() < old(input).ready.len {
            old(dst)@.len()
        } else {
            old(input).ready.len as nat
        },
        final(dst)@ == old(input).ready.contents().take(r as int) + old(dst)@.skip(r as int),
        final(input).ready.contents() == old(input).ready.contents().skip(r as int),
        final(input).line.text() == old(input).line.text(),
        same_settings(old(input), final(input)),
{
    input.ready.pop_into(dst)
}

/// Takes the oldest ready byte.
pub fn pop_input(input: &mut ConsoleInput) -> (r: Option<u8>)
    requires
        old(input).wf(),
    ensures
        final(input).wf(),
        old(input).ready.len == 0 ==> r == None::<u8> && final(input).ready.contents() == old(input).ready.contents(),
        old(input).ready.len > 0 ==> r == Some(old(input).ready.contents()[0]) && final(input).ready.contents()
            == old(input).ready.contents().drop_first(),
        final(input).line.text() == old(input).line.text(),
{
    let mut byte: Vec<u8> = vec![0u8];
    let n = pop_into(input, byte.as_mut_slice());
    if n == 1 {
        proof {
            assert(old(input).ready.contents().skip(1) =~= old(input).ready.contents().drop_first());
        }
        Some(byte[0])
    } else {
        None
    }
}

pub fn available(input: &ConsoleInput) -> (r: usize)
    ensures
        r == input.ready.len,
{
    input.ready.len()
}

pub fn pending_line_len(input: &ConsoleInput) -> (r: usize)
    ensures
        r == input.line.len,
{
    input.line.len
}

pub fn dropped(input: &ConsoleInput) -> (r: u64)
    ensures
        r == input.dropped,
{
    input.dropped
}

pub fn received(input: &ConsoleInput) -> (r: u64)
    ensures
        r == input.received,
{
    input.received
}

pub fn lines(input: &ConsoleInput) -> (r: u64)
    ensures
        r == input.lines,
{
    input.lines
}

/// The interrupts counted since the last call, which start again from zero.
pub fn take_interrupts(input: &mut ConsoleInput) -> (r: u64)
    ensures
        r == old(input).interrupts,
        final(input).interrupts == 0,
        final(input).ready.contents() == old(input).ready.contents(),
        final(input).line.text() == old(input).line.text(),
        final(input).wf() == old(input).wf(),
{
    let n = input.interrupts;
    input.interrupts = 0;
    n
}

} // verus!
