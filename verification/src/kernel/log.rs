use vstd::prelude::*;

use crate::kernel::process::filled_vec;

verus! {

pub const LOG_CAPACITY: usize = 64;

#[derive(Clone, Copy, Debug)]
pub enum LogEvent {
    Schedule {
        tick: u64,
        reason: &'static str,
        from: &'static str,
        to: &'static str,
        ready: usize,
        switches: u64,
    },
    TaskExit { tick: u64, name: &'static str, pid: usize },
    TaskReap { tick: u64, name: &'static str, pid: usize },
    Wake { tick: u64, channel: u32, count: usize },
    ConsoleInput { tick: u64, bytes: usize, available: usize, dropped: u64 },
}

/// The last `LOG_CAPACITY` events in a ring, with a count of those pushed out.
pub struct KernelLog {
    pub entries: Vec<Option<LogEvent>>,
    pub head: usize,
    pub len: usize,
    pub dropped: u64,
}

impl KernelLog {
    pub open spec fn slot(&self, i: int) -> Option<LogEvent> {
        self.entries@[(self.head + i) % (LOG_CAPACITY as int)]
    }

    /// The kept events, oldest first.
    pub open spec fn events(&self) -> Seq<LogEvent> {
        Seq::new(self.len as nat, |i: int| self.slot(i)->0)
    }

    pub open spec fn wf(&self) -> bool {
        &&& self.entries@.len() == LOG_CAPACITY
        &&& self.head < LOG_CAPACITY
        &&& self.len <= LOG_CAPACITY
        &&& forall|i: int| 0 <= i < self.len ==> (#[trigger] self.slot(i)) is Some
    }

    pub fn new() -> (r: Self)
        ensures
            r.wf(),
            r.events() == Seq::<LogEvent>::empty(),
            r.dropped == 0,
    {
        let r = KernelLog { entries: filled_vec(None, LOG_CAPACITY), head: 0, len: 0, dropped: 0 };
        assert(r.events() =~= Seq::<LogEvent>::empty());
        r
    }

    /// Records `event`; when the ring is full the oldest event goes and the
    /// drop count grows, wrapping.
    pub fn push(&mut self, event: LogEvent)
        requires
            old(self).wf(),
        ensures
            final(self).wf(),
            old(self).len < LOG_CAPACITY ==> final(self).events() == old(self).events().push(event)
                && final(self).dropped == old(self).dropped,
            old(self).len == LOG_CAPACITY ==> final(self).events() == old(self).events().drop_first().push(
                event,
            ) && final(self).dropped == (if old(self).dropped == u64::MAX {
                0
            } else {
                old(self).dropped + 1
            }),
    {
        let ghost o = *self;
        let tail = (self.head + self.len) % LOG_CAPACITY;
        self.entries.set(tail, Some(event));
        if self.len == LOG_CAPACITY {
            self.head = (self.head + 1) % LOG_CAPACITY;
            self.dropped = if self.dropped == u64::MAX {
                0
            } else {
                self.dropped + 1
            };
            proof {
                assert forall|i: int| 0 <= i < self.len implies #[trigger] self.slot(i) == if i
                    == LOG_CAPACITY - 1 {
                    Some(event)
                } else {
                    o.slot(i + 1)
                } by {
                    lemma_log_step(o.head as int, i);
                    if i < LOG_CAPACITY - 1 {
                        lemma_log_distinct(o.head as int, i + 1, LOG_CAPACITY as int);
                    } else {
                        lemma_log_wrap(o.head as int);
                    }
                }
                assert(self.events() =~= o.events().drop_first().push(event));
            }
        } else {
            self.len = self.len + 1;
            proof {
                assert forall|i: int| 0 <= i < self.len implies #[trigger] self.slot(i) == if i == o.len {
                    Some(event)
                } else {
                    o.slot(i)
                } by {
                    if i < o.len {
                        lemma_log_distinct(o.head as int, i, o.len as int);
                    }
                }
                assert(self.events() =~= o.events().push(event));
            }
        }
    }

    /// Takes out every kept event, oldest first, with the drop count, which
    /// starts again from zero.
    pub fn flush(&mut self) -> (r: (Vec<LogEvent>, u64))
        requires
            old(self).wf(),
        ensures
            final(self).wf(),
            r.0@ == old(self).events(),
            r.1 == old(self).dropped,
            final(self).events() == Seq::<LogEvent>::empty(),
            final(self).dropped == 0,
    {
        let ghost o = *self;
        let mut out: Vec<LogEvent> = Vec::new();
        while self.len > 0
            invariant
                self.wf(),
                self.dropped == o.dropped,
                o.len == out@.len() + self.len,
                o.events() == out@ + self.events(),
            decreases self.len,
        {
            let ghost before = *self;
            let h = self.head;
            let item = self.entries[h];
            self.entries.set(h, None);
            if let Some(event) = item {
                out.push(event);
            }
            self.head = (h + 1) % LOG_CAPACITY;
            self.len = self.len - 1;
            proof {
                assert(before.slot(0) is Some);
                assert(h as int == (before.head + 0) % (LOG_CAPACITY as int));
                assert forall|i: int| 0 <= i < self.len implies #[trigger] self.slot(i) == before.slot(i + 1) by {
                    lemma_log_step(before.head as int, i);
                    lemma_log_distinct(before.head as int, 0, i + 1);
                }
                assert(self.events() =~= before.events().drop_first());
                assert(o.events() =~= out@ + self.events());
            }
        }
        let dropped = self.dropped;
        self.dropped = 0;
        proof {
            assert(self.events() =~= Seq::<LogEvent>::empty());
            assert(out@ =~= o.events());
        }
        (out, dropped)
    }

    /// The last `max` kept events at most, oldest first.
    pub fn dump_recent(&self, max: usize) -> (r: Vec<LogEvent>)
        requires
            self.wf(),
        ensures
            r@ == self.events().skip(self.len - if self.len < max {
                self.len as int
            } else {
                max as int
            }),
    {
        let count = if self.len < max {
            self.len
        } else {
            max
        };
        let skip = self.len - count;
        let mut out: Vec<LogEvent> = Vec::new();
        let mut offset: usize = 0;
        while offset < count
            invariant
                self.wf(),
                offset <= count,
                skip + count == self.len,
                out@ == self.events().subrange(skip as int, skip + offset),
            decreases count - offset,
        {
            let idx = (self.head + skip + offset) % LOG_CAPACITY;
            proof {
                assert(self.slot(skip + offset) is Some);
            }
            if let Some(event) = self.entries[idx] {
                out.push(event);
            }
            offset += 1;
            assert(out@ =~= self.events().subrange(skip as int, skip + offset));
        }
        assert(out@ =~= self.events().skip(skip as int));
        out
    }
}

proof fn lemma_log_step(h: int, i: int)
    requires
        h >= 0,
        i >= 0,
    ensures
        ((h + 1) % (LOG_CAPACITY as int) + i) % (LOG_CAPACITY as int) == (h + (i + 1)) % (LOG_CAPACITY as int),
{
    vstd::arithmetic::div_mod::lemma_add_mod_noop_right(i, h + 1, LOG_CAPACITY as int);
}

proof fn lemma_log_wrap(h: int)
    requires
        0 <= h < LOG_CAPACITY,
    ensures
        (h + LOG_CAPACITY) % (LOG_CAPACITY as int) == h,
{
    vstd::arithmetic::div_mod::lemma_mod_add_multiples_vanish(h, LOG_CAPACITY as int);
    vstd::arithmetic::div_mod::lemma_small_mod(h as nat, LOG_CAPACITY as nat);
}

proof fn lemma_log_distinct(start: int, a: int, b: int)
    requires
        start >= 0,
        0 <= a < b,
        b - a < LOG_CAPACITY,
    ensures
        (start + a) % (LOG_CAPACITY as int) != (start + b) % (LOG_CAPACITY as int),
{
    let c = LOG_CAPACITY as int;
    vstd::arithmetic::div_mod::lemma_fundamental_div_mod(start + a, c);
    vstd::arithmetic::div_mod::lemma_fundamental_div_mod(start + b, c);
    if (start + a) % c == (start + b) % c {
        let qa = (start + a) / c;
        let qb = (start + b) / c;
        assert(c * (qb - qa) == b - a) by (nonlinear_arith)
            requires
                c * qb + (start + b) % c == start + b,
                c * qa + (start + a) % c == start + a,
                (start + a) % c == (start + b) % c,
        ;
        assert(false) by (nonlinear_arith)
            requires
                c * (qb - qa) == b - a,
                0 < b - a < c,
                c == 64,
        ;
    }
}

} // verus!
