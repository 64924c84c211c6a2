use vstd::prelude::*;

use crate::kernel::process::filled_vec;
use crate::kernel::task::{TaskId, MAX_TASKS};

verus! {

pub const PRIORITY_LEVELS: usize = 4;

/// Runnable tasks, one ring of `MAX_TASKS` slots per priority level.
pub struct ReadyQueue {
    pub queues: Vec<Vec<Option<TaskId>>>,
    pub heads: Vec<usize>,
    pub lens: Vec<usize>,
    pub total_len: usize,
}

/// The level a priority is queued at: priorities above the top level share it.
pub open spec fn level_of(priority: u8) -> int {
    if priority >= PRIORITY_LEVELS {
        PRIORITY_LEVELS - 1
    } else {
        priority as int
    }
}

fn normalize_priority(priority: u8) -> (r: usize)
    ensures
        r == level_of(priority),
        r < PRIORITY_LEVELS,
{
    let p = priority as usize;
    if p >= PRIORITY_LEVELS {
        PRIORITY_LEVELS - 1
    } else {
        p
    }
}

/// The highest level below `p` holding a task.
pub open spec fn top_level_below(levels: Seq<Seq<TaskId>>, p: int) -> Option<int>
    decreases p,
{
    if p <= 0 {
        None
    } else if levels[p - 1].len() > 0 {
        Some(p - 1)
    } else {
        top_level_below(levels, p - 1)
    }
}

impl ReadyQueue {
    pub open spec fn slot(&self, p: int, i: int) -> Option<TaskId> {
        self.queues@[p]@[(self.heads@[p] + i) % (MAX_TASKS as int)]
    }

    /// The tasks waiting at level `p`, first to run first.
    pub open spec fn level(&self, p: int) -> Seq<TaskId> {
        Seq::new(self.lens@[p] as nat, |i: int| self.slot(p, i)->0)
    }

    /// All the levels, lowest priority first.
    pub open spec fn levels(&self) -> Seq<Seq<TaskId>> {
        Seq::new(PRIORITY_LEVELS as nat, |p: int| self.level(p))
    }

    pub open spec fn wf(&self) -> bool {
        &&& self.queues@.len() == PRIORITY_LEVELS
        &&& self.heads@.len() == PRIORITY_LEVELS
        &&& self.lens@.len() == PRIORITY_LEVELS
        &&& forall|p: int| 0 <= p < PRIORITY_LEVELS ==> (#[trigger] self.queues@[p])@.len() == MAX_TASKS
        &&& forall|p: int| 0 <= p < PRIORITY_LEVELS ==> #[trigger] self.heads@[p] < MAX_TASKS
        &&& forall|p: int| 0 <= p < PRIORITY_LEVELS ==> #[trigger] self.lens@[p] <= MAX_TASKS
        &&& self.total_len == self.lens@[0] + self.lens@[1] + self.lens@[2] + self.lens@[3]
        &&& self.total_len <= MAX_TASKS
        &&& forall|p: int, i: int|
            0 <= p < PRIORITY_LEVELS && 0 <= i < self.lens@[p] ==> (#[trigger] self.slot(p, i)) is Some
    }

    pub fn new() -> (r: Self)
        ensures
            r.wf(),
            r.total_len == 0,
            forall|p: int| 0 <= p < PRIORITY_LEVELS ==> (#[trigger] r.level(p)).len() == 0,
    {
        let mut queues: Vec<Vec<Option<TaskId>>> = Vec::new();
        let mut p: usize = 0;
        while p < PRIORITY_LEVELS
            invariant
                p <= PRIORITY_LEVELS,
                queues@.len() == p,
                forall|q: int| 0 <= q < p ==> (#[trigger] queues@[q])@.len() == MAX_TASKS,
            decreases PRIORITY_LEVELS - p,
        {
            queues.push(filled_vec(None, MAX_TASKS));
            p += 1;
        }
        ReadyQueue {
            queues,
            heads: filled_vec(0, PRIORITY_LEVELS),
            lens: filled_vec(0, PRIORITY_LEVELS),
            total_len: 0,
        }
    }

    pub fn is_empty(&self) -> (r: bool)
        ensures
            r == (self.total_len == 0),
    {
        self.total_len == 0
    }

    pub fn len(&self) -> (r: usize)
        ensures
            r == self.total_len,
    {
        self.total_len
    }

    /// Queues `task_id` at the back of its priority level. The queue holds at
    /// most `MAX_TASKS` tasks in all.
    pub fn push_back(&mut self, task_id: TaskId, priority: u8)
        requires
            old(self).wf(),
            old(self).total_len < MAX_TASKS,
        ensures
            final(self).wf(),
            final(self).total_len == old(self).total_len + 1,
            forall|p: int|
                0 <= p < PRIORITY_LEVELS ==> #[trigger] final(self).level(p) == if p == level_of(priority) {
                    old(self).level(p).push(task_id)
                } else {
                    old(self).level(p)
                },
    {
        let p = normalize_priority(priority);
        let head = self.heads[p];
        let len = self.lens[p];
        let tail = (head + len) % MAX_TASKS;
        let ghost o = *self;
        self.queues[p].set(tail, Some(task_id));
        self.lens.set(p, len + 1);
        self.total_len = self.total_len + 1;
        proof {
            assert forall|q: int, i: int|
                0 <= q < PRIORITY_LEVELS && 0 <= i < self.lens@[q] implies (#[trigger] self.slot(q, i)) is Some by {
                if q == p && i < len {
                    lemma_ring_distinct(head as int, i, len as int);
                    assert(self.slot(q, i) == o.slot(q, i));
                } else if q != p {
                    assert(self.slot(q, i) == o.slot(q, i));
                }
            }
            assert forall|q: int| 0 <= q < PRIORITY_LEVELS implies #[trigger] self.level(q) == if q == p {
                o.level(q).push(task_id)
            } else {
                o.level(q)
            } by {
                if q == p {
                    assert forall|i: int| 0 <= i < len implies self.slot(q, i) == o.slot(q, i) by {
                        lemma_ring_distinct(head as int, i, len as int);
                    }
                    assert(self.level(q) =~= o.level(q).push(task_id));
                } else {
                    assert(self.level(q) =~= o.level(q));
                }
            }
        }
    }

    /// Takes the first task of the highest non-empty level.
    pub fn pop_front(&mut self) -> (r: Option<TaskId>)
        requires
            old(self).wf(),
        ensures
            final(self).wf(),
            match top_level_below(old(self).levels(), PRIORITY_LEVELS as int) {
                None => r == None::<TaskId> && final(self).total_len == old(self).total_len && forall|p: int|
                    0 <= p < PRIORITY_LEVELS ==> #[trigger] final(self).level(p) == old(self).level(p),
                Some(top) => {
                    &&& r == Some(old(self).level(top)[0])
                    &&& final(self).total_len == old(self).total_len - 1
                    &&& forall|p: int|
                        0 <= p < PRIORITY_LEVELS ==> #[trigger] final(self).level(p) == if p == top {
                            old(self).level(p).drop_first()
                        } else {
                            old(self).level(p)
                        }
                },
            },
    {
        let ghost o = *self;
        let mut q: usize = PRIORITY_LEVELS;
        while q > 0
            invariant
                q <= PRIORITY_LEVELS,
                self.wf(),
                *self == o,
                o == *old(self),
                top_level_below(o.levels(), PRIORITY_LEVELS as int) == top_level_below(o.levels(), q as int),
            decreases q,
        {
            let p = q - 1;
            assert(o.levels()[p as int] == o.level(p as int));
            if self.lens[p] != 0 {
                let head = self.heads[p];
                let item = self.queues[p][head];
                self.queues[p].set(head, None);
                self.heads.set(p, (head + 1) % MAX_TASKS);
                self.lens.set(p, self.lens[p] - 1);
                self.total_len = self.total_len - 1;
                proof {
                    assert(o.slot(p as int, 0) is Some);
                    assert(item == o.slot(p as int, 0));
                    let len = o.lens@[p as int];
                    assert forall|qq: int, i: int|
                        0 <= qq < PRIORITY_LEVELS && 0 <= i < self.lens@[qq] implies (#[trigger] self.slot(qq, i))
                        is Some by {
                        if qq == p {
                            lemma_ring_step(head as int, i);
                            lemma_ring_distinct(head as int, 0, i + 1);
                            assert(self.slot(qq, i) == o.slot(qq, i + 1));
                        } else {
                            assert(self.slot(qq, i) == o.slot(qq, i));
                        }
                    }
                    assert forall|qq: int| 0 <= qq < PRIORITY_LEVELS implies #[trigger] self.level(qq) == if qq
                        == p {
                        o.level(qq).drop_first()
                    } else {
                        o.level(qq)
                    } by {
                        if qq == p {
                            assert forall|i: int| 0 <= i < len - 1 implies self.slot(qq, i) == o.slot(qq, i + 1) by {
                                lemma_ring_step(head as int, i);
                                lemma_ring_distinct(head as int, 0, i + 1);
                            }
                            assert(self.level(qq) =~= o.level(qq).drop_first());
                        } else {
                            assert(self.level(qq) =~= o.level(qq));
                        }
                    }
                }
                return item;
            }
            q -= 1;
        }
        None
    }
}

/// `((h + 1) % N + i) % N == (h + i + 1) % N` for the ring size `N`.
pub proof fn lemma_ring_step(h: int, i: int)
    requires
        h >= 0,
        i >= 0,
    ensures
        ((h + 1) % (MAX_TASKS as int) + i) % (MAX_TASKS as int) == (h + (i + 1)) % (MAX_TASKS as int),
{
    vstd::arithmetic::div_mod::lemma_add_mod_noop_right(i, h + 1, MAX_TASKS as int);
}

/// Two positions less than a ring apart fall on different slots.
pub proof fn lemma_ring_distinct(start: int, a: int, b: int)
    requires
        start >= 0,
        0 <= a < b,
        b - a < MAX_TASKS,
    ensures
        (start + a) % (MAX_TASKS as int) != (start + b) % (MAX_TASKS as int),
{
    let c = MAX_TASKS as int;
    vstd::arithmetic::div_mod::lemma_fundamental_div_mod(start + a, c);
    vstd::arithmetic::div_mod::lemma_fundamental_div_mod(start + b, c);
    if (start + a) % c == (start + b) % c {
        let qa = (start + a) / c;
        let qb = (start + b) / c;
        assert(c * (qb - qa) == b - a) by (nonlinear_arith)
            requires
                c * qb + (start + b) % c == start + b,
                c * qa + (start + a) % c == start + a,
                (start + a) % c == (start + b) % c,
        ;
        assert(false) by (nonlinear_arith)
            requires
                c * (qb - qa) == b - a,
                0 < b - a < c,
                c == 8,
        ;
    }
}

} // verus!
