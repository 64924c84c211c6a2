use vstd::prelude::*;

use crate::kernel::process::filled_vec;
use crate::kernel::task::{TaskId, MAX_TASKS};

verus! {

pub const WAIT_QUEUE_COUNT: usize = 16;

#[derive(Clone, Copy, PartialEq, Eq, Structural, Debug)]
pub struct WaitEntry {
    pub channel: u32,
    pub task: TaskId,
}

/// Tasks waiting on channels that hash to one bucket, unordered.
pub struct WaitQueue {
    pub items: Vec<Option<WaitEntry>>,
    pub len: usize,
}

/// The first entry at or after `i` waiting on `channel`.
pub open spec fn first_on(s: Seq<WaitEntry>, channel: u32, i: int) -> Option<int>
    decreases s.len() - i,
{
    if i < 0 || i >= s.len() {
        None
    } else if s[i].channel == channel {
        Some(i)
    } else {
        first_on(s, channel, i + 1)
    }
}

/// `s` with entry `i` replaced by the last entry, which is then dropped.
pub open spec fn swap_remove(s: Seq<WaitEntry>, i: int) -> Seq<WaitEntry> {
    s.update(i, s.last()).drop_last()
}

/// The tasks that waking `channel` hands out, in order, from entries `s`.
pub open spec fn woken(s: Seq<WaitEntry>, channel: u32) -> Seq<TaskId>
    decreases s.len(),
{
    match first_on(s, channel, 0) {
        Some(i) => if 0 <= i < s.len() {
            seq![s[i].task] + woken(swap_remove(s, i), channel)
        } else {
            Seq::empty()
        },
        None => Seq::empty(),
    }
}

/// The entries left after waking `channel`.
pub open spec fn left_after_wake(s: Seq<WaitEntry>, channel: u32) -> Seq<WaitEntry>
    decreases s.len(),
{
    match first_on(s, channel, 0) {
        Some(i) => if 0 <= i < s.len() {
            left_after_wake(swap_remove(s, i), channel)
        } else {
            s
        },
        None => s,
    }
}

/// The entries left after taking out those of `task`, scanning from `i`.
pub open spec fn strip_task(s: Seq<WaitEntry>, task: TaskId, i: int) -> Seq<WaitEntry>
    decreases s.len() - i,
{
    if i < 0 || i >= s.len() {
        s
    } else if s[i].task == task {
        strip_task(swap_remove(s, i), task, i)
    } else {
        strip_task(s, task, i + 1)
    }
}

pub proof fn lemma_first_on(s: Seq<WaitEntry>, channel: u32, i: int)
    requires
        0 <= i <= s.len(),
    ensures
        match first_on(s, channel, i) {
            Some(k) => i <= k < s.len() && s[k].channel == channel,
            None => forall|j: int| i <= j < s.len() ==> (#[trigger] s[j]).channel != channel,
        },
    decreases s.len() - i,
{
    if i < s.len() {
        lemma_first_on(s, channel, i + 1);
    }
}

/// Waking a channel leaves no entry waiting on it.
pub proof fn lemma_wake_leaves_none(s: Seq<WaitEntry>, channel: u32)
    ensures
        forall|j: int|
            0 <= j < left_after_wake(s, channel).len() ==> (#[trigger] left_after_wake(s, channel)[j]).channel
                != channel,
        woken(s, channel).len() + left_after_wake(s, channel).len() == s.len(),
    decreases s.len(),
{
    lemma_first_on(s, channel, 0);
    match first_on(s, channel, 0) {
        Some(i) => {
            lemma_wake_leaves_none(swap_remove(s, i), channel);
        },
        None => {},
    }
}

/// Taking out a task leaves no entry of it.
pub proof fn lemma_strip_leaves_none(s: Seq<WaitEntry>, task: TaskId, i: int)
    requires
        0 <= i <= s.len(),
        forall|j: int| 0 <= j < i ==> (#[trigger] s[j]).task != task,
    ensures
        forall|j: int| 0 <= j < strip_task(s, task, i).len() ==> (#[trigger] strip_task(s, task, i)[j]).task != task,
    decreases s.len() - i,
{
    if i < s.len() {
        if s[i].task == task {
            let t = swap_remove(s, i);
            assert forall|j: int| 0 <= j < i implies (#[trigger] t[j]).task != task by {
                assert(t[j] == s[j]);
            }
            lemma_strip_leaves_none(t, task, i);
            assert(strip_task(s, task, i) == strip_task(t, task, i));
        } else {
            lemma_strip_leaves_none(s, task, i + 1);
            assert(strip_task(s, task, i) == strip_task(s, task, i + 1));
        }
    } else {
        assert(strip_task(s, task, i) == s);
    }
}

impl WaitQueue {
    pub open spec fn view_entries(&self) -> Seq<WaitEntry> {
        Seq::new(self.len as nat, |i: int| self.items@[i]->0)
    }

    pub open spec fn wf(&self) -> bool {
        &&& self.items@.len() == MAX_TASKS
        &&& self.len <= MAX_TASKS
        &&& forall|i: int| 0 <= i < MAX_TASKS ==> ((#[trigger] self.items@[i]) is Some <==> i < self.len)
    }

    pub fn new() -> (r: Self)
        ensures
            r.wf(),
            r.view_entries() == Seq::<WaitEntry>::empty(),
    {
        let r = WaitQueue { items: filled_vec(None, MAX_TASKS), len: 0 };
        assert(r.view_entries() =~= Seq::<WaitEntry>::empty());
        r
    }

    /// Adds `task` waiting on `channel`; the queue holds at most `MAX_TASKS` entries.
    pub fn push(&mut self, channel: u32, task: TaskId)
        requires
            old(self).wf(),
            old(self).len < MAX_TASKS,
        ensures
            final(self).wf(),
            final(self).view_entries() == old(self).view_entries().push(WaitEntry { channel, task }),
    {
        let n = self.len;
        self.items.set(n, Some(WaitEntry { channel, task }));
        self.len = n + 1;
        assert(self.view_entries() =~= old(self).view_entries().push(WaitEntry { channel, task }));
    }

    /// Entry `idx` replaced by the last one, which goes.
    fn take_at(&mut self, idx: usize) -> (r: WaitEntry)
        requires
            old(self).wf(),
            idx < old(self).len,
        ensures
            final(self).wf(),
            r == old(self).view_entries()[idx as int],
            final(self).view_entries() == swap_remove(old(self).view_entries(), idx as int),
    {
        let ghost s = self.view_entries();
        let item = match self.items[idx] {
            Some(e) => e,
            None => WaitEntry { channel: 0, task: TaskId(0) },
        };
        self.items.set(idx, None);
        self.len = self.len - 1;
        let last = self.items[self.len];
        self.items.set(self.len, None);
        self.items.set(idx, last);
        assert(self.view_entries() =~= swap_remove(s, idx as int));
        item
    }

    /// Takes out the first entry waiting on `channel` and hands back its task.
    pub fn pop_channel(&mut self, channel: u32) -> (r: Option<TaskId>)
        requires
            old(self).wf(),
        ensures
            final(self).wf(),
            match first_on(old(self).view_entries(), channel, 0) {
                Some(i) => r == Some(old(self).view_entries()[i].task) && final(self).view_entries()
                    == swap_remove(old(self).view_entries(), i),
                None => r == None::<TaskId> && final(self).view_entries() == old(self).view_entries(),
            },
    {
        let mut idx: usize = 0;
        while idx < self.len
            invariant
                self.wf(),
                *self == *old(self),
                idx <= self.len,
                first_on(self.view_entries(), channel, 0) == first_on(self.view_entries(), channel, idx as int),
            decreases self.len - idx,
        {
            let hit = match self.items[idx] {
                Some(entry) => entry.channel == channel,
                None => false,
            };
            assert(self.items@[idx as int] == Some(self.view_entries()[idx as int]));
            if hit {
                let e = self.take_at(idx);
                return Some(e.task);
            }
            idx += 1;
        }
        None
    }

    /// Takes out every entry of `task`.
    pub fn remove_task(&mut self, task: TaskId)
        requires
            old(self).wf(),
        ensures
            final(self).wf(),
            final(self).view_entries() == strip_task(old(self).view_entries(), task, 0),
    {
        let mut idx: usize = 0;
        while idx < self.len
            invariant
                self.wf(),
                idx <= self.len,
                strip_task(old(self).view_entries(), task, 0) == strip_task(self.view_entries(), task, idx as int),
            decreases self.len - idx, self.len,
        {
            let hit = match self.items[idx] {
                Some(entry) => entry.task == task,
                None => false,
            };
            assert(self.items@[idx as int] == Some(self.view_entries()[idx as int]));
            if hit {
                let ghost before = self.view_entries();
                self.take_at(idx);
                assert(strip_task(before, task, idx as int) == strip_task(swap_remove(before, idx as int), task, idx as int));
                continue;
            }
            idx += 1;
        }
    }
}

/// The bucket of `channel`.
pub open spec fn bucket(channel: u32) -> int {
    (channel as usize) as int % WAIT_QUEUE_COUNT as int
}

fn index(channel: u32) -> (r: usize)
    ensures
        r == bucket(channel),
        r < WAIT_QUEUE_COUNT,
{
    channel as usize % WAIT_QUEUE_COUNT
}

/// Tasks blocked on wait channels, hashed into `WAIT_QUEUE_COUNT` buckets.
pub struct WaitQueueTable {
    pub queues: Vec<WaitQueue>,
}

impl WaitQueueTable {
    pub open spec fn wf(&self) -> bool {
        &&& self.queues@.len() == WAIT_QUEUE_COUNT
        &&& forall|i: int| 0 <= i < WAIT_QUEUE_COUNT ==> (#[trigger] self.queues@[i]).wf()
    }

    /// The entries of bucket `b`.
    pub open spec fn bucket_entries(&self, b: int) -> Seq<WaitEntry> {
        self.queues@[b].view_entries()
    }

    pub fn new() -> (r: Self)
        ensures
            r.wf(),
            forall|b: int| 0 <= b < WAIT_QUEUE_COUNT ==> (#[trigger] r.bucket_entries(b)).len() == 0,
    {
        let mut queues: Vec<WaitQueue> = Vec::new();
        let mut i: usize = 0;
        while i < WAIT_QUEUE_COUNT
            invariant
                i <= WAIT_QUEUE_COUNT,
                queues@.len() == i,
                forall|j: int| 0 <= j < i ==> (#[trigger] queues@[j]).wf() && queues@[j].view_entries().len() == 0,
            decreases WAIT_QUEUE_COUNT - i,
        {
            queues.push(WaitQueue::new());
            i += 1;
        }
        WaitQueueTable { queues }
    }

    /// Puts `task` to sleep on `channel`; its bucket must have room.
    pub fn sleep_on(&mut self, channel: u32, task: TaskId)
        requires
            old(self).wf(),
            old(self).bucket_entries(bucket(channel)).len() < MAX_TASKS,
        ensures
            final(self).wf(),
            final(self).queues@.len() == WAIT_QUEUE_COUNT,
            forall|b: int| 0 <= b < WAIT_QUEUE_COUNT ==> #[trigger] final(self).bucket_entries(b) == if b == bucket(channel) {
                old(self).bucket_entries(b).push(WaitEntry { channel, task })
            } else {
                old(self).bucket_entries(b)
            },
    {
        let b = index(channel);
        assert(self.queues@[b as int].wf());
        self.queues[b].push(channel, task);
    }

    /// Wakes every task waiting on `channel` and hands them out in the order
    /// they leave their bucket.
    pub fn wake_all(&mut self, channel: u32) -> (r: Vec<TaskId>)
        requires
            old(self).wf(),
        ensures
            final(self).wf(),
            final(self).queues@.len() == WAIT_QUEUE_COUNT,
            r@ == woken(old(self).bucket_entries(bucket(channel)), channel),
            forall|b: int| 0 <= b < WAIT_QUEUE_COUNT ==> #[trigger] final(self).bucket_entries(b) == if b == bucket(channel) {
                left_after_wake(old(self).bucket_entries(b), channel)
            } else {
                old(self).bucket_entries(b)
            },
    {
        let b = index(channel);
        let ghost s0 = self.bucket_entries(b as int);
        let mut out: Vec<TaskId> = Vec::new();
        loop
            invariant
                self.wf(),
                b == bucket(channel),
                b < WAIT_QUEUE_COUNT,
                out@ + woken(self.bucket_entries(b as int), channel) == woken(s0, channel),
                left_after_wake(self.bucket_entries(b as int), channel) == left_after_wake(s0, channel),
                forall|q: int| 0 <= q < WAIT_QUEUE_COUNT && q != b ==> #[trigger] self.queues@[q] == old(self).queues@[q],
                s0 == old(self).bucket_entries(b as int),
            ensures
                self.wf(),
                out@ == woken(s0, channel),
                self.bucket_entries(b as int) == left_after_wake(s0, channel),
                forall|q: int| 0 <= q < WAIT_QUEUE_COUNT && q != b ==> #[trigger] self.queues@[q] == old(self).queues@[q],
            decreases self.bucket_entries(b as int).len(),
        {
            let ghost before = self.bucket_entries(b as int);
            assert(self.queues@[b as int].wf());
            proof {
                lemma_first_on(before, channel, 0);
            }
            match self.queues[b].pop_channel(channel) {
                Some(task) => {
                    proof {
                        let i = first_on(before, channel, 0)->0;
                        assert(woken(before, channel) == seq![task] + woken(swap_remove(before, i), channel));
                        assert(out@.push(task) + woken(self.bucket_entries(b as int), channel) =~= out@ + woken(
                            before,
                            channel,
                        ));
                    }
                    out.push(task);
                },
                None => {
                    proof {
                        assert(woken(before, channel) =~= Seq::<TaskId>::empty());
                        assert(out@ =~= woken(s0, channel));
                    }
                    break;
                },
            }
        }
        out
    }

    /// Takes `task` off every bucket.
    pub fn remove_task(&mut self, task: TaskId)
        requires
            old(self).wf(),
        ensures
            final(self).wf(),
            final(self).queues@.len() == WAIT_QUEUE_COUNT,
            forall|b: int| 0 <= b < WAIT_QUEUE_COUNT ==> #[trigger] final(self).bucket_entries(b) == strip_task(
                old(self).bucket_entries(b),
                task,
                0,
            ),
    {
        let mut i: usize = 0;
        while i < WAIT_QUEUE_COUNT
            invariant
                self.wf(),
                i <= WAIT_QUEUE_COUNT,
                forall|b: int| 0 <= b < i ==> #[trigger] self.bucket_entries(b) == strip_task(old(self).bucket_entries(b), task, 0),
                forall|b: int| i <= b < WAIT_QUEUE_COUNT ==> #[trigger] self.queues@[b] == old(self).queues@[b],
            decreases WAIT_QUEUE_COUNT - i,
        {
            assert(self.queues@[i as int].wf());
            let ghost prev = self.queues@;
            let ghost prev_table = *self;
            self.queues[i].remove_task(task);
            proof {
                assert forall|b: int| 0 <= b < i implies #[trigger] self.bucket_entries(b) == strip_task(
                    old(self).bucket_entries(b),
                    task,
                    0,
                ) by {
                    assert(prev_table.bucket_entries(b) == strip_task(old(self).bucket_entries(b), task, 0));
                    assert(self.queues@[b] == prev[b]);
                }
            }
            i += 1;
        }
    }
}

/// Waking `channel` twice in a row: what the first wake leaves in a
/// bucket holds nobody waiting on `channel`, so the second hands out no
/// task.
pub proof fn lemma_second_wake_finds_none(s: Seq<WaitEntry>, channel: u32)
    ensures
        woken(left_after_wake(s, channel), channel).len() == 0,
    decreases s.len(),
{
    match first_on(s, channel, 0) {
        Some(i) => if 0 <= i < s.len() {
            lemma_second_wake_finds_none(swap_remove(s, i), channel);
        },
        None => {},
    }
}

} // verus!
