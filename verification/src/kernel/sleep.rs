use vstd::prelude::*;

use crate::kernel::process::filled_vec;
use crate::kernel::task::{TaskId, MAX_TASKS};

verus! {

#[derive(Clone, Copy, PartialEq, Eq, Structural, Debug)]
pub struct SleepEntry {
    pub task: TaskId,
    pub wake_at: u64,
}

/// Sleeping tasks in order of their wake-up tick; among equal ticks, in
/// order of insertion.
pub struct SleepQueue {
    pub entries: Vec<Option<SleepEntry>>,
    pub len: usize,
}

pub open spec fn sorted_by_wake(s: Seq<SleepEntry>) -> bool {
    forall|i: int, j: int| 0 <= i < j < s.len() ==> (#[trigger] s[i]).wake_at <= (#[trigger] s[j]).wake_at
}

/// `s` without the entries of `task`, in the same order.
pub open spec fn without_task(s: Seq<SleepEntry>, task: TaskId) -> Seq<SleepEntry>
    decreases s.len(),
{
    if s.len() == 0 {
        s
    } else if s.last().task == task {
        without_task(s.drop_last(), task)
    } else {
        without_task(s.drop_last(), task).push(s.last())
    }
}

pub proof fn lemma_without_task(s: Seq<SleepEntry>, task: TaskId)
    ensures
        forall|i: int| 0 <= i < without_task(s, task).len() ==> (#[trigger] without_task(s, task)[i]).task != task,
        forall|e: SleepEntry|
            #![trigger without_task(s, task).contains(e)]
            #![trigger s.contains(e)]
            without_task(s, task).contains(e) <==> s.contains(e) && e.task != task,
        sorted_by_wake(s) ==> sorted_by_wake(without_task(s, task)),
        without_task(s, task).len() <= s.len(),
    decreases s.len(),
{
    if s.len() > 0 {
        lemma_without_task(s.drop_last(), task);
        let w = without_task(s.drop_last(), task);
        assert forall|e: SleepEntry| without_task(s, task).contains(e) <==> s.contains(e) && e.task != task by {
            let ws = without_task(s, task);
            assert(ws == if s.last().task == task {
                w
            } else {
                w.push(s.last())
            });
            if s.contains(e) && e.task != task {
                let k = choose|k: int| 0 <= k < s.len() && s[k] == e;
                if k == s.len() - 1 {
                    assert(ws[w.len() as int] == e);
                } else {
                    assert(s.drop_last()[k] == e);
                    assert(s.drop_last().contains(e));
                    let m = choose|m: int| 0 <= m < w.len() && w[m] == e;
                    assert(ws[m] == e);
                }
            }
            if ws.contains(e) {
                let k = choose|k: int| 0 <= k < ws.len() && ws[k] == e;
                if s.last().task != task && k == w.len() {
                    assert(s[s.len() - 1] == e);
                } else {
                    assert(w[k] == e);
                    assert(w.contains(e));
                    let m = choose|m: int| 0 <= m < s.drop_last().len() && s.drop_last()[m] == e;
                    assert(s[m] == e);
                }
            }
        }
        if sorted_by_wake(s) {
            assert(sorted_by_wake(s.drop_last()));
            if s.last().task != task {
                assert forall|i: int| 0 <= i < w.len() implies (#[trigger] w[i]).wake_at <= s.last().wake_at by {
                    assert(w.contains(w[i]));
                    let m = choose|m: int| 0 <= m < s.drop_last().len() && s.drop_last()[m] == w[i];
                    assert(s[m] == w[i]);
                }
            }
        }
    }
}

impl SleepQueue {
    /// The sleeping entries, earliest first.
    pub open spec fn view_entries(&self) -> Seq<SleepEntry> {
        Seq::new(self.len as nat, |i: int| self.entries@[i]->0)
    }

    pub open spec fn wf(&self) -> bool {
        &&& self.entries@.len() == MAX_TASKS
        &&& self.len <= MAX_TASKS
        &&& forall|i: int| 0 <= i < MAX_TASKS ==> ((#[trigger] self.entries@[i]) is Some <==> i < self.len)
        &&& sorted_by_wake(self.view_entries())
    }

    pub fn new() -> (r: Self)
        ensures
            r.wf(),
            r.view_entries() == Seq::<SleepEntry>::empty(),
    {
        let r = SleepQueue { entries: filled_vec(None, MAX_TASKS), len: 0 };
        assert(r.view_entries() =~= Seq::<SleepEntry>::empty());
        r
    }

    /// Adds `task` to wake at `wake_at`, after every entry that wakes no
    /// later. The queue holds at most `MAX_TASKS` entries.
    pub fn insert(&mut self, task: TaskId, wake_at: u64)
        requires
            old(self).wf(),
            old(self).len < MAX_TASKS,
        ensures
            final(self).wf(),
            exists|pos: int|
                0 <= pos <= old(self).len && final(self).view_entries() == old(self).view_entries().insert(
                    pos,
                    SleepEntry { task, wake_at },
                ) && (forall|j: int| 0 <= j < pos ==> (#[trigger] old(self).view_entries()[j]).wake_at <= wake_at)
                    && (forall|j: int|
                    pos <= j < old(self).len ==> (#[trigger] old(self).view_entries()[j]).wake_at > wake_at),
    {
        let ghost s = self.view_entries();
        let e = SleepEntry { task, wake_at };
        let n = self.len;
        let mut pos = n;
        while pos > 0
            invariant
                0 <= pos <= n < MAX_TASKS,
                s.len() == n,
                sorted_by_wake(s),
                self.entries@.len() == MAX_TASKS,
                self.len == n,
                forall|j: int| 0 <= j < pos ==> self.entries@[j] == Some(s[j]),
                forall|j: int| pos < j <= n ==> self.entries@[j] == Some(s[j - 1]),
                forall|j: int| n < j < MAX_TASKS ==> self.entries@[j] is None,
                forall|j: int| pos <= j < n ==> (#[trigger] s[j]).wake_at > wake_at,
            ensures
                0 <= pos <= n < MAX_TASKS,
                self.entries@.len() == MAX_TASKS,
                self.len == n,
                forall|j: int| 0 <= j < pos ==> self.entries@[j] == Some(s[j]),
                forall|j: int| pos < j <= n ==> self.entries@[j] == Some(s[j - 1]),
                forall|j: int| n < j < MAX_TASKS ==> self.entries@[j] is None,
                forall|j: int| pos <= j < n ==> (#[trigger] s[j]).wake_at > wake_at,
                pos == 0 || s[pos - 1].wake_at <= wake_at,
            decreases pos,
        {
            let prev = self.entries[pos - 1];
            let pw = match prev {
                Some(p) => p.wake_at,
                None => 0,
            };
            if pw <= wake_at {
                break;
            }
            self.entries.set(pos, prev);
            pos -= 1;
        }
        self.entries.set(pos, Some(e));
        self.len = n + 1;
        proof {
            let t = self.view_entries();
            assert(t =~= s.insert(pos as int, e));
            if pos > 0 {
                assert(s[pos - 1].wake_at <= wake_at);
            }
            assert forall|i: int, j: int| 0 <= i < j < t.len() implies (#[trigger] t[i]).wake_at <= (#[trigger] t[j]).wake_at by {
                if j < pos {
                } else if j == pos {
                    assert(s[pos - 1].wake_at <= wake_at);
                } else if i == pos {
                } else if i < pos {
                } else {
                }
            }
            assert(forall|j: int| 0 <= j < pos ==> (#[trigger] s[j]).wake_at <= wake_at) by {
                if pos > 0 {
                    assert(s[pos - 1].wake_at <= wake_at);
                }
            }
        }
    }

    /// Takes out entry `idx`, moving the later ones up.
    fn remove_at(&mut self, idx: usize)
        requires
            old(self).wf(),
            idx < old(self).len,
        ensures
            final(self).wf(),
            final(self).view_entries() == old(self).view_entries().remove(idx as int),
    {
        let ghost s = self.view_entries();
        let n = self.len;
        let mut next = idx + 1;
        while next < n
            invariant
                idx + 1 <= next <= n <= MAX_TASKS,
                s.len() == n,
                self.entries@.len() == MAX_TASKS,
                self.len == n,
                forall|j: int| 0 <= j < idx ==> self.entries@[j] == Some(s[j]),
                forall|j: int| idx <= j < next - 1 ==> self.entries@[j] == Some(s[j + 1]),
                forall|j: int| next - 1 <= j < n ==> self.entries@[j] == Some(s[j]),
                forall|j: int| n <= j < MAX_TASKS ==> self.entries@[j] is None,
            decreases n - next,
        {
            let v = self.entries[next];
            self.entries.set(next - 1, v);
            next += 1;
        }
        self.len = n - 1;
        self.entries.set(n - 1, None);
        proof {
            let t = self.view_entries();
            assert(t =~= s.remove(idx as int));
            assert forall|i: int, j: int| 0 <= i < j < t.len() implies (#[trigger] t[i]).wake_at <= (#[trigger] t[j]).wake_at by {
                let a = if i < idx { i } else { i + 1 };
                let b = if j < idx { j } else { j + 1 };
                assert(t[i] == s[a] && t[j] == s[b]);
            }
        }
    }

    /// Takes the first entry if it is due by `now`.
    pub fn pop_expired(&mut self, now: u64) -> (r: Option<TaskId>)
        requires
            old(self).wf(),
        ensures
            final(self).wf(),
            if old(self).len > 0 && old(self).view_entries()[0].wake_at <= now {
                r == Some(old(self).view_entries()[0].task) && final(self).view_entries() == old(
                    self,
                ).view_entries().drop_first()
            } else {
                r == None::<TaskId> && final(self).view_entries() == old(self).view_entries()
            },
    {
        let first = match self.entries[0] {
            Some(first) => first,
            None => {
                return None;
            },
        };
        if first.wake_at > now {
            return None;
        }
        self.remove_at(0);
        proof {
            assert(old(self).view_entries().remove(0) =~= old(self).view_entries().drop_first());
        }
        Some(first.task)
    }

    /// Takes out every entry of `task`.
    pub fn remove_task(&mut self, task: TaskId)
        requires
            old(self).wf(),
        ensures
            final(self).wf(),
            final(self).view_entries() == without_task(old(self).view_entries(), task),
    {
        let ghost s = self.view_entries();
        let ghost mut k: int = 0;
        let mut idx: usize = 0;
        while idx < self.len
            invariant
                self.wf(),
                0 <= k <= s.len(),
                idx == without_task(s.take(k), task).len(),
                self.view_entries() == without_task(s.take(k), task) + s.skip(k),
            decreases s.len() - k,
        {
            proof {
                assert(s.take(k + 1).drop_last() =~= s.take(k));
                assert(self.view_entries()[idx as int] == s[k]);
            }
            let hit = match self.entries[idx] {
                Some(entry) => entry.task == task,
                None => false,
            };
            if hit {
                self.remove_at(idx);
                proof {
                    assert(self.view_entries() =~= without_task(s.take(k + 1), task) + s.skip(k + 1));
                    k = k + 1;
                }
                continue;
            }
            idx += 1;
            proof {
                assert(self.view_entries() =~= without_task(s.take(k + 1), task) + s.skip(k + 1));
                k = k + 1;
            }
        }
        proof {
            if k < s.len() {
                assert(self.view_entries().len() > idx);
            }
            assert(s.take(s.len() as int) =~= s);
            assert(self.view_entries() =~= without_task(s, task));
        }
    }

    pub fn len(&self) -> (r: usize)
        ensures
            r == self.len,
    {
        self.len
    }
}

} // verus!
