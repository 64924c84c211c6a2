use vstd::prelude::*;

use crate::context::TaskContext;
use crate::task::{Task, TaskState, MAX_TASKS};

verus! {

/// The boot-time scheduler: up to `MAX_TASKS` tasks taken in turn, one per
/// tick.
pub struct Scheduler {
    pub tasks: Vec<Task>,
    pub count: usize,
    pub current: usize,
    pub ticks: u64,
}

impl Scheduler {
    pub open spec fn wf(&self) -> bool {
        &&& self.tasks@.len() == MAX_TASKS
        &&& self.count <= MAX_TASKS
        &&& (self.count > 0 ==> self.current < self.count)
        &&& (self.count == 0 ==> self.current == 0)
    }

    pub fn new() -> (r: Self)
        ensures
            r.wf(),
            r.count == 0 && r.current == 0 && r.ticks == 0,
            forall|i: int| 0 <= i < MAX_TASKS ==> (#[trigger] r.tasks@[i]).state == TaskState::Empty,
    {
        let mut tasks: Vec<Task> = Vec::new();
        while tasks.len() < MAX_TASKS
            invariant
                tasks@.len() <= MAX_TASKS,
                forall|i: int| 0 <= i < tasks@.len() ==> (#[trigger] tasks@[i]).state == TaskState::Empty,
            decreases MAX_TASKS - tasks@.len(),
        {
            tasks.push(Task::empty());
        }
        Scheduler { tasks, count: 0, current: 0, ticks: 0 }
    }

    /// Appends `task`; the table must have room.
    pub fn add(&mut self, task: Task)
        requires
            old(self).wf(),
            old(self).count < MAX_TASKS,
        ensures
            final(self).wf(),
            final(self).tasks@ == old(self).tasks@.update(old(self).count as int, task),
            final(self).count == old(self).count + 1,
            final(self).current == old(self).current && final(self).ticks == old(self).ticks,
    {
        self.tasks.set(self.count, task);
        self.count = self.count + 1;
    }

    /// Makes the first task the running one and gives the stack pointer to
    /// resume it from.
    pub fn start(&mut self) -> (r: usize)
        requires
            old(self).wf(),
            old(self).count > 0,
        ensures
            final(self).wf(),
            final(self).current == 0,
            final(self).tasks@ == old(self).tasks@.update(0, Task { state: TaskState::Running, ..old(self).tasks@[0] }),
            r == old(self).tasks@[0].context.sp,
            final(self).count == old(self).count && final(self).ticks == old(self).ticks,
    {
        self.current = 0;
        let mut t = self.tasks[0];
        t.state = TaskState::Running;
        self.tasks.set(0, t);
        t.context.sp
    }

    /// A timer tick: the running task is saved at `saved_sp` and becomes
    /// ready, the next in turn runs. Returns where to resume, and the two
    /// tasks when the turn changed hands.
    pub fn tick(&mut self, saved_sp: usize) -> (r: (usize, Option<(usize, usize)>))
        requires
            old(self).wf(),
        ensures
            final(self).wf(),
            old(self).count == 0 ==> r == (saved_sp, None::<(usize, usize)>) && final(self).tasks@ == old(self).tasks@
                && final(self).ticks == old(self).ticks,
            old(self).count > 0 ==> {
                let prev = old(self).current;
                let next = (prev + 1) % (old(self).count as int);
                let saved = old(self).tasks@.update(prev as int, Task { context: TaskContext { sp: saved_sp }, state: TaskState::Ready, ..old(self).tasks@[prev as int] });
                &&& final(self).ticks == old(self).ticks.wrapping_add(1)
                &&& final(self).current == next
                &&& final(self).tasks@ == saved.update(next, Task { state: TaskState::Running, ..saved[next] })
                &&& r.0 == saved[next].context.sp
                &&& r.1 == if prev != next { Some((prev, next as usize)) } else { None }
            },
            final(self).count == old(self).count,
    {
        if self.count == 0 {
            return (saved_sp, None);
        }
        self.ticks = self.ticks.wrapping_add(1);
        let prev = self.current;
        let mut t = self.tasks[prev];
        t.context = TaskContext { sp: saved_sp };
        t.state = TaskState::Ready;
        self.tasks.set(prev, t);
        let next = (prev + 1) % self.count;
        self.current = next;
        let mut n = self.tasks[next];
        n.state = TaskState::Running;
        self.tasks.set(next, n);
        let switched = if prev != next { Some((prev, next)) } else { None };
        (n.context.sp, switched)
    }
}

} // verus!
