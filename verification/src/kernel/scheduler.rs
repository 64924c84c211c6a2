use vstd::prelude::*;
use vstd::string::StringSliceAdditionalSpecFns;

use crate::arch::aarch32::context::TaskContext;
use crate::fs::ramfs::bytes_equal;
use crate::kernel::address::PhysAddr;
use crate::kernel::log::{KernelLog, LogEvent};
use crate::kernel::process::{
    is_child, lemma_free_from, no_child_of, reapable_from, AddressSpace, AddressSpaceKind, ProcessControlBlock, ProcessId, ProcessState, ProcessTable, ThreadId, ThreadMode, MAX_PROCESSES,
};
use crate::kernel::syscall::{
    EAGAIN, ECHILD, EINVAL, ENOMEM, SYS_BLOCK, SYS_EXIT, SYS_WAIT, SYS_GETPID, SYS_GETPPID, SYS_SLEEP, SYS_WAKE, SYS_YIELD,
    LINUX_SYS_EXIT, LINUX_SYS_EXIT_GROUP, LINUX_SYS_GETPID, LINUX_SYS_GETPPID, LINUX_SYS_RESTART_SYSCALL, LINUX_SYS_SCHED_YIELD,
};
use crate::kernel::queue::{ReadyQueue, level_of, top_level_below, PRIORITY_LEVELS};
use crate::kernel::sleep::{SleepEntry, SleepQueue};
use crate::kernel::task::{wrap_inc, TaskControlBlock, TaskId, TaskState, TaskStats, MAX_TASKS};
use crate::kernel::wait::{bucket, woken, WaitEntry, WaitQueueTable, WAIT_QUEUE_COUNT};

verus! {

pub const DEFAULT_TIME_SLICE_TICKS: u32 = 1;

/// The number of task slots below `k` in state `st`.
pub open spec fn count_state(tasks: Seq<TaskControlBlock>, st: TaskState, k: int) -> nat
    decreases k,
{
    if k <= 0 {
        0
    } else {
        count_state(tasks, st, k - 1) + if tasks[k - 1].state == st { 1nat } else { 0nat }
    }
}

pub proof fn lemma_count_state_update(tasks: Seq<TaskControlBlock>, st: TaskState, k: int, j: int, x: TaskControlBlock)
    requires
        0 <= j < tasks.len(),
        k <= tasks.len(),
    ensures
        count_state(tasks.update(j, x), st, k) + (if j < k && tasks[j].state == st { 1int } else { 0int })
            == count_state(tasks, st, k) + (if j < k && x.state == st { 1int } else { 0int }),
    decreases k,
{
    if k > 0 {
        lemma_count_state_update(tasks, st, k - 1, j, x);
    }
}

/// Fewer than all slots are in `st` when one slot is not.
pub proof fn lemma_count_state_below(tasks: Seq<TaskControlBlock>, st: TaskState, k: int, j: int)
    requires
        0 <= j < k <= tasks.len(),
        tasks[j].state != st,
    ensures
        count_state(tasks, st, k) < k,
    decreases k,
{
    lemma_count_state_bound(tasks, st, k - 1);
    if j < k - 1 {
        lemma_count_state_below(tasks, st, k - 1, j);
    }
}

pub proof fn lemma_count_state_bound(tasks: Seq<TaskControlBlock>, st: TaskState, k: int)
    ensures
        count_state(tasks, st, k) <= if k < 0 { 0 } else { k },
    decreases k,
{
    if k > 0 {
        lemma_count_state_bound(tasks, st, k - 1);
    }
}

/// The number of task slots below `k` that are in use.
pub open spec fn occupied(tasks: Seq<TaskControlBlock>, k: int) -> nat
    decreases k,
{
    if k <= 0 {
        0
    } else {
        occupied(tasks, k - 1) + if tasks[k - 1].state != TaskState::Empty { 1nat } else { 0nat }
    }
}

pub proof fn lemma_occupied_update(tasks: Seq<TaskControlBlock>, k: int, j: int, x: TaskControlBlock)
    requires
        0 <= j < tasks.len(),
        k <= tasks.len(),
    ensures
        occupied(tasks.update(j, x), k) + (if j < k && tasks[j].state != TaskState::Empty { 1int } else { 0int })
            == occupied(tasks, k) + (if j < k && x.state != TaskState::Empty { 1int } else { 0int }),
    decreases k,
{
    if k > 0 {
        lemma_occupied_update(tasks, k - 1, j, x);
    }
}

pub proof fn lemma_occupied_bound(tasks: Seq<TaskControlBlock>, k: int)
    ensures
        occupied(tasks, k) <= if k < 0 { 0 } else { k },
    decreases k,
{
    if k > 0 {
        lemma_occupied_bound(tasks, k - 1);
    }
}

/// The first empty task slot at or after `i`.
pub open spec fn empty_task_from(tasks: Seq<TaskControlBlock>, i: int) -> Option<int>
    decreases tasks.len() - i,
{
    if i < 0 || i >= tasks.len() {
        None
    } else if tasks[i].state == TaskState::Empty {
        Some(i)
    } else {
        empty_task_from(tasks, i + 1)
    }
}

pub proof fn lemma_empty_task_range(tasks: Seq<TaskControlBlock>, i: int)
    ensures
        empty_task_from(tasks, i) matches Some(k) ==> 0 <= i <= k < tasks.len() && tasks[k].state == TaskState::Empty,
    decreases tasks.len() - i,
{
    if 0 <= i < tasks.len() {
        lemma_empty_task_range(tasks, i + 1);
    }
}

/// The kernel's tasks and what orders them: the ready, sleep and wait
/// queues, the process table and the event log.
pub struct Scheduler {
    pub tasks: Vec<TaskControlBlock>,
    pub ready: ReadyQueue,
    pub sleep: SleepQueue,
    pub wait: WaitQueueTable,
    pub processes: ProcessTable,
    pub log: KernelLog,
    pub count: usize,
    pub current: Option<TaskId>,
    pub idle: Option<TaskId>,
    pub ticks: u64,
    pub switches: u64,
    pub next_tid: usize,
}

pub open spec fn idle_name() -> Seq<u8> {
    seq![0x69u8, 0x64, 0x6c, 0x65]
}

pub open spec fn tid_after(t: usize) -> usize {
    if t == usize::MAX { 1 } else { (t + 1) as usize }
}

impl Scheduler {
    /// The ready queue never holds more tasks than there are ready task
    /// slots, so queueing a task that just became ready always fits.
    pub open spec fn wf(&self) -> bool {
        &&& self.tasks@.len() == MAX_TASKS
        &&& self.ready.wf()
        &&& self.sleep.wf()
        &&& self.wait.wf()
        &&& self.processes.wf()
        &&& self.log.wf()
        &&& self.ready.total_len <= count_state(self.tasks@, TaskState::Ready, MAX_TASKS as int)
        &&& self.count <= occupied(self.tasks@, MAX_TASKS as int)
        &&& self.next_tid >= 1
        &&& (self.current matches Some(c) ==> c.0 < MAX_TASKS)
        &&& (self.idle matches Some(i) ==> i.0 < MAX_TASKS)
    }

    pub fn new() -> (r: Self)
        ensures
            r.wf(),
            r.count == 0 && r.current is None && r.idle is None,
            r.ticks == 0 && r.switches == 0 && r.next_tid == 1,
            r.ready.total_len == 0,
            forall|i: int| 0 <= i < MAX_TASKS ==> (#[trigger] r.tasks@[i]).state == TaskState::Empty,
    {
        let mut tasks: Vec<TaskControlBlock> = Vec::new();
        while tasks.len() < MAX_TASKS
            invariant
                tasks@.len() <= MAX_TASKS,
                forall|i: int| 0 <= i < tasks@.len() ==> (#[trigger] tasks@[i]).state == TaskState::Empty,
            decreases MAX_TASKS - tasks@.len(),
        {
            tasks.push(TaskControlBlock::empty());
        }
        let r = Scheduler {
            tasks,
            ready: ReadyQueue::new(),
            sleep: SleepQueue::new(),
            wait: WaitQueueTable::new(),
            processes: ProcessTable::new(),
            log: KernelLog::new(),
            count: 0,
            current: None,
            idle: None,
            ticks: 0,
            switches: 0,
            next_tid: 1,
        };
        r
    }

    /// The first empty task slot.
    fn alloc_task_slot(&self) -> (r: Option<TaskId>)
        requires
            self.wf(),
        ensures
            match empty_task_from(self.tasks@, 0) {
                Some(k) => r == Some(TaskId(k as usize)),
                None => r is None,
            },
    {
        proof {
            lemma_empty_task_range(self.tasks@, 0);
        }
        let mut idx: usize = 0;
        while idx < MAX_TASKS
            invariant
                self.wf(),
                idx <= MAX_TASKS,
                empty_task_from(self.tasks@, 0) == empty_task_from(self.tasks@, idx as int),
            decreases MAX_TASKS - idx,
        {
            if self.tasks[idx].state == TaskState::Empty {
                return Some(TaskId::new(idx));
            }
            idx += 1;
        }
        None
    }

    /// The next thread number; numbers wrap around past the largest,
    /// skipping 0.
    fn alloc_thread_id(&mut self) -> (r: ThreadId)
        ensures
            r.0 == old(self).next_tid,
            final(self).next_tid == tid_after(old(self).next_tid),
            final(self).tasks == old(self).tasks && final(self).count == old(self).count,
            final(self).ready == old(self).ready && final(self).sleep == old(self).sleep && final(self).wait == old(self).wait,
            final(self).processes == old(self).processes && final(self).log == old(self).log,
            final(self).current == old(self).current && final(self).idle == old(self).idle,
            final(self).ticks == old(self).ticks && final(self).switches == old(self).switches,
    {
        let id = ThreadId::new(self.next_tid);
        self.next_tid = if self.next_tid == usize::MAX { 1 } else { self.next_tid + 1 };
        id
    }

    /// Starts a kernel thread named `name` in a process of its own, running
    /// from `context` on the stack at `stack`. The thread named `idle` is
    /// kept aside to run when nothing else can; any other is queued ready.
    pub fn spawn_with_options(
        &mut self,
        name: &'static str,
        stack: usize,
        context: TaskContext,
        root: PhysAddr,
        priority: u8,
        time_slice_ticks: u32,
    ) -> (r: TaskId)
        requires
            old(self).wf(),
            empty_task_from(old(self).tasks@, 0) is Some,
            old(self).processes.free_slot() is Some,
        ensures
            final(self).wf(),
            r.0 == empty_task_from(old(self).tasks@, 0)->Some_0,
            final(self).tasks@[r.0 as int].state == TaskState::Ready,
            final(self).tasks@[r.0 as int].name == name,
            final(self).tasks@[r.0 as int].priority == priority,
            final(self).tasks@[r.0 as int].time_slice_ticks == (if time_slice_ticks == 0 { 1 } else { time_slice_ticks }),
            final(self).tasks@[r.0 as int].kernel_stack_start == stack && final(self).tasks@[r.0 as int].context == context,
            final(self).tasks@[r.0 as int].pid == old(self).processes.next_pid,
            final(self).tasks@[r.0 as int].thread_id.0 == old(self).next_tid,
            forall|j: int| 0 <= j < MAX_TASKS && j != r.0 ==> #[trigger] final(self).tasks@[j] == old(self).tasks@[j],
            final(self).count == old(self).count + 1,
            final(self).next_tid == tid_after(old(self).next_tid),
            name.spec_bytes() == idle_name() ==> final(self).idle == Some(r) && final(self).ready.total_len == old(self).ready.total_len,
            name.spec_bytes() != idle_name() ==> final(self).idle == old(self).idle && final(self).ready.total_len == old(self).ready.total_len + 1
                && final(self).ready.levels() == old(self).ready.levels().update(level_of(priority), old(self).ready.levels()[level_of(priority)].push(r)),
            ({
                let p = final(self).processes.entries@[old(self).processes.free_slot()->0];
                &&& p.pid.0 == old(self).processes.next_pid && p.state == ProcessState::Alive
                &&& p.address_space.kind == AddressSpaceKind::Kernel && p.address_space.page_table_root == root
            }),
    {
        let id = self.alloc_task_slot().unwrap();
        proof {
            lemma_empty_task_range(self.tasks@, 0);
        }
        let ghost pk = self.processes.free_slot()->0;
        proof {
            lemma_free_from(self.processes.entries@, 0);
        }
        let process_id = self.processes.create(name, ProcessId::new(0), AddressSpace::kernel(root));
        let ghost created = self.processes.entries@[pk];
        let thread_id = self.alloc_thread_id();
        let task = TaskControlBlock::new_kernel(id, process_id, thread_id, name, stack, context, priority, time_slice_ticks);
        let ghost before = self.tasks@;
        proof {
            lemma_count_state_update(before, TaskState::Ready, MAX_TASKS as int, id.0 as int, task);
            lemma_occupied_update(before, MAX_TASKS as int, id.0 as int, task);
            lemma_occupied_bound(before.update(id.0 as int, task), MAX_TASKS as int);
        }
        self.tasks.set(id.index(), task);
        let ghost pre = self.processes;
        self.processes.set_main_thread(process_id, thread_id);
        proof {
            assert(pre.entries@[pk] == created);
            match pre.slot(process_id) {
                Some(k) => {
                    if k != pk {
                        assert(self.processes.entries@[pk] == pre.entries@[pk]);
                    }
                },
                None => {},
            }
        }
        assert(self.processes.entries@[pk] == created || self.processes.entries@[pk] == ProcessControlBlock {
            main_thread: thread_id,
            ..created
        });
        let idle_bytes: [u8; 4] = [0x69, 0x64, 0x6c, 0x65];
        let is_idle = bytes_equal(name.as_bytes(), &idle_bytes);
        proof {
            assert(idle_bytes@ =~= idle_name());
        }
        if is_idle {
            self.idle = Some(id);
        } else {
            proof {
                lemma_count_state_bound(self.tasks@, TaskState::Ready, MAX_TASKS as int);
            }
            self.ready.push_back(id, priority);
        }
        self.count = self.count + 1;
        id
    }
}



/// The tick a sleep of `ticks` ticks asked for at tick `now` ends on: at
/// least one tick on, wrapping.
pub open spec fn sleep_deadline(now: u64, ticks: u32) -> u64 {
    now.wrapping_add(if ticks == 0 { 1u64 } else { ticks as u64 })
}

/// Task `t` asleep until `wake_at`.
pub open spec fn asleep(t: TaskControlBlock, wake_at: u64) -> TaskControlBlock {
    TaskControlBlock {
        state: TaskState::Sleeping,
        wake_at_tick: wake_at,
        remaining_ticks: 0,
        stats: TaskStats { sleep_count: wrap_inc(t.stats.sleep_count), ..t.stats },
        ..t
    }
}

/// Task `t` blocked on `channel`.
pub open spec fn blocked(t: TaskControlBlock, channel: u32) -> TaskControlBlock {
    TaskControlBlock {
        state: TaskState::Blocked,
        wait_channel: channel,
        wait_pid: 0,
        wait_user_buf: 0,
        wait_len: 0,
        remaining_ticks: 0,
        stats: TaskStats { block_count: wrap_inc(t.stats.block_count), ..t.stats },
        ..t
    }
}

impl Scheduler {
    /// The sleep call of task `current` for `ticks` ticks: it sleeps until
    /// `sleep_deadline`, queued among the sleepers by that tick behind those
    /// due no later, and the next task is picked to run.
    pub fn sleep_current(&mut self, current: TaskId, ticks: u32) -> (r: Option<TaskId>)
        requires
            old(self).wf(),
            current.0 < MAX_TASKS,
            old(self).tasks@[current.0 as int].state != TaskState::Ready,
            old(self).sleep.len < MAX_TASKS,
        ensures
            final(self).wf(),
            ({
                let wake_at = sleep_deadline(old(self).ticks, ticks);
                &&& switched(
                    old(self).tasks@.update(current.0 as int, asleep(old(self).tasks@[current.0 as int], wake_at)),
                    old(self).ready.levels(),
                    old(self).ready.total_len,
                    old(self).idle,
                    old(self).ticks,
                    old(self).switches,
                    old(self).log,
                    old(self).current,
                    current,
                    "sleep",
                    *final(self),
                    r,
                )
                &&& exists|pos: int|
                    0 <= pos <= old(self).sleep.len && final(self).sleep.view_entries() == old(self).sleep.view_entries().insert(
                        pos,
                        SleepEntry { task: current, wake_at },
                    ) && (forall|j: int| 0 <= j < pos ==> (#[trigger] old(self).sleep.view_entries()[j]).wake_at <= wake_at)
                        && (forall|j: int| pos <= j < old(self).sleep.len ==> (#[trigger] old(self).sleep.view_entries()[j]).wake_at > wake_at)
            }),
            final(self).wait == old(self).wait,
            final(self).processes == old(self).processes && final(self).count == old(self).count,
            final(self).idle == old(self).idle && final(self).ticks == old(self).ticks,
    {
        let span: u64 = if ticks == 0 {
            1
        } else {
            ticks as u64
        };
        let wake_at = self.ticks.wrapping_add(span);
        let ghost before = self.tasks@;
        let mut t = self.tasks[current.0];
        t.mark_sleeping(wake_at);
        proof {
            lemma_count_state_update(before, TaskState::Ready, MAX_TASKS as int, current.0 as int, t);
            lemma_occupied_update(before, MAX_TASKS as int, current.0 as int, t);
        }
        self.tasks.set(current.0, t);
        self.sleep.insert(current, wake_at);
        self.schedule_from_current(current, "sleep")
    }

    /// The block call of task `current` on `channel`: it waits on the
    /// channel, queued last in its bucket, and the next task is picked to
    /// run.
    pub fn block_current(&mut self, current: TaskId, channel: u32) -> (r: Option<TaskId>)
        requires
            old(self).wf(),
            current.0 < MAX_TASKS,
            old(self).tasks@[current.0 as int].state != TaskState::Ready,
            old(self).wait.bucket_entries(bucket(channel)).len() < MAX_TASKS,
        ensures
            final(self).wf(),
            switched(
                old(self).tasks@.update(current.0 as int, blocked(old(self).tasks@[current.0 as int], channel)),
                old(self).ready.levels(),
                old(self).ready.total_len,
                old(self).idle,
                old(self).ticks,
                old(self).switches,
                old(self).log,
                old(self).current,
                current,
                "block",
                *final(self),
                r,
            ),
            forall|b: int| 0 <= b < WAIT_QUEUE_COUNT ==> #[trigger] final(self).wait.bucket_entries(b) == if b == bucket(channel) {
                old(self).wait.bucket_entries(b).push(WaitEntry { channel, task: current })
            } else {
                old(self).wait.bucket_entries(b)
            },
            final(self).sleep == old(self).sleep,
            final(self).processes == old(self).processes && final(self).count == old(self).count,
            final(self).idle == old(self).idle && final(self).ticks == old(self).ticks,
    {
        let ghost before = self.tasks@;
        let mut t = self.tasks[current.0];
        t.mark_blocked(channel);
        proof {
            lemma_count_state_update(before, TaskState::Ready, MAX_TASKS as int, current.0 as int, t);
            lemma_occupied_update(before, MAX_TASKS as int, current.0 as int, t);
        }
        self.tasks.set(current.0, t);
        self.wait.sleep_on(channel, current);
        self.schedule_from_current(current, "block")
    }
}


/// What a scheduling call came to.
#[derive(Clone, Copy, PartialEq, Eq, Structural, Debug)]
pub enum KernelCall {
    /// The caller keeps running and gets `value` back.
    Return(u32),
    /// The caller gave up the processor with `value` as its result; `next`
    /// is the task picked to run.
    Switch { value: u32, next: Option<TaskId> },
    /// Not a scheduling call: it is answered elsewhere.
    Other,
}

/// Tasks `tasks` after task `c` exited with `code`, unless it had already.
pub open spec fn ended(tasks: Seq<TaskControlBlock>, c: int, code: i32) -> Seq<TaskControlBlock> {
    if tasks[c].state == TaskState::Zombie {
        tasks
    } else {
        tasks.update(c, exited(tasks[c], code))
    }
}

/// The base of the wait channels on which parents wait for their children.
pub const WAIT_CHANNEL_BASE: u32 = 0x8000_0000;

/// The channel on which the waits of process `parent` for its children
/// sleep.
pub open spec fn child_channel(parent: ProcessId) -> u32 {
    WAIT_CHANNEL_BASE | ((parent.0 as u32) & 0x7fff_ffff)
}

fn child_wait_channel(parent: ProcessId) -> (r: u32)
    ensures
        r == child_channel(parent),
{
    WAIT_CHANNEL_BASE | ((parent.0 as u32) & 0x7fff_ffff)
}

/// The status a wait answers for child `pid` that exited with `exit_code`:
/// the identifier above the low byte of the code.
pub open spec fn wait_status_of(pid: ProcessId, exit_code: i32) -> u32 {
    ((pid.0 as u32) << 8) | ((exit_code as u32) & 0xff)
}

fn wait_status(pid: ProcessId, exit_code: i32) -> (r: u32)
    ensures
        r == wait_status_of(pid, exit_code),
{
    ((pid.0 as u32) << 8) | ((exit_code as u32) & 0xff)
}

/// Task `t` waiting on `channel` for child `pid`.
pub open spec fn waiting_child(t: TaskControlBlock, channel: u32, pid: usize) -> TaskControlBlock {
    TaskControlBlock { wait_pid: pid, ..blocked(t, channel) }
}

/// Task `t` with `nr` noted as its last call.
pub open spec fn noted(t: TaskControlBlock, nr: u32) -> TaskControlBlock {
    TaskControlBlock { stats: TaskStats { last_syscall: nr, ..t.stats }, ..t }
}

/// What scheduling call `op` of the running task `current` with first
/// argument `arg0`, noted as call `note`, does to scheduler `o0`, giving `n`
/// and the answer `r`.
pub open spec fn call_outcome(
    o0: Scheduler,
    current: TaskId,
    op: u32,
    note: u32,
    arg0: u32,
    n: Scheduler,
    r: KernelCall,
) -> bool {
    let t = noted(o0.tasks@[current.0 as int], note);
    let tasks = o0.tasks@.update(current.0 as int, t);
    let levels = o0.ready.levels();
    let total = o0.ready.total_len;
    if op == SYS_YIELD {
        r matches KernelCall::Switch { value, next } && value == 0 && switched(
            tasks, levels, total, o0.idle, o0.ticks, o0.switches, o0.log, o0.current, current, "yield", n, next)
    } else if op == SYS_SLEEP {
        r matches KernelCall::Switch { value, next } && value == 0 && switched(
            tasks.update(current.0 as int, asleep(t, sleep_deadline(o0.ticks, arg0))),
            levels, total, o0.idle, o0.ticks, o0.switches, o0.log, o0.current, current, "sleep", n, next)
            && n.sleep.view_entries().len() == o0.sleep.view_entries().len() + 1
    } else if op == SYS_BLOCK {
        r matches KernelCall::Switch { value, next } && value == 0 && switched(
            tasks.update(current.0 as int, blocked(t, arg0)),
            levels, total, o0.idle, o0.ticks, o0.switches, o0.log, o0.current, current, "block", n, next)
            && n.wait.bucket_entries(bucket(arg0)) == o0.wait.bucket_entries(bucket(arg0)).push(
            WaitEntry { channel: arg0, task: current })
    } else if op == SYS_WAKE {
        r == KernelCall::Return(woken(o0.wait.bucket_entries(bucket(arg0)), arg0).len() as u32)
    } else if op == SYS_GETPID {
        r == KernelCall::Return(t.process_id.0 as u32) && n.tasks@ == tasks
    } else if op == SYS_GETPPID {
        r == KernelCall::Return(
            match o0.processes.slot(t.process_id) {
                Some(k) => o0.processes.entries@[k].parent.0 as u32,
                None => 0u32,
            },
        ) && n.tasks@ == tasks
    } else if op == SYS_WAIT {
        let requested = ProcessId(arg0 as usize);
        let p = t.process_id;
        let e = o0.processes.entries@;
        match reapable_from(e, p, requested, 0) {
            Some(k) => r == KernelCall::Return(wait_status_of(e[k].pid, e[k].exit_code)) && n.tasks@ == tasks,
            None => if exists|j: int| 0 <= j < MAX_PROCESSES && is_child(#[trigger] e[j], p, requested) {
                r matches KernelCall::Switch { value, next } && value == EAGAIN && switched(
                    tasks.update(current.0 as int, waiting_child(t, child_channel(p), arg0 as usize)),
                    levels, total, o0.idle, o0.ticks, o0.switches, o0.log, o0.current, current, "block", n, next)
                    && n.wait.bucket_entries(bucket(child_channel(p))) == o0.wait.bucket_entries(bucket(child_channel(p))).push(
                    WaitEntry { channel: child_channel(p), task: current })
            } else {
                r == KernelCall::Return(ECHILD) && n.tasks@ == tasks
            },
        }
    } else if op == SYS_EXIT {
        r matches KernelCall::Switch { value, next } && value == 0 && exists|l: KernelLog| #[trigger] switched(
            ended(tasks, current.0 as int, arg0 as i32),
            levels, total, o0.idle, o0.ticks, o0.switches, l, o0.current, current, "exit", n, next)
    } else {
        r == KernelCall::Other && n.tasks@ == tasks && n.ready == o0.ready
            && n.sleep == o0.sleep && n.wait == o0.wait && n.current == o0.current
    }
}

/// The kernel-interface call a Linux call number stands for among the
/// scheduling calls; `u32::MAX`, which is none, for the others.
pub open spec fn linux_op(nr: u32) -> u32 {
    if nr == LINUX_SYS_EXIT || nr == LINUX_SYS_EXIT_GROUP {
        SYS_EXIT
    } else if nr == LINUX_SYS_RESTART_SYSCALL || nr == LINUX_SYS_SCHED_YIELD {
        SYS_YIELD
    } else if nr == LINUX_SYS_GETPID {
        SYS_GETPID
    } else if nr == LINUX_SYS_GETPPID {
        SYS_GETPPID
    } else {
        u32::MAX
    }
}

/// The Linux calls answer as the calls of the kernel interface they stand
/// for: exit and exit_group as exit, sched_yield and restart_syscall as
/// yield, getpid and getppid as theirs; any other Linux number is no
/// scheduling call.
pub proof fn lemma_linux_calls_are_native(o: Scheduler, current: TaskId, nr: u32, note: u32, arg0: u32, n: Scheduler, r: KernelCall)
    ensures
        (nr == LINUX_SYS_EXIT || nr == LINUX_SYS_EXIT_GROUP) ==> (call_outcome(o, current, linux_op(nr), note, arg0, n, r)
            == call_outcome(o, current, SYS_EXIT, note, arg0, n, r)),
        (nr == LINUX_SYS_SCHED_YIELD || nr == LINUX_SYS_RESTART_SYSCALL) ==> (call_outcome(o, current, linux_op(nr), note, arg0, n, r)
            == call_outcome(o, current, SYS_YIELD, note, arg0, n, r)),
        nr == LINUX_SYS_GETPID ==> (call_outcome(o, current, linux_op(nr), note, arg0, n, r) == call_outcome(
            o, current, SYS_GETPID, note, arg0, n, r)),
        nr == LINUX_SYS_GETPPID ==> (call_outcome(o, current, linux_op(nr), note, arg0, n, r) == call_outcome(
            o, current, SYS_GETPPID, note, arg0, n, r)),
        !(nr == LINUX_SYS_EXIT || nr == LINUX_SYS_EXIT_GROUP || nr == LINUX_SYS_SCHED_YIELD || nr == LINUX_SYS_RESTART_SYSCALL
            || nr == LINUX_SYS_GETPID || nr == LINUX_SYS_GETPPID) ==> (call_outcome(o, current, linux_op(nr), note, arg0, n, r)
            ==> r == KernelCall::Other),
{
}

/// The getpid calls, native or Linux, answer the caller's process
/// identifier, and the getppid calls the parent the process table records
/// for that process (0 when it has none).
pub proof fn lemma_linux_identity_calls(o: Scheduler, current: TaskId, arg0: u32, n: Scheduler, r: KernelCall)
    ensures
        call_outcome(o, current, SYS_GETPID, SYS_GETPID, arg0, n, r) ==> r == KernelCall::Return(
            o.tasks@[current.0 as int].process_id.0 as u32,
        ),
        call_outcome(o, current, SYS_GETPPID, SYS_GETPPID, arg0, n, r) ==> r == KernelCall::Return(
            match o.processes.slot(o.tasks@[current.0 as int].process_id) {
                Some(k) => o.processes.entries@[k].parent.0 as u32,
                None => 0u32,
            },
        ),
        call_outcome(o, current, linux_op(LINUX_SYS_GETPID), LINUX_SYS_GETPID, arg0, n, r) ==> r == KernelCall::Return(
            o.tasks@[current.0 as int].process_id.0 as u32,
        ),
        call_outcome(o, current, linux_op(LINUX_SYS_GETPPID), LINUX_SYS_GETPPID, arg0, n, r) ==> r == KernelCall::Return(
            match o.processes.slot(o.tasks@[current.0 as int].process_id) {
                Some(k) => o.processes.entries@[k].parent.0 as u32,
                None => 0u32,
            },
        ),
{
}

fn linux_scheduling_op(nr: u32) -> (r: u32)
    ensures
        r == linux_op(nr),
{
    if nr == LINUX_SYS_EXIT || nr == LINUX_SYS_EXIT_GROUP {
        SYS_EXIT
    } else if nr == LINUX_SYS_RESTART_SYSCALL || nr == LINUX_SYS_SCHED_YIELD {
        SYS_YIELD
    } else if nr == LINUX_SYS_GETPID {
        SYS_GETPID
    } else if nr == LINUX_SYS_GETPPID {
        SYS_GETPPID
    } else {
        u32::MAX
    }
}

impl Scheduler {
    /// Scheduling call `op` of task `current`, noted as call `note`.
    fn scheduling_call(&mut self, current: TaskId, op: u32, note: u32, arg0: u32) -> (r: KernelCall)
        requires
            old(self).wf(),
            current.0 < MAX_TASKS,
            old(self).tasks@[current.0 as int].state != TaskState::Ready,
            op == SYS_SLEEP ==> old(self).sleep.len < MAX_TASKS,
            op == SYS_BLOCK ==> old(self).wait.bucket_entries(bucket(arg0)).len() < MAX_TASKS,
            op == SYS_WAIT ==> old(self).wait.bucket_entries(
                bucket(child_channel(old(self).tasks@[current.0 as int].process_id)),
            ).len() < MAX_TASKS,
        ensures
            final(self).wf(),
            call_outcome(*old(self), current, op, note, arg0, *final(self), r),
    {
        let ghost before = self.tasks@;
        let mut t = self.tasks[current.0];
        t.stats.last_syscall = note;
        proof {
            lemma_count_state_update(before, TaskState::Ready, MAX_TASKS as int, current.0 as int, t);
            lemma_occupied_update(before, MAX_TASKS as int, current.0 as int, t);
        }
        self.tasks.set(current.0, t);
        if op == SYS_YIELD {
            let next = self.schedule_from_current(current, "yield");
            KernelCall::Switch { value: 0, next }
        } else if op == SYS_SLEEP {
            let next = self.sleep_current(current, arg0);
            KernelCall::Switch { value: 0, next }
        } else if op == SYS_BLOCK {
            let next = self.block_current(current, arg0);
            KernelCall::Switch { value: 0, next }
        } else if op == SYS_WAKE {
            let count = self.wake_channel(arg0);
            KernelCall::Return(count as u32)
        } else if op == SYS_GETPID {
            KernelCall::Return(t.process_id.0 as u32)
        } else if op == SYS_GETPPID {
            let parent = self.processes.parent_of(t.process_id);
            KernelCall::Return(parent.0 as u32)
        } else if op == SYS_WAIT {
            let pid = t.process_id;
            match self.processes.take_zombie_child(pid, ProcessId::new(arg0 as usize)) {
                Ok((child, code)) => KernelCall::Return(wait_status(child, code)),
                Err(e) => {
                    if e == EAGAIN {
                        let channel = child_wait_channel(pid);
                        let ghost mid = self.tasks@;
                        let mut w = self.tasks[current.0];
                        w.mark_waiting_for_child(channel, arg0 as usize, 0, 0);
                        proof {
                            lemma_count_state_update(mid, TaskState::Ready, MAX_TASKS as int, current.0 as int, w);
                            lemma_occupied_update(mid, MAX_TASKS as int, current.0 as int, w);
                        }
                        self.tasks.set(current.0, w);
                        self.wait.sleep_on(channel, current);
                        let next = self.schedule_from_current(current, "block");
                        KernelCall::Switch { value: EAGAIN, next }
                    } else {
                        KernelCall::Return(e)
                    }
                },
            }
        } else if op == SYS_EXIT {
            self.exit_task(current, arg0 as i32);
            let ghost l = self.log;
            let next = self.schedule_from_current(current, "exit");
            proof {
                let tt = noted(old(self).tasks@[current.0 as int], note);
                let tasks = old(self).tasks@.update(current.0 as int, tt);
                assert(switched(
                    ended(tasks, current.0 as int, arg0 as i32),
                    old(self).ready.levels(), old(self).ready.total_len, old(self).idle, old(self).ticks, old(self).switches, l,
                    old(self).current, current, "exit", *self, next));
            }
            KernelCall::Switch { value: 0, next }
        } else {
            KernelCall::Other
        }
    }

    /// The scheduling calls of the kernel interface made by the running task
    /// `current`, call number `nr` with first argument `arg0`, after the
    /// call is noted as its last: yield, sleep, block and exit give up the
    /// processor with result 0, wake answers how many waits it ended, the
    /// identifier calls answer the caller's process and its parent, wait
    /// reaps a finished child and answers its status, or, while children
    /// are left, waits for one and gives up the processor with `EAGAIN`,
    /// else answers `ECHILD`; every other number is left to the caller.
    pub fn kernel_call(&mut self, current: TaskId, nr: u32, arg0: u32) -> (r: KernelCall)
        requires
            old(self).wf(),
            current.0 < MAX_TASKS,
            old(self).tasks@[current.0 as int].state != TaskState::Ready,
            nr == SYS_SLEEP ==> old(self).sleep.len < MAX_TASKS,
            nr == SYS_BLOCK ==> old(self).wait.bucket_entries(bucket(arg0)).len() < MAX_TASKS,
            nr == SYS_WAIT ==> old(self).wait.bucket_entries(
                bucket(child_channel(old(self).tasks@[current.0 as int].process_id)),
            ).len() < MAX_TASKS,
        ensures
            final(self).wf(),
            call_outcome(*old(self), current, nr, nr, arg0, *final(self), r),
    {
        self.scheduling_call(current, nr, nr, arg0)
    }

    /// The same calls made through the Linux interface, number `nr`: exit
    /// and exit_group end the task, sched_yield and restart_syscall yield,
    /// getpid and getppid answer the identifiers; every other number is left
    /// to the caller. The Linux number is noted as the last call.
    pub fn linux_call(&mut self, current: TaskId, nr: u32, arg0: u32) -> (r: KernelCall)
        requires
            old(self).wf(),
            current.0 < MAX_TASKS,
            old(self).tasks@[current.0 as int].state != TaskState::Ready,
        ensures
            final(self).wf(),
            call_outcome(*old(self), current, linux_op(nr), nr, arg0, *final(self), r),
    {
        let op = linux_scheduling_op(nr);
        self.scheduling_call(current, op, nr, arg0)
    }
}

/// A blocked task as waking leaves it: ready, waiting on nothing.
pub open spec fn woken_task(t: TaskControlBlock) -> TaskControlBlock {
    TaskControlBlock { state: TaskState::Ready, wait_channel: 0, wait_pid: 0, wait_user_buf: 0, wait_len: 0, ..t }
}

/// Slot `j` is among the first `k` tasks handed out.
pub open spec fn listed_in(ids: Seq<TaskId>, k: int, j: int) -> bool {
    exists|m: int| 0 <= m < k && (#[trigger] ids[m]).0 == j
}

/// How many entries of `e`, from `i` on, are due by `now` before the first
/// that is not.
pub open spec fn due_from(e: Seq<crate::kernel::sleep::SleepEntry>, now: u64, i: int) -> int
    decreases e.len() - i,
{
    if i < 0 || i >= e.len() || e[i].wake_at > now {
        i
    } else {
        due_from(e, now, i + 1)
    }
}

/// `t` woken from its sleep: ready, with no wake-up tick.
pub open spec fn slept_out(t: TaskControlBlock) -> TaskControlBlock {
    TaskControlBlock { state: TaskState::Ready, wake_at_tick: 0, ..t }
}

proof fn lemma_due_from_range(e: Seq<crate::kernel::sleep::SleepEntry>, now: u64, i: int)
    requires
        0 <= i <= e.len(),
    ensures
        i <= due_from(e, now, i) <= e.len(),
    decreases e.len() - i,
{
    if i < e.len() && e[i].wake_at <= now {
        lemma_due_from_range(e, now, i + 1);
    }
}

impl Scheduler {
    /// Wakes the sleepers whose tick has come: the entries at the front of
    /// the sleep queue that are due by now leave it, and each of their
    /// tasks that is still sleeping becomes ready, forgets its wake-up tick
    /// and is queued.
    pub fn wake_sleepers(&mut self)
        requires
            old(self).wf(),
        ensures
            final(self).wf(),
            ({
                let e = old(self).sleep.view_entries();
                let n = due_from(e, old(self).ticks, 0);
                let ids = Seq::new(n as nat, |i: int| e[i].task);
                &&& final(self).sleep.view_entries() == e.skip(n)
                &&& final(self).tasks@.len() == MAX_TASKS
                &&& forall|j: int| 0 <= j < MAX_TASKS ==> #[trigger] final(self).tasks@[j] == if listed_in(ids, n, j)
                    && old(self).tasks@[j].state == TaskState::Sleeping {
                    slept_out(old(self).tasks@[j])
                } else {
                    old(self).tasks@[j]
                }
            }),
            final(self).ready.total_len - old(self).ready.total_len == count_state(final(self).tasks@, TaskState::Ready, MAX_TASKS as int)
                - count_state(old(self).tasks@, TaskState::Ready, MAX_TASKS as int),
            final(self).count == old(self).count && final(self).current == old(self).current && final(self).idle == old(self).idle,
            final(self).ticks == old(self).ticks && final(self).processes == old(self).processes,
            final(self).log == old(self).log && final(self).wait == old(self).wait,
    {
        let ghost t0 = self.tasks@;
        let ghost r0 = self.ready.total_len;
        let ghost e0 = self.sleep.view_entries();
        let ghost mut popped: Seq<TaskId> = Seq::empty();
        proof {
            lemma_due_from_range(e0, self.ticks, 0);
        }
        loop
            invariant
                self.wf(),
                self.tasks@.len() == MAX_TASKS,
                t0.len() == MAX_TASKS,
                popped.len() <= e0.len(),
                self.sleep.view_entries() == e0.skip(popped.len() as int),
                forall|i: int| 0 <= i < popped.len() ==> #[trigger] popped[i] == e0[i].task && e0[i].wake_at <= self.ticks,
                due_from(e0, self.ticks, 0) == due_from(e0, self.ticks, popped.len() as int),
                forall|j: int| 0 <= j < MAX_TASKS ==> #[trigger] self.tasks@[j] == if listed_in(popped, popped.len() as int, j)
                    && t0[j].state == TaskState::Sleeping {
                    slept_out(t0[j])
                } else {
                    t0[j]
                },
                self.ready.total_len - r0 == count_state(self.tasks@, TaskState::Ready, MAX_TASKS as int)
                    - count_state(t0, TaskState::Ready, MAX_TASKS as int),
                self.count == old(self).count && self.current == old(self).current && self.idle == old(self).idle,
                self.ticks == old(self).ticks && self.processes == old(self).processes,
                self.log == old(self).log && self.wait == old(self).wait,
                t0 == old(self).tasks@ && r0 == old(self).ready.total_len && e0 == old(self).sleep.view_entries(),
            ensures
                self.wf(),
                self.tasks@.len() == MAX_TASKS,
                popped.len() == due_from(e0, self.ticks, 0),
                self.sleep.view_entries() == e0.skip(popped.len() as int),
                forall|i: int| 0 <= i < popped.len() ==> #[trigger] popped[i] == e0[i].task,
                forall|j: int| 0 <= j < MAX_TASKS ==> #[trigger] self.tasks@[j] == if listed_in(popped, popped.len() as int, j)
                    && t0[j].state == TaskState::Sleeping {
                    slept_out(t0[j])
                } else {
                    t0[j]
                },
                self.ready.total_len - r0 == count_state(self.tasks@, TaskState::Ready, MAX_TASKS as int)
                    - count_state(t0, TaskState::Ready, MAX_TASKS as int),
                self.count == old(self).count && self.current == old(self).current && self.idle == old(self).idle,
                self.ticks == old(self).ticks && self.processes == old(self).processes,
                self.log == old(self).log && self.wait == old(self).wait,
            decreases e0.len() - popped.len(),
        {
            let ghost k = popped.len() as int;
            let task = match self.sleep.pop_expired(self.ticks) {
                Some(t) => t,
                None => {
                    proof {
                        if k < e0.len() {
                            assert(self.sleep.view_entries()[0] == e0[k]);
                        }
                    }
                    break;
                },
            };
            proof {
                assert(old(self).sleep.view_entries().len() >= 0);
                assert(e0.skip(k)[0] == e0[k]);
                assert(e0.skip(k).drop_first() =~= e0.skip(k + 1));
                let p1 = popped.push(task);
                assert forall|j: int| 0 <= j < MAX_TASKS implies (listed_in(p1, k + 1, j) <==> (listed_in(popped, k, j) || task.0 == j)) by {
                    if listed_in(p1, k + 1, j) {
                        let m = choose|m: int| 0 <= m < k + 1 && (#[trigger] p1[m]).0 == j;
                        if m < k {
                            assert(popped[m] == p1[m]);
                        }
                    }
                    if listed_in(popped, k, j) {
                        let m = choose|m: int| 0 <= m < k && (#[trigger] popped[m]).0 == j;
                        assert(p1[m] == popped[m]);
                    }
                    if task.0 == j {
                        assert(p1[k] == task);
                    }
                }
                popped = p1;
            }
            if task.0 < MAX_TASKS && self.tasks[task.0].state == TaskState::Sleeping {
                let ghost before = self.tasks@;
                let mut t = self.tasks[task.0];
                t.state = TaskState::Ready;
                t.wake_at_tick = 0;
                proof {
                    lemma_count_state_update(before, TaskState::Ready, MAX_TASKS as int, task.0 as int, t);
                    lemma_occupied_update(before, MAX_TASKS as int, task.0 as int, t);
                    lemma_count_state_below(before, TaskState::Ready, MAX_TASKS as int, task.0 as int);
                    assert(!listed_in(popped, k, task.0 as int)) by {
                        if listed_in(popped, k, task.0 as int) {
                            assert(before[task.0 as int].state == TaskState::Ready);
                        }
                    }
                }
                let priority = t.priority;
                self.tasks.set(task.0, t);
                self.ready.push_back(task, priority);
            }
        }
        proof {
            assert(popped =~= Seq::new(popped.len(), |i: int| e0[i].task));
        }
    }
}

/// The number of tasks queued over the four priority levels.
pub open spec fn level_total(levels: Seq<Seq<TaskId>>) -> nat {
    levels[0].len() + levels[1].len() + levels[2].len() + levels[3].len()
}

pub proof fn lemma_top_level(levels: Seq<Seq<TaskId>>, p: int)
    ensures
        top_level_below(levels, p) matches Some(t) ==> 0 <= t < p && levels[t].len() > 0,
        top_level_below(levels, p) is None ==> forall|q: int| 0 <= q < p ==> #[trigger] levels[q].len() == 0,
    decreases p,
{
    if p > 0 {
        lemma_top_level(levels, p - 1);
    }
}

/// Taking tasks from the front of the ready levels `levels`, highest
/// priority first, until one whose slot in `tasks` is ready: that task, if
/// any, and the levels left behind.
pub open spec fn pick_from(levels: Seq<Seq<TaskId>>, tasks: Seq<TaskControlBlock>) -> (Option<TaskId>, Seq<Seq<TaskId>>)
    decreases level_total(levels),
{
    if levels.len() != PRIORITY_LEVELS {
        (None, levels)
    } else {
        match top_level_below(levels, PRIORITY_LEVELS as int) {
            None => (None, levels),
            Some(top) => {
                proof {
                    lemma_top_level(levels, PRIORITY_LEVELS as int);
                }
                let t = levels[top][0];
                let rest = levels.update(top, levels[top].drop_first());
                if t.0 < tasks.len() && tasks[t.0 as int].state == TaskState::Ready {
                    (Some(t), rest)
                } else {
                    pick_from(rest, tasks)
                }
            },
        }
    }
}

/// Picking never adds to the levels, and takes at least the task it picks;
/// when it finds none, every level is left empty.
pub proof fn lemma_pick_total(levels: Seq<Seq<TaskId>>, tasks: Seq<TaskControlBlock>)
    requires
        levels.len() == PRIORITY_LEVELS,
    ensures
        pick_from(levels, tasks).1.len() == PRIORITY_LEVELS,
        pick_from(levels, tasks).0 is Some ==> level_total(pick_from(levels, tasks).1) < level_total(levels),
        pick_from(levels, tasks).0 is None ==> level_total(pick_from(levels, tasks).1) == 0,
        pick_from(levels, tasks).0 matches Some(t) ==> t.0 < tasks.len() && tasks[t.0 as int].state == TaskState::Ready,
    decreases level_total(levels),
{
    lemma_top_level(levels, PRIORITY_LEVELS as int);
    match top_level_below(levels, PRIORITY_LEVELS as int) {
        None => {},
        Some(top) => {
            let rest = levels.update(top, levels[top].drop_first());
            lemma_pick_total(rest, tasks);
        },
    }
}

/// `t` once it is chosen to run at `tick`.
pub open spec fn scheduled(t: TaskControlBlock, tick: u64) -> TaskControlBlock {
    TaskControlBlock {
        state: TaskState::Running,
        remaining_ticks: t.time_slice_ticks,
        wait_channel: 0,
        wait_pid: 0,
        wait_user_buf: 0,
        wait_len: 0,
        stats: TaskStats { scheduled_count: wrap_inc(t.stats.scheduled_count), last_scheduled_at: tick, ..t.stats },
        ..t
    }
}

/// The tasks once `current` has stepped aside: the idle task when other
/// tasks wait, or a running task, becomes ready.
pub open spec fn stepped_aside(tasks: Seq<TaskControlBlock>, current: TaskId, idle: Option<TaskId>, waiting: bool) -> Seq<TaskControlBlock> {
    let c = tasks[current.0 as int];
    if (idle == Some(current) && waiting) || c.state == TaskState::Running {
        tasks.update(current.0 as int, TaskControlBlock { state: TaskState::Ready, ..c })
    } else {
        tasks
    }
}

/// The ready levels once `current` has stepped aside: a running task that
/// is not the idle task parked while others wait goes to the back of its
/// level.
pub open spec fn requeued(levels: Seq<Seq<TaskId>>, tasks: Seq<TaskControlBlock>, current: TaskId, idle: Option<TaskId>, waiting: bool) -> Seq<Seq<TaskId>> {
    let c = tasks[current.0 as int];
    if !(idle == Some(current) && waiting) && c.state == TaskState::Running {
        let p = level_of(c.priority);
        levels.update(p, levels[p].push(current))
    } else {
        levels
    }
}

impl Scheduler {
    /// The task to run next: the first ready task taken from the front of
    /// the ready queue, highest priority first, passing over queued tasks
    /// that are no longer ready; else the idle task when it is ready; else
    /// none.
    pub fn pick_next(&mut self) -> (r: Option<TaskId>)
        requires
            old(self).wf(),
        ensures
            final(self).wf(),
            final(self).ready.levels() == pick_from(old(self).ready.levels(), old(self).tasks@).1,
            r == match pick_from(old(self).ready.levels(), old(self).tasks@).0 {
                Some(t) => Some(t),
                None => match old(self).idle {
                    Some(i) => if old(self).tasks@[i.0 as int].state == TaskState::Ready { Some(i) } else { None },
                    None => None,
                },
            },
            final(self).tasks == old(self).tasks && final(self).sleep == old(self).sleep && final(self).wait == old(self).wait,
            final(self).processes == old(self).processes && final(self).log == old(self).log,
            final(self).count == old(self).count && final(self).current == old(self).current && final(self).idle == old(self).idle,
            final(self).ticks == old(self).ticks && final(self).switches == old(self).switches,
    {
        loop
            invariant
                self.wf(),
                pick_from(old(self).ready.levels(), old(self).tasks@) == pick_from(self.ready.levels(), self.tasks@),
                self.tasks == old(self).tasks && self.sleep == old(self).sleep && self.wait == old(self).wait,
                self.processes == old(self).processes && self.log == old(self).log,
                self.count == old(self).count && self.current == old(self).current && self.idle == old(self).idle,
                self.ticks == old(self).ticks && self.switches == old(self).switches,
            ensures
                self.wf(),
                pick_from(old(self).ready.levels(), old(self).tasks@) == (None::<TaskId>, self.ready.levels()),
                self.tasks == old(self).tasks && self.sleep == old(self).sleep && self.wait == old(self).wait,
                self.processes == old(self).processes && self.log == old(self).log,
                self.count == old(self).count && self.current == old(self).current && self.idle == old(self).idle,
                self.ticks == old(self).ticks && self.switches == old(self).switches,
            decreases level_total(self.ready.levels()),
        {
            let ghost before = self.ready;
            let ghost lv = before.levels();
            proof {
                lemma_top_level(lv, PRIORITY_LEVELS as int);
            }
            let candidate = self.ready.pop_front();
            proof {
                match top_level_below(lv, PRIORITY_LEVELS as int) {
                    None => {
                        assert(self.ready.levels() =~= lv);
                    },
                    Some(top) => {
                        assert(self.ready.levels() =~= lv.update(top, lv[top].drop_first()));
                    },
                }
            }
            match candidate {
                Some(c) => {
                    if c.0 < MAX_TASKS && self.tasks[c.0].state == TaskState::Ready {
                        return Some(c);
                    }
                },
                None => {
                    break;
                },
            }
        }
        match self.idle {
            Some(i) => {
                if self.tasks[i.0].state == TaskState::Ready {
                    Some(i)
                } else {
                    None
                }
            },
            None => None,
        }
    }
}

/// What switching away from `current` does, from tasks `t0`, ready levels
/// `l0` holding `total0` tasks, the idle task `idle`, the tick, switch
/// count, log and current task `cur0`, to the scheduler `n` with result
/// `r`: `current` steps aside, the next task is picked and marked running,
/// and a change of task is counted and logged.
pub open spec fn switched(
    t0: Seq<TaskControlBlock>,
    l0: Seq<Seq<TaskId>>,
    total0: usize,
    idle: Option<TaskId>,
    ticks: u64,
    switches0: u64,
    log0: KernelLog,
    cur0: Option<TaskId>,
    current: TaskId,
    reason: &'static str,
    n: Scheduler,
    r: Option<TaskId>,
) -> bool {
    let waiting = total0 != 0;
    let tasks1 = stepped_aside(t0, current, idle, waiting);
    let levels1 = requeued(l0, t0, current, idle, waiting);
    let picked = pick_from(levels1, tasks1);
    let next = match picked.0 {
        Some(t) => Some(t),
        None => match idle {
            Some(i) => if tasks1[i.0 as int].state == TaskState::Ready { Some(i) } else { None },
            None => None,
        },
    };
    &&& r == next
    &&& n.ready.levels() == picked.1
    &&& match next {
        Some(x) => {
            &&& n.current == Some(x)
            &&& n.tasks@ == tasks1.update(x.0 as int, scheduled(tasks1[x.0 as int], ticks))
            &&& n.switches == if x != current { switches0.wrapping_add(1) } else { switches0 }
            &&& x != current ==> n.log.events().last() == (LogEvent::Schedule {
                tick: ticks,
                reason,
                from: tasks1[current.0 as int].name,
                to: tasks1[x.0 as int].name,
                ready: n.ready.total_len,
                switches: n.switches,
            })
            &&& x == current ==> n.log == log0
        },
        None => n.tasks@ == tasks1 && n.current == cur0 && n.switches == switches0 && n.log == log0,
    }
}

/// What a timer tick asks of the caller once the scheduler has taken it.
#[derive(Clone, Copy, PartialEq, Eq, Structural, Debug)]
pub enum TickAction {
    /// Go on running what was interrupted.
    Resume,
    /// Run the named task next.
    Run(TaskId),
    /// Nothing can run.
    Halt,
}

impl Scheduler {
    /// Switches away from `current`: it steps aside (a running task goes to
    /// the back of its ready level; the idle task is set ready while others
    /// wait), then the next task is picked and marked running at this tick.
    /// The switch count grows when the task changes, and the change is
    /// logged with `reason`. `None` when nothing can run.
    pub fn schedule_from_current(&mut self, current: TaskId, reason: &'static str) -> (r: Option<TaskId>)
        requires
            old(self).wf(),
            current.0 < MAX_TASKS,
            old(self).tasks@[current.0 as int].state != TaskState::Ready,
        ensures
            final(self).wf(),
            switched(old(self).tasks@, old(self).ready.levels(), old(self).ready.total_len, old(self).idle, old(self).ticks, old(self).switches, old(self).log, old(self).current, current, reason, *final(self), r),
            final(self).sleep == old(self).sleep && final(self).wait == old(self).wait,
            final(self).processes == old(self).processes && final(self).count == old(self).count,
            final(self).idle == old(self).idle && final(self).ticks == old(self).ticks,
    {
        let ghost t0 = self.tasks@;
        let ghost l0 = self.ready.levels();
        let waiting = !self.ready.is_empty();
        let c = self.tasks[current.0];
        let is_idle = match self.idle {
            Some(i) => i.0 == current.0,
            None => false,
        };
        if is_idle && waiting {
            let mut t = c;
            t.state = TaskState::Ready;
            proof {
                lemma_count_state_update(t0, TaskState::Ready, MAX_TASKS as int, current.0 as int, t);
                lemma_occupied_update(t0, MAX_TASKS as int, current.0 as int, t);
            }
            self.tasks.set(current.0, t);
        } else if c.state == TaskState::Running {
            let mut t = c;
            t.state = TaskState::Ready;
            proof {
                lemma_count_state_update(t0, TaskState::Ready, MAX_TASKS as int, current.0 as int, t);
                lemma_occupied_update(t0, MAX_TASKS as int, current.0 as int, t);
                lemma_count_state_below(t0, TaskState::Ready, MAX_TASKS as int, current.0 as int);
            }
            self.tasks.set(current.0, t);
            let ghost rq = self.ready;
            self.ready.push_back(current, c.priority);
            proof {
                assert(self.ready.levels() =~= rq.levels().update(level_of(c.priority), rq.levels()[level_of(c.priority)].push(current)));
            }
        }
        proof {
            assert(is_idle <==> old(self).idle == Some(current));
            assert(self.tasks@ == stepped_aside(t0, current, old(self).idle, waiting));
            assert(self.ready.levels() == requeued(l0, t0, current, old(self).idle, waiting));
            lemma_pick_total(self.ready.levels(), self.tasks@);
        }
        let ghost tasks1 = self.tasks@;
        let ghost count1 = count_state(tasks1, TaskState::Ready, MAX_TASKS as int);
        let next = match self.pick_next() {
            Some(n) => n,
            None => {
                return None;
            },
        };
        let previous = current;
        self.current = Some(next);
        if previous.0 != next.0 {
            self.switches = self.switches.wrapping_add(1);
        }
        let ghost before = self.tasks@;
        let mut t = self.tasks[next.0];
        t.mark_scheduled(self.ticks);
        proof {
            lemma_count_state_update(before, TaskState::Ready, MAX_TASKS as int, next.0 as int, t);
            lemma_occupied_update(before, MAX_TASKS as int, next.0 as int, t);
        }
        self.tasks.set(next.0, t);
        if previous.0 != next.0 {
            let event = LogEvent::Schedule {
                tick: self.ticks,
                reason,
                from: self.tasks[previous.0].name,
                to: self.tasks[next.0].name,
                ready: self.ready.len(),
                switches: self.switches,
            };
            self.log.push(event);
        }
        Some(next)
    }
}

impl Scheduler {
    /// Decides what a timer tick does once sleepers are woken: nothing when
    /// no task is current; a switch when the current task no longer runs;
    /// else the current task's stack pointer `saved_sp` is kept and the tick
    /// counted against its time slice, and it goes on while the slice
    /// lasts, with a switch once it is used up.
    pub fn preempt_step(&mut self, saved_sp: usize) -> (r: TickAction)
        requires
            old(self).wf(),
            old(self).current matches Some(c) ==> old(self).tasks@[c.0 as int].state != TaskState::Ready,
        ensures
            final(self).wf(),
            final(self).sleep == old(self).sleep && final(self).wait == old(self).wait,
            final(self).processes == old(self).processes && final(self).count == old(self).count,
            final(self).idle == old(self).idle && final(self).ticks == old(self).ticks,
            match old(self).current {
                None => r == TickAction::Resume && final(self).tasks == old(self).tasks && final(self).ready == old(self).ready
                    && final(self).current == old(self).current && final(self).log == old(self).log
                    && final(self).switches == old(self).switches,
                Some(c) => {
                    let t = old(self).tasks@[c.0 as int];
                    let ticked = TaskControlBlock {
                        context: TaskContext { sp: saved_sp },
                        remaining_ticks: if t.remaining_ticks == 0 { 0 } else { (t.remaining_ticks - 1) as u32 },
                        stats: TaskStats { runtime_ticks: wrap_inc(t.stats.runtime_ticks), ..t.stats },
                        ..t
                    };
                    let t1 = if t.state == TaskState::Running { old(self).tasks@.update(c.0 as int, ticked) } else { old(self).tasks@ };
                    if t.state == TaskState::Running && ticked.remaining_ticks > 0 {
                        r == TickAction::Resume && final(self).tasks@ == t1 && final(self).ready == old(self).ready
                            && final(self).current == old(self).current && final(self).log == old(self).log
                            && final(self).switches == old(self).switches
                    } else {
                        r != TickAction::Resume && switched(
                            t1,
                            old(self).ready.levels(),
                            old(self).ready.total_len,
                            old(self).idle,
                            old(self).ticks,
                            old(self).switches,
                            old(self).log,
                            old(self).current,
                            c,
                            if t.state == TaskState::Running { "tick" } else { "exit" },
                            *final(self),
                            match r {
                                TickAction::Run(n) => Some(n),
                                _ => None,
                            },
                        )
                    }
                },
            },
    {
        let current = match self.current {
            Some(c) => c,
            None => {
                return TickAction::Resume;
            },
        };
        let reason;
        if self.tasks[current.0].state != TaskState::Running {
            reason = "exit";
        } else {
            let ghost before = self.tasks@;
            let mut t = self.tasks[current.0];
            t.context = TaskContext { sp: saved_sp };
            t.account_tick();
            proof {
                lemma_count_state_update(before, TaskState::Ready, MAX_TASKS as int, current.0 as int, t);
                lemma_occupied_update(before, MAX_TASKS as int, current.0 as int, t);
            }
            let remaining = t.remaining_ticks;
            self.tasks.set(current.0, t);
            if remaining > 0 {
                return TickAction::Resume;
            }
            reason = "tick";
        }
        let next = self.schedule_from_current(current, reason);
        match next {
            Some(n) => TickAction::Run(n),
            None => TickAction::Halt,
        }
    }
}

/// `t` once it has exited with `exit_code`.
pub open spec fn exited(t: TaskControlBlock, exit_code: i32) -> TaskControlBlock {
    TaskControlBlock { state: TaskState::Zombie, remaining_ticks: 0, stats: TaskStats { exit_code, ..t.stats }, ..t }
}

impl Scheduler {
    /// Ends task `task_id` with `exit_code`, unless it already ended: it
    /// becomes a zombie, its process becomes a zombie with that code, the
    /// process's children pass to the init process (or to nobody), and the
    /// exit is logged.
    pub fn exit_task(&mut self, task_id: TaskId, exit_code: i32)
        requires
            old(self).wf(),
            task_id.0 < MAX_TASKS,
            old(self).tasks@[task_id.0 as int].state != TaskState::Ready,
        ensures
            final(self).wf(),
            final(self).ready == old(self).ready && final(self).sleep == old(self).sleep && final(self).wait == old(self).wait,
            final(self).current == old(self).current && final(self).idle == old(self).idle && final(self).count == old(self).count,
            final(self).ticks == old(self).ticks && final(self).switches == old(self).switches,
            ({
                let t = old(self).tasks@[task_id.0 as int];
                if t.state == TaskState::Zombie {
                    final(self).tasks == old(self).tasks && final(self).processes == old(self).processes
                        && final(self).log == old(self).log
                } else {
                    &&& final(self).tasks@ == old(self).tasks@.update(task_id.0 as int, exited(t, exit_code))
                    &&& final(self).log.events().last() == (LogEvent::TaskExit { tick: old(self).ticks, name: t.name, pid: t.pid })
                    &&& final(self).processes.init_pid == old(self).processes.init_pid
                    &&& (t.process_id != old(self).processes.init_pid && t.process_id.0 != 0 ==> no_child_of(
                        final(self).processes.entries@,
                        t.process_id,
                    ))
                }
            }),
    {
        if self.tasks[task_id.0].state == TaskState::Zombie {
            return;
        }
        let ghost before = self.tasks@;
        let mut t = self.tasks[task_id.0];
        t.mark_zombie(exit_code);
        proof {
            lemma_count_state_update(before, TaskState::Ready, MAX_TASKS as int, task_id.0 as int, t);
            lemma_occupied_update(before, MAX_TASKS as int, task_id.0 as int, t);
        }
        let name = t.name;
        let pid = t.pid;
        let process_id = t.process_id;
        self.tasks.set(task_id.0, t);
        self.processes.mark_zombie(process_id, exit_code);
        self.processes.orphan_children_of(process_id);
        self.log.push(LogEvent::TaskExit { tick: self.ticks, name, pid });
    }
}

/// The thread a fork of user task `p` starts as, in slot `id` of process
/// `pid` with thread number `tid`, on the kernel stack at `kernel_stack`
/// resuming from `context`, with the stacks of `space`.
pub open spec fn forked_task(p: TaskControlBlock, id: TaskId, pid: ProcessId, tid: ThreadId, space: AddressSpace, kernel_stack: usize, context: TaskContext) -> TaskControlBlock {
    TaskControlBlock {
        id,
        process_id: pid,
        thread_id: tid,
        pid: pid.0,
        name: p.name,
        mode: ThreadMode::User,
        context,
        state: TaskState::Ready,
        priority: p.priority,
        time_slice_ticks: if p.time_slice_ticks == 0 { 1 } else { p.time_slice_ticks },
        remaining_ticks: if p.time_slice_ticks == 0 { 1 } else { p.time_slice_ticks },
        wake_at_tick: 0,
        wait_channel: 0,
        wait_pid: 0,
        wait_user_buf: 0,
        wait_len: 0,
        kernel_stack_start: kernel_stack,
        kernel_stack_pages: crate::kernel::task::TASK_STACK_PAGES,
        user_stack_phys: 0,
        user_stack_pages: 0,
        user_stack_bottom: space.stack_bottom.0,
        user_stack_top: space.stack_top.0,
        user_entry: p.user_entry,
        user_tls: p.user_tls,
        stats: TaskStats::new_spec(),
    }
}

impl Scheduler {
    /// Forks user task `parent`: its process is copied into a new process
    /// with the address space `space`, and a new ready thread of that
    /// process takes the first empty task slot, running on the kernel stack
    /// at `kernel_stack` from `context`. `EINVAL` for a kernel thread or a
    /// task without a process; `ENOMEM` when the process or task table is
    /// full, the new process then being released again.
    pub fn fork_task(&mut self, parent: TaskId, space: AddressSpace, kernel_stack: usize, context: TaskContext) -> (r: Result<(TaskId, ProcessId), u32>)
        requires
            old(self).wf(),
            parent.0 < MAX_TASKS,
            space.wf(),
        ensures
            final(self).wf(),
            ({
                let p = old(self).tasks@[parent.0 as int];
                if p.mode != ThreadMode::User {
                    r == Err::<(TaskId, ProcessId), u32>(EINVAL) && final(self).tasks == old(self).tasks
                        && final(self).processes == old(self).processes && final(self).ready == old(self).ready
                } else if old(self).processes.slot(p.process_id) is None {
                    r == Err::<(TaskId, ProcessId), u32>(EINVAL) && final(self).tasks == old(self).tasks
                        && final(self).ready == old(self).ready
                } else if old(self).processes.free_slot() is None {
                    r == Err::<(TaskId, ProcessId), u32>(ENOMEM) && final(self).tasks == old(self).tasks
                        && final(self).ready == old(self).ready
                } else if empty_task_from(old(self).tasks@, 0) is None {
                    r == Err::<(TaskId, ProcessId), u32>(ENOMEM) && final(self).tasks == old(self).tasks
                        && final(self).ready == old(self).ready
                } else {
                    let id = TaskId(empty_task_from(old(self).tasks@, 0)->Some_0 as usize);
                    let pid = ProcessId(old(self).processes.next_pid);
                    &&& r == Ok::<(TaskId, ProcessId), u32>((id, pid))
                    &&& final(self).tasks@ == old(self).tasks@.update(
                        id.0 as int,
                        forked_task(p, id, pid, ThreadId(old(self).next_tid), space, kernel_stack, context),
                    )
                    &&& final(self).ready.levels() == old(self).ready.levels().update(
                        level_of(p.priority),
                        old(self).ready.levels()[level_of(p.priority)].push(id),
                    )
                    &&& final(self).count == old(self).count + 1
                    &&& final(self).next_tid == tid_after(old(self).next_tid)
                }
            }),
            final(self).sleep == old(self).sleep && final(self).wait == old(self).wait,
            final(self).current == old(self).current && final(self).idle == old(self).idle,
            final(self).ticks == old(self).ticks && final(self).switches == old(self).switches,
    {
        let p = self.tasks[parent.0];
        if !p.mode.is_user() {
            return Err(EINVAL);
        }
        let stack_bottom = space.stack_bottom.0;
        let stack_top = space.stack_top.0;
        let child_pid = match self.processes.try_fork_from(p.process_id, space) {
            Ok(pid) => pid,
            Err(e) => {
                return Err(e);
            },
        };
        proof {
            lemma_empty_task_range(self.tasks@, 0);
        }
        let id = match self.alloc_task_slot() {
            Some(id) => id,
            None => {
                self.processes.release(child_pid);
                return Err(ENOMEM);
            },
        };
        let thread_id = self.alloc_thread_id();
        let mut task = TaskControlBlock::new_user(
            id,
            child_pid,
            thread_id,
            p.name,
            p.user_entry,
            0,
            0,
            stack_bottom,
            stack_top,
            kernel_stack,
            context,
            p.priority,
            p.time_slice_ticks,
        );
        task.user_tls = p.user_tls;
        let ghost before = self.tasks@;
        proof {
            lemma_count_state_update(before, TaskState::Ready, MAX_TASKS as int, id.0 as int, task);
            lemma_occupied_update(before, MAX_TASKS as int, id.0 as int, task);
            lemma_occupied_bound(before.update(id.0 as int, task), MAX_TASKS as int);
            lemma_count_state_bound(before.update(id.0 as int, task), TaskState::Ready, MAX_TASKS as int);
            assert(task == forked_task(p, id, child_pid, thread_id, space, kernel_stack, context));
        }
        self.tasks.set(id.0, task);
        self.processes.set_main_thread(child_pid, thread_id);
        let ghost rq = self.ready;
        self.ready.push_back(id, p.priority);
        proof {
            assert(self.ready.levels() =~= rq.levels().update(level_of(p.priority), rq.levels()[level_of(p.priority)].push(id)));
        }
        self.count = self.count + 1;
        Ok((id, child_pid))
    }
}

impl Scheduler {
    pub fn spawn(&mut self, name: &'static str, stack: usize, context: TaskContext, root: PhysAddr) -> (r: TaskId)
        requires
            old(self).wf(),
            empty_task_from(old(self).tasks@, 0) is Some,
            old(self).processes.free_slot() is Some,
        ensures
            final(self).wf(),
            r.0 == empty_task_from(old(self).tasks@, 0)->Some_0,
            final(self).tasks@[r.0 as int].state == TaskState::Ready,
            final(self).tasks@[r.0 as int].name == name,
            final(self).tasks@[r.0 as int].priority == 0,
            final(self).tasks@[r.0 as int].time_slice_ticks == DEFAULT_TIME_SLICE_TICKS,
            forall|j: int| 0 <= j < MAX_TASKS && j != r.0 ==> #[trigger] final(self).tasks@[j] == old(self).tasks@[j],
            final(self).count == old(self).count + 1,
            final(self).tasks@[r.0 as int].kernel_stack_start == stack && final(self).tasks@[r.0 as int].context == context,
            final(self).tasks@[r.0 as int].pid == old(self).processes.next_pid,
            final(self).tasks@[r.0 as int].thread_id.0 == old(self).next_tid,
            final(self).next_tid == tid_after(old(self).next_tid),
            name.spec_bytes() == idle_name() ==> final(self).idle == Some(r) && final(self).ready.total_len == old(self).ready.total_len,
            name.spec_bytes() != idle_name() ==> final(self).idle == old(self).idle && final(self).ready.total_len == old(self).ready.total_len + 1
                && final(self).ready.levels() == old(self).ready.levels().update(level_of(0), old(self).ready.levels()[level_of(0)].push(r)),
            ({
                let p = final(self).processes.entries@[old(self).processes.free_slot()->0];
                &&& p.pid.0 == old(self).processes.next_pid && p.state == ProcessState::Alive
                &&& p.address_space.kind == AddressSpaceKind::Kernel && p.address_space.page_table_root == root
            }),
    {
        self.spawn_with_options(name, stack, context, root, 0, DEFAULT_TIME_SLICE_TICKS)
    }

    /// Wakes every task waiting on `channel`: each that is still blocked
    /// becomes ready, waits on nothing, and is queued. Returns how many
    /// waits ended, and logs the wake when there were any.
    pub fn wake_channel(&mut self, channel: u32) -> (r: usize)
        requires
            old(self).wf(),
        ensures
            final(self).wf(),
            ({
                let ids = woken(old(self).wait.bucket_entries(bucket(channel)), channel);
                &&& r == ids.len()
                &&& final(self).tasks@.len() == MAX_TASKS
                &&& forall|j: int| 0 <= j < MAX_TASKS ==> #[trigger] final(self).tasks@[j] == if listed_in(ids, ids.len() as int, j)
                    && old(self).tasks@[j].state == TaskState::Blocked {
                    woken_task(old(self).tasks@[j])
                } else {
                    old(self).tasks@[j]
                }
            }),
            final(self).ready.total_len - old(self).ready.total_len == count_state(final(self).tasks@, TaskState::Ready, MAX_TASKS as int)
                - count_state(old(self).tasks@, TaskState::Ready, MAX_TASKS as int),
            r == 0 ==> final(self).log.events() == old(self).log.events(),
            r != 0 ==> final(self).log.events().last() == (LogEvent::Wake { tick: old(self).ticks, channel, count: r }),
            final(self).count == old(self).count && final(self).current == old(self).current && final(self).idle == old(self).idle,
            final(self).ticks == old(self).ticks && final(self).processes == old(self).processes,
    {
        let ghost t0 = self.tasks@;
        let ghost r0 = self.ready.total_len;
        let ids = self.wait.wake_all(channel);
        let count = ids.len();
        let mut k: usize = 0;
        while k < ids.len()
            invariant
                self.wf(),
                k <= ids@.len(),
                self.tasks@.len() == MAX_TASKS,
                t0.len() == MAX_TASKS,
                forall|j: int| 0 <= j < MAX_TASKS ==> #[trigger] self.tasks@[j] == if listed_in(ids@, k as int, j)
                    && t0[j].state == TaskState::Blocked {
                    woken_task(t0[j])
                } else {
                    t0[j]
                },
                self.ready.total_len - r0 == count_state(self.tasks@, TaskState::Ready, MAX_TASKS as int)
                    - count_state(t0, TaskState::Ready, MAX_TASKS as int),
                self.count == old(self).count && self.current == old(self).current && self.idle == old(self).idle,
                self.ticks == old(self).ticks && self.processes == old(self).processes,
                self.log == old(self).log,
            decreases ids@.len() - k,
        {
            let task = ids[k];
            if task.0 < MAX_TASKS && self.tasks[task.0].state == TaskState::Blocked {
                let ghost before = self.tasks@;
                let mut t = self.tasks[task.0];
                t.state = TaskState::Ready;
                t.wait_channel = 0;
                t.wait_pid = 0;
                t.wait_user_buf = 0;
                t.wait_len = 0;
                proof {
                    lemma_count_state_update(before, TaskState::Ready, MAX_TASKS as int, task.0 as int, t);
                    lemma_occupied_update(before, MAX_TASKS as int, task.0 as int, t);
                    lemma_count_state_below(before, TaskState::Ready, MAX_TASKS as int, task.0 as int);
                    assert(!listed_in(ids@, k as int, task.0 as int)) by {
                        if listed_in(ids@, k as int, task.0 as int) {
                            assert(before[task.0 as int].state == TaskState::Ready);
                        }
                    }
                }
                let priority = t.priority;
                self.tasks.set(task.0, t);
                self.ready.push_back(task, priority);
                proof {
                    assert forall|j: int| 0 <= j < MAX_TASKS implies #[trigger] self.tasks@[j] == if listed_in(ids@, k + 1, j)
                        && t0[j].state == TaskState::Blocked {
                        woken_task(t0[j])
                    } else {
                        t0[j]
                    } by {
                        if j == task.0 {
                            assert(ids@[k as int].0 == j);
                            assert(listed_in(ids@, k + 1, j));
                        } else {
                            if listed_in(ids@, k + 1, j) {
                                let m = choose|m: int| 0 <= m < k + 1 && (#[trigger] ids@[m]).0 == j;
                                assert(m != k);
                                assert(listed_in(ids@, k as int, j));
                            }
                            if listed_in(ids@, k as int, j) {
                                let m = choose|m: int| 0 <= m < k && (#[trigger] ids@[m]).0 == j;
                                assert(listed_in(ids@, k + 1, j));
                            }
                        }
                    }
                }
            } else {
                proof {
                    assert forall|j: int| 0 <= j < MAX_TASKS implies #[trigger] self.tasks@[j] == if listed_in(ids@, k + 1, j)
                        && t0[j].state == TaskState::Blocked {
                        woken_task(t0[j])
                    } else {
                        t0[j]
                    } by {
                        if listed_in(ids@, k + 1, j) && !listed_in(ids@, k as int, j) {
                            let m = choose|m: int| 0 <= m < k + 1 && (#[trigger] ids@[m]).0 == j;
                            assert(m == k);
                            assert(task.0 == j);
                        }
                        if listed_in(ids@, k as int, j) {
                            let m = choose|m: int| 0 <= m < k && (#[trigger] ids@[m]).0 == j;
                            assert(listed_in(ids@, k + 1, j));
                        }
                    }
                }
            }
            k += 1;
        }
        if count != 0 {
            self.log.push(LogEvent::Wake { tick: self.ticks, channel, count });
        }
        count
    }

    /// Empties the event log: the events it held, oldest first, and how
    /// many were pushed out since the last flush.
    pub fn flush_logs(&mut self) -> (r: (Vec<LogEvent>, u64))
        requires
            old(self).wf(),
        ensures
            final(self).wf(),
            r.0@ == old(self).log.events(),
            final(self).log.events().len() == 0,
            final(self).tasks == old(self).tasks && final(self).ready == old(self).ready,
    {
        self.log.flush()
    }

    /// The last sixteen events, oldest first.
    pub fn dump_recent_logs(&self) -> (r: Vec<LogEvent>)
        requires
            self.wf(),
        ensures
            r@ == if self.log.events().len() > 16 {
                self.log.events().skip(self.log.events().len() - 16)
            } else {
                self.log.events()
            },
    {
        self.log.dump_recent(16)
    }

    pub fn current_task_name(&self) -> (r: &'static str)
        requires
            self.wf(),
        ensures
            self.current matches Some(c) ==> r == self.tasks@[c.0 as int].name,
            self.current is None ==> r@ == "<none>"@,
    {
        match self.current {
            Some(c) => self.tasks[c.0].name,
            None => "<none>",
        }
    }

    pub fn current_task_pid(&self) -> (r: usize)
        requires
            self.wf(),
        ensures
            self.current matches Some(c) ==> r == self.tasks@[c.0 as int].pid,
            self.current is None ==> r == 0,
    {
        match self.current {
            Some(c) => self.tasks[c.0].pid,
            None => 0,
        }
    }

    pub fn current_task_last_syscall(&self) -> (r: u32)
        requires
            self.wf(),
        ensures
            self.current matches Some(c) ==> r == self.tasks@[c.0 as int].stats.last_syscall,
            self.current is None ==> r == 0,
    {
        match self.current {
            Some(c) => self.tasks[c.0].stats.last_syscall,
            None => 0,
        }
    }
}

} // verus!
