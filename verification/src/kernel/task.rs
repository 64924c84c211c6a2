use vstd::prelude::*;

use crate::arch::aarch32::context::TaskContext;
use crate::kernel::process::{ProcessId, ThreadId, ThreadMode};

verus! {

pub const MAX_TASKS: usize = 8;
pub const TASK_STACK_SIZE: usize = 65536;
pub const TASK_STACK_PAGES: usize = 16;

#[derive(Clone, Copy, PartialEq, Eq, Structural, Debug)]
pub struct TaskId(pub usize);

impl TaskId {
    pub fn new(value: usize) -> (r: Self)
        ensures
            r.0 == value,
    {
        TaskId(value)
    }

    pub fn index(self) -> (r: usize)
        ensures
            r == self.0,
    {
        self.0
    }
}

#[derive(Clone, Copy, PartialEq, Eq, Structural, Debug)]
pub enum TaskState {
    Empty,
    Ready,
    Running,
    Sleeping,
    Blocked,
    Zombie,
}

pub const TASK_STATES: [TaskState; 6] = [
    TaskState::Empty,
    TaskState::Ready,
    TaskState::Running,
    TaskState::Sleeping,
    TaskState::Blocked,
    TaskState::Zombie,
];

impl TaskState {
    pub fn as_str(self) -> (r: &'static str)
        ensures
            r@ == match self {
                TaskState::Empty => "empty"@,
                TaskState::Ready => "ready"@,
                TaskState::Running => "running"@,
                TaskState::Sleeping => "sleeping"@,
                TaskState::Blocked => "blocked"@,
                TaskState::Zombie => "zombie"@,
            },
    {
        match self {
            TaskState::Empty => "empty",
            TaskState::Ready => "ready",
            TaskState::Running => "running",
            TaskState::Sleeping => "sleeping",
            TaskState::Blocked => "blocked",
            TaskState::Zombie => "zombie",
        }
    }
}

/// Counters kept for each task.
#[derive(Clone, Copy, PartialEq, Eq, Structural, Debug)]
pub struct TaskStats {
    pub scheduled_count: u64,
    pub runtime_ticks: u64,
    pub last_scheduled_at: u64,
    pub sleep_count: u64,
    pub block_count: u64,
    pub exit_code: i32,
    pub last_syscall: u32,
    pub bytes_written: u64,
}

impl TaskStats {
    pub fn new() -> (r: Self)
        ensures
            r == (TaskStats {
                scheduled_count: 0,
                runtime_ticks: 0,
                last_scheduled_at: 0,
                sleep_count: 0,
                block_count: 0,
                exit_code: 0,
                last_syscall: 0,
                bytes_written: 0,
            }),
    {
        TaskStats {
            scheduled_count: 0,
            runtime_ticks: 0,
            last_scheduled_at: 0,
            sleep_count: 0,
            block_count: 0,
            exit_code: 0,
            last_syscall: 0,
            bytes_written: 0,
        }
    }
}

/// `x + 1` in 64 bits, wrapping at the top.
pub open spec fn wrap_inc(x: u64) -> u64 {
    if x == u64::MAX {
        0
    } else {
        (x + 1) as u64
    }
}

fn wrapping_inc(x: u64) -> (r: u64)
    ensures
        r == wrap_inc(x),
{
    if x == u64::MAX {
        0
    } else {
        x + 1
    }
}

/// A schedulable thread: its saved context, state, what it waits for, its
/// stacks, and its counters. Stacks are given by their physical addresses.
#[derive(Clone, Copy, Debug)]
pub struct TaskControlBlock {
    pub id: TaskId,
    pub process_id: ProcessId,
    pub thread_id: ThreadId,
    pub pid: usize,
    pub name: &'static str,
    pub mode: ThreadMode,
    pub context: TaskContext,
    pub state: TaskState,
    pub priority: u8,
    pub time_slice_ticks: u32,
    pub remaining_ticks: u32,
    pub wake_at_tick: u64,
    pub wait_channel: u32,
    pub wait_pid: usize,
    pub wait_user_buf: usize,
    pub wait_len: usize,
    pub kernel_stack_start: usize,
    pub kernel_stack_pages: usize,
    pub user_stack_phys: usize,
    pub user_stack_pages: usize,
    pub user_stack_bottom: usize,
    pub user_stack_top: usize,
    pub user_entry: usize,
    pub user_tls: u32,
    pub stats: TaskStats,
}

impl TaskControlBlock {
    pub fn empty() -> (r: Self)
        ensures
            r.id.0 == usize::MAX,
            r.process_id.0 == 0 && r.thread_id.0 == 0 && r.pid == 0,
            r.mode == ThreadMode::Kernel,
            r.context.sp == 0,
            r.state == TaskState::Empty,
            r.priority == 0 && r.time_slice_ticks == 1 && r.remaining_ticks == 0,
            r.wake_at_tick == 0 && r.wait_channel == 0 && r.wait_pid == 0 && r.wait_user_buf == 0
                && r.wait_len == 0,
            r.kernel_stack_start == 0 && r.kernel_stack_pages == 0,
            r.user_stack_phys == 0 && r.user_stack_pages == 0 && r.user_stack_bottom == 0
                && r.user_stack_top == 0 && r.user_entry == 0 && r.user_tls == 0,
            r.stats == TaskStats::new_spec(),
    {
        TaskControlBlock {
            id: TaskId::new(usize::MAX),
            process_id: ProcessId::new(0),
            thread_id: ThreadId::new(0),
            pid: 0,
            name: "",
            mode: ThreadMode::Kernel,
            context: TaskContext::empty(),
            state: TaskState::Empty,
            priority: 0,
            time_slice_ticks: 1,
            remaining_ticks: 0,
            wake_at_tick: 0,
            wait_channel: 0,
            wait_pid: 0,
            wait_user_buf: 0,
            wait_len: 0,
            kernel_stack_start: 0,
            kernel_stack_pages: 0,
            user_stack_phys: 0,
            user_stack_pages: 0,
            user_stack_bottom: 0,
            user_stack_top: 0,
            user_entry: 0,
            user_tls: 0,
            stats: TaskStats::new(),
        }
    }

    /// A ready kernel thread whose stack of `TASK_STACK_PAGES` pages starts at
    /// `stack` and whose first frame is at `context`; a time slice of 0 ticks
    /// counts as 1.
    pub fn new_kernel(
        id: TaskId,
        process_id: ProcessId,
        thread_id: ThreadId,
        name: &'static str,
        stack: usize,
        context: TaskContext,
        priority: u8,
        time_slice_ticks: u32,
    ) -> (r: Self)
        ensures
            r.id == id && r.process_id == process_id && r.thread_id == thread_id,
            r.pid == process_id.0 && r.name == name,
            r.mode == ThreadMode::Kernel,
            r.context == context,
            r.state == TaskState::Ready,
            r.priority == priority,
            r.time_slice_ticks == if time_slice_ticks == 0 {
                1
            } else {
                time_slice_ticks
            },
            r.remaining_ticks == r.time_slice_ticks,
            r.wake_at_tick == 0 && r.wait_channel == 0 && r.wait_pid == 0 && r.wait_user_buf == 0
                && r.wait_len == 0,
            r.kernel_stack_start == stack && r.kernel_stack_pages == TASK_STACK_PAGES,
            r.user_stack_phys == 0 && r.user_stack_pages == 0 && r.user_stack_bottom == 0
                && r.user_stack_top == 0 && r.user_entry == 0 && r.user_tls == 0,
            r.stats == TaskStats::new_spec(),
    {
        let slice = if time_slice_ticks == 0 {
            1
        } else {
            time_slice_ticks
        };
        TaskControlBlock {
            id,
            process_id,
            thread_id,
            pid: process_id.as_usize(),
            name,
            mode: ThreadMode::Kernel,
            context,
            state: TaskState::Ready,
            priority,
            time_slice_ticks: slice,
            remaining_ticks: slice,
            wake_at_tick: 0,
            wait_channel: 0,
            wait_pid: 0,
            wait_user_buf: 0,
            wait_len: 0,
            kernel_stack_start: stack,
            kernel_stack_pages: TASK_STACK_PAGES,
            user_stack_phys: 0,
            user_stack_pages: 0,
            user_stack_bottom: 0,
            user_stack_top: 0,
            user_entry: 0,
            user_tls: 0,
            stats: TaskStats::new(),
        }
    }

    /// A ready user thread entering at `user_entry` with the given stacks; a
    /// time slice of 0 ticks counts as 1.
    pub fn new_user(
        id: TaskId,
        process_id: ProcessId,
        thread_id: ThreadId,
        name: &'static str,
        user_entry: usize,
        user_stack_phys: usize,
        user_stack_pages: usize,
        user_stack_bottom: usize,
        user_stack_top: usize,
        kernel_stack: usize,
        context: TaskContext,
        priority: u8,
        time_slice_ticks: u32,
    ) -> (r: Self)
        ensures
            r.id == id && r.process_id == process_id && r.thread_id == thread_id,
            r.pid == process_id.0 && r.name == name,
            r.mode == ThreadMode::User,
            r.context == context,
            r.state == TaskState::Ready,
            r.priority == priority,
            r.time_slice_ticks == if time_slice_ticks == 0 {
                1
            } else {
                time_slice_ticks
            },
            r.remaining_ticks == r.time_slice_ticks,
            r.wake_at_tick == 0 && r.wait_channel == 0 && r.wait_pid == 0 && r.wait_user_buf == 0
                && r.wait_len == 0,
            r.kernel_stack_start == kernel_stack && r.kernel_stack_pages == TASK_STACK_PAGES,
            r.user_stack_phys == user_stack_phys && r.user_stack_pages == user_stack_pages,
            r.user_stack_bottom == user_stack_bottom && r.user_stack_top == user_stack_top,
            r.user_entry == user_entry && r.user_tls == 0,
            r.stats == TaskStats::new_spec(),
    {
        let slice = if time_slice_ticks == 0 {
            1
        } else {
            time_slice_ticks
        };
        TaskControlBlock {
            id,
            process_id,
            thread_id,
            pid: process_id.as_usize(),
            name,
            mode: ThreadMode::User,
            context,
            state: TaskState::Ready,
            priority,
            time_slice_ticks: slice,
            remaining_ticks: slice,
            wake_at_tick: 0,
            wait_channel: 0,
            wait_pid: 0,
            wait_user_buf: 0,
            wait_len: 0,
            kernel_stack_start: kernel_stack,
            kernel_stack_pages: TASK_STACK_PAGES,
            user_stack_phys,
            user_stack_pages,
            user_stack_bottom,
            user_stack_top,
            user_entry,
            user_tls: 0,
            stats: TaskStats::new(),
        }
    }

    pub fn mark_scheduled(&mut self, tick: u64)
        ensures
            *final(self) == (TaskControlBlock {
                state: TaskState::Running,
                remaining_ticks: old(self).time_slice_ticks,
                wait_channel: 0,
                wait_pid: 0,
                wait_user_buf: 0,
                wait_len: 0,
                stats: TaskStats {
                    scheduled_count: wrap_inc(old(self).stats.scheduled_count),
                    last_scheduled_at: tick,
                    ..old(self).stats
                },
                ..*old(self)
            }),
    {
        self.state = TaskState::Running;
        self.remaining_ticks = self.time_slice_ticks;
        self.wait_channel = 0;
        self.wait_pid = 0;
        self.wait_user_buf = 0;
        self.wait_len = 0;
        self.stats.scheduled_count = wrapping_inc(self.stats.scheduled_count);
        self.stats.last_scheduled_at = tick;
    }

    pub fn account_tick(&mut self)
        ensures
            *final(self) == (TaskControlBlock {
                remaining_ticks: if old(self).remaining_ticks == 0 {
                    0
                } else {
                    (old(self).remaining_ticks - 1) as u32
                },
                stats: TaskStats { runtime_ticks: wrap_inc(old(self).stats.runtime_ticks), ..old(self).stats },
                ..*old(self)
            }),
    {
        self.stats.runtime_ticks = wrapping_inc(self.stats.runtime_ticks);
        if self.remaining_ticks > 0 {
            self.remaining_ticks = self.remaining_ticks - 1;
        }
    }

    pub fn mark_sleeping(&mut self, wake_at_tick: u64)
        ensures
            *final(self) == (TaskControlBlock {
                state: TaskState::Sleeping,
                wake_at_tick,
                remaining_ticks: 0,
                stats: TaskStats { sleep_count: wrap_inc(old(self).stats.sleep_count), ..old(self).stats },
                ..*old(self)
            }),
    {
        self.state = TaskState::Sleeping;
        self.wake_at_tick = wake_at_tick;
        self.remaining_ticks = 0;
        self.stats.sleep_count = wrapping_inc(self.stats.sleep_count);
    }

    /// Blocks on `channel` waiting for `pid`, with the user buffer and length
    /// the wake-up will need.
    pub open spec fn blocked_on(
        self,
        o: TaskControlBlock,
        channel: u32,
        pid: usize,
        user_buf: usize,
        len: usize,
    ) -> bool {
        self == (TaskControlBlock {
            state: TaskState::Blocked,
            wait_channel: channel,
            wait_pid: pid,
            wait_user_buf: user_buf,
            wait_len: len,
            remaining_ticks: 0,
            stats: TaskStats { block_count: wrap_inc(o.stats.block_count), ..o.stats },
            ..o
        })
    }

    fn block(&mut self, channel: u32, pid: usize, user_buf: usize, len: usize)
        ensures
            final(self).blocked_on(*old(self), channel, pid, user_buf, len),
    {
        self.state = TaskState::Blocked;
        self.wait_channel = channel;
        self.wait_pid = pid;
        self.wait_user_buf = user_buf;
        self.wait_len = len;
        self.remaining_ticks = 0;
        self.stats.block_count = wrapping_inc(self.stats.block_count);
    }

    pub fn mark_blocked(&mut self, channel: u32)
        ensures
            final(self).blocked_on(*old(self), channel, 0, 0, 0),
    {
        self.block(channel, 0, 0, 0);
    }

    pub fn mark_waiting_for_read(&mut self, channel: u32, user_buf: usize, len: usize)
        ensures
            final(self).blocked_on(*old(self), channel, 0, user_buf, len),
    {
        self.block(channel, 0, user_buf, len);
    }

    /// Blocks in `poll`: the waited-for identifier is all ones, the buffer is
    /// the poll array and the length its entry count.
    pub fn mark_waiting_for_poll(&mut self, channel: u32, pollfds: usize, nfds: usize)
        ensures
            final(self).blocked_on(*old(self), channel, usize::MAX, pollfds, nfds),
    {
        self.block(channel, usize::MAX, pollfds, nfds);
    }

    pub fn mark_waiting_for_child(&mut self, channel: u32, pid: usize, status_ptr: usize, rusage_ptr: usize)
        ensures
            final(self).blocked_on(*old(self), channel, pid, status_ptr, rusage_ptr),
    {
        self.block(channel, pid, status_ptr, rusage_ptr);
    }

    pub fn mark_zombie(&mut self, exit_code: i32)
        ensures
            *final(self) == (TaskControlBlock {
                state: TaskState::Zombie,
                remaining_ticks: 0,
                stats: TaskStats { exit_code, ..old(self).stats },
                ..*old(self)
            }),
    {
        self.state = TaskState::Zombie;
        self.remaining_ticks = 0;
        self.stats.exit_code = exit_code;
    }

    /// Empties the slot and hands back the kernel stack to free, as its
    /// start and page count, if the task had one.
    pub fn release_resources(&mut self) -> (r: Option<(usize, usize)>)
        ensures
            final(self).state == TaskState::Empty,
            final(self).kernel_stack_start == 0 && final(self).kernel_stack_pages == 0,
            r == if old(self).kernel_stack_start != 0 && old(self).kernel_stack_pages != 0 {
                Some((old(self).kernel_stack_start, old(self).kernel_stack_pages))
            } else {
                None
            },
    {
        let stack = if self.kernel_stack_start != 0 && self.kernel_stack_pages != 0 {
            Some((self.kernel_stack_start, self.kernel_stack_pages))
        } else {
            None
        };
        *self = TaskControlBlock::empty();
        stack
    }

    pub fn is_runnable(&self) -> (r: bool)
        ensures
            r == (self.state == TaskState::Ready || self.state == TaskState::Running),
    {
        match self.state {
            TaskState::Ready | TaskState::Running => true,
            _ => false,
        }
    }
}

impl TaskStats {
    pub open spec fn new_spec() -> TaskStats {
        TaskStats {
            scheduled_count: 0,
            runtime_ticks: 0,
            last_scheduled_at: 0,
            sleep_count: 0,
            block_count: 0,
            exit_code: 0,
            last_syscall: 0,
            bytes_written: 0,
        }
    }
}

} // verus!
