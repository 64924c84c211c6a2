use vstd::prelude::*;

use crate::context::TaskContext;

verus! {

pub const MAX_TASKS: usize = 4;
pub const TASK_STACK_SIZE: usize = 16384;

#[derive(Clone, Copy, PartialEq, Eq, Structural, Debug)]
pub enum TaskState {
    Empty,
    Ready,
    Running,
}

/// A task of the boot-time round-robin scheduler.
#[derive(Clone, Copy, Debug)]
pub struct Task {
    pub id: usize,
    pub name: &'static str,
    pub context: TaskContext,
    pub state: TaskState,
}

impl Task {
    pub fn empty() -> (r: Self)
        ensures
            r.id == 0 && r.context.sp == 0 && r.state == TaskState::Empty && r.name@ == ""@,
    {
        Task { id: 0, name: "", context: TaskContext::empty(), state: TaskState::Empty }
    }

    /// A ready task starting from `context`.
    pub fn new(id: usize, name: &'static str, context: TaskContext) -> (r: Self)
        ensures
            r.id == id && r.name == name && r.context == context && r.state == TaskState::Ready,
    {
        Task { id, name, context, state: TaskState::Ready }
    }
}

/// Hands out the task stacks in turn; none past `MAX_TASKS`.
pub fn alloc_stack_index(next: &mut usize) -> (r: Option<usize>)
    ensures
        *old(next) < MAX_TASKS ==> r == Some(*old(next)) && *final(next) == *old(next) + 1,
        *old(next) >= MAX_TASKS ==> r is None && *final(next) == *old(next),
{
    let idx = *next;
    if idx >= MAX_TASKS {
        return None;
    }
    *next = idx + 1;
    Some(idx)
}

} // verus!
