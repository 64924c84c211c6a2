use vstd::prelude::*;

verus! {

pub const SVC_MODE: u32 = 0x13;
pub const FIQ_MASK: u32 = 0x40;
pub const INITIAL_CPSR: u32 = 0x53;
pub const USER_MODE: u32 = 0x10;
pub const USER_INITIAL_CPSR: u32 = 0x50;
/// The size of a saved trap frame in bytes: eighteen words.
pub const TRAP_FRAME_SIZE: usize = 72;

/// The registers saved on exception entry, in the order the entry code stores them.
#[derive(Clone, Copy, Debug)]
pub struct TrapFrame {
    pub user_sp: u32,
    pub user_lr: u32,
    pub r: [u32; 13],
    pub lr: u32,
    pub pc: u32,
    pub spsr: u32,
}

/// The saved stack pointer of a task that is not running: the address of its trap frame.
#[derive(Clone, Copy, PartialEq, Eq, Structural, Debug)]
pub struct TaskContext {
    pub sp: usize,
}

impl TrapFrame {
    /// A frame with every register zero.
    pub fn zeroed() -> (r: Self)
        ensures
            r.user_sp == 0 && r.user_lr == 0 && r.lr == 0 && r.pc == 0 && r.spsr == 0,
            forall|i: int| 0 <= i < 13 ==> r.r[i] == 0,
    {
        TrapFrame { user_sp: 0, user_lr: 0, r: [0u32; 13], lr: 0, pc: 0, spsr: 0 }
    }

    /// The first frame of a kernel task: it starts at `entry` in supervisor
    /// mode and returns into `exit`.
    pub fn kernel_start(entry: u32, exit: u32) -> (r: Self)
        ensures
            r.user_sp == 0 && r.user_lr == 0,
            forall|i: int| 0 <= i < 13 ==> r.r[i] == 0,
            r.lr == exit,
            r.pc == entry,
            r.spsr == INITIAL_CPSR,
    {
        let mut frame = TrapFrame::zeroed();
        frame.lr = exit;
        frame.pc = entry;
        frame.spsr = INITIAL_CPSR;
        frame
    }

    /// The first frame of a user thread: it starts at `user_entry` in user
    /// mode with its stack pointer at `initial_sp`.
    pub fn user_start(user_entry: u32, initial_sp: u32) -> (r: Self)
        ensures
            r.user_sp == initial_sp && r.user_lr == 0,
            forall|i: int| 0 <= i < 13 ==> r.r[i] == 0,
            r.lr == 0,
            r.pc == user_entry,
            r.spsr == USER_INITIAL_CPSR,
    {
        let mut frame = TrapFrame::zeroed();
        frame.user_sp = initial_sp;
        frame.pc = user_entry;
        frame.spsr = USER_INITIAL_CPSR;
        frame
    }

    pub fn syscall_number(&self) -> (r: u32)
        ensures
            r == self.r[0],
    {
        self.r[0]
    }

    pub fn syscall_arg0(&self) -> (r: u32)
        ensures
            r == self.r[1],
    {
        self.r[1]
    }

    pub fn syscall_arg1(&self) -> (r: u32)
        ensures
            r == self.r[2],
    {
        self.r[2]
    }

    pub fn syscall_arg2(&self) -> (r: u32)
        ensures
            r == self.r[3],
    {
        self.r[3]
    }

    pub fn syscall_arg3(&self) -> (r: u32)
        ensures
            r == self.r[4],
    {
        self.r[4]
    }

    pub fn syscall_arg4(&self) -> (r: u32)
        ensures
            r == self.r[5],
    {
        self.r[5]
    }

    pub fn syscall_arg5(&self) -> (r: u32)
        ensures
            r == self.r[12],
    {
        self.r[12]
    }

    pub fn kernel_abi_magic(&self) -> (r: u32)
        ensures
            r == self.r[7],
    {
        self.r[7]
    }

    pub fn linux_syscall_number(&self) -> (r: u32)
        ensures
            r == self.r[7],
    {
        self.r[7]
    }

    pub fn linux_arg0(&self) -> (r: u32)
        ensures
            r == self.r[0],
    {
        self.r[0]
    }

    pub fn linux_arg1(&self) -> (r: u32)
        ensures
            r == self.r[1],
    {
        self.r[1]
    }

    pub fn linux_arg2(&self) -> (r: u32)
        ensures
            r == self.r[2],
    {
        self.r[2]
    }

    pub fn linux_arg3(&self) -> (r: u32)
        ensures
            r == self.r[3],
    {
        self.r[3]
    }

    pub fn linux_arg4(&self) -> (r: u32)
        ensures
            r == self.r[4],
    {
        self.r[4]
    }

    pub fn linux_arg5(&self) -> (r: u32)
        ensures
            r == self.r[5],
    {
        self.r[5]
    }

    pub fn linux_arg6(&self) -> (r: u32)
        ensures
            r == self.r[6],
    {
        self.r[6]
    }

    pub fn set_return_value(&mut self, value: u32)
        ensures
            final(self).r[0] == value,
            forall|i: int| 1 <= i < 13 ==> final(self).r[i] == old(self).r[i],
            final(self).user_sp == old(self).user_sp && final(self).user_lr == old(self).user_lr,
            final(self).lr == old(self).lr && final(self).pc == old(self).pc && final(self).spsr == old(self).spsr,
    {
        self.r[0] = value;
    }
}

impl TaskContext {
    pub fn empty() -> (r: Self)
        ensures
            r.sp == 0,
    {
        TaskContext { sp: 0 }
    }

    /// The context of a task whose first frame sits just below the top of
    /// the stack of `stack_len` bytes at `stack`, rounded down to 16 bytes.
    pub fn for_stack(stack: usize, stack_len: usize) -> (r: Self)
        requires
            stack + stack_len <= usize::MAX,
            stack + stack_len >= 0x100,
        ensures
            r.sp + TRAP_FRAME_SIZE == (((stack + stack_len) as usize) & !0xfusize),
            r.sp + TRAP_FRAME_SIZE <= stack + stack_len < r.sp + TRAP_FRAME_SIZE + 16,
            r.sp % 8 == 0,
    {
        let top = stack + stack_len;
        let aligned = top & !0xfusize;
        assert(aligned >= 0x100 && aligned % 16 == 0 && aligned <= top && top < aligned + 16) by (bit_vector)
            requires
                top >= 0x100,
                aligned == top & !0xfusize,
        ;
        TaskContext { sp: aligned - TRAP_FRAME_SIZE }
    }
}

} // verus!
