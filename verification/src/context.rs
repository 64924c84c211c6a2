use vstd::prelude::*;

verus! {

pub const SVC_MODE: u32 = 0x13;
pub const FIQ_MASK: u32 = 0x40;
pub const INITIAL_CPSR: u32 = 0x53;
pub const FRAME_WORDS: usize = 16;

/// A saved task: the stack pointer at its saved register frame.
#[derive(Clone, Copy, PartialEq, Eq, Structural, Debug)]
pub struct TaskContext {
    pub sp: usize,
}

/// The register frame a new task starts from: zeros, then the exit
/// routine as link register, the entry as return address, and the
/// supervisor mode with FIQs masked.
pub open spec fn initial_frame(entry: u32, exit: u32) -> Seq<u32> {
    Seq::new(FRAME_WORDS as nat, |i: int| if i == 13 { exit } else if i == 14 { entry } else if i == 15 { INITIAL_CPSR } else { 0u32 })
}

impl TaskContext {
    pub fn empty() -> (r: Self)
        ensures
            r.sp == 0,
    {
        TaskContext { sp: 0 }
    }

    /// A context for a task that runs `entry` on the stack of `stack_len`
    /// bytes at `stack`: its frame sits just below the 16-byte aligned top.
    /// Returns the frame to store there.
    pub fn new(stack: usize, stack_len: usize, entry: u32, exit: u32) -> (r: (Self, [u32; FRAME_WORDS]))
        requires
            stack + stack_len <= usize::MAX,
            stack + stack_len >= 80,
        ensures
            r.0.sp == ((stack + stack_len) - (stack + stack_len) % 16) - 64,
            r.1@ == initial_frame(entry, exit),
    {
        let top = stack + stack_len;
        assert(top & !0xfusize == top - top % 16) by (bit_vector);
        let aligned_top = top & !0xf;
        let frame = aligned_top - FRAME_WORDS * 4;
        let mut words = [0u32; FRAME_WORDS];
        words[13] = exit;
        words[14] = entry;
        words[15] = INITIAL_CPSR;
        assert(words@ =~= initial_frame(entry, exit));
        (TaskContext { sp: frame }, words)
    }
}

} // verus!
