use vstd::prelude::*;

verus! {

/// Size of one page of physical or virtual memory.
pub const PAGE_SIZE: usize = 4096;

/// First address that no longer belongs to user space.
pub const USER_TOP: usize = 0x8000_0000;

/// Start of the kernel's high linear alias of RAM.
pub const KERNEL_HIGH_BASE: usize = 0x8000_0000;

/// Start of the kernel's high alias of device memory.
pub const DEVICE_HIGH_BASE: usize = 0xc000_0000;

/// A physical address.
#[derive(Clone, Copy, PartialEq, Eq, Structural, Debug)]
pub struct PhysAddr(pub usize);

/// A virtual address.
#[derive(Clone, Copy, PartialEq, Eq, Structural, Debug)]
pub struct VirtAddr(pub usize);

/// The index of a physical page frame.
#[derive(Clone, Copy, PartialEq, Eq, Structural, Debug)]
pub struct PageFrameNumber(pub usize);

/// `value` is a multiple of `align`.
pub open spec fn aligned(value: int, align: int) -> bool {
    align > 0 && value % align == 0
}

impl PhysAddr {
    pub fn new(value: usize) -> (r: Self)
        ensures
            r.0 == value,
    {
        PhysAddr(value)
    }

    pub fn as_usize(self) -> (r: usize)
        ensures
            r == self.0,
    {
        self.0
    }

    pub fn pfn(self) -> (r: PageFrameNumber)
        ensures
            r.0 == self.0 / PAGE_SIZE,
    {
        PageFrameNumber(self.0 / PAGE_SIZE)
    }

    pub fn is_aligned(self, align: usize) -> (r: bool)
        requires
            align > 0,
        ensures
            r == (self.0 & ((align - 1) as usize) == 0),
            align == PAGE_SIZE ==> (r == aligned(self.0 as int, align as int)),
    {
        proof {
            lemma_page_mask(self.0);
        }
        self.0 & (align - 1) == 0
    }
}

impl VirtAddr {
    pub fn new(value: usize) -> (r: Self)
        ensures
            r.0 == value,
    {
        VirtAddr(value)
    }

    pub fn as_usize(self) -> (r: usize)
        ensures
            r == self.0,
    {
        self.0
    }

    pub fn is_user(self) -> (r: bool)
        ensures
            r == (self.0 < USER_TOP),
    {
        self.0 < USER_TOP
    }
}

impl PageFrameNumber {
    pub fn new(value: usize) -> (r: Self)
        ensures
            r.0 == value,
    {
        PageFrameNumber(value)
    }

    pub fn index(self) -> (r: usize)
        ensures
            r == self.0,
    {
        self.0
    }

    pub fn addr(self) -> (r: PhysAddr)
        requires
            self.0 * PAGE_SIZE <= usize::MAX,
        ensures
            r.0 == self.0 * PAGE_SIZE,
    {
        PhysAddr(self.0 * PAGE_SIZE)
    }
}

/// Masking with the page mask is the remainder by the page size.
pub proof fn lemma_page_mask(x: usize)
    ensures
        x & 0xfffusize == x % 4096,
        x & !0xfffusize == x - x % 4096,
{
    assert(x & 0xfffusize == x % 4096 && x & !0xfffusize == x - x % 4096) by (bit_vector);
}

/// Rounds `value` down to a multiple of `align`.
pub fn align_down(value: usize, align: usize) -> (r: usize)
    requires
        align > 0,
    ensures
        r == value & !((align - 1) as usize),
        align == PAGE_SIZE ==> r == value - value % PAGE_SIZE,
{
    proof {
        lemma_page_mask(value);
    }
    value & !(align - 1)
}

/// Rounds `value` up to a multiple of `align`.
pub fn align_up(value: usize, align: usize) -> (r: usize)
    requires
        align > 0,
        value + align - 1 <= usize::MAX,
    ensures
        r == ((value + align - 1) as usize) & !((align - 1) as usize),
        align == PAGE_SIZE ==> r % PAGE_SIZE == 0 && value <= r < value + PAGE_SIZE,
{
    let sum = value + (align - 1);
    proof {
        lemma_page_mask(sum);
    }
    sum & !(align - 1)
}

} // verus!
