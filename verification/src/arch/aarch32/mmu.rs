use vstd::prelude::*;

use crate::kernel::address::{align_down, align_up, PAGE_SIZE};

verus! {

pub const L1_DESC_PAGE_TABLE: u32 = 0b01;
pub const SMALL_PAGE_DESC: u32 = 0b10;
pub const SMALL_PAGE_AP0_SHIFT: u32 = 4;
pub const SMALL_PAGE_AP2_SHIFT: u32 = 9;
pub const AP_USER_RW: u32 = 0b011;
pub const AP_USER_RO: u32 = 0b110;
pub const ASID_MASK: u32 = 0xff;

/// What the MMU setup reports.
#[derive(Clone, Copy, PartialEq, Eq, Structural, Debug)]
pub struct MmuInfo {
    pub enabled: bool,
    pub table_base: usize,
    pub kernel_start: usize,
    pub kernel_end: usize,
    pub ram_pages: usize,
    pub kernel_text_pages: usize,
    pub kernel_rodata_pages: usize,
    pub user_text_pages: usize,
    pub user_rodata_pages: usize,
    pub kernel_data_pages: usize,
    pub device_pages: usize,
    pub high_linear_pages: usize,
    pub high_device_pages: usize,
    pub l2_tables: usize,
    pub icache_enabled: bool,
    pub dcache_enabled: bool,
    pub sctlr: u32,
}

/// How a user page is mapped.
#[derive(Clone, Copy, PartialEq, Eq, Structural, Debug)]
pub enum UserMapping {
    Rx,
    RoData,
    RwData,
    Stack,
}

/// The level-1 table in use, from the value of TTBR0.
pub fn current_table_base(ttbr0: u32) -> (r: usize)
    ensures
        r == (ttbr0 & 0xffff_c000) as usize,
{
    (ttbr0 & 0xffff_c000) as usize
}

/// The access permission bits of a small page descriptor, AP[2] on top.
pub open spec fn ap_of(entry: u32) -> u32 {
    (((entry >> SMALL_PAGE_AP2_SHIFT) & 1) << 2) | ((entry >> SMALL_PAGE_AP0_SHIFT) & 0b11)
}

/// User space may read a page that is user read-write or read-only, and
/// write one that is user read-write.
pub fn entry_user_accessible(entry: u32, write: bool) -> (r: bool)
    ensures
        r == (if write { ap_of(entry) == AP_USER_RW } else { ap_of(entry) == AP_USER_RW || ap_of(entry) == AP_USER_RO }),
{
    let ap = (((entry >> SMALL_PAGE_AP2_SHIFT) & 1) << 2) | ((entry >> SMALL_PAGE_AP0_SHIFT) & 0b11);
    if write {
        ap == AP_USER_RW
    } else {
        ap == AP_USER_RW || ap == AP_USER_RO
    }
}

/// Where the walk for `virt` looks: the level-1 index and the level-2
/// index.
pub fn table_indices(virt: usize) -> (r: (usize, usize))
    ensures
        r.0 == virt / 0x10_0000,
        r.1 == (virt / 0x1000) % 256,
{
    assert(virt >> 20usize == virt / 0x10_0000) by (bit_vector);
    assert((virt >> 12usize) & 0xffusize == (virt / 0x1000) % 256) by (bit_vector);
    (virt >> 20usize, (virt >> 12usize) & 0xff)
}

/// The level-2 table a level-1 entry points to, when it is a page-table
/// entry.
pub fn l2_table_of(l1_entry: u32) -> (r: Option<usize>)
    ensures
        l1_entry & 0b11 == L1_DESC_PAGE_TABLE ==> r == Some((l1_entry & 0xffff_fc00) as usize),
        l1_entry & 0b11 != L1_DESC_PAGE_TABLE ==> r is None,
{
    if l1_entry & 0b11 != L1_DESC_PAGE_TABLE {
        return None;
    }
    Some((l1_entry & 0xffff_fc00) as usize)
}

/// A level-2 entry that maps a small page.
pub fn small_page_entry(entry: u32) -> (r: Option<u32>)
    ensures
        entry & SMALL_PAGE_DESC == SMALL_PAGE_DESC ==> r == Some(entry),
        entry & SMALL_PAGE_DESC != SMALL_PAGE_DESC ==> r is None,
{
    if entry & SMALL_PAGE_DESC != SMALL_PAGE_DESC {
        return None;
    }
    Some(entry)
}

/// The pages that a range of `len` bytes from `start` touches: the first
/// page and how many; nothing when the range wraps around.
pub open spec fn range_pages_spec(start: usize, len: usize) -> Option<(int, int)> {
    if start + len > usize::MAX || start + len + PAGE_SIZE > usize::MAX {
        None
    } else {
        let first = start as int - (start % PAGE_SIZE) as int;
        let last = ((start + len + 4095) / 4096) * 4096;
        Some((first, (last - first) / PAGE_SIZE as int))
    }
}

pub fn range_pages(start: usize, len: usize) -> (r: Option<(usize, usize)>)
    ensures
        match range_pages_spec(start, len) {
            Some((f, c)) => r == Some((f as usize, c as usize)),
            None => r is None,
        },
{
    let end = match start.checked_add(len) {
        Some(e) => e,
        None => {
            return None;
        },
    };
    if end > usize::MAX - PAGE_SIZE {
        return None;
    }
    let first = align_down(start, PAGE_SIZE);
    let last = align_up(end, PAGE_SIZE);
    proof {
        assert(last == ((end + 4095) / 4096) * 4096) by (nonlinear_arith)
            requires
                last % 4096 == 0,
                end <= last < end + 4096,
        ;
    }
    Some((first, (last - first) / PAGE_SIZE))
}

/// A page walk found a page that user space may touch as asked.
pub open spec fn page_ok(entry: Option<u32>, write: bool) -> bool {
    match entry {
        Some(e) => if write { ap_of(e) == AP_USER_RW } else { ap_of(e) == AP_USER_RW || ap_of(e) == AP_USER_RO },
        None => false,
    }
}

/// Whether user space may touch `len` bytes from `start`, for writing when
/// `write`, given the level-2 entries (`None` where the walk found no
/// page) of the pages the range covers, in order.
pub open spec fn range_accessible_spec(start: usize, len: usize, write: bool, entries: Seq<Option<u32>>) -> bool {
    if len == 0 {
        true
    } else {
        match range_pages_spec(start, len) {
            None => false,
            Some((first, count)) => {
                &&& entries.len() >= count
                &&& forall|i: int| 0 <= i < count ==> page_ok(#[trigger] entries[i], write)
            },
        }
    }
}

pub fn user_range_accessible(start: usize, len: usize, write: bool, entries: &[Option<u32>]) -> (r: bool)
    ensures
        r == range_accessible_spec(start, len, write, entries@),
{
    if len == 0 {
        return true;
    }
    let (first, count) = match range_pages(start, len) {
        Some(fc) => fc,
        None => {
            return false;
        },
    };
    if entries.len() < count {
        return false;
    }
    let mut i: usize = 0;
    while i < count
        invariant
            i <= count <= entries@.len(),
            len != 0,
            range_pages_spec(start, len) == Some((first as int, count as int)),
            forall|k: int| 0 <= k < i ==> page_ok(#[trigger] entries@[k], write),
        decreases count - i,
    {
        match entries[i] {
            Some(e) => {
                if !entry_user_accessible(e, write) {
                    assert(!page_ok(entries@[i as int], write));
                    return false;
                }
            },
            None => {
                assert(!page_ok(entries@[i as int], write));
                return false;
            },
        }
        i += 1;
    }
    true
}

} // verus!
