use vstd::prelude::*;

use crate::fs::vfs::InodeRef;
use crate::kernel::address::{align_up, VirtAddr, PAGE_SIZE};
use crate::kernel::process::{
    insert_pos, AddressSpace, VmArea, MAX_VMAS, USER_MMAP_BASE, USER_MMAP_TOP, VM_ANON, VM_EXEC, VM_FILE, VM_FIXED, VM_MMAP,
    VM_HEAP, VM_READ, VM_STACK, VM_USER, VM_WRITE,
};
use crate::kernel::syscall::{EEXIST, EINVAL, ENOMEM, MAP_FIXED, PROT_EXEC, PROT_READ, PROT_WRITE};
use crate::kernel::vma_lemmas::{cut, overlaps, surrounds, vma_at};
use crate::platform::initrd::page_end;

verus! {

/// Where a mapping of `len` bytes asked for at `addr` with `map_flags`
/// goes in an address space whose areas are `vmas` and whose mmap cursor is
/// `next`: its first address and its number of pages. A length of zero, an
/// unaligned file offset, a fixed address that is zero or unaligned, or a
/// range outside the mmap window is `EINVAL`; a range that is not fixed and
/// whose first or last page is already mapped is `EEXIST`.
pub open spec fn mmap_place_spec(vmas: Seq<VmArea>, next: usize, addr: usize, len: usize, map_flags: u32, offset: usize) -> Result<(int, int), u32> {
    let fixed = map_flags & MAP_FIXED != 0;
    if len == 0 || offset % 4096 != 0 {
        Err(EINVAL)
    } else if fixed && (addr == 0 || addr % 4096 != 0) {
        Err(EINVAL)
    } else {
        let pages = page_end(len as int) / 4096;
        let base = if fixed {
            addr as int
        } else if addr != 0 {
            page_end(addr as int)
        } else {
            page_end(next as int)
        };
        let end = base + pages * 4096;
        if end > usize::MAX || base < USER_MMAP_BASE || end > USER_MMAP_TOP {
            Err(EINVAL)
        } else if !fixed && (vma_at(vmas, base) is Some || vma_at(vmas, end - 1) is Some) {
            Err(EEXIST)
        } else {
            Ok((base, pages))
        }
    }
}

/// The area flags of a mapping with protection `prot`, backed by a file or
/// anonymous, at a fixed address or not.
pub open spec fn mmap_flags_spec(prot: u32, file_backed: bool, fixed: bool) -> u32 {
    (if prot & PROT_READ != 0 { VM_READ } else { 0 }) | (if prot & PROT_WRITE != 0 { VM_WRITE } else { 0 }) | (if prot
        & PROT_EXEC != 0 {
        VM_EXEC
    } else {
        0
    }) | VM_USER | VM_MMAP | (if file_backed { VM_FILE } else { VM_ANON }) | (if fixed { VM_FIXED } else { 0 })
}

/// A mapping's area is readable, writable and executable exactly when its
/// protection asks for each, whatever else it asks for; it is always a user
/// mapping made by mmap; it is file backed or anonymous as it is, and fixed
/// exactly when asked; it is never a stack or heap area.
pub proof fn lemma_mmap_flags(prot: u32, file_backed: bool, fixed: bool)
    ensures
        (mmap_flags_spec(prot, file_backed, fixed) & VM_READ != 0) == (prot & PROT_READ != 0),
        (mmap_flags_spec(prot, file_backed, fixed) & VM_WRITE != 0) == (prot & PROT_WRITE != 0),
        (mmap_flags_spec(prot, file_backed, fixed) & VM_EXEC != 0) == (prot & PROT_EXEC != 0),
        mmap_flags_spec(prot, file_backed, fixed) & VM_USER != 0,
        mmap_flags_spec(prot, file_backed, fixed) & VM_MMAP != 0,
        (mmap_flags_spec(prot, file_backed, fixed) & VM_FILE != 0) == file_backed,
        (mmap_flags_spec(prot, file_backed, fixed) & VM_ANON != 0) == !file_backed,
        (mmap_flags_spec(prot, file_backed, fixed) & VM_FIXED != 0) == fixed,
        mmap_flags_spec(prot, file_backed, fixed) & (VM_STACK | VM_HEAP) == 0,
{
    let f = mmap_flags_spec(prot, file_backed, fixed);
    let r: u32 = if prot & PROT_READ != 0 { VM_READ } else { 0 };
    let w: u32 = if prot & PROT_WRITE != 0 { VM_WRITE } else { 0 };
    let x: u32 = if prot & PROT_EXEC != 0 { VM_EXEC } else { 0 };
    let b: u32 = if file_backed { VM_FILE } else { VM_ANON };
    let d: u32 = if fixed { VM_FIXED } else { 0 };
    assert(f == r | w | x | 8u32 | 256u32 | b | d);
    assert((prot & 1u32 != 0) == (prot & 1u32 == 1u32)) by (bit_vector);
    assert(((r | w | x | 8u32 | 256u32 | b | d) & 1u32 != 0) == (r == 1u32) && ((r | w | x | 8u32 | 256u32 | b | d)
        & 2u32 != 0) == (w == 2u32) && ((r | w | x | 8u32 | 256u32 | b | d) & 4u32 != 0) == (x == 4u32) && (r | w | x
        | 8u32 | 256u32 | b | d) & 8u32 != 0 && (r | w | x | 8u32 | 256u32 | b | d) & 256u32 != 0 && ((r | w | x | 8u32
        | 256u32 | b | d) & 64u32 != 0) == (b == 64u32) && ((r | w | x | 8u32 | 256u32 | b | d) & 32u32 != 0) == (b
        == 32u32) && ((r | w | x | 8u32 | 256u32 | b | d) & 512u32 != 0) == (d == 512u32) && (r | w | x | 8u32 | 256u32
        | b | d) & (16u32 | 128u32) == 0) by (bit_vector)
        requires
            r == 0 || r == 1,
            w == 0 || w == 2,
            x == 0 || x == 4,
            b == 64 || b == 32,
            d == 0 || d == 512,
    ;
}

/// What the caller must hold before asking for a mapping: the rounding of
/// the length, of a hint address and of the cursor stays in range.
pub open spec fn mmap_args_ok(next: usize, addr: usize, len: usize, map_flags: u32) -> bool {
    &&& len + 4095 <= usize::MAX
    &&& (map_flags & MAP_FIXED == 0 && addr != 0 ==> addr + 4095 <= usize::MAX)
    &&& (map_flags & MAP_FIXED == 0 && addr == 0 ==> next + 4095 <= usize::MAX)
}

fn page_round(v: usize) -> (r: usize)
    requires
        v + 4095 <= usize::MAX,
    ensures
        r == page_end(v as int),
{
    let r = align_up(v, PAGE_SIZE);
    assert(r == page_end(v as int)) by (nonlinear_arith)
        requires
            r % 4096 == 0,
            v <= r < v + 4096,
    ;
    r
}

/// Decides where a mapping goes, as `mmap_place_spec` says.
pub fn mmap_place(space: &AddressSpace, addr: usize, len: usize, map_flags: u32, offset: usize) -> (r: Result<(usize, usize), u32>)
    requires
        mmap_args_ok(space.mmap_next.0, addr, len, map_flags),
    ensures
        r == match mmap_place_spec(space.vmas@, space.mmap_next.0, addr, len, map_flags, offset) {
            Ok((base, pages)) => Ok::<(usize, usize), u32>((base as usize, pages as usize)),
            Err(e) => Err(e),
        },
{
    if len == 0 || offset % 4096 != 0 {
        return Err(EINVAL);
    }
    let fixed = map_flags & MAP_FIXED != 0;
    if fixed && (addr == 0 || addr % 4096 != 0) {
        return Err(EINVAL);
    }
    let pages = page_round(len) / 4096;
    let base = if fixed {
        addr
    } else if addr != 0 {
        page_round(addr)
    } else {
        page_round(space.mmap_next.0)
    };
    let end = match base.checked_add(pages * 4096) {
        Some(e) => e,
        None => {
            return Err(EINVAL);
        },
    };
    if base < USER_MMAP_BASE || end > USER_MMAP_TOP {
        return Err(EINVAL);
    }
    if !fixed && (space.find_vma(VirtAddr::new(base)).is_some() || space.find_vma(VirtAddr::new(end - 1)).is_some()) {
        return Err(EEXIST);
    }
    Ok((base, pages))
}

/// The area flags of a mapping, as `mmap_flags_spec` says.
pub fn mmap_vm_flags(prot: u32, file_backed: bool, fixed: bool) -> (r: u32)
    ensures
        r == mmap_flags_spec(prot, file_backed, fixed),
{
    (if prot & PROT_READ != 0 { VM_READ } else { 0 }) | (if prot & PROT_WRITE != 0 { VM_WRITE } else { 0 }) | (if prot
        & PROT_EXEC != 0 {
        VM_EXEC
    } else {
        0
    }) | VM_USER | VM_MMAP | (if file_backed { VM_FILE } else { VM_ANON }) | (if fixed { VM_FIXED } else { 0 })
}

/// What adding the area `area` over `[base, end)` does to the areas
/// `old`: a fixed mapping first cuts out what it covers (`ENOMEM` when an
/// area it lies inside cannot be split); then the area goes in at its
/// sorted place, unless the table is full (`ENOMEM`) or another area
/// overlaps it (`EEXIST`).
pub open spec fn recorded(old: Seq<VmArea>, base: int, end: int, fixed: bool, area: VmArea, r: Result<(), u32>, new: Seq<VmArea>) -> bool {
    if cut_fails(old, base, end, fixed) {
        r == Err::<(), u32>(ENOMEM) && new == old
    } else if after_cut(old, base, end, fixed).len() >= MAX_VMAS {
        r == Err::<(), u32>(ENOMEM) && new == after_cut(old, base, end, fixed)
    } else if overlapped(after_cut(old, base, end, fixed), base, end) {
        r == Err::<(), u32>(EEXIST) && new == after_cut(old, base, end, fixed)
    } else {
        r == Ok::<(), u32>(()) && new == after_cut(old, base, end, fixed).insert(
            insert_pos(after_cut(old, base, end, fixed), base),
            area,
        )
    }
}

/// The areas `old` once a fixed mapping over `[base, end)` cut out what it
/// covers; unchanged for a mapping that is not fixed.
pub open spec fn after_cut(old: Seq<VmArea>, base: int, end: int, fixed: bool) -> Seq<VmArea> {
    if fixed { cut(old, base, end) } else { old }
}

/// A fixed mapping over `[base, end)` lies inside an area that cannot be
/// split because the table is full.
pub open spec fn cut_fails(old: Seq<VmArea>, base: int, end: int, fixed: bool) -> bool {
    fixed && (exists|i: int| 0 <= i < old.len() && surrounds(#[trigger] old[i], base, end)) && old.len() >= MAX_VMAS
}

/// Some area of `s` overlaps `[base, end)`.
pub open spec fn overlapped(s: Seq<VmArea>, base: int, end: int) -> bool {
    exists|i: int| 0 <= i < s.len() && overlaps(#[trigger] s[i], base, end)
}

/// Adds the area over `[base, end)` with `flags` and `file`, first
/// cutting out what it covers when `fixed`, as `recorded` says.
fn record_area(space: &mut AddressSpace, base: usize, end: usize, flags: u32, file: Option<InodeRef>, fixed: bool) -> (r: Result<(), u32>)
    requires
        old(space).wf(),
        base < end <= USER_MMAP_TOP,
    ensures
        final(space).wf(),
        final(space).same_except_vmas(old(space)),
        recorded(old(space).vmas@, base as int, end as int, fixed, VmArea { start: VirtAddr(base), end: VirtAddr(end), flags, file }, r, final(space).vmas@),
{
    if fixed {
        match space.unmap_vma_range_lenient(VirtAddr::new(base), VirtAddr::new(end)) {
            Ok(()) => {},
            Err(e) => {
                return Err(e);
            },
        }
    }
    let ghost mid = space.vmas@;
    let ghost o = old(space).vmas@;
    assert(mid == after_cut(o, base as int, end as int, fixed));
    assert(!cut_fails(o, base as int, end as int, fixed));
    let r = space.try_add_vma(VirtAddr::new(base), VirtAddr::new(end), flags, file);
    proof {
        if mid.len() < MAX_VMAS {
            if overlapped(mid, base as int, end as int) {
                assert(r == Err::<(), u32>(EEXIST));
            } else {
                assert(r is Ok);
            }
        }
    }
    r
}

/// Records a mapping of `len` bytes asked for at `addr` in `space`: places
/// it as `mmap_place_spec` says, first unmapping what a fixed mapping
/// covers, adds its area backed by `file` (anonymous when `None`), moves
/// the mmap cursor past it, and gives back its first address. The frames
/// and translation entries behind the area are the caller's.
pub fn mmap_area(
    space: &mut AddressSpace,
    addr: usize,
    len: usize,
    prot: u32,
    map_flags: u32,
    file: Option<InodeRef>,
    offset: usize,
) -> (r: Result<usize, u32>)
    requires
        old(space).wf(),
        mmap_args_ok(old(space).mmap_next.0, addr, len, map_flags),
    ensures
        final(space).wf(),
        (AddressSpace { mmap_next: old(space).mmap_next, ..*final(space) }).same_except_vmas(old(space)),
        match mmap_place_spec(old(space).vmas@, old(space).mmap_next.0, addr, len, map_flags, offset) {
            Err(e) => r == Err::<usize, u32>(e) && final(space).vmas@ == old(space).vmas@ && final(space).mmap_next
                == old(space).mmap_next,
            Ok((base, pages)) => {
                let end = base + pages * 4096;
                let fixed = map_flags & MAP_FIXED != 0;
                let area = VmArea {
                    start: VirtAddr(base as usize),
                    end: VirtAddr(end as usize),
                    flags: mmap_flags_spec(prot, file is Some, fixed),
                    file,
                };
                &&& recorded(
                    old(space).vmas@,
                    base,
                    end,
                    fixed,
                    area,
                    match r {
                        Ok(_) => Ok::<(), u32>(()),
                        Err(e) => Err(e),
                    },
                    final(space).vmas@,
                )
                &&& r is Ok ==> r == Ok::<usize, u32>(base as usize) && final(space).mmap_next.0 == if end > old(
                    space,
                ).mmap_next.0 {
                    end
                } else {
                    old(space).mmap_next.0 as int
                }
                &&& r is Err ==> final(space).mmap_next == old(space).mmap_next
            },
        },
{
    let (base, pages) = mmap_place(space, addr, len, map_flags, offset)?;
    let end = base + pages * 4096;
    let fixed = map_flags & MAP_FIXED != 0;
    let flags = mmap_vm_flags(prot, file.is_some(), fixed);
    match record_area(space, base, end, flags, file, fixed) {
        Ok(()) => {},
        Err(e) => {
            return Err(e);
        },
    }
    if end > space.mmap_next.0 {
        space.mmap_next = VirtAddr::new(end);
    }
    Ok(base)
}

} // verus!
