use vstd::prelude::*;
use vstd::string::StringSliceAdditionalSpecFns;

use crate::arch::aarch32::mmu::UserMapping;
use crate::kernel::address::{align_down, align_up, VirtAddr, PAGE_SIZE};
use crate::kernel::loader::{
    headers_present, le32_at, lowest_load, lowest_load_vaddr, nul_index, ph_at, read_interp, ElfHeader, LoadedImage,
    ProgramHeader, ET_DYN, ET_EXEC, INTERP_PATH_MAX, PF_W, PF_X, PROGRAM_HEADER_LEN, PT_INTERP, PT_LOAD, PT_PHDR,
};
use crate::kernel::net::interface::utf8_text;
use crate::kernel::process::{VM_EXEC, VM_FILE, VM_READ, VM_USER, VM_WRITE};
use crate::kernel::syscall::ENOEXEC;
use crate::platform::initrd::page_end;

verus! {

/// Where a loadable segment goes: the whole pages it takes, the file bytes
/// copied in at `copy_offset` within them, and how user space may use it.
#[derive(Clone, Copy, PartialEq, Eq, Structural, Debug)]
pub struct SegmentPlan {
    pub virt_start: usize,
    pub virt_end: usize,
    pub pages: usize,
    pub file_start: usize,
    pub file_len: usize,
    pub copy_offset: usize,
    pub mapping: UserMapping,
    pub vma_flags: u32,
}

/// How a segment with ELF flags `flags` is mapped.
pub open spec fn mapping_for(flags: u32) -> UserMapping {
    if flags & PF_X != 0 {
        UserMapping::Rx
    } else if flags & PF_W != 0 {
        UserMapping::RwData
    } else {
        UserMapping::RoData
    }
}

/// The VMA flags of a file segment with ELF flags `flags`.
pub open spec fn vma_flags_for(flags: u32) -> u32 {
    VM_READ | VM_USER | VM_FILE | (if flags & PF_X != 0 { VM_EXEC } else { 0u32 }) | (if flags & PF_W != 0 {
        VM_WRITE
    } else {
        0u32
    })
}

/// The program header that bytes `s` hold at `at`.
pub open spec fn ph_from(s: Seq<u8>, at: int) -> ProgramHeader {
    ProgramHeader {
        p_type: le32_at(s, at) as u32,
        offset: le32_at(s, at + 4) as u32,
        vaddr: le32_at(s, at + 8) as u32,
        paddr: le32_at(s, at + 12) as u32,
        filesz: le32_at(s, at + 16) as u32,
        memsz: le32_at(s, at + 20) as u32,
        flags: le32_at(s, at + 24) as u32,
        align: le32_at(s, at + 28) as u32,
    }
}

/// Where a non-empty loadable segment goes once shifted by `bias`, for a
/// file of `file_len` bytes: none when its pages would run past the top of
/// the address space, or its file bytes lie outside the file or exceed
/// its memory size.
pub open spec fn segment_spec(file_len: int, ph: ProgramHeader, bias: usize) -> Option<SegmentPlan> {
    let seg_start = (ph.vaddr as usize).wrapping_add(bias);
    if seg_start + ph.memsz + PAGE_SIZE - 1 > usize::MAX {
        None
    } else if ph.offset + ph.filesz > file_len || ph.filesz > ph.memsz {
        None
    } else {
        let virt_start = seg_start - seg_start % PAGE_SIZE;
        let virt_end = page_end(seg_start + ph.memsz);
        Some(SegmentPlan {
            virt_start: virt_start as usize,
            virt_end: virt_end as usize,
            pages: ((virt_end - virt_start) / PAGE_SIZE as int) as usize,
            file_start: ph.offset as usize,
            file_len: ph.filesz as usize,
            copy_offset: (seg_start % PAGE_SIZE) as usize,
            mapping: mapping_for(ph.flags),
            vma_flags: vma_flags_for(ph.flags),
        })
    }
}

/// What reading program headers gathers so far: the segments, the lowest
/// and highest page address they cover, the program header address, and
/// the interpreter path buffer with its length.
pub type PlanState = (Seq<SegmentPlan>, usize, usize, usize, Seq<u8>, usize);

/// Reading program header `i` on top of `st`.
#[verifier::opaque]
pub open spec fn step_spec(elf: Seq<u8>, h: ElfHeader, bias: usize, i: int, st: PlanState) -> Result<PlanState, u32> {
    let (segs, lo, hi, phdr, buf, blen) = st;
    let at = ph_at(h, i);
    if at + PROGRAM_HEADER_LEN > elf.len() {
        Err(ENOEXEC)
    } else {
        let ph = ph_from(elf, at);
        if ph.p_type == PT_LOAD {
            if ph.memsz == 0 {
                Ok(st)
            } else {
                match segment_spec(elf.len() as int, ph, bias) {
                    None => Err(ENOEXEC),
                    Some(s) => Ok((
                        segs.push(s),
                        if s.virt_start < lo { s.virt_start } else { lo },
                        if s.virt_end > hi { s.virt_end } else { hi },
                        phdr,
                        buf,
                        blen,
                    )),
                }
            }
        } else if ph.p_type == PT_PHDR {
            Ok((segs, lo, hi, (ph.vaddr as usize).wrapping_add(bias), buf, blen))
        } else if ph.p_type == PT_INTERP {
            let start = ph.offset as int;
            let end = start + ph.filesz;
            if end > elf.len() || ph.filesz == 0 {
                Err(ENOEXEC)
            } else {
                let raw = elf.subrange(start, end);
                let k = nul_index(raw);
                if k == 0 || k >= INTERP_PATH_MAX {
                    Err(ENOEXEC)
                } else {
                    Ok((segs, lo, hi, phdr, raw.take(k) + buf.skip(k), k as usize))
                }
            }
        } else {
            Ok(st)
        }
    }
}

/// Reading the first `n` program headers, from no segment and the
/// interpreter buffer `buf0`.
pub open spec fn plan_steps(elf: Seq<u8>, h: ElfHeader, bias: usize, n: int, buf0: Seq<u8>) -> Result<PlanState, u32>
    decreases n,
{
    if n <= 0 {
        Ok((Seq::empty(), usize::MAX, 0usize, 0usize, buf0, 0usize))
    } else {
        match plan_steps(elf, h, bias, n - 1, buf0) {
            Err(e) => Err(e),
            Ok(st) => step_spec(elf, h, bias, n - 1, st),
        }
    }
}

proof fn lemma_lowest_load_bound(s: Seq<u8>, h: ElfHeader, n: int)
    ensures
        0 <= lowest_load(s, h, n) <= usize::MAX,
    decreases n,
{
    if n > 0 {
        lemma_lowest_load_bound(s, h, n - 1);
    }
}

proof fn lemma_plan_error_stays(elf: Seq<u8>, h: ElfHeader, bias: usize, k: int, n: int, buf0: Seq<u8>)
    requires
        0 <= k <= n,
        plan_steps(elf, h, bias, k, buf0) is Err,
    ensures
        plan_steps(elf, h, bias, n, buf0) == plan_steps(elf, h, bias, k, buf0),
    decreases n - k,
{
    if k < n {
        lemma_plan_error_stays(elf, h, bias, k, n - 1, buf0);
    }
}

/// How far a position-independent object is moved: its lowest page goes to
/// the page at or above `dyn_base`; a fixed executable stays put.
pub open spec fn bias_spec(elf: Seq<u8>, h: ElfHeader, dyn_base: usize) -> Result<usize, u32> {
    if h.ty != ET_DYN {
        Ok(0usize)
    } else if !headers_present(elf, h) || lowest_load(elf, h, h.phnum as int) == usize::MAX {
        Err(ENOEXEC)
    } else {
        let low = lowest_load(elf, h, h.phnum as int);
        Ok((page_end(dyn_base as int) as usize).saturating_sub((low - low % (PAGE_SIZE as int)) as usize))
    }
}

/// An executable or interpreter placed in memory, before anything is
/// mapped: its entry, how far it was moved, the pages its segments span,
/// where its program headers are, and the interpreter it asks for.
pub struct ObjectPlan {
    pub entry: usize,
    pub load_base: usize,
    pub user_start: usize,
    pub user_end: usize,
    pub phdr: usize,
    pub phnum: usize,
    pub phent: usize,
    pub interpreter: [u8; INTERP_PATH_MAX],
    pub interpreter_len: usize,
    pub segments: Vec<SegmentPlan>,
}

/// Whether `plan` is what placing `elf` with position-independent objects
/// at `dyn_base` gives, and otherwise the error it fails with.
pub open spec fn planned(elf: Seq<u8>, dyn_base: usize, r: Result<ObjectPlan, u32>) -> bool {
    if !crate::kernel::loader::elf_header_ok(elf) {
        r == Err::<ObjectPlan, u32>(ENOEXEC)
    } else {
        let h = header_from(elf);
        if h.ty != ET_EXEC && h.ty != ET_DYN {
            r == Err::<ObjectPlan, u32>(ENOEXEC)
        } else {
            match bias_spec(elf, h, dyn_base) {
                Err(e) => r == Err::<ObjectPlan, u32>(e),
                Ok(bias) => match plan_steps(elf, h, bias, h.phnum as int, Seq::new(INTERP_PATH_MAX as nat, |i: int| 0u8)) {
                    Err(e) => r == Err::<ObjectPlan, u32>(e),
                    Ok((segs, lo, hi, phdr, buf, blen)) => if lo == usize::MAX {
                        r == Err::<ObjectPlan, u32>(ENOEXEC)
                    } else {
                        &&& r is Ok
                        &&& r->Ok_0.segments@ == segs
                        &&& r->Ok_0.user_start == lo && r->Ok_0.user_end == hi
                        &&& r->Ok_0.phdr == (if phdr == 0 && h.phoff < elf.len() {
                            (h.phoff as usize).wrapping_add(bias)
                        } else {
                            phdr
                        })
                        &&& r->Ok_0.entry == (h.entry as usize).wrapping_add(bias)
                        &&& r->Ok_0.load_base == bias
                        &&& r->Ok_0.phnum == h.phnum && r->Ok_0.phent == h.phentsize
                        &&& r->Ok_0.interpreter@ == buf && r->Ok_0.interpreter_len == blen
                    },
                },
            }
        }
    }
}

/// The header fields that bytes `s` hold.
pub open spec fn header_from(s: Seq<u8>) -> ElfHeader {
    ElfHeader {
        ty: crate::kernel::loader::le16_at(s, 16) as u16,
        machine: crate::kernel::loader::le16_at(s, 18) as u16,
        version: le32_at(s, 20) as u32,
        entry: le32_at(s, 24) as u32,
        phoff: le32_at(s, 28) as u32,
        shoff: le32_at(s, 32) as u32,
        flags: le32_at(s, 36) as u32,
        ehsize: crate::kernel::loader::le16_at(s, 40) as u16,
        phentsize: crate::kernel::loader::le16_at(s, 42) as u16,
        phnum: crate::kernel::loader::le16_at(s, 44) as u16,
        shentsize: crate::kernel::loader::le16_at(s, 46) as u16,
        shnum: crate::kernel::loader::le16_at(s, 48) as u16,
        shstrndx: crate::kernel::loader::le16_at(s, 50) as u16,
    }
}

/// The page-aligned end of `v`.
fn page_up(v: usize) -> (r: usize)
    requires
        v + PAGE_SIZE - 1 <= usize::MAX,
    ensures
        r == page_end(v as int),
{
    let r = align_up(v, PAGE_SIZE);
    assert(r == page_end(v as int)) by (nonlinear_arith)
        requires
            r % 4096 == 0,
            v <= r < v + 4096,
    ;
    r
}

/// Places one non-empty loadable segment.
fn plan_segment(elf_len: usize, ph: ProgramHeader, bias: usize) -> (r: Option<SegmentPlan>)
    ensures
        r == segment_spec(elf_len as int, ph, bias),
{
    let seg_start = (ph.vaddr as usize).wrapping_add(bias);
    let memsz = ph.memsz as usize;
    if seg_start > usize::MAX - (PAGE_SIZE - 1) || memsz > usize::MAX - (PAGE_SIZE - 1) - seg_start {
        return None;
    }
    let file_start = ph.offset as usize;
    let file_len = ph.filesz as usize;
    if file_start > elf_len || file_len > elf_len - file_start || ph.filesz > ph.memsz {
        return None;
    }
    let virt_start = align_down(seg_start, PAGE_SIZE);
    let virt_end = page_up(seg_start + memsz);
    assert(virt_start <= seg_start);
    assert(seg_start + memsz <= virt_end) by (nonlinear_arith)
        requires
            virt_end == page_end(seg_start + memsz),
    ;
    let mapping = if ph.flags & PF_X != 0 {
        UserMapping::Rx
    } else if ph.flags & PF_W != 0 {
        UserMapping::RwData
    } else {
        UserMapping::RoData
    };
    let vma_flags = VM_READ | VM_USER | VM_FILE | (if ph.flags & PF_X != 0 { VM_EXEC } else { 0u32 }) | (if ph.flags
        & PF_W != 0 {
        VM_WRITE
    } else {
        0u32
    });
    Some(
        SegmentPlan {
            virt_start,
            virt_end,
            pages: (virt_end - virt_start) / PAGE_SIZE,
            file_start,
            file_len,
            copy_offset: seg_start - virt_start,
            mapping,
            vma_flags,
        },
    )
}

/// Reads program header `index` into the plan gathered so far.
fn read_header(
    elf: &[u8],
    header: ElfHeader,
    bias: usize,
    index: u16,
    segments: &mut Vec<SegmentPlan>,
    lo: &mut usize,
    hi: &mut usize,
    phdr: &mut usize,
    interpreter: &mut [u8; INTERP_PATH_MAX],
    interpreter_len: &mut usize,
) -> (r: Result<(), u32>)
    ensures
        match step_spec(
            elf@,
            header,
            bias,
            index as int,
            (old(segments)@, *old(lo), *old(hi), *old(phdr), old(interpreter)@, *old(interpreter_len)),
        ) {
            Err(e) => r == Err::<(), u32>(e),
            Ok(st) => r is Ok && st == (final(segments)@, *final(lo), *final(hi), *final(phdr), final(interpreter)@, *final(interpreter_len)),
        },
{
    reveal(step_spec);
    let ph = match ProgramHeader::parse(elf, header.phoff as usize, header.phentsize, index) {
        Some(ph) => ph,
        None => {
            return Err(ENOEXEC);
        },
    };
    assert(ph == ph_from(elf@, ph_at(header, index as int)));
    if ph.p_type == PT_LOAD {
        if ph.memsz != 0 {
            match plan_segment(elf.len(), ph, bias) {
                Some(s) => {
                    if s.virt_start < *lo {
                        *lo = s.virt_start;
                    }
                    if s.virt_end > *hi {
                        *hi = s.virt_end;
                    }
                    segments.push(s);
                },
                None => {
                    return Err(ENOEXEC);
                },
            }
        }
    } else if ph.p_type == PT_PHDR {
        *phdr = (ph.vaddr as usize).wrapping_add(bias);
    } else if ph.p_type == PT_INTERP {
        match read_interp(elf, ph, interpreter) {
            Ok(n) => {
                *interpreter_len = n;
            },
            Err(e) => {
                return Err(e);
            },
        }
    }
    Ok(())
}

/// Places the executable or interpreter `elf` (position-independent ones at
/// the page at or above `dyn_base`): every loadable segment, checked
/// against the file, with the entry and program header addresses moved
/// along. Nothing is mapped; `ENOEXEC` for a file that cannot be loaded.
pub fn plan_object(elf: &[u8], dyn_base: usize) -> (r: Result<ObjectPlan, u32>)
    requires
        dyn_base + PAGE_SIZE - 1 <= usize::MAX,
    ensures
        planned(elf@, dyn_base, r),
{
    let header = match ElfHeader::parse(elf) {
        Some(h) => h,
        None => {
            return Err(ENOEXEC);
        },
    };
    assert(header == header_from(elf@));
    if header.ty != ET_EXEC && header.ty != ET_DYN {
        return Err(ENOEXEC);
    }
    let bias = if header.ty == ET_DYN {
        let low = match lowest_load_vaddr(elf, header) {
            Ok(l) => l,
            Err(e) => {
                return Err(e);
            },
        };
        let top = page_up(dyn_base);
        let bottom = align_down(low, PAGE_SIZE);
        proof {
            lemma_lowest_load_bound(elf@, header, header.phnum as int);
        }
        assert(low == lowest_load(elf@, header, header.phnum as int));
        assert(headers_present(elf@, header));
        assert(bottom == low - low % PAGE_SIZE);
        top.saturating_sub(bottom)
    } else {
        0
    };
    assert(bias_spec(elf@, header, dyn_base) == Ok::<usize, u32>(bias));
    let mut segments: Vec<SegmentPlan> = Vec::new();
    let mut lo: usize = usize::MAX;
    let mut hi: usize = 0;
    let mut phdr: usize = 0;
    let mut interpreter = [0u8; INTERP_PATH_MAX];
    let mut interpreter_len: usize = 0;
    let ghost buf0 = interpreter@;
    assert(buf0 =~= Seq::new(INTERP_PATH_MAX as nat, |i: int| 0u8));
    let mut index: u16 = 0;
    while index < header.phnum
        invariant
            index <= header.phnum,
            header == header_from(elf@),
            crate::kernel::loader::elf_header_ok(elf@),
            header.ty == ET_EXEC || header.ty == ET_DYN,
            bias_spec(elf@, header, dyn_base) == Ok::<usize, u32>(bias),
            buf0 == Seq::new(INTERP_PATH_MAX as nat, |i: int| 0u8),
            plan_steps(elf@, header, bias, index as int, buf0) == Ok::<
            PlanState, u32>((segments@, lo, hi, phdr, interpreter@, interpreter_len)),
        decreases header.phnum - index,
    {
        match read_header(
            elf,
            header,
            bias,
            index,
            &mut segments,
            &mut lo,
            &mut hi,
            &mut phdr,
            &mut interpreter,
            &mut interpreter_len,
        ) {
            Ok(()) => {},
            Err(e) => {
                proof {
                    lemma_plan_error_stays(elf@, header, bias, index + 1, header.phnum as int, buf0);
                }
                return Err(e);
            },
        }
        index += 1;
    }
    if lo == usize::MAX {
        return Err(ENOEXEC);
    }
    if phdr == 0 && (header.phoff as usize) < elf.len() {
        phdr = (header.phoff as usize).wrapping_add(bias);
    }
    Ok(
        ObjectPlan {
            entry: (header.entry as usize).wrapping_add(bias),
            load_base: bias,
            user_start: lo,
            user_end: hi,
            phdr,
            phnum: header.phnum as usize,
            phent: header.phentsize as usize,
            interpreter,
            interpreter_len,
            segments,
        },
    )
}

/// The interpreter a planned executable asks for, as text: none when it
/// asks for none, `ENOEXEC` when the path is not valid UTF-8.
pub fn interpreter_path(plan: &ObjectPlan) -> (r: Result<Option<&str>, u32>)
    requires
        plan.interpreter_len <= INTERP_PATH_MAX,
    ensures
        plan.interpreter_len == 0 ==> r == Ok::<Option<&str>, u32>(None),
        plan.interpreter_len != 0 && !vstd::utf8::valid_utf8(plan.interpreter@.take(plan.interpreter_len as int))
            ==> r == Err::<Option<&str>, u32>(ENOEXEC),
        plan.interpreter_len != 0 && vstd::utf8::valid_utf8(plan.interpreter@.take(plan.interpreter_len as int))
            ==> (r matches Ok(Some(s)) && s.spec_bytes() == plan.interpreter@.take(plan.interpreter_len as int)),
{
    if plan.interpreter_len == 0 {
        return Ok(None);
    }
    let bytes = vstd::slice::slice_subrange(plan.interpreter.as_slice(), 0, plan.interpreter_len);
    assert(bytes@ =~= plan.interpreter@.take(plan.interpreter_len as int));
    match utf8_text(bytes) {
        Some(s) => Ok(Some(s)),
        None => Err(ENOEXEC),
    }
}

/// What a program placed as `exe`, with the interpreter placed as `interp`
/// when it has one, starts from: the interpreter's entry when there is
/// one, the span of both, and the program break on the page after the
/// executable.
pub fn loaded_image(name: &'static str, exe: &ObjectPlan, interp: Option<&ObjectPlan>) -> (r: LoadedImage)
    requires
        exe.user_end + PAGE_SIZE - 1 <= usize::MAX,
    ensures
        r.name == name,
        r.brk_start.0 == page_end(exe.user_end as int),
        r.phdr.0 == exe.phdr && r.phnum == exe.phnum && r.phent == exe.phent,
        r.executable_entry.0 == exe.entry && r.executable_base.0 == exe.load_base,
        interp is None ==> r.entry.0 == exe.entry && r.user_start.0 == exe.user_start && r.user_end.0 == exe.user_end
            && r.interpreter_base.0 == 0 && r.interpreter_entry.0 == 0,
        interp matches Some(i) ==> {
            &&& r.entry.0 == i.entry
            &&& r.user_start.0 == (if i.user_start < exe.user_start { i.user_start } else { exe.user_start })
            &&& r.user_end.0 == (if i.user_end > exe.user_end { i.user_end } else { exe.user_end })
            &&& r.interpreter_base.0 == i.load_base && r.interpreter_entry.0 == i.entry
        },
{
    let mut loaded = LoadedImage {
        name,
        entry: VirtAddr::new(exe.entry),
        user_start: VirtAddr::new(exe.user_start),
        user_end: VirtAddr::new(exe.user_end),
        brk_start: VirtAddr::new(page_up(exe.user_end)),
        phdr: VirtAddr::new(exe.phdr),
        phnum: exe.phnum,
        phent: exe.phent,
        interpreter_base: VirtAddr::new(0),
        interpreter_entry: VirtAddr::new(0),
        executable_entry: VirtAddr::new(exe.entry),
        executable_base: VirtAddr::new(exe.load_base),
    };
    match interp {
        Some(i) => {
            loaded.entry = VirtAddr::new(i.entry);
            if i.user_start < exe.user_start {
                loaded.user_start = VirtAddr::new(i.user_start);
            }
            if i.user_end > exe.user_end {
                loaded.user_end = VirtAddr::new(i.user_end);
            }
            loaded.interpreter_base = VirtAddr::new(i.load_base);
            loaded.interpreter_entry = VirtAddr::new(i.entry);
        },
        None => {},
    }
    loaded
}

} // verus!
