use vstd::prelude::*;

use crate::kernel::address::VirtAddr;
use crate::kernel::syscall::{EFAULT, ENOEXEC};
use vstd::string::StringSliceAdditionalSpecFns;

verus! {

pub const USER_LOAD_BASE: usize = 0x0010_0000;
pub const INTERP_LOAD_BASE: usize = 0x1000_0000;
pub const AT_NULL: u32 = 0;
pub const AT_PHDR: u32 = 3;
pub const AT_PHENT: u32 = 4;
pub const AT_PHNUM: u32 = 5;
pub const AT_PAGESZ: u32 = 6;
pub const AT_BASE: u32 = 7;
pub const AT_ENTRY: u32 = 9;
pub const AT_FLAGS: u32 = 8;
pub const AT_UID: u32 = 11;
pub const AT_EUID: u32 = 12;
pub const AT_GID: u32 = 13;
pub const AT_EGID: u32 = 14;
pub const AT_HWCAP: u32 = 16;
pub const AT_CLKTCK: u32 = 17;
pub const AT_SECURE: u32 = 23;
pub const AT_RANDOM: u32 = 25;
pub const AT_HWCAP2: u32 = 26;
pub const AT_EXECFN: u32 = 31;
pub const AT_PLATFORM: u32 = 15;
pub const AT_BASE_PLATFORM: u32 = 24;
pub const AT_SYSINFO_EHDR: u32 = 33;
/// The ARMv7 capabilities reported to user space: SWP, HALF, THUMB,
/// FAST_MULT, VFP, EDSP, NEON, VFPv3, VFPv3D16, TLS, VFPv4, IDIVA, IDIVT.
pub const ARM_HWCAP_ARMV7: u32 = 520407;

pub const MAX_INIT_ARGS: usize = 8;
pub const MAX_INIT_ENVS: usize = 8;
pub const INIT_ARG_LEN: usize = 96;

pub const PT_LOAD: u32 = 1;
pub const PT_DYNAMIC: u32 = 2;
pub const PT_INTERP: u32 = 3;
pub const PT_PHDR: u32 = 6;
pub const ET_EXEC: u16 = 2;
pub const ET_DYN: u16 = 3;
pub const PF_X: u32 = 1;
pub const PF_W: u32 = 2;
pub const INTERP_PATH_MAX: usize = 96;
pub const ELF_HEADER_LEN: usize = 52;
pub const PROGRAM_HEADER_LEN: usize = 32;

/// The program linked into the kernel image: where its entry, text and
/// read-only data lie.
#[derive(Clone, Copy, Debug)]
pub struct UserImage {
    pub name: &'static str,
    pub entry: VirtAddr,
    pub text_start: VirtAddr,
    pub text_end: VirtAddr,
    pub rodata_start: VirtAddr,
    pub rodata_end: VirtAddr,
}

impl UserImage {
    pub fn user_start(self) -> (r: VirtAddr)
        ensures
            r == self.text_start,
    {
        self.text_start
    }

    pub fn user_end(self) -> (r: VirtAddr)
        ensures
            r == self.rodata_end,
    {
        self.rodata_end
    }
}

/// The built-in init program, at the addresses the linker gave its symbols.
pub fn builtin_init_image(
    entry: usize,
    text_start: usize,
    text_end: usize,
    rodata_start: usize,
    rodata_end: usize,
) -> (r: UserImage)
    ensures
        r.name@ == "builtin-init"@,
        r.entry.0 == entry && r.text_start.0 == text_start && r.text_end.0 == text_end,
        r.rodata_start.0 == rodata_start && r.rodata_end.0 == rodata_end,
{
    UserImage {
        name: "builtin-init",
        entry: VirtAddr::new(entry),
        text_start: VirtAddr::new(text_start),
        text_end: VirtAddr::new(text_end),
        rodata_start: VirtAddr::new(rodata_start),
        rodata_end: VirtAddr::new(rodata_end),
    }
}

/// What a loaded program and its interpreter need to start.
#[derive(Clone, Copy, Debug)]
pub struct LoadedImage {
    pub name: &'static str,
    pub entry: VirtAddr,
    pub user_start: VirtAddr,
    pub user_end: VirtAddr,
    pub brk_start: VirtAddr,
    pub phdr: VirtAddr,
    pub phnum: usize,
    pub phent: usize,
    pub interpreter_base: VirtAddr,
    pub interpreter_entry: VirtAddr,
    pub executable_entry: VirtAddr,
    pub executable_base: VirtAddr,
}

/// The stack pointer a new program starts with.
#[derive(Clone, Copy, PartialEq, Eq, Structural, Debug)]
pub struct InitialStack {
    pub sp: usize,
}

/// A program argument or environment string of fewer than `INIT_ARG_LEN` bytes.
#[derive(Clone, Copy, Debug)]
pub struct UserArg {
    pub bytes: [u8; INIT_ARG_LEN],
    pub len: usize,
}

impl UserArg {
    pub open spec fn wf(&self) -> bool {
        self.len < INIT_ARG_LEN
    }

    pub open spec fn text(&self) -> Seq<u8> {
        self.bytes@.subrange(0, self.len as int)
    }

    pub fn empty() -> (r: Self)
        ensures
            r.wf(),
            r.len == 0,
    {
        UserArg { bytes: [0u8; INIT_ARG_LEN], len: 0 }
    }

    /// The first `INIT_ARG_LEN - 1` bytes of `bytes`, at most.
    pub fn from_bytes(bytes: &[u8]) -> (r: Self)
        ensures
            r.wf(),
            r.text() == bytes@.take(if bytes@.len() < INIT_ARG_LEN - 1 {
                bytes@.len() as int
            } else {
                INIT_ARG_LEN - 1
            }),
    {
        let mut arg = UserArg::empty();
        let n = if bytes.len() < INIT_ARG_LEN - 1 {
            bytes.len()
        } else {
            INIT_ARG_LEN - 1
        };
        let mut i: usize = 0;
        while i < n
            invariant
                i <= n < INIT_ARG_LEN,
                n <= bytes@.len(),
                forall|j: int| 0 <= j < i ==> arg.bytes@[j] == bytes@[j],
            decreases n - i,
        {
            arg.bytes[i] = bytes[i];
            i += 1;
        }
        arg.len = n;
        assert(arg.text() =~= bytes@.take(n as int));
        arg
    }

    pub fn as_bytes(&self) -> (r: &[u8])
        requires
            self.wf(),
        ensures
            r@ == self.text(),
    {
        vstd::slice::slice_subrange(self.bytes.as_slice(), 0, self.len)
    }
}

/// The little-endian 16-bit value at byte `i` of `s`.
pub open spec fn le16_at(s: Seq<u8>, i: int) -> int {
    s[i] + s[i + 1] * 256
}

/// The little-endian 32-bit value at byte `i` of `s`.
pub open spec fn le32_at(s: Seq<u8>, i: int) -> int {
    s[i] + s[i + 1] * 0x100 + s[i + 2] * 0x10000 + s[i + 3] * 0x1000000
}

pub fn read_le16(b: &[u8], i: usize) -> (r: u16)
    requires
        i + 2 <= b@.len(),
    ensures
        r == le16_at(b@, i as int),
{
    b[i] as u16 + (b[i + 1] as u16) * 256
}

pub fn read_le32(b: &[u8], i: usize) -> (r: u32)
    requires
        i + 4 <= b@.len(),
    ensures
        r == le32_at(b@, i as int),
{
    b[i] as u32 + (b[i + 1] as u32) * 0x100 + (b[i + 2] as u32) * 0x10000 + (b[i + 3] as u32) * 0x1000000
}

/// The fields of a 32-bit ELF file header.
#[derive(Clone, Copy, PartialEq, Eq, Structural, Debug)]
pub struct ElfHeader {
    pub ty: u16,
    pub machine: u16,
    pub version: u32,
    pub entry: u32,
    pub phoff: u32,
    pub shoff: u32,
    pub flags: u32,
    pub ehsize: u16,
    pub phentsize: u16,
    pub phnum: u16,
    pub shentsize: u16,
    pub shnum: u16,
    pub shstrndx: u16,
}

/// A 32-bit little-endian ARM executable header with program headers of the
/// size this loader reads.
pub open spec fn elf_header_ok(s: Seq<u8>) -> bool {
    &&& s.len() >= ELF_HEADER_LEN
    &&& s[0] == 0x7f && s[1] == 0x45 && s[2] == 0x4c && s[3] == 0x46
    &&& s[4] == 1 && s[5] == 1
    &&& le16_at(s, 18) == 40
    &&& le16_at(s, 42) == PROGRAM_HEADER_LEN
}

impl ElfHeader {
    /// The header that bytes `s` hold.
    pub open spec fn read_from(self, s: Seq<u8>) -> bool {
        &&& self.ty == le16_at(s, 16)
        &&& self.machine == le16_at(s, 18)
        &&& self.version == le32_at(s, 20)
        &&& self.entry == le32_at(s, 24)
        &&& self.phoff == le32_at(s, 28)
        &&& self.shoff == le32_at(s, 32)
        &&& self.flags == le32_at(s, 36)
        &&& self.ehsize == le16_at(s, 40)
        &&& self.phentsize == le16_at(s, 42)
        &&& self.phnum == le16_at(s, 44)
        &&& self.shentsize == le16_at(s, 46)
        &&& self.shnum == le16_at(s, 48)
        &&& self.shstrndx == le16_at(s, 50)
    }

    /// Reads the header of a 32-bit little-endian ARM executable.
    pub fn parse(bytes: &[u8]) -> (r: Option<ElfHeader>)
        ensures
            r is Some <==> elf_header_ok(bytes@),
            r matches Some(h) ==> h.read_from(bytes@),
    {
        if bytes.len() < ELF_HEADER_LEN {
            return None;
        }
        if bytes[0] != 0x7f || bytes[1] != 0x45 || bytes[2] != 0x4c || bytes[3] != 0x46 {
            return None;
        }
        if bytes[4] != 1 || bytes[5] != 1 {
            return None;
        }
        let machine = read_le16(bytes, 18);
        let phentsize = read_le16(bytes, 42);
        if machine != 40 || phentsize as usize != PROGRAM_HEADER_LEN {
            return None;
        }
        Some(ElfHeader {
            ty: read_le16(bytes, 16),
            machine,
            version: read_le32(bytes, 20),
            entry: read_le32(bytes, 24),
            phoff: read_le32(bytes, 28),
            shoff: read_le32(bytes, 32),
            flags: read_le32(bytes, 36),
            ehsize: read_le16(bytes, 40),
            phentsize,
            phnum: read_le16(bytes, 44),
            shentsize: read_le16(bytes, 46),
            shnum: read_le16(bytes, 48),
            shstrndx: read_le16(bytes, 50),
        })
    }
}

/// The fields of a 32-bit ELF program header.
#[derive(Clone, Copy, PartialEq, Eq, Structural, Debug)]
pub struct ProgramHeader {
    pub p_type: u32,
    pub offset: u32,
    pub vaddr: u32,
    pub paddr: u32,
    pub filesz: u32,
    pub memsz: u32,
    pub flags: u32,
    pub align: u32,
}

impl ProgramHeader {
    /// The program header that bytes `s` hold from `at`.
    pub open spec fn read_from(self, s: Seq<u8>, at: int) -> bool {
        &&& self.p_type == le32_at(s, at)
        &&& self.offset == le32_at(s, at + 4)
        &&& self.vaddr == le32_at(s, at + 8)
        &&& self.paddr == le32_at(s, at + 12)
        &&& self.filesz == le32_at(s, at + 16)
        &&& self.memsz == le32_at(s, at + 20)
        &&& self.flags == le32_at(s, at + 24)
        &&& self.align == le32_at(s, at + 28)
    }

    /// Reads program header `index` of a table at `phoff` with entries of
    /// `phentsize` bytes; none when it does not lie within `bytes`.
    pub fn parse(bytes: &[u8], phoff: usize, phentsize: u16, index: u16) -> (r: Option<ProgramHeader>)
        ensures
            ({
                let at = phoff + index * phentsize;
                &&& r is Some <==> at + PROGRAM_HEADER_LEN <= bytes@.len()
                &&& r matches Some(h) ==> h.read_from(bytes@, at)
            }),
    {
        assert(index * phentsize <= 0xffff * 0xffff) by (nonlinear_arith)
            requires
                index <= 0xffff,
                phentsize <= 0xffff,
        ;
        let blen = bytes.len();
        assert(blen == bytes@.len());
        let step = index as usize * phentsize as usize;
        let start = match phoff.checked_add(step) {
            Some(s) => s,
            None => {
                return None;
            },
        };
        let end = match start.checked_add(PROGRAM_HEADER_LEN) {
            Some(e) => e,
            None => {
                return None;
            },
        };
        if end > bytes.len() {
            return None;
        }
        Some(ProgramHeader {
            p_type: read_le32(bytes, start),
            offset: read_le32(bytes, start + 4),
            vaddr: read_le32(bytes, start + 8),
            paddr: read_le32(bytes, start + 12),
            filesz: read_le32(bytes, start + 16),
            memsz: read_le32(bytes, start + 20),
            flags: read_le32(bytes, start + 24),
            align: read_le32(bytes, start + 28),
        })
    }
}

/// Where program header `i` of `h` starts.
pub open spec fn ph_at(h: ElfHeader, i: int) -> int {
    h.phoff + i * h.phentsize
}

/// Every program header of `h` lies within `s`.
pub open spec fn headers_present(s: Seq<u8>, h: ElfHeader) -> bool {
    forall|i: int| 0 <= i < h.phnum ==> #[trigger] ph_at(h, i) + PROGRAM_HEADER_LEN <= s.len()
}

/// The lowest virtual address of a non-empty loadable segment, over the
/// first `n` program headers.
pub open spec fn lowest_load(s: Seq<u8>, h: ElfHeader, n: int) -> int
    decreases n,
{
    if n <= 0 {
        usize::MAX as int
    } else {
        let at = ph_at(h, n - 1);
        let prev = lowest_load(s, h, n - 1);
        if le32_at(s, at) == PT_LOAD && le32_at(s, at + 20) != 0 && le32_at(s, at + 8) < prev {
            le32_at(s, at + 8)
        } else {
            prev
        }
    }
}

/// The lowest virtual address any non-empty loadable segment asks for;
/// `ENOEXEC` when a program header is cut off or there is no such segment.
pub fn lowest_load_vaddr(elf: &[u8], header: ElfHeader) -> (r: Result<usize, u32>)
    ensures
        !headers_present(elf@, header) ==> r == Err::<usize, u32>(ENOEXEC),
        headers_present(elf@, header) ==> r == if lowest_load(elf@, header, header.phnum as int) == usize::MAX {
            Err::<usize, u32>(ENOEXEC)
        } else {
            Ok(lowest_load(elf@, header, header.phnum as int) as usize)
        },
{
    let mut lowest = usize::MAX;
    let mut index: u16 = 0;
    while index < header.phnum
        invariant
            index <= header.phnum,
            lowest == lowest_load(elf@, header, index as int),
            forall|i: int| 0 <= i < index ==> #[trigger] ph_at(header, i) + PROGRAM_HEADER_LEN <= elf@.len(),
        decreases header.phnum - index,
    {
        let ph = match ProgramHeader::parse(elf, header.phoff as usize, header.phentsize, index) {
            Some(ph) => ph,
            None => {
                assert(!(ph_at(header, index as int) + PROGRAM_HEADER_LEN <= elf@.len()));
                return Err(ENOEXEC);
            },
        };
        assert(ph.read_from(elf@, ph_at(header, index as int)));
        if ph.p_type == PT_LOAD && ph.memsz != 0 && (ph.vaddr as usize) < lowest {
            lowest = ph.vaddr as usize;
        }
        index += 1;
    }
    if lowest == usize::MAX {
        Err(ENOEXEC)
    } else {
        Ok(lowest)
    }
}

/// The index of the first zero byte of `s`, or its length.
pub open spec fn nul_index(s: Seq<u8>) -> int
    decreases s.len(),
{
    if s.len() == 0 {
        0
    } else if s[0] == 0 {
        0
    } else {
        1 + nul_index(s.drop_first())
    }
}

/// Copies the interpreter path of program header `ph` into `out` and
/// returns its length; `ENOEXEC` when the path is cut off, empty, or too long.
pub fn read_interp(elf: &[u8], ph: ProgramHeader, out: &mut [u8; INTERP_PATH_MAX]) -> (r: Result<usize, u32>)
    ensures
        ({
            let start = ph.offset as int;
            let end = start + ph.filesz;
            if end > elf@.len() || ph.filesz == 0 {
                r == Err::<usize, u32>(ENOEXEC) && final(out)@ == old(out)@
            } else {
                let raw = elf@.subrange(start, end);
                let n = nul_index(raw);
                if n == 0 || n >= INTERP_PATH_MAX {
                    r == Err::<usize, u32>(ENOEXEC) && final(out)@ == old(out)@
                } else {
                    r is Ok && r->Ok_0 == n && final(out)@ == raw.take(n) + old(out)@.skip(n)
                }
            }
        }),
{
    let start = ph.offset as usize;
    let total = elf.len();
    assert(total == elf@.len());
    let end = match start.checked_add(ph.filesz as usize) {
        Some(e) => e,
        None => {
            return Err(ENOEXEC);
        },
    };
    if end > elf.len() || ph.filesz == 0 {
        return Err(ENOEXEC);
    }
    let ghost raw = elf@.subrange(start as int, end as int);
    assert(raw.skip(0) =~= raw);
    let mut len: usize = 0;
    while start + len < end && elf[start + len] != 0
        invariant
            start + len <= end <= elf@.len(),
            raw == elf@.subrange(start as int, end as int),
            nul_index(raw) == len + nul_index(raw.skip(len as int)),
        decreases end - start - len,
    {
        assert(raw.skip(len as int).drop_first() =~= raw.skip(len + 1));
        len += 1;
    }
    proof {
        if start + len < end {
            assert(raw.skip(len as int)[0] == 0);
        } else {
            assert(raw.skip(len as int).len() == 0);
        }
        assert(nul_index(raw.skip(len as int)) == 0);
        assert(nul_index(raw) == len as int);
    }
    if len == 0 || len >= INTERP_PATH_MAX {
        return Err(ENOEXEC);
    }
    let ghost o = out@;
    let elf_len = elf.len();
    let mut i: usize = 0;
    while i < len
        invariant
            i <= len < INTERP_PATH_MAX,
            elf_len == elf@.len(),
            start + len <= end <= elf@.len(),
            raw == elf@.subrange(start as int, end as int),
            nul_index(raw) == len as int,
            o == old(out)@,
            forall|j: int| 0 <= j < i ==> out@[j] == elf@[start + j],
            forall|j: int| i <= j < INTERP_PATH_MAX ==> out@[j] == o[j],
        decreases len - i,
    {
        out[i] = elf[start + i];
        i += 1;
    }
    assert(out@ =~= raw.take(len as int) + o.skip(len as int));
    Ok(len)
}

/// The bytes the strings of the first `n` of `s` take, each with its zero.
pub open spec fn strings_size(s: Seq<UserArg>, n: int) -> int
    decreases n,
{
    if n <= 0 {
        0
    } else {
        strings_size(s, n - 1) + s[n - 1].len + 1
    }
}

pub open spec fn at_most(n: int, m: int) -> int {
    if n < m {
        n
    } else {
        m
    }
}

/// Where the stack pointer stands once the strings and the random bytes are down.
pub open spec fn strings_bottom(top: int, execfn_len: int, argv: Seq<UserArg>, envp: Seq<UserArg>) -> int {
    let argc = at_most(argv.len() as int, MAX_INIT_ARGS as int);
    let envc = at_most(envp.len() as int, MAX_INIT_ENVS as int);
    top - 1 - execfn_len - 8 - strings_size(envp, envc) - strings_size(argv, argc) - 16
}

/// The stack pointer of the new program is word aligned and below the top.
pub proof fn lemma_initial_sp_aligned(top: int, execfn_len: int, argv: Seq<UserArg>, envp: Seq<UserArg>)
    requires
        execfn_len >= 0,
    ensures
        initial_sp(top, execfn_len, argv, envp) % 4 == 0,
        initial_sp(top, execfn_len, argv, envp) < top,
{
    let argc = at_most(argv.len() as int, MAX_INIT_ARGS as int);
    let envc = at_most(envp.len() as int, MAX_INIT_ENVS as int);
    lemma_strings_size_nonneg(envp, envc);
    lemma_strings_size_nonneg(argv, argc);
    let sb = strings_bottom(top, execfn_len, argv, envp);
    let a = sb - sb % 16;
    assert(a % 16 == 0) by (nonlinear_arith)
        requires
            a == sb - sb % 16,
    ;
    assert((a - 168 - 4 * (3 + envc + argc)) % 4 == 0) by (nonlinear_arith)
        requires
            a % 16 == 0,
    ;
}

/// Where the stack pointer of the new program stands.
pub open spec fn initial_sp(top: int, execfn_len: int, argv: Seq<UserArg>, envp: Seq<UserArg>) -> int {
    let argc = at_most(argv.len() as int, MAX_INIT_ARGS as int);
    let envc = at_most(envp.len() as int, MAX_INIT_ENVS as int);
    let s = strings_bottom(top, execfn_len, argv, envp);
    (s - s % 16) - 168 - 4 * (3 + envc + argc)
}

/// The stack of `stack_phys` bytes at `stack_bottom` with `bytes` written
/// from `sp` down.
pub open spec fn pushed(old_stack: Seq<u8>, stack_bottom: int, sp: int, bytes: Seq<u8>) -> Seq<u8> {
    old_stack.subrange(0, sp - stack_bottom) + bytes + old_stack.skip(sp - stack_bottom + bytes.len())
}

/// Pushes `bytes` below `sp` onto the stack whose memory `stack` starts at
/// `stack_bottom`; `EFAULT` when they do not fit above the bottom.
fn push_bytes(stack: &mut [u8], stack_bottom: usize, sp: usize, bytes: &[u8]) -> (r: Result<usize, u32>)
    requires
        stack_bottom <= sp <= stack_bottom + old(stack)@.len(),
    ensures
        sp - bytes@.len() < stack_bottom ==> r == Err::<usize, u32>(EFAULT) && final(stack)@ == old(stack)@,
        sp - bytes@.len() >= stack_bottom ==> r == Ok::<usize, u32>((sp - bytes@.len()) as usize) && final(stack)@
            == pushed(old(stack)@, stack_bottom as int, sp - bytes@.len(), bytes@),
{
    if sp < bytes.len() || sp - bytes.len() < stack_bottom {
        return Err(EFAULT);
    }
    let new_sp = sp - bytes.len();
    crate::kernel::net::copy_into(stack, new_sp - stack_bottom, bytes);
    Ok(new_sp)
}

/// The little-endian bytes of `v`.
pub open spec fn le32_bytes(v: u32) -> Seq<u8> {
    seq![(v % 0x100) as u8, ((v / 0x100) % 0x100) as u8, ((v / 0x10000) % 0x100) as u8, (v / 0x1000000) as u8]
}

/// An auxiliary vector entry: its key word, then its value word.
pub open spec fn aux_pair(key: u32, value: u32) -> Seq<u8> {
    le32_bytes(key) + le32_bytes(value)
}

/// The auxiliary vector as it lies in memory, from `AT_PHDR` at its low
/// end up to the `AT_NULL` end marker.
#[verifier::opaque]
pub open spec fn aux_image(execfn_user: u32, random_user: u32, platform_user: u32, base_platform_user: u32, entry: u32, base: u32, phnum: u32, phent: u32, phdr: u32) -> Seq<u8> {
    aux_pair(AT_PHDR, phdr) + (
    aux_pair(AT_PHENT, phent) + (
    aux_pair(AT_PHNUM, phnum) + (
    aux_pair(AT_PAGESZ, 4096) + (
    aux_pair(AT_BASE, base) + (
    aux_pair(AT_FLAGS, 0) + (
    aux_pair(AT_ENTRY, entry) + (
    aux_pair(AT_UID, 0) + (
    aux_pair(AT_EUID, 0) + (
    aux_pair(AT_GID, 0) + (
    aux_pair(AT_EGID, 0) + (
    aux_pair(AT_HWCAP, ARM_HWCAP_ARMV7) + (
    aux_pair(AT_PLATFORM, platform_user) + (
    aux_pair(AT_CLKTCK, 100) + (
    aux_pair(AT_BASE_PLATFORM, base_platform_user) + (
    aux_pair(AT_RANDOM, random_user) + (
    aux_pair(AT_SECURE, 0) + (
    aux_pair(AT_HWCAP2, 0) + (
    aux_pair(AT_EXECFN, execfn_user) + (
    aux_pair(AT_SYSINFO_EHDR, 0) + (
    aux_pair(AT_NULL, 0)))))))))))))))))))))
}

proof fn lemma_concat_assoc(a: Seq<u8>, b: Seq<u8>, c: Seq<u8>)
    ensures
        a + (b + c) == (a + b) + c,
{
    assert(a + (b + c) =~= (a + b) + c);
}

/// The strings `args[lo..hi]`, each followed by a zero byte.
#[verifier::opaque]
pub open spec fn strings_image(args: Seq<UserArg>, lo: int, hi: int) -> Seq<u8>
    decreases hi - lo,
{
    if lo >= hi {
        Seq::empty()
    } else {
        args[lo].text() + seq![0u8] + strings_image(args, lo + 1, hi)
    }
}

/// The words `ptrs[lo..hi]`, each as a little-endian 32-bit value.
#[verifier::opaque]
pub open spec fn words_image(ptrs: Seq<usize>, lo: int, hi: int) -> Seq<u8>
    decreases hi - lo,
{
    if lo >= hi {
        Seq::empty()
    } else {
        le32_bytes(ptrs[lo] as u32) + words_image(ptrs, lo + 1, hi)
    }
}

/// Pushes the word `value` below `sp`; `EFAULT` when it does not fit.
fn push_word(sp: usize, value: u32, stack: &mut [u8], stack_bottom: usize) -> (r: Result<usize, u32>)
    requires
        stack_bottom <= sp <= stack_bottom + old(stack)@.len(),
    ensures
        sp - 4 < stack_bottom ==> r == Err::<usize, u32>(EFAULT) && final(stack)@ == old(stack)@,
        sp - 4 >= stack_bottom ==> r == Ok::<usize, u32>((sp - 4) as usize) && final(stack)@ == pushed(
            old(stack)@,
            stack_bottom as int,
            sp - 4,
            le32_bytes(value),
        ),
{
    let word = [(value % 0x100) as u8, ((value / 0x100) % 0x100) as u8, ((value / 0x10000) % 0x100) as u8, (value
        / 0x1000000) as u8];
    assert(word@ =~= le32_bytes(value));
    push_bytes(stack, stack_bottom, sp, word.as_slice())
}

/// Pushes an auxiliary vector entry: the value, then the key below it.
fn push_auxv(sp: usize, key: u32, value: u32, stack: &mut [u8], stack_bottom: usize) -> (r: Result<usize, u32>)
    requires
        stack_bottom <= sp <= stack_bottom + old(stack)@.len(),
    ensures
        sp - 8 < stack_bottom ==> r is Err && r->Err_0 == EFAULT,
        sp - 8 >= stack_bottom ==> r == Ok::<usize, u32>((sp - 8) as usize) && final(stack)@ == pushed(
            pushed(old(stack)@, stack_bottom as int, sp - 4, le32_bytes(value)),
            stack_bottom as int,
            sp - 8,
            le32_bytes(key),
        ),
        final(stack)@.len() == old(stack)@.len(),
        final(stack)@.subrange(0, (sp - 8) - stack_bottom) == old(stack)@.subrange(0, (sp - 8) - stack_bottom)
            || sp - 8 < stack_bottom,
{
    let sp = push_word(sp, value, stack, stack_bottom)?;
    push_word(sp, key, stack, stack_bottom)
}

proof fn lemma_le32_roundtrip(v: u32)
    ensures
        le32_at(le32_bytes(v), 0) == v,
{
    let b = le32_bytes(v);
    let x = v as int;
    assert(x == x % 0x100 + 0x100 * ((x / 0x100) % 0x100) + 0x10000 * ((x / 0x10000) % 0x100) + 0x1000000 * (x
        / 0x1000000)) by (nonlinear_arith)
        requires
            0 <= x < 0x1_0000_0000,
    ;
}

proof fn lemma_pushed_keeps_below(s: Seq<u8>, bottom: int, sp: int, bytes: Seq<u8>, keep: int)
    requires
        bottom <= sp,
        sp - bottom + bytes.len() <= s.len(),
        0 <= keep <= sp - bottom,
    ensures
        pushed(s, bottom, sp, bytes).subrange(0, keep) == s.subrange(0, keep),
        pushed(s, bottom, sp, bytes).len() == s.len(),
{
    assert(pushed(s, bottom, sp, bytes).subrange(0, keep) =~= s.subrange(0, keep));
}

proof fn lemma_strings_size_step(s: Seq<UserArg>, n: int)
    requires
        n > 0,
    ensures
        strings_size(s, n) == strings_size(s, n - 1) + s[n - 1].len + 1,
{
}

proof fn lemma_strings_size_nonneg(s: Seq<UserArg>, n: int)
    ensures
        strings_size(s, n) >= 0,
        forall|m: int| 0 <= m <= n ==> strings_size(s, m) <= strings_size(s, n),
    decreases n,
{
    if n > 0 {
        lemma_strings_size_nonneg(s, n - 1);
    }
}

/// `push_bytes` with the distance `rem` from `sp` down to the final stack
/// pointer `f` carried along, and the memory below `sp` kept as in `o`.
fn push_tracked(
    stack: &mut [u8],
    stack_bottom: usize,
    sp: usize,
    bytes: &[u8],
    Ghost(rem): Ghost<int>,
    Ghost(f): Ghost<int>,
    Ghost(o): Ghost<Seq<u8>>,
) -> (r: Result<usize, u32>)
    requires
        stack_bottom <= sp <= stack_bottom + old(stack)@.len(),
        old(stack)@.len() == o.len(),
        f == sp - rem,
        rem >= bytes@.len(),
        old(stack)@.subrange(0, sp - stack_bottom) == o.subrange(0, sp - stack_bottom),
    ensures
        final(stack)@.len() == o.len(),
        r is Err ==> r->Err_0 == EFAULT && f < stack_bottom,
        r is Ok ==> {
            &&& r->Ok_0 == sp - bytes@.len()
            &&& stack_bottom <= r->Ok_0
            &&& f == r->Ok_0 - (rem - bytes@.len())
            &&& final(stack)@.subrange(0, r->Ok_0 - stack_bottom) == o.subrange(0, r->Ok_0 - stack_bottom)
            &&& final(stack)@ == pushed(old(stack)@, stack_bottom as int, r->Ok_0 as int, bytes@)
            &&& final(stack)@.skip(r->Ok_0 - stack_bottom) == bytes@ + old(stack)@.skip(sp - stack_bottom)
        },
{
    let ghost s0 = stack@;
    let r = push_bytes(stack, stack_bottom, sp, bytes);
    proof {
        if r is Ok {
            let nsp = (sp - bytes@.len()) as int;
            assert(stack@.skip(nsp - stack_bottom) =~= bytes@ + s0.skip(sp - stack_bottom));
            lemma_pushed_keeps_below(s0, stack_bottom as int, nsp, bytes@, nsp - stack_bottom);
            assert forall|k: int| 0 <= k < nsp - stack_bottom implies s0[k] == o[k] by {
                assert(s0.subrange(0, sp - stack_bottom)[k] == s0[k]);
                assert(o.subrange(0, sp - stack_bottom)[k] == o[k]);
            }
            assert(s0.subrange(0, nsp - stack_bottom) =~= o.subrange(0, nsp - stack_bottom));
        }
    }
    r
}

/// `push_word` with the same bookkeeping as `push_tracked`.
fn push_word_tracked(
    stack: &mut [u8],
    stack_bottom: usize,
    sp: usize,
    value: u32,
    Ghost(rem): Ghost<int>,
    Ghost(f): Ghost<int>,
    Ghost(o): Ghost<Seq<u8>>,
) -> (r: Result<usize, u32>)
    requires
        stack_bottom <= sp <= stack_bottom + old(stack)@.len(),
        old(stack)@.len() == o.len(),
        f == sp - rem,
        rem >= 4,
        old(stack)@.subrange(0, sp - stack_bottom) == o.subrange(0, sp - stack_bottom),
    ensures
        final(stack)@.len() == o.len(),
        r is Err ==> r->Err_0 == EFAULT && f < stack_bottom,
        r is Ok ==> {
            &&& r->Ok_0 == sp - 4
            &&& stack_bottom <= r->Ok_0
            &&& f == r->Ok_0 - (rem - 4)
            &&& final(stack)@.subrange(0, r->Ok_0 - stack_bottom) == o.subrange(0, r->Ok_0 - stack_bottom)
            &&& final(stack)@ == pushed(old(stack)@, stack_bottom as int, r->Ok_0 as int, le32_bytes(value))
            &&& final(stack)@.skip(r->Ok_0 - stack_bottom) == le32_bytes(value) + old(stack)@.skip(sp - stack_bottom)
        },
{
    let word = [(value % 0x100) as u8, ((value / 0x100) % 0x100) as u8, ((value / 0x10000) % 0x100) as u8, (value
        / 0x1000000) as u8];
    assert(word@ =~= le32_bytes(value));
    push_tracked(stack, stack_bottom, sp, word.as_slice(), Ghost(rem), Ghost(f), Ghost(o))
}

/// `push_auxv` with the same bookkeeping as `push_tracked`.
fn push_auxv_tracked(
    stack: &mut [u8],
    stack_bottom: usize,
    sp: usize,
    key: u32,
    value: u32,
    Ghost(rem): Ghost<int>,
    Ghost(f): Ghost<int>,
    Ghost(o): Ghost<Seq<u8>>,
) -> (r: Result<usize, u32>)
    requires
        stack_bottom <= sp <= stack_bottom + old(stack)@.len(),
        old(stack)@.len() == o.len(),
        f == sp - rem,
        rem >= 8,
        old(stack)@.subrange(0, sp - stack_bottom) == o.subrange(0, sp - stack_bottom),
    ensures
        final(stack)@.len() == o.len(),
        r is Err ==> r->Err_0 == EFAULT && f < stack_bottom,
        r is Ok ==> {
            &&& r->Ok_0 == sp - 8
            &&& stack_bottom <= r->Ok_0
            &&& f == r->Ok_0 - (rem - 8)
            &&& final(stack)@.subrange(0, r->Ok_0 - stack_bottom) == o.subrange(0, r->Ok_0 - stack_bottom)
            &&& final(stack)@.skip(r->Ok_0 - stack_bottom) == aux_pair(key, value) + old(stack)@.skip(sp - stack_bottom)
        },
{
    let ghost s0 = stack@;
    let sp1 = push_word_tracked(stack, stack_bottom, sp, value, Ghost(rem), Ghost(f), Ghost(o))?;
    let r = push_word_tracked(stack, stack_bottom, sp1, key, Ghost(rem - 4), Ghost(f), Ghost(o));
    proof {
        if r is Ok {
            assert(aux_pair(key, value) + s0.skip(sp - stack_bottom) =~= le32_bytes(key) + (le32_bytes(value) + s0.skip(
                sp - stack_bottom,
            )));
        }
    }
    r
}

/// Pushes the strings of the first `count` of `args`, last first, each
/// with its terminating zero, and hands back where each one starts.
fn push_string_table(
    stack: &mut [u8],
    stack_bottom: usize,
    sp: usize,
    args: &[UserArg],
    count: usize,
    Ghost(rem): Ghost<int>,
    Ghost(f): Ghost<int>,
    Ghost(o): Ghost<Seq<u8>>,
) -> (r: Result<(usize, [usize; 8]), u32>)
    requires
        count <= 8,
        count <= args@.len(),
        forall|i: int| 0 <= i < args@.len() ==> (#[trigger] args@[i]).wf(),
        stack_bottom <= sp <= stack_bottom + old(stack)@.len(),
        old(stack)@.len() == o.len(),
        f == sp - rem,
        rem >= strings_size(args@, count as int),
        old(stack)@.subrange(0, sp - stack_bottom) == o.subrange(0, sp - stack_bottom),
    ensures
        final(stack)@.len() == o.len(),
        r is Err ==> r->Err_0 == EFAULT && f < stack_bottom,
        r is Ok ==> {
            &&& r->Ok_0.0 == sp - strings_size(args@, count as int)
            &&& stack_bottom <= r->Ok_0.0
            &&& final(stack)@.subrange(0, r->Ok_0.0 - stack_bottom) == o.subrange(0, r->Ok_0.0 - stack_bottom)
            &&& final(stack)@.skip(r->Ok_0.0 - stack_bottom) == strings_image(args@, 0, count as int) + old(stack)@.skip(
                sp - stack_bottom,
            )
            &&& forall|i: int| 0 <= i < count ==> r->Ok_0.1@[i] == r->Ok_0.0 + strings_size(args@, i)
        },
{
    let ghost s0 = stack@;
    let mut ptrs: [usize; 8] = [0usize; 8];
    let zero = [0u8];
    assert(zero@.len() == 1);
    let mut cur = sp;
    let ghost mut left: int = rem;
    let mut index = count;
    proof {
        lemma_strings_size_nonneg(args@, count as int);
        reveal(strings_image);
        assert(stack@.skip(cur - stack_bottom) =~= strings_image(args@, index as int, count as int) + s0.skip(sp - stack_bottom));
    }
    while index > 0
        invariant
            index <= count <= 8,
            count <= args@.len(),
            forall|i: int| 0 <= i < args@.len() ==> (#[trigger] args@[i]).wf(),
            stack_bottom <= cur <= sp <= stack_bottom + o.len(),
            stack@.len() == o.len(),
            f == cur - left,
            cur == sp - (strings_size(args@, count as int) - strings_size(args@, index as int)),
            left - strings_size(args@, index as int) == rem - strings_size(args@, count as int),
            rem >= strings_size(args@, count as int),
            zero@.len() == 1 && zero@[0] == 0,
            stack@.subrange(0, cur - stack_bottom) == o.subrange(0, cur - stack_bottom),
            sp - stack_bottom <= s0.len(),
            stack@.skip(cur - stack_bottom) == strings_image(args@, index as int, count as int) + s0.skip(sp - stack_bottom),
            forall|i: int| index <= i < count ==> ptrs@[i] == sp - (strings_size(args@, count as int) - strings_size(args@, i)),
        decreases index,
    {
        index -= 1;
        proof {
            lemma_strings_size_step(args@, index + 1);
            lemma_strings_size_nonneg(args@, index as int);
        }
        let ghost c0 = cur;
        let ghost img = strings_image(args@, index + 1, count as int);
        cur = push_tracked(stack, stack_bottom, cur, zero.as_slice(), Ghost(left), Ghost(f), Ghost(o))?;
        proof {
            left = left - 1;
        }
        let text = args[index].as_bytes();
        cur = push_tracked(stack, stack_bottom, cur, text, Ghost(left), Ghost(f), Ghost(o))?;
        proof {
            left = left - text@.len();
            reveal(strings_image);
            assert(strings_image(args@, index as int, count as int) == args@[index as int].text() + seq![0u8] + img);
            assert(stack@.skip(cur - stack_bottom) =~= strings_image(args@, index as int, count as int) + s0.skip(
                sp - stack_bottom,
            ));
        }
        ptrs[index] = cur;
    }
    proof {
        assert forall|i: int| 0 <= i < count implies ptrs@[i] == cur + strings_size(args@, i) by {}
    }
    Ok((cur, ptrs))
}

/// Pushes the first `count` of `ptrs`, last first, as words.
fn push_pointer_table(
    stack: &mut [u8],
    stack_bottom: usize,
    sp: usize,
    ptrs: [usize; 8],
    count: usize,
    Ghost(rem): Ghost<int>,
    Ghost(f): Ghost<int>,
    Ghost(o): Ghost<Seq<u8>>,
) -> (r: Result<usize, u32>)
    requires
        count <= 8,
        stack_bottom <= sp <= stack_bottom + old(stack)@.len(),
        old(stack)@.len() == o.len(),
        f == sp - rem,
        rem >= 4 * count,
        old(stack)@.subrange(0, sp - stack_bottom) == o.subrange(0, sp - stack_bottom),
    ensures
        final(stack)@.len() == o.len(),
        r is Err ==> r->Err_0 == EFAULT && f < stack_bottom,
        r is Ok ==> {
            &&& r->Ok_0 == sp - 4 * count
            &&& stack_bottom <= r->Ok_0
            &&& final(stack)@.subrange(0, r->Ok_0 - stack_bottom) == o.subrange(0, r->Ok_0 - stack_bottom)
            &&& final(stack)@.skip(r->Ok_0 - stack_bottom) == words_image(ptrs@, 0, count as int) + old(stack)@.skip(
                sp - stack_bottom,
            )
        },
{
    let ghost s0 = stack@;
    let mut cur = sp;
    let ghost mut left: int = rem;
    let mut index = count;
    proof {
        reveal(words_image);
        assert(stack@.skip(cur - stack_bottom) =~= words_image(ptrs@, index as int, count as int) + s0.skip(sp - stack_bottom));
    }
    while index > 0
        invariant
            index <= count <= 8,
            stack_bottom <= cur <= sp <= stack_bottom + o.len(),
            stack@.len() == o.len(),
            f == cur - left,
            cur == sp - 4 * (count - index),
            left == rem - 4 * (count - index),
            rem >= 4 * count,
            stack@.subrange(0, cur - stack_bottom) == o.subrange(0, cur - stack_bottom),
            sp - stack_bottom <= s0.len(),
            stack@.skip(cur - stack_bottom) == words_image(ptrs@, index as int, count as int) + s0.skip(sp - stack_bottom),
        decreases index,
    {
        index -= 1;
        let ghost img = words_image(ptrs@, index + 1, count as int);
        cur = push_word_tracked(stack, stack_bottom, cur, ptrs[index] as u32, Ghost(left), Ghost(f), Ghost(o))?;
        proof {
            left = left - 4;
            reveal(words_image);
            assert(words_image(ptrs@, index as int, count as int) == le32_bytes(ptrs@[index as int] as u32) + img);
            assert(stack@.skip(cur - stack_bottom) =~= words_image(ptrs@, index as int, count as int) + s0.skip(
                sp - stack_bottom,
            ));
        }
    }
    Ok(cur)
}

/// Pushes the auxiliary vector, from its end marker down to `AT_PHDR`.
#[verifier::rlimit(60)]
#[verifier::spinoff_prover]
fn push_aux_vector(
    stack: &mut [u8],
    stack_bottom: usize,
    sp: usize,
    execfn_user: u32,
    random_user: u32,
    platform_user: u32,
    base_platform_user: u32,
    entry: u32,
    base: u32,
    phnum: u32,
    phent: u32,
    phdr: u32,
    Ghost(rem): Ghost<int>,
    Ghost(f): Ghost<int>,
    Ghost(o): Ghost<Seq<u8>>,
) -> (r: Result<usize, u32>)
    requires
        stack_bottom <= sp <= stack_bottom + old(stack)@.len(),
        old(stack)@.len() == o.len(),
        f == sp - rem,
        rem >= 168,
        old(stack)@.subrange(0, sp - stack_bottom) == o.subrange(0, sp - stack_bottom),
    ensures
        final(stack)@.len() == o.len(),
        r is Err ==> r->Err_0 == EFAULT && f < stack_bottom,
        r is Ok ==> {
            &&& r->Ok_0 == sp - 168
            &&& stack_bottom <= r->Ok_0
            &&& final(stack)@.subrange(0, r->Ok_0 - stack_bottom) == o.subrange(0, r->Ok_0 - stack_bottom)
            &&& final(stack)@.skip(r->Ok_0 - stack_bottom) == aux_image(execfn_user, random_user, platform_user, base_platform_user, entry, base, phnum, phent, phdr) + old(stack)@.skip(sp - stack_bottom)
        },
{
    let ghost s0 = stack@;
    let ghost sp0 = sp;
    let ghost mut acc: Seq<u8> = Seq::empty();
    let mut sp = sp;
    let ghost mut rem = rem;
    sp = push_auxv_tracked(stack, stack_bottom, sp, AT_NULL, 0, Ghost(rem), Ghost(f), Ghost(o))?;
    proof {
        rem = rem - 8;
        acc = aux_pair(AT_NULL, 0);
    }
    sp = push_auxv_tracked(stack, stack_bottom, sp, AT_SYSINFO_EHDR, 0, Ghost(rem), Ghost(f), Ghost(o))?;
    proof {
        rem = rem - 8;
        lemma_concat_assoc(aux_pair(AT_SYSINFO_EHDR, 0), acc, s0.skip(sp0 - stack_bottom));
        acc = aux_pair(AT_SYSINFO_EHDR, 0) + acc;
    }
    sp = push_auxv_tracked(stack, stack_bottom, sp, AT_EXECFN, execfn_user, Ghost(rem), Ghost(f), Ghost(o))?;
    proof {
        rem = rem - 8;
        lemma_concat_assoc(aux_pair(AT_EXECFN, execfn_user), acc, s0.skip(sp0 - stack_bottom));
        acc = aux_pair(AT_EXECFN, execfn_user) + acc;
    }
    sp = push_auxv_tracked(stack, stack_bottom, sp, AT_HWCAP2, 0, Ghost(rem), Ghost(f), Ghost(o))?;
    proof {
        rem = rem - 8;
        lemma_concat_assoc(aux_pair(AT_HWCAP2, 0), acc, s0.skip(sp0 - stack_bottom));
        acc = aux_pair(AT_HWCAP2, 0) + acc;
    }
    sp = push_auxv_tracked(stack, stack_bottom, sp, AT_SECURE, 0, Ghost(rem), Ghost(f), Ghost(o))?;
    proof {
        rem = rem - 8;
        lemma_concat_assoc(aux_pair(AT_SECURE, 0), acc, s0.skip(sp0 - stack_bottom));
        acc = aux_pair(AT_SECURE, 0) + acc;
    }
    sp = push_auxv_tracked(stack, stack_bottom, sp, AT_RANDOM, random_user, Ghost(rem), Ghost(f), Ghost(o))?;
    proof {
        rem = rem - 8;
        lemma_concat_assoc(aux_pair(AT_RANDOM, random_user), acc, s0.skip(sp0 - stack_bottom));
        acc = aux_pair(AT_RANDOM, random_user) + acc;
    }
    sp = push_auxv_tracked(stack, stack_bottom, sp, AT_BASE_PLATFORM, base_platform_user, Ghost(rem), Ghost(f), Ghost(o))?;
    proof {
        rem = rem - 8;
        lemma_concat_assoc(aux_pair(AT_BASE_PLATFORM, base_platform_user), acc, s0.skip(sp0 - stack_bottom));
        acc = aux_pair(AT_BASE_PLATFORM, base_platform_user) + acc;
    }
    sp = push_auxv_tracked(stack, stack_bottom, sp, AT_CLKTCK, 100, Ghost(rem), Ghost(f), Ghost(o))?;
    proof {
        rem = rem - 8;
        lemma_concat_assoc(aux_pair(AT_CLKTCK, 100), acc, s0.skip(sp0 - stack_bottom));
        acc = aux_pair(AT_CLKTCK, 100) + acc;
    }
    sp = push_auxv_tracked(stack, stack_bottom, sp, AT_PLATFORM, platform_user, Ghost(rem), Ghost(f), Ghost(o))?;
    proof {
        rem = rem - 8;
        lemma_concat_assoc(aux_pair(AT_PLATFORM, platform_user), acc, s0.skip(sp0 - stack_bottom));
        acc = aux_pair(AT_PLATFORM, platform_user) + acc;
    }
    sp = push_auxv_tracked(stack, stack_bottom, sp, AT_HWCAP, ARM_HWCAP_ARMV7, Ghost(rem), Ghost(f), Ghost(o))?;
    proof {
        rem = rem - 8;
        lemma_concat_assoc(aux_pair(AT_HWCAP, ARM_HWCAP_ARMV7), acc, s0.skip(sp0 - stack_bottom));
        acc = aux_pair(AT_HWCAP, ARM_HWCAP_ARMV7) + acc;
    }
    sp = push_auxv_tracked(stack, stack_bottom, sp, AT_EGID, 0, Ghost(rem), Ghost(f), Ghost(o))?;
    proof {
        rem = rem - 8;
        lemma_concat_assoc(aux_pair(AT_EGID, 0), acc, s0.skip(sp0 - stack_bottom));
        acc = aux_pair(AT_EGID, 0) + acc;
    }
    sp = push_auxv_tracked(stack, stack_bottom, sp, AT_GID, 0, Ghost(rem), Ghost(f), Ghost(o))?;
    proof {
        rem = rem - 8;
        lemma_concat_assoc(aux_pair(AT_GID, 0), acc, s0.skip(sp0 - stack_bottom));
        acc = aux_pair(AT_GID, 0) + acc;
    }
    sp = push_auxv_tracked(stack, stack_bottom, sp, AT_EUID, 0, Ghost(rem), Ghost(f), Ghost(o))?;
    proof {
        rem = rem - 8;
        lemma_concat_assoc(aux_pair(AT_EUID, 0), acc, s0.skip(sp0 - stack_bottom));
        acc = aux_pair(AT_EUID, 0) + acc;
    }
    sp = push_auxv_tracked(stack, stack_bottom, sp, AT_UID, 0, Ghost(rem), Ghost(f), Ghost(o))?;
    proof {
        rem = rem - 8;
        lemma_concat_assoc(aux_pair(AT_UID, 0), acc, s0.skip(sp0 - stack_bottom));
        acc = aux_pair(AT_UID, 0) + acc;
    }
    sp = push_auxv_tracked(stack, stack_bottom, sp, AT_ENTRY, entry, Ghost(rem), Ghost(f), Ghost(o))?;
    proof {
        rem = rem - 8;
        lemma_concat_assoc(aux_pair(AT_ENTRY, entry), acc, s0.skip(sp0 - stack_bottom));
        acc = aux_pair(AT_ENTRY, entry) + acc;
    }
    sp = push_auxv_tracked(stack, stack_bottom, sp, AT_FLAGS, 0, Ghost(rem), Ghost(f), Ghost(o))?;
    proof {
        rem = rem - 8;
        lemma_concat_assoc(aux_pair(AT_FLAGS, 0), acc, s0.skip(sp0 - stack_bottom));
        acc = aux_pair(AT_FLAGS, 0) + acc;
    }
    sp = push_auxv_tracked(stack, stack_bottom, sp, AT_BASE, base, Ghost(rem), Ghost(f), Ghost(o))?;
    proof {
        rem = rem - 8;
        lemma_concat_assoc(aux_pair(AT_BASE, base), acc, s0.skip(sp0 - stack_bottom));
        acc = aux_pair(AT_BASE, base) + acc;
    }
    sp = push_auxv_tracked(stack, stack_bottom, sp, AT_PAGESZ, 4096, Ghost(rem), Ghost(f), Ghost(o))?;
    proof {
        rem = rem - 8;
        lemma_concat_assoc(aux_pair(AT_PAGESZ, 4096), acc, s0.skip(sp0 - stack_bottom));
        acc = aux_pair(AT_PAGESZ, 4096) + acc;
    }
    sp = push_auxv_tracked(stack, stack_bottom, sp, AT_PHNUM, phnum, Ghost(rem), Ghost(f), Ghost(o))?;
    proof {
        rem = rem - 8;
        lemma_concat_assoc(aux_pair(AT_PHNUM, phnum), acc, s0.skip(sp0 - stack_bottom));
        acc = aux_pair(AT_PHNUM, phnum) + acc;
    }
    sp = push_auxv_tracked(stack, stack_bottom, sp, AT_PHENT, phent, Ghost(rem), Ghost(f), Ghost(o))?;
    proof {
        rem = rem - 8;
        lemma_concat_assoc(aux_pair(AT_PHENT, phent), acc, s0.skip(sp0 - stack_bottom));
        acc = aux_pair(AT_PHENT, phent) + acc;
    }
    sp = push_auxv_tracked(stack, stack_bottom, sp, AT_PHDR, phdr, Ghost(rem), Ghost(f), Ghost(o))?;
    proof {
        rem = rem - 8;
        lemma_concat_assoc(aux_pair(AT_PHDR, phdr), acc, s0.skip(sp0 - stack_bottom));
        acc = aux_pair(AT_PHDR, phdr) + acc;
        reveal(aux_image);
    }
    Ok(sp)
}

/// The bytes `build_initial_stack_with_args` pushes as random data.
pub open spec fn random_bytes() -> Seq<u8> {
    seq![0x52u8, 0x53, 0x54, 0x4b, 0x41, 0x52, 0x4d, 0x37, 0x4c, 0x38, 0x44, 0x59, 0x4e, 0x00, 0x5a, 0x11]
}

/// The platform string `v7l` with its zero byte.
pub open spec fn platform_bytes() -> Seq<u8> {
    seq![0x76u8, 0x37, 0x6c, 0]
}

/// Where the argument strings start on the stack that ends at `top`.
pub open spec fn argv_strings_at(top: int, execfn_len: int, argv: Seq<UserArg>, envp: Seq<UserArg>) -> int {
    strings_bottom(top, execfn_len, argv, envp) + 16
}

/// Where the environment strings start on the stack that ends at `top`.
pub open spec fn envp_strings_at(top: int, execfn_len: int, argv: Seq<UserArg>, envp: Seq<UserArg>) -> int {
    argv_strings_at(top, execfn_len, argv, envp) + strings_size(argv, at_most(argv.len() as int, MAX_INIT_ARGS as int))
}

/// The initial stack of a program, from its stack pointer up to `top`:
/// the argument count, the argument pointers and a zero word, the
/// environment pointers and a zero word, the auxiliary vector, the bytes
/// `pad` left as they were by the 16-byte alignment, the random bytes,
/// the argument and environment strings, the platform string twice, and
/// the program name with its zero byte.
pub open spec fn stack_image(top: int, execfn: Seq<u8>, argv: Seq<UserArg>, envp: Seq<UserArg>, loaded: LoadedImage, pad: Seq<u8>) -> Seq<u8> {
    let argc = at_most(argv.len() as int, MAX_INIT_ARGS as int);
    let envc = at_most(envp.len() as int, MAX_INIT_ENVS as int);
    let execfn_user = top - 1 - execfn.len();
    let platform_user = execfn_user - 4;
    let base_platform_user = platform_user - 4;
    let a = argv_strings_at(top, execfn.len() as int, argv, envp);
    let e = envp_strings_at(top, execfn.len() as int, argv, envp);
    let random_user = a - 16;
    let argv_ptrs = Seq::new(argc as nat, |i: int| (a + strings_size(argv, i)) as usize);
    let envp_ptrs = Seq::new(envc as nat, |i: int| (e + strings_size(envp, i)) as usize);
    le32_bytes(argc as u32) + (words_image(argv_ptrs, 0, argc) + (le32_bytes(0) + (words_image(envp_ptrs, 0, envc) + (
    le32_bytes(0) + (aux_image(
        execfn_user as u32,
        random_user as u32,
        platform_user as u32,
        base_platform_user as u32,
        loaded.executable_entry.0 as u32,
        loaded.interpreter_base.0 as u32,
        loaded.phnum as u32,
        loaded.phent as u32,
        loaded.phdr.0 as u32,
    ) + (pad + (random_bytes() + (strings_image(argv, 0, argc) + (strings_image(envp, 0, envc) + (platform_bytes() + (
    platform_bytes() + (execfn + seq![0u8]))))))))))))
}

/// The words of two sequences that agree on `lo..hi` are the same.
proof fn lemma_words_image_ext(a: Seq<usize>, b: Seq<usize>, lo: int, hi: int)
    requires
        forall|i: int| lo <= i < hi ==> a[i] == b[i],
    ensures
        words_image(a, lo, hi) == words_image(b, lo, hi),
    decreases hi - lo,
{
    reveal(words_image);
    if lo < hi {
        lemma_words_image_ext(a, b, lo + 1, hi);
    }
}

/// Cutting a sequence at `a` is cutting it at `c` and taking the bytes
/// between.
proof fn lemma_skip_split(s: Seq<u8>, t: Seq<u8>, a: int, c: int)
    requires
        0 <= a <= c <= s.len(),
        c <= t.len(),
        s.subrange(0, c) == t.subrange(0, c),
    ensures
        s.skip(a) == t.subrange(a, c) + s.skip(c),
{
    assert forall|k: int| a <= k < c implies s[k] == t[k] by {
        assert(s.subrange(0, c)[k] == s[k]);
        assert(t.subrange(0, c)[k] == t[k]);
    }
    assert(s.skip(a) =~= t.subrange(a, c) + s.skip(c));
}

/// Lays out the initial stack of a new program in the stack memory `stack`,
/// which spans `stack_bottom..stack_top`: the program name, platform
/// strings, environment and argument strings, random bytes, the auxiliary
/// vector, the environment and argument pointer arrays and the argument
/// count; at most `MAX_INIT_ARGS` arguments and `MAX_INIT_ENVS` environment
/// strings are used. `EFAULT` when it does not fit.
#[verifier::rlimit(100)]
#[verifier::spinoff_prover]
pub fn build_initial_stack_with_args(
    stack: &mut [u8],
    stack_bottom: usize,
    stack_top: usize,
    loaded: &LoadedImage,
    argv: &[UserArg],
    envp: &[UserArg],
) -> (r: Result<InitialStack, u32>)
    requires
        stack_bottom <= stack_top,
        old(stack)@.len() == stack_top - stack_bottom,
        forall|i: int| 0 <= i < argv@.len() ==> (#[trigger] argv@[i]).wf(),
        forall|i: int| 0 <= i < envp@.len() ==> (#[trigger] envp@[i]).wf(),
    ensures
        ({
            let argc = at_most(argv@.len() as int, MAX_INIT_ARGS as int);
            let execfn_len = if argc != 0 {
                argv@[0].len as int
            } else {
                loaded.name.spec_bytes().len() as int
            };
            let f = initial_sp(stack_top as int, execfn_len, argv@, envp@);
            let execfn = if argc != 0 { argv@[0].text() } else { loaded.name.spec_bytes() };
            let sb = strings_bottom(stack_top as int, execfn_len, argv@, envp@);
            &&& (r is Ok <==> f >= stack_bottom)
            &&& r is Err ==> r->Err_0 == EFAULT
            &&& r is Ok ==> {
                &&& r->Ok_0.sp == f
                &&& stack_bottom <= f < stack_top && f % 4 == 0
                &&& le32_at(final(stack)@, f - stack_bottom) == argc
                &&& final(stack)@.subrange(0, f - stack_bottom) == old(stack)@.subrange(0, f - stack_bottom)
                &&& final(stack)@.skip(f - stack_bottom) == stack_image(
                    stack_top as int,
                    execfn,
                    argv@,
                    envp@,
                    *loaded,
                    old(stack)@.subrange(sb - sb % 16 - stack_bottom, sb - stack_bottom),
                )
            }
        }),
{
    let ghost o = stack@;
    let ghost top = stack_top as int;
    let argc = if argv.len() < MAX_INIT_ARGS {
        argv.len()
    } else {
        MAX_INIT_ARGS
    };
    let envc = if envp.len() < MAX_INIT_ENVS {
        envp.len()
    } else {
        MAX_INIT_ENVS
    };
    let execfn = if argc != 0 {
        argv[0].as_bytes()
    } else {
        loaded.name.as_bytes()
    };
    let ghost elen = execfn@.len() as int;
    assert(elen == if argc != 0 {
        argv@[0].len as int
    } else {
        loaded.name.spec_bytes().len() as int
    });
    let ghost big_e = strings_size(envp@, envc as int);
    let ghost big_a = strings_size(argv@, argc as int);
    let ghost sb = strings_bottom(top, elen, argv@, envp@);
    let ghost words = 168 + 4 * (3 + envc + argc);
    let ghost f = initial_sp(top, elen, argv@, envp@);
    proof {
        lemma_strings_size_nonneg(envp@, envc as int);
        lemma_strings_size_nonneg(argv@, argc as int);
        assert(sb == top - 1 - elen - 8 - big_e - big_a - 16);
        assert(f == sb - sb % 16 - words);
    }
    let ghost mut rem: int = top - f;
    assert(stack@.subrange(0, stack_top - stack_bottom) =~= o.subrange(0, stack_top - stack_bottom));
    let mut sp = stack_top;
    let ghost base = stack@.skip(stack_top - stack_bottom);
    let ghost mut acc: Seq<u8> = Seq::empty();
    assert(stack@.skip(sp - stack_bottom) =~= acc + base);
    let zero = [0u8];
    assert(zero@.len() == 1);
    sp = push_tracked(stack, stack_bottom, sp, zero.as_slice(), Ghost(rem), Ghost(f), Ghost(o))?;
    proof {
        lemma_concat_assoc(zero@, acc, base);
        acc = zero@ + acc;
    }
    proof {
        rem = rem - 1;
    }
    sp = push_tracked(stack, stack_bottom, sp, execfn, Ghost(rem), Ghost(f), Ghost(o))?;
    proof {
        lemma_concat_assoc(execfn@, acc, base);
        acc = execfn@ + acc;
    }
    proof {
        rem = rem - elen;
    }
    let execfn_user = sp;
    let platform = [0x76u8, 0x37, 0x6c, 0];
    assert(platform@.len() == 4);
    sp = push_tracked(stack, stack_bottom, sp, platform.as_slice(), Ghost(rem), Ghost(f), Ghost(o))?;
    proof {
        rem = rem - 4;
    }
    let platform_user = sp;
    proof {
        lemma_concat_assoc(platform@, acc, base);
        acc = platform@ + acc;
    }
    sp = push_tracked(stack, stack_bottom, sp, platform.as_slice(), Ghost(rem), Ghost(f), Ghost(o))?;
    proof {
        rem = rem - 4;
    }
    let base_platform_user = sp;
    proof {
        lemma_concat_assoc(platform@, acc, base);
        acc = platform@ + acc;
    }
    let (s1, envp_user) = push_string_table(stack, stack_bottom, sp, envp, envc, Ghost(rem), Ghost(f), Ghost(o))?;
    proof {
        lemma_concat_assoc(strings_image(envp@, 0, envc as int), acc, base);
        acc = strings_image(envp@, 0, envc as int) + acc;
    }
    sp = s1;
    proof {
        rem = rem - big_e;
    }
    let (s2, argv_user) = push_string_table(stack, stack_bottom, sp, argv, argc, Ghost(rem), Ghost(f), Ghost(o))?;
    proof {
        lemma_concat_assoc(strings_image(argv@, 0, argc as int), acc, base);
        acc = strings_image(argv@, 0, argc as int) + acc;
    }
    sp = s2;
    proof {
        rem = rem - big_a;
    }
    let random = [0x52u8, 0x53, 0x54, 0x4b, 0x41, 0x52, 0x4d, 0x37, 0x4c, 0x38, 0x44, 0x59, 0x4e, 0x00, 0x5a, 0x11];
    assert(random@.len() == 16);
    sp = push_tracked(stack, stack_bottom, sp, random.as_slice(), Ghost(rem), Ghost(f), Ghost(o))?;
    proof {
        lemma_concat_assoc(random@, acc, base);
        acc = random@ + acc;
    }
    proof {
        rem = rem - 16;
    }
    let random_user = sp;
    assert(sp == sb);
    let aligned = sp & !0xfusize;
    assert(aligned == sp - sp % 16 && aligned <= sp) by (bit_vector)
        requires
            aligned == sp & !0xfusize,
    ;
    proof {
        rem = rem - (sp - aligned);
        if aligned >= stack_bottom {
            assert forall|k: int| 0 <= k < aligned - stack_bottom implies stack@[k] == o[k] by {
                assert(stack@.subrange(0, sp - stack_bottom)[k] == stack@[k]);
                assert(o.subrange(0, sp - stack_bottom)[k] == o[k]);
            }
            assert(stack@.subrange(0, aligned - stack_bottom) =~= o.subrange(0, aligned - stack_bottom));
        }
    }
    if aligned < stack_bottom {
        return Err(EFAULT);
    }
    proof {
        lemma_skip_split(stack@, o, aligned - stack_bottom, sp - stack_bottom);
        lemma_concat_assoc(o.subrange(aligned - stack_bottom, sp - stack_bottom), acc, base);
        acc = o.subrange(aligned - stack_bottom, sp - stack_bottom) + acc;
    }
    sp = aligned;
    sp = push_aux_vector(
        stack,
        stack_bottom,
        sp,
        execfn_user as u32,
        random_user as u32,
        platform_user as u32,
        base_platform_user as u32,
        loaded.executable_entry.0 as u32,
        loaded.interpreter_base.0 as u32,
        loaded.phnum as u32,
        loaded.phent as u32,
        loaded.phdr.0 as u32,
        Ghost(rem),
        Ghost(f),
        Ghost(o),
    )?;
    proof {
        lemma_concat_assoc(aux_image(execfn_user as u32, random_user as u32, platform_user as u32, base_platform_user as u32, loaded.executable_entry.0 as u32, loaded.interpreter_base.0 as u32, loaded.phnum as u32, loaded.phent as u32, loaded.phdr.0 as u32), acc, base);
        acc = aux_image(execfn_user as u32, random_user as u32, platform_user as u32, base_platform_user as u32, loaded.executable_entry.0 as u32, loaded.interpreter_base.0 as u32, loaded.phnum as u32, loaded.phent as u32, loaded.phdr.0 as u32) + acc;
    }
    proof {
        rem = rem - 168;
    }
    sp = push_word_tracked(stack, stack_bottom, sp, 0, Ghost(rem), Ghost(f), Ghost(o))?;
    proof {
        lemma_concat_assoc(le32_bytes(0), acc, base);
        acc = le32_bytes(0) + acc;
    }
    proof {
        rem = rem - 4;
    }
    sp = push_pointer_table(stack, stack_bottom, sp, envp_user, envc, Ghost(rem), Ghost(f), Ghost(o))?;
    proof {
        lemma_concat_assoc(words_image(envp_user@, 0, envc as int), acc, base);
        acc = words_image(envp_user@, 0, envc as int) + acc;
    }
    proof {
        rem = rem - 4 * envc;
    }
    sp = push_word_tracked(stack, stack_bottom, sp, 0, Ghost(rem), Ghost(f), Ghost(o))?;
    proof {
        lemma_concat_assoc(le32_bytes(0), acc, base);
        acc = le32_bytes(0) + acc;
    }
    proof {
        rem = rem - 4;
    }
    sp = push_pointer_table(stack, stack_bottom, sp, argv_user, argc, Ghost(rem), Ghost(f), Ghost(o))?;
    proof {
        lemma_concat_assoc(words_image(argv_user@, 0, argc as int), acc, base);
        acc = words_image(argv_user@, 0, argc as int) + acc;
    }
    proof {
        rem = rem - 4 * argc;
    }
    sp = push_word_tracked(stack, stack_bottom, sp, argc as u32, Ghost(rem), Ghost(f), Ghost(o))?;
    proof {
        lemma_concat_assoc(le32_bytes(argc as u32), acc, base);
        acc = le32_bytes(argc as u32) + acc;
    }
    proof {
        lemma_le32_roundtrip(argc as u32);
        let at = sp - stack_bottom;
        assert(stack@[at] == le32_bytes(argc as u32)[0]);
        assert(stack@[at + 1] == le32_bytes(argc as u32)[1]);
        assert(stack@[at + 2] == le32_bytes(argc as u32)[2]);
        assert(stack@[at + 3] == le32_bytes(argc as u32)[3]);
    }
    proof {
        let ghost a = s2 as int;
        let ghost e = s1 as int;
        lemma_words_image_ext(argv_user@, Seq::new(argc as nat, |i: int| (a + strings_size(argv@, i)) as usize), 0, argc as int);
        lemma_words_image_ext(envp_user@, Seq::new(envc as nat, |i: int| (e + strings_size(envp@, i)) as usize), 0, envc as int);
        assert(zero@ =~= seq![0u8]);
        assert(platform@ =~= platform_bytes());
        assert(random@ =~= random_bytes());
        assert(base =~= Seq::<u8>::empty());
        assert(acc + base =~= acc);
    }
    proof {
        lemma_initial_sp_aligned(
            stack_top as int,
            if argc != 0 { argv@[0].len as int } else { loaded.name.spec_bytes().len() as int },
            argv@,
            envp@,
        );
    }
    Ok(InitialStack { sp })
}

/// `build_initial_stack_with_args` with the program name as the only
/// argument and no environment.
pub fn build_initial_stack(
    stack: &mut [u8],
    stack_bottom: usize,
    stack_top: usize,
    loaded: &LoadedImage,
    argv0: &str,
) -> (r: Result<InitialStack, u32>)
    requires
        stack_bottom <= stack_top,
        old(stack)@.len() == stack_top - stack_bottom,
    ensures
        ({
            let n = at_most(argv0.spec_bytes().len() as int, INIT_ARG_LEN - 1);
            let s = stack_top - 1 - n - 8 - (n + 1) - 16;
            let f = (s - s % 16) - 184;
            &&& (r is Ok <==> f >= stack_bottom)
            &&& r is Err ==> r->Err_0 == EFAULT
            &&& r is Ok ==> r->Ok_0.sp == f && le32_at(final(stack)@, f - stack_bottom) == 1
        }),
{
    let arg = UserArg::from_bytes(argv0.as_bytes());
    let mut args: Vec<UserArg> = Vec::new();
    args.push(arg);
    let none: Vec<UserArg> = Vec::new();
    proof {
        let n = at_most(argv0.spec_bytes().len() as int, INIT_ARG_LEN - 1);
        assert(arg.text().len() == n);
        assert(arg.len as int == n);
        assert(strings_size(args@, 1) == strings_size(args@, 0) + args@[0].len + 1);
        assert(strings_size(none@, 0) == 0);
        let s = stack_top - 1 - n - 8 - (n + 1) - 16;
        assert(strings_bottom(stack_top as int, n, args@, none@) == s);
        assert(initial_sp(stack_top as int, n, args@, none@) == (s - s % 16) - 184);
    }
    build_initial_stack_with_args(stack, stack_bottom, stack_top, loaded, args.as_slice(), none.as_slice())
}

} // verus!