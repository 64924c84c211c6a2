use vstd::prelude::*;

use crate::fs::ramfs::bytes_equal;
use vstd::string::StringSliceAdditionalSpecFns;
use crate::kernel::net::interface::utf8_text;
use crate::platform::qemu_virt;

verus! {

pub const MAX_VIRTIO_MMIO: usize = 8;

pub const FDT_MAGIC: u32 = 0xd00d_feed;
pub const FDT_BEGIN_NODE: u32 = 1;
pub const FDT_END_NODE: u32 = 2;
pub const FDT_PROP: u32 = 3;
pub const FDT_NOP: u32 = 4;
pub const FDT_END: u32 = 9;

pub const DEFAULT_ADDRESS_CELLS: u32 = 2;
pub const DEFAULT_SIZE_CELLS: u32 = 1;
pub const DEFAULT_INTERRUPT_CELLS: u32 = 3;

pub const ROOT_COMPAT_LEN: usize = 64;
pub const MAX_DEPTH_SLOTS: usize = 16;

/// Where the platform description came from.
#[derive(Clone, Copy, PartialEq, Eq, Structural, Debug)]
pub enum BootSource {
    Static,
    Fdt,
    FdtInvalid,
}

impl BootSource {
    pub fn as_str(self) -> (r: &'static str)
        ensures
            self == BootSource::Static ==> r@ == "qemu-virt-static"@,
            self == BootSource::Fdt ==> r@ == "fdt"@,
            self == BootSource::FdtInvalid ==> r@ == "qemu-virt-static+fdt-invalid"@,
    {
        match self {
            BootSource::Static => "qemu-virt-static",
            BootSource::Fdt => "fdt",
            BootSource::FdtInvalid => "qemu-virt-static+fdt-invalid",
        }
    }
}

#[derive(Clone, Copy, PartialEq, Eq, Structural, Debug)]
pub struct MemRegion {
    pub start: usize,
    pub size: usize,
}

impl MemRegion {
    pub fn empty() -> (r: Self)
        ensures
            r == (MemRegion { start: 0, size: 0 }),
    {
        MemRegion { start: 0, size: 0 }
    }

    pub fn new(start: usize, size: usize) -> (r: Self)
        ensures
            r == (MemRegion { start, size }),
    {
        MemRegion { start, size }
    }

    pub fn end(self) -> (r: usize)
        requires
            self.start + self.size <= usize::MAX,
        ensures
            r == self.start + self.size,
    {
        self.start + self.size
    }

    pub open spec fn present(self) -> bool {
        self.size != 0
    }

    pub fn is_present(self) -> (r: bool)
        ensures
            r == self.present(),
    {
        self.size != 0
    }
}

#[derive(Clone, Copy, PartialEq, Eq, Structural, Debug)]
pub struct IrqSpec {
    pub irq: u32,
    pub flags: u32,
}

impl IrqSpec {
    pub fn none() -> (r: Self)
        ensures
            r == (IrqSpec { irq: 0, flags: 0 }),
    {
        IrqSpec { irq: 0, flags: 0 }
    }

    pub fn new(irq: u32, flags: u32) -> (r: Self)
        ensures
            r == (IrqSpec { irq, flags }),
    {
        IrqSpec { irq, flags }
    }

    pub open spec fn present(self) -> bool {
        self.irq != 0
    }

    pub fn is_present(self) -> (r: bool)
        ensures
            r == self.present(),
    {
        self.irq != 0
    }
}

#[derive(Clone, Copy, PartialEq, Eq, Structural, Debug)]
pub struct Pl011Device {
    pub reg: MemRegion,
    pub irq: IrqSpec,
}

impl Pl011Device {
    pub fn fallback() -> (r: Self)
        ensures
            r == (Pl011Device { reg: MemRegion { start: qemu_virt::UART0_BASE, size: 0x1000 }, irq: IrqSpec { irq: qemu_virt::UART0_IRQ, flags: 0 } }),
    {
        Pl011Device { reg: MemRegion::new(qemu_virt::UART0_BASE, 0x1000), irq: IrqSpec::new(qemu_virt::UART0_IRQ, 0) }
    }
}

#[derive(Clone, Copy, PartialEq, Eq, Structural, Debug)]
pub struct GicDevice {
    pub distributor: MemRegion,
    pub cpu_interface: MemRegion,
    pub interrupt_cells: u32,
}

impl GicDevice {
    pub fn fallback() -> (r: Self)
        ensures
            r == (GicDevice {
                distributor: MemRegion { start: qemu_virt::GICD_BASE, size: 0x1000 },
                cpu_interface: MemRegion { start: qemu_virt::GICC_BASE, size: 0x2000 },
                interrupt_cells: DEFAULT_INTERRUPT_CELLS,
            }),
    {
        GicDevice {
            distributor: MemRegion::new(qemu_virt::GICD_BASE, 0x1000),
            cpu_interface: MemRegion::new(qemu_virt::GICC_BASE, 0x2000),
            interrupt_cells: DEFAULT_INTERRUPT_CELLS,
        }
    }
}

#[derive(Clone, Copy, PartialEq, Eq, Structural, Debug)]
pub struct TimerDevice {
    pub physical_irq: IrqSpec,
}

impl TimerDevice {
    pub fn fallback() -> (r: Self)
        ensures
            r == (TimerDevice { physical_irq: IrqSpec { irq: qemu_virt::GENERIC_TIMER_PHYS_IRQ, flags: 0 } }),
    {
        TimerDevice { physical_irq: IrqSpec::new(qemu_virt::GENERIC_TIMER_PHYS_IRQ, 0) }
    }
}

#[derive(Clone, Copy, PartialEq, Eq, Structural, Debug)]
pub enum VirtioKind {
    Unknown,
    Block,
    Network,
}

impl VirtioKind {
    pub fn as_str(self) -> (r: &'static str)
        ensures
            self == VirtioKind::Unknown ==> r@ == "unknown"@,
            self == VirtioKind::Block ==> r@ == "block"@,
            self == VirtioKind::Network ==> r@ == "network"@,
    {
        match self {
            VirtioKind::Unknown => "unknown",
            VirtioKind::Block => "block",
            VirtioKind::Network => "network",
        }
    }
}

#[derive(Clone, Copy, PartialEq, Eq, Structural, Debug)]
pub struct VirtioMmioDevice {
    pub reg: MemRegion,
    pub irq: IrqSpec,
    pub kind: VirtioKind,
}

pub open spec fn empty_virtio() -> VirtioMmioDevice {
    VirtioMmioDevice { reg: MemRegion { start: 0, size: 0 }, irq: IrqSpec { irq: 0, flags: 0 }, kind: VirtioKind::Unknown }
}

impl VirtioMmioDevice {
    pub fn empty() -> (r: Self)
        ensures
            r == empty_virtio(),
    {
        VirtioMmioDevice { reg: MemRegion::empty(), irq: IrqSpec::none(), kind: VirtioKind::Unknown }
    }

    pub fn is_present(self) -> (r: bool)
        ensures
            r == self.reg.present(),
    {
        self.reg.is_present()
    }
}

/// The devices the kernel drives: fixed ones, and up to
/// `MAX_VIRTIO_MMIO` virtio transports.
#[derive(Clone, Copy, Debug)]
pub struct PlatformDevices {
    pub uart0: Pl011Device,
    pub gic: GicDevice,
    pub timer: TimerDevice,
    pub virtio_mmio: [VirtioMmioDevice; MAX_VIRTIO_MMIO],
    pub virtio_mmio_count: usize,
}

impl PlatformDevices {
    pub open spec fn wf(&self) -> bool {
        self.virtio_mmio_count <= MAX_VIRTIO_MMIO
    }

    pub open spec fn is_fallback(&self) -> bool {
        &&& self.uart0 == (Pl011Device { reg: MemRegion { start: qemu_virt::UART0_BASE, size: 0x1000 }, irq: IrqSpec { irq: qemu_virt::UART0_IRQ, flags: 0 } })
        &&& self.gic == (GicDevice {
                distributor: MemRegion { start: qemu_virt::GICD_BASE, size: 0x1000 },
                cpu_interface: MemRegion { start: qemu_virt::GICC_BASE, size: 0x2000 },
                interrupt_cells: DEFAULT_INTERRUPT_CELLS,
            })
        &&& self.timer == (TimerDevice { physical_irq: IrqSpec { irq: qemu_virt::GENERIC_TIMER_PHYS_IRQ, flags: 0 } })
        &&& self.virtio_mmio@ == Seq::new(MAX_VIRTIO_MMIO as nat, |i: int| empty_virtio())
        &&& self.virtio_mmio_count == 0
    }

    pub fn fallback() -> (r: Self)
        ensures
            r.wf(),
            r.is_fallback(),
    {
        let r = PlatformDevices {
            uart0: Pl011Device::fallback(),
            gic: GicDevice::fallback(),
            timer: TimerDevice::fallback(),
            virtio_mmio: [VirtioMmioDevice::empty(), VirtioMmioDevice::empty(), VirtioMmioDevice::empty(), VirtioMmioDevice::empty(),
                VirtioMmioDevice::empty(), VirtioMmioDevice::empty(), VirtioMmioDevice::empty(), VirtioMmioDevice::empty()],
            virtio_mmio_count: 0,
        };
        assert(r.virtio_mmio@ =~= Seq::new(MAX_VIRTIO_MMIO as nat, |i: int| empty_virtio()));
        r
    }

    /// Records a virtio transport; past `MAX_VIRTIO_MMIO` it is dropped.
    pub fn push_virtio_mmio(&mut self, device: VirtioMmioDevice)
        requires
            old(self).wf(),
        ensures
            final(self).wf(),
            final(self).uart0 == old(self).uart0 && final(self).gic == old(self).gic && final(self).timer == old(self).timer,
            old(self).virtio_mmio_count >= MAX_VIRTIO_MMIO ==> final(self).virtio_mmio@ == old(self).virtio_mmio@
                && final(self).virtio_mmio_count == old(self).virtio_mmio_count,
            old(self).virtio_mmio_count < MAX_VIRTIO_MMIO ==> final(self).virtio_mmio@ == old(self).virtio_mmio@.update(old(self).virtio_mmio_count as int, device)
                && final(self).virtio_mmio_count == old(self).virtio_mmio_count + 1,
    {
        if self.virtio_mmio_count >= MAX_VIRTIO_MMIO {
            return;
        }
        self.virtio_mmio[self.virtio_mmio_count] = device;
        self.virtio_mmio_count = self.virtio_mmio_count + 1;
    }
}

/// What the kernel learned about the machine at boot.
#[derive(Clone, Copy, Debug)]
pub struct BootInfo {
    pub fdt_ptr: usize,
    pub source: BootSource,
    pub ram_start: usize,
    pub ram_end: usize,
    pub mmio_start: usize,
    pub mmio_end: usize,
    pub root_compatible: [u8; ROOT_COMPAT_LEN],
    pub root_compatible_len: usize,
    pub devices: PlatformDevices,
}

impl BootInfo {
    pub open spec fn wf(&self) -> bool {
        self.root_compatible_len <= ROOT_COMPAT_LEN && self.devices.wf()
    }

    /// The static description of QEMU's `virt` board, from `source`.
    pub open spec fn is_fallback(&self, fdt_ptr: usize, source: BootSource) -> bool {
        &&& self.fdt_ptr == fdt_ptr
        &&& self.source == source
        &&& self.ram_start == qemu_virt::RAM_START
        &&& self.ram_end == qemu_virt::RAM_END
        &&& self.mmio_start == qemu_virt::MMIO_START
        &&& self.mmio_end == qemu_virt::MMIO_END
        &&& self.root_compatible@ == Seq::new(ROOT_COMPAT_LEN as nat, |i: int| 0u8)
        &&& self.root_compatible_len == 0
        &&& self.devices.is_fallback()
    }

    pub fn fallback_with_source(fdt_ptr: usize, source: BootSource) -> (r: Self)
        ensures
            r.wf(),
            r.is_fallback(fdt_ptr, source),
    {
        let r = BootInfo {
            fdt_ptr,
            source,
            ram_start: qemu_virt::RAM_START,
            ram_end: qemu_virt::RAM_END,
            mmio_start: qemu_virt::MMIO_START,
            mmio_end: qemu_virt::MMIO_END,
            root_compatible: [0; ROOT_COMPAT_LEN],
            root_compatible_len: 0,
            devices: PlatformDevices::fallback(),
        };
        assert(r.root_compatible@ =~= Seq::new(ROOT_COMPAT_LEN as nat, |i: int| 0u8));
        r
    }

    pub fn source_str(self) -> (r: &'static str)
        ensures
            self.source == BootSource::Static ==> r@ == "qemu-virt-static"@,
            self.source == BootSource::Fdt ==> r@ == "fdt"@,
            self.source == BootSource::FdtInvalid ==> r@ == "qemu-virt-static+fdt-invalid"@,
    {
        self.source.as_str()
    }

    /// The root node's `compatible` text, or nothing when it is not UTF-8.
    pub fn root_compatible_str(&self) -> (r: &str)
        requires
            self.wf(),
        ensures
            vstd::utf8::valid_utf8(self.root_compatible@.take(self.root_compatible_len as int)) ==> r.spec_bytes() == self.root_compatible@.take(self.root_compatible_len as int),
            !vstd::utf8::valid_utf8(self.root_compatible@.take(self.root_compatible_len as int)) ==> r@ == ""@,
    {
        let bytes = vstd::slice::slice_subrange(self.root_compatible.as_slice(), 0, self.root_compatible_len);
        assert(bytes@ =~= self.root_compatible@.take(self.root_compatible_len as int));
        match utf8_text(bytes) {
            Some(t) => t,
            None => "",
        }
    }
}

pub fn devices(info: &BootInfo) -> (r: PlatformDevices)
    ensures
        r == info.devices,
{
    info.devices
}

pub fn uart0(info: &BootInfo) -> (r: Pl011Device)
    ensures
        r == info.devices.uart0,
{
    info.devices.uart0
}

pub fn gic(info: &BootInfo) -> (r: GicDevice)
    ensures
        r == info.devices.gic,
{
    info.devices.gic
}

pub fn timer(info: &BootInfo) -> (r: TimerDevice)
    ensures
        r == info.devices.timer,
{
    info.devices.timer
}

/// The `index`-th virtio transport found, if there is one.
pub fn virtio_mmio(info: &BootInfo, index: usize) -> (r: Option<VirtioMmioDevice>)
    requires
        info.wf(),
    ensures
        index < info.devices.virtio_mmio_count ==> r == Some(info.devices.virtio_mmio@[index as int]),
        index >= info.devices.virtio_mmio_count ==> r is None,
{
    if index < info.devices.virtio_mmio_count {
        Some(info.devices.virtio_mmio[index])
    } else {
        None
    }
}

/// The big-endian 32-bit value at byte `i` of `s`.
pub open spec fn be32_at(s: Seq<u8>, i: int) -> u32 {
    (s[i] * 0x1000000 + s[i + 1] * 0x10000 + s[i + 2] * 0x100 + s[i + 3]) as u32
}

/// Reads the big-endian word at `off`; nothing past the end.
pub fn read_prop_be32(value: &[u8], off: usize) -> (r: Option<u32>)
    ensures
        off + 4 <= value@.len() ==> r == Some(be32_at(value@, off as int)),
        off + 4 > value@.len() ==> r is None,
{
    if off > value.len() || value.len() - off < 4 {
        return None;
    }
    Some((value[off] as u32) * 0x1000000 + (value[off + 1] as u32) * 0x10000 + (value[off + 2] as u32) * 0x100 + (value[off + 3] as u32))
}

pub fn prop_u32(value: &[u8]) -> (r: Option<u32>)
    ensures
        4 <= value@.len() ==> r == Some(be32_at(value@, 0)),
        4 > value@.len() ==> r is None,
{
    read_prop_be32(value, 0)
}

/// One or two cells from `off`, most significant first.
pub open spec fn cells_value(v: Seq<u8>, off: int, cells: u32) -> Option<u64> {
    if cells == 0 || cells > 2 || off + 4 * cells > v.len() {
        None
    } else if cells == 1 {
        Some(be32_at(v, off) as u64)
    } else {
        Some(((be32_at(v, off) as u64) * 0x1_0000_0000 + (be32_at(v, off + 4) as u64)) as u64)
    }
}

pub fn read_cells(value: &[u8], off: usize, cells: u32) -> (r: Option<u64>)
    ensures
        r == cells_value(value@, off as int, cells),
{
    if cells == 0 || cells > 2 {
        return None;
    }
    let high = match read_prop_be32(value, off) {
        Some(v) => v,
        None => {
            return None;
        },
    };
    if cells == 1 {
        return Some(high as u64);
    }
    let n = value.len();
    assert(off + 4 <= n);
    let low = match read_prop_be32(value, off + 4) {
        Some(v) => v,
        None => {
            return None;
        },
    };
    let result = ((high as u64) << 32u64) | (low as u64);
    assert(((high as u64) << 32u64) | (low as u64) == (high as u64) * 0x1_0000_0000 + (low as u64)) by (bit_vector);
    Some(result)
}

/// Whether two byte strings are equal.
pub fn bytes_eq(left: &[u8], right: &[u8]) -> (r: bool)
    ensures
        r == (left@ == right@),
{
    bytes_equal(left, right)
}

pub fn align4(value: usize) -> (r: usize)
    requires
        value + 3 <= usize::MAX,
    ensures
        r == crate::fs::archive::align4_spec(value as int),
        value <= r <= value + 3,
{
    crate::fs::archive::align4(value)
}

/// Entry `index` of a `reg` property: an address of `a` cells and a size
/// of `sz` cells.
pub open spec fn reg_entry(v: Seq<u8>, a: u32, sz: u32, index: int) -> Option<MemRegion> {
    let per = (a + sz) * 4;
    let start = index * per;
    if start + per > v.len() {
        None
    } else {
        match (cells_value(v, start, a), cells_value(v, start + a * 4, sz)) {
            (Some(addr), Some(size)) => if addr > usize::MAX || size > usize::MAX {
                None
            } else {
                Some(MemRegion { start: addr as usize, size: size as usize })
            },
            _ => None,
        }
    }
}

pub fn parse_reg_entry(value: &[u8], addr_cells: u32, size_cells: u32, index: usize) -> (r: Option<MemRegion>)
    requires
        1 <= addr_cells <= 2,
        1 <= size_cells <= 2,
    ensures
        r == reg_entry(value@, addr_cells, size_cells, index as int),
{
    let cells_per_entry = (addr_cells + size_cells) as usize;
    let per = cells_per_entry * 4;
    assert(per == (addr_cells + size_cells) * 4);
    let n = value.len();
    let start = match index.checked_mul(per) {
        Some(s) => s,
        None => {
            assert(index * per + per > n);
            return None;
        },
    };
    assert(start == index * cells_per_entry * 4) by (nonlinear_arith)
        requires
            start == index * per,
            per == cells_per_entry * 4,
    ;
    let end = match start.checked_add(per) {
        Some(e) => e,
        None => {
            assert(start + per > n);
            return None;
        },
    };
    if end > value.len() {
        return None;
    }
    let addr = match read_cells(value, start, addr_cells) {
        Some(a) => a,
        None => {
            return None;
        },
    };
    let size = match read_cells(value, start + (addr_cells as usize) * 4, size_cells) {
        Some(s) => s,
        None => {
            return None;
        },
    };
    if addr > usize::MAX as u64 || size > usize::MAX as u64 {
        return None;
    }
    Some(MemRegion::new(addr as usize, size as usize))
}

/// Interrupt specifier `index` of `cells` cells: with three or more cells
/// the first says SPI (+32) or PPI (+16) and the third holds the flags.
pub open spec fn irq_entry(v: Seq<u8>, index: int, cells: int) -> Option<IrqSpec> {
    let start = index * cells * 4;
    if start + cells * 4 > v.len() || start + cells * 4 > usize::MAX {
        None
    } else if cells >= 3 {
        let t = be32_at(v, start);
        let n = be32_at(v, start + 4);
        let irq = if t == 0 { n.wrapping_add(32) } else if t == 1 { n.wrapping_add(16) } else { n };
        Some(IrqSpec { irq, flags: be32_at(v, start + 8) })
    } else {
        Some(IrqSpec { irq: be32_at(v, start), flags: 0 })
    }
}

pub fn parse_irq(value: &[u8], index: usize, cells: usize) -> (r: Option<IrqSpec>)
    requires
        cells >= 1,
    ensures
        r == irq_entry(value@, index as int, cells as int),
{
    let start = match index.checked_mul(cells) {
        Some(x) => match x.checked_mul(4) {
            Some(y) => y,
            None => {
                proof {
                    assert(index * cells * 4 > usize::MAX);
                    assert(index * cells * 4 + cells * 4 > usize::MAX) by (nonlinear_arith)
                        requires
                            index * cells * 4 > usize::MAX,
                            cells >= 1,
                    ;
                }
                return None;
            },
        },
        None => {
            proof {
                assert(index * cells * 4 + cells * 4 > usize::MAX) by (nonlinear_arith)
                    requires
                        index * cells > usize::MAX,
                        cells >= 1,
                ;
            }
            return None;
        },
    };
    let width = match cells.checked_mul(4) {
        Some(w) => w,
        None => {
            return None;
        },
    };
    let end = match start.checked_add(width) {
        Some(e) => e,
        None => {
            return None;
        },
    };
    if end > value.len() {
        return None;
    }
    if cells >= 3 {
        let irq_type = read_prop_be32(value, start).unwrap();
        let number = read_prop_be32(value, start + 4).unwrap();
        let flags = match read_prop_be32(value, start + 8) {
            Some(f) => f,
            None => 0,
        };
        let irq = if irq_type == 0 {
            number.wrapping_add(32)
        } else if irq_type == 1 {
            number.wrapping_add(16)
        } else {
            number
        };
        Some(IrqSpec::new(irq, flags))
    } else {
        let irq = read_prop_be32(value, start).unwrap();
        Some(IrqSpec::new(irq, 0))
    }
}

/// The timer's interrupt: the first specifier naming the physical timer
/// (the last such one), else the first specifier; nothing when one of
/// them cannot be read.
pub open spec fn timer_irq_from(v: Seq<u8>, cells: int, index: int, count: int, first: Option<IrqSpec>, preferred: Option<IrqSpec>) -> Option<IrqSpec>
    decreases count - index,
{
    if index >= count {
        if preferred is Some { preferred } else { first }
    } else {
        match irq_entry(v, index, cells) {
            None => None,
            Some(irq) => timer_irq_from(v, cells, index + 1, count,
                if first is None { Some(irq) } else { first },
                if irq.irq == qemu_virt::GENERIC_TIMER_PHYS_IRQ { Some(irq) } else { preferred }),
        }
    }
}

pub fn choose_timer_irq(value: &[u8], cells: usize) -> (r: Option<IrqSpec>)
    requires
        1 <= cells,
        cells * 4 <= usize::MAX,
    ensures
        r == timer_irq_from(value@, cells as int, 0, (value@.len() as int / (cells * 4)), None, None),
{
    let count = value.len() / (cells * 4);
    let mut first: Option<IrqSpec> = None;
    let mut preferred: Option<IrqSpec> = None;
    let mut index: usize = 0;
    while index < count
        invariant
            index <= count,
            cells >= 1,
            count == value@.len() as int / (cells * 4),
            timer_irq_from(value@, cells as int, 0, count as int, None, None) == timer_irq_from(value@, cells as int, index as int, count as int, first, preferred),
        decreases count - index,
    {
        let irq = match parse_irq(value, index, cells) {
            Some(i) => i,
            None => {
                return None;
            },
        };
        if first.is_none() {
            first = Some(irq);
        }
        if irq.irq == qemu_virt::GENERIC_TIMER_PHYS_IRQ {
            preferred = Some(irq);
        }
        index += 1;
    }
    if preferred.is_some() { preferred } else { first }
}

/// The NUL-terminated strings of `v` from `start` on include `needle`.
pub open spec fn strings_contain(v: Seq<u8>, start: int, needle: Seq<u8>) -> bool
    decreases v.len() - start,
{
    if start < 0 || start >= v.len() {
        false
    } else {
        let rest = v.skip(start);
        let end = start + crate::fs::vfs::nul_end(rest);
        proof {
            crate::fs::vfs::lemma_nul_end_bounds(rest);
        }
        if v.subrange(start, end) == needle {
            true
        } else if end < v.len() {
            strings_contain(v, end + 1, needle)
        } else {
            false
        }
    }
}

pub fn compatible_contains(value: &[u8], needle: &[u8]) -> (r: bool)
    ensures
        r == strings_contain(value@, 0, needle@),
{
    let n = value.len();
    let mut start: usize = 0;
    while start < n
        invariant
            n == value@.len(),
            start <= n,
            strings_contain(value@, 0, needle@) == strings_contain(value@, start as int, needle@),
        decreases n - start,
    {
        let mut end = start;
        proof {
            assert(value@.skip(start as int).skip(0) =~= value@.skip(start as int));
        }
        while end < n && value[end] != 0
            invariant
                start <= end <= n,
                n == value@.len(),
                crate::fs::vfs::nul_end(value@.skip(start as int)) == (end - start) + crate::fs::vfs::nul_end(value@.skip(end as int)),
            decreases n - end,
        {
            assert(value@.skip(end as int).drop_first() =~= value@.skip(end + 1));
            end += 1;
        }
        proof {
            if end < n {
                assert(value@.skip(end as int)[0] == 0);
            } else {
                assert(value@.skip(end as int).len() == 0);
            }
        }
        let piece = vstd::slice::slice_subrange(value, start, end);
        if bytes_eq(piece, needle) {
            return true;
        }
        if end == n {
            assert(!strings_contain(value@, end + 1, needle@));
            return false;
        }
        start = end + 1;
    }
    false
}

/// The root's `compatible` as kept: at most `max` bytes, NULs shown as
/// commas, one trailing comma dropped.
pub open spec fn root_compat(value: Seq<u8>, max: int) -> Seq<u8> {
    let n = if value.len() < max { value.len() as int } else { max };
    let s = Seq::new(n as nat, |k: int| if value[k] == 0 { 0x2cu8 } else { value[k] });
    if n != 0 && s[n - 1] == 0x2c { s.take(n - 1) } else { s }
}

pub fn copy_root_compatible(dst: &mut [u8; ROOT_COMPAT_LEN], value: &[u8], max: usize) -> (r: usize)
    requires
        max <= ROOT_COMPAT_LEN,
    ensures
        r <= max,
        final(dst)@.take(r as int) == root_compat(value@, max as int),
{
    let mut len: usize = 0;
    let ghost n = if value@.len() < max { value@.len() as int } else { max as int };
    while len < value.len() && len < max
        invariant
            len <= max <= ROOT_COMPAT_LEN,
            len <= value@.len(),
            len <= n,
            n == if value@.len() < max { value@.len() as int } else { max as int },
            forall|k: int| 0 <= k < len ==> #[trigger] dst@[k] == if value@[k] == 0 { 0x2cu8 } else { value@[k] },
        decreases max - len,
    {
        let byte = value[len];
        dst[len] = if byte == 0 { 0x2c } else { byte };
        len += 1;
    }
    let ghost s = Seq::new(n as nat, |k: int| if value@[k] == 0 { 0x2cu8 } else { value@[k] });
    assert(dst@.take(len as int) =~= s);
    if len != 0 && dst[len - 1] == 0x2c {
        len -= 1;
        assert(dst@.take(len as int) =~= s.take(len as int));
    }
    len
}

/// The string `value` holds, up to its first NUL, is `text`.
pub fn value_streq(value: &[u8], text: &[u8]) -> (r: bool)
    ensures
        r == (value@.take(crate::fs::vfs::nul_end(value@)) == text@),
{
    let head = crate::fs::ramfs::trim_nul(value);
    bytes_eq(head, text)
}

/// A node name is `prefix`, or `prefix@unit-address`.
pub open spec fn node_name_is(name: Seq<u8>, prefix: Seq<u8>) -> bool {
    &&& name.len() >= prefix.len()
    &&& name.take(prefix.len() as int) == prefix
    &&& (name.len() == prefix.len() || name[prefix.len() as int] == 0x40)
}

pub fn node_name_eq(name: &[u8], prefix: &[u8]) -> (r: bool)
    ensures
        r == node_name_is(name@, prefix@),
{
    if name.len() < prefix.len() {
        return false;
    }
    let head = vstd::slice::slice_subrange(name, 0, prefix.len());
    assert(head@ =~= name@.take(prefix@.len() as int));
    if !bytes_eq(head, prefix) {
        return false;
    }
    name.len() == prefix.len() || name[prefix.len()] == 0x40
}

/// A device tree header at `addr`, whose first bytes are `header`: aligned,
/// with the magic number and a total size from 40 bytes up to all of RAM.
pub open spec fn valid_header(addr: usize, header: Seq<u8>) -> bool {
    &&& addr != 0
    &&& addr % 4 == 0
    &&& header.len() >= 8
    &&& be32_at(header, 0) == FDT_MAGIC
    &&& 40 <= be32_at(header, 4) <= qemu_virt::RAM_SIZE
}

pub fn is_valid_fdt_header(addr: usize, header: &[u8]) -> (r: bool)
    ensures
        r == valid_header(addr, header@),
{
    assert(addr & 3 == addr % 4) by (bit_vector);
    if addr == 0 || addr & 3 != 0 {
        return false;
    }
    let magic = match read_prop_be32(header, 0) {
        Some(m) => m,
        None => {
            return false;
        },
    };
    if magic != FDT_MAGIC {
        return false;
    }
    let total = match read_prop_be32(header, 4) {
        Some(t) => t,
        None => {
            return false;
        },
    };
    40 <= total && (total as usize) <= qemu_virt::RAM_SIZE
}

/// The first 8-aligned address from `addr` on, below `end` by at least a
/// header, where `window` (the bytes from `start`) holds a valid header.
pub open spec fn scan_from(start: usize, end: usize, window: Seq<u8>, addr: int) -> Option<usize>
    decreases end - addr,
{
    if addr < start || addr + 40 > end {
        None
    } else if valid_header(addr as usize, window.skip(addr - start)) {
        Some(addr as usize)
    } else {
        scan_from(start, end, window, addr + 8)
    }
}

/// Searches the memory window `window`, which holds the bytes from `start`
/// to `end`, for a device tree.
pub fn scan_fdt(start: usize, end: usize, window: &[u8]) -> (r: Option<usize>)
    requires
        start + 7 <= usize::MAX,
        end + 8 <= usize::MAX,
        window@.len() == end - start,
        start <= end,
    ensures
        r == scan_from(start, end, window@, (((start + 7) / 8) * 8) as int),
{
    let mut addr = (start + 7) / 8 * 8;
    assert(addr >= start) by (nonlinear_arith)
        requires
            addr == ((start + 7) / 8) * 8,
    ;
    while addr <= end && end - addr >= 40
        invariant
            start <= addr,
            end + 8 <= usize::MAX,
            window@.len() == end - start,
            scan_from(start, end, window@, (((start + 7) / 8) * 8) as int) == scan_from(start, end, window@, addr as int),
        decreases end + 8 - addr,
    {
        let here = vstd::slice::slice_subrange(window, addr - start, window.len());
        assert(here@ =~= window@.skip(addr - start));
        if is_valid_fdt_header(addr, here) {
            return Some(addr);
        }
        addr += 8;
    }
    None
}

/// The property names and `compatible` strings the parser knows, by number.
pub open spec fn word(k: int) -> Seq<u8> {
    if k == 0 {
        seq![0x23u8, 0x61, 0x64, 0x64, 0x72, 0x65, 0x73, 0x73, 0x2d, 0x63, 0x65, 0x6c, 0x6c, 0x73]
    } else if k == 1 {
        seq![0x23u8, 0x73, 0x69, 0x7a, 0x65, 0x2d, 0x63, 0x65, 0x6c, 0x6c, 0x73]
    } else if k == 2 {
        seq![0x23u8, 0x69, 0x6e, 0x74, 0x65, 0x72, 0x72, 0x75, 0x70, 0x74, 0x2d, 0x63, 0x65, 0x6c, 0x6c, 0x73]
    } else if k == 3 {
        seq![0x63u8, 0x6f, 0x6d, 0x70, 0x61, 0x74, 0x69, 0x62, 0x6c, 0x65]
    } else if k == 4 {
        seq![0x64u8, 0x65, 0x76, 0x69, 0x63, 0x65, 0x5f, 0x74, 0x79, 0x70, 0x65]
    } else if k == 5 {
        seq![0x72u8, 0x65, 0x67]
    } else if k == 6 {
        seq![0x69u8, 0x6e, 0x74, 0x65, 0x72, 0x72, 0x75, 0x70, 0x74, 0x73]
    } else if k == 7 {
        seq![0x6du8, 0x65, 0x6d, 0x6f, 0x72, 0x79]
    } else if k == 8 {
        seq![0x74u8, 0x69, 0x6d, 0x65, 0x72]
    } else if k == 9 {
        seq![0x61u8, 0x72, 0x6d, 0x2c, 0x70, 0x6c, 0x30, 0x31, 0x31]
    } else if k == 10 {
        seq![0x61u8, 0x72, 0x6d, 0x2c, 0x63, 0x6f, 0x72, 0x74, 0x65, 0x78, 0x2d, 0x61, 0x31, 0x35, 0x2d, 0x67, 0x69, 0x63]
    } else if k == 11 {
        seq![0x61u8, 0x72, 0x6d, 0x2c, 0x67, 0x69, 0x63, 0x2d, 0x34, 0x30, 0x30]
    } else if k == 12 {
        seq![0x61u8, 0x72, 0x6d, 0x2c, 0x63, 0x6f, 0x72, 0x74, 0x65, 0x78, 0x2d, 0x61, 0x39, 0x2d, 0x67, 0x69, 0x63]
    } else if k == 13 {
        seq![0x61u8, 0x72, 0x6d, 0x2c, 0x61, 0x72, 0x6d, 0x76, 0x37, 0x2d, 0x74, 0x69, 0x6d, 0x65, 0x72]
    } else if k == 14 {
        seq![0x61u8, 0x72, 0x6d, 0x2c, 0x61, 0x72, 0x6d, 0x76, 0x38, 0x2d, 0x74, 0x69, 0x6d, 0x65, 0x72]
    } else {
        seq![0x76u8, 0x69, 0x72, 0x74, 0x69, 0x6f, 0x2c, 0x6d, 0x6d, 0x69, 0x6f]
    }
}

fn word_bytes(k: u8) -> (r: Vec<u8>)
    requires
        k < 16,
    ensures
        r@ == word(k as int),
{
    let r = if k == 0 {
        vec![0x23u8, 0x61, 0x64, 0x64, 0x72, 0x65, 0x73, 0x73, 0x2d, 0x63, 0x65, 0x6c, 0x6c, 0x73]
    } else if k == 1 {
        vec![0x23u8, 0x73, 0x69, 0x7a, 0x65, 0x2d, 0x63, 0x65, 0x6c, 0x6c, 0x73]
    } else if k == 2 {
        vec![0x23u8, 0x69, 0x6e, 0x74, 0x65, 0x72, 0x72, 0x75, 0x70, 0x74, 0x2d, 0x63, 0x65, 0x6c, 0x6c, 0x73]
    } else if k == 3 {
        vec![0x63u8, 0x6f, 0x6d, 0x70, 0x61, 0x74, 0x69, 0x62, 0x6c, 0x65]
    } else if k == 4 {
        vec![0x64u8, 0x65, 0x76, 0x69, 0x63, 0x65, 0x5f, 0x74, 0x79, 0x70, 0x65]
    } else if k == 5 {
        vec![0x72u8, 0x65, 0x67]
    } else if k == 6 {
        vec![0x69u8, 0x6e, 0x74, 0x65, 0x72, 0x72, 0x75, 0x70, 0x74, 0x73]
    } else if k == 7 {
        vec![0x6du8, 0x65, 0x6d, 0x6f, 0x72, 0x79]
    } else if k == 8 {
        vec![0x74u8, 0x69, 0x6d, 0x65, 0x72]
    } else if k == 9 {
        vec![0x61u8, 0x72, 0x6d, 0x2c, 0x70, 0x6c, 0x30, 0x31, 0x31]
    } else if k == 10 {
        vec![0x61u8, 0x72, 0x6d, 0x2c, 0x63, 0x6f, 0x72, 0x74, 0x65, 0x78, 0x2d, 0x61, 0x31, 0x35, 0x2d, 0x67, 0x69, 0x63]
    } else if k == 11 {
        vec![0x61u8, 0x72, 0x6d, 0x2c, 0x67, 0x69, 0x63, 0x2d, 0x34, 0x30, 0x30]
    } else if k == 12 {
        vec![0x61u8, 0x72, 0x6d, 0x2c, 0x63, 0x6f, 0x72, 0x74, 0x65, 0x78, 0x2d, 0x61, 0x39, 0x2d, 0x67, 0x69, 0x63]
    } else if k == 13 {
        vec![0x61u8, 0x72, 0x6d, 0x2c, 0x61, 0x72, 0x6d, 0x76, 0x37, 0x2d, 0x74, 0x69, 0x6d, 0x65, 0x72]
    } else if k == 14 {
        vec![0x61u8, 0x72, 0x6d, 0x2c, 0x61, 0x72, 0x6d, 0x76, 0x38, 0x2d, 0x74, 0x69, 0x6d, 0x65, 0x72]
    } else {
        vec![0x76u8, 0x69, 0x72, 0x74, 0x69, 0x6f, 0x2c, 0x6d, 0x6d, 0x69, 0x6f]
    };
    proof {
        if k == 0 {
            assert(r@ =~= word(0));
        }
        if k == 1 {
            assert(r@ =~= word(1));
        }
        if k == 2 {
            assert(r@ =~= word(2));
        }
        if k == 3 {
            assert(r@ =~= word(3));
        }
        if k == 4 {
            assert(r@ =~= word(4));
        }
        if k == 5 {
            assert(r@ =~= word(5));
        }
        if k == 6 {
            assert(r@ =~= word(6));
        }
        if k == 7 {
            assert(r@ =~= word(7));
        }
        if k == 8 {
            assert(r@ =~= word(8));
        }
        if k == 9 {
            assert(r@ =~= word(9));
        }
        if k == 10 {
            assert(r@ =~= word(10));
        }
        if k == 11 {
            assert(r@ =~= word(11));
        }
        if k == 12 {
            assert(r@ =~= word(12));
        }
        if k == 13 {
            assert(r@ =~= word(13));
        }
        if k == 14 {
            assert(r@ =~= word(14));
        }
        if k == 15 {
            assert(r@ =~= word(15));
        }
    }
    r
}

/// The header fields the parser uses.
#[derive(Clone, Copy, PartialEq, Eq, Structural, Debug)]
pub struct FdtHeader {
    pub totalsize: usize,
    pub off_dt_struct: usize,
    pub off_dt_strings: usize,
    pub size_dt_struct: usize,
    pub size_dt_strings: usize,
}

/// What a node describes, as far as the kernel cares.
#[derive(Clone, Copy, PartialEq, Eq, Structural, Debug)]
pub enum NodeKind {
    Root,
    Memory,
    Uart,
    Gic,
    Timer,
    VirtioMmio,
    Other,
}

/// What has been read of an open node.
#[derive(Clone, Copy, PartialEq, Eq, Structural, Debug)]
pub struct NodeState {
    pub kind: NodeKind,
    pub first_reg: Option<MemRegion>,
    pub second_reg: Option<MemRegion>,
    pub first_irq: IrqSpec,
    pub timer_irq: IrqSpec,
    pub interrupt_cells: u32,
}

pub open spec fn fresh_state(kind: NodeKind) -> NodeState {
    NodeState { kind, first_reg: None, second_reg: None, first_irq: IrqSpec { irq: 0, flags: 0 }, timer_irq: IrqSpec { irq: 0, flags: 0 }, interrupt_cells: 0 }
}

impl NodeState {
    pub fn empty() -> (r: Self)
        ensures
            r == fresh_state(NodeKind::Other),
    {
        NodeState { kind: NodeKind::Other, first_reg: None, second_reg: None, first_irq: IrqSpec::none(), timer_irq: IrqSpec::none(), interrupt_cells: 0 }
    }
}

/// What a property asks of the parser.
#[derive(Clone, Copy, Debug)]
pub enum PropAction {
    Ignore,
    AddressCells(u32),
    SizeCells(u32),
    InterruptCells(u32),
    Kind(NodeKind),
    RootCompatible { compatible: [u8; ROOT_COMPAT_LEN], len: usize },
    Reg { first: MemRegion, second: Option<MemRegion> },
    Interrupts { irq: Option<IrqSpec>, timer: Option<IrqSpec> },
}

/// The header of `blob` as the parser accepts it: the magic number, and
/// the structure and strings blocks inside the total size, which the blob
/// holds.
pub open spec fn header_of(blob: Seq<u8>) -> Option<FdtHeader> {
    if blob.len() < 40 || be32_at(blob, 0) != FDT_MAGIC {
        None
    } else {
        let h = FdtHeader {
            totalsize: be32_at(blob, 4) as usize,
            off_dt_struct: be32_at(blob, 8) as usize,
            off_dt_strings: be32_at(blob, 12) as usize,
            size_dt_struct: be32_at(blob, 36) as usize,
            size_dt_strings: be32_at(blob, 32) as usize,
        };
        if h.totalsize < 40 || h.off_dt_struct >= h.totalsize || h.off_dt_strings >= h.totalsize
            || h.off_dt_struct + h.size_dt_struct > h.totalsize || h.off_dt_strings + h.size_dt_strings > h.totalsize
            || h.totalsize > blob.len() {
            None
        } else {
            Some(h)
        }
    }
}

/// A device tree being read, with the stack of open nodes (the deepest
/// levels share the last slot).
pub struct Parser<'a> {
    pub blob: &'a [u8],
    pub header: FdtHeader,
    pub info: BootInfo,
    pub depth: usize,
    pub nodes: [NodeState; MAX_DEPTH_SLOTS],
    pub address_cells: [u32; MAX_DEPTH_SLOTS],
    pub size_cells: [u32; MAX_DEPTH_SLOTS],
    pub root_address_cells: u32,
    pub root_size_cells: u32,
    pub interrupt_cells: u32,
}

impl<'a> Parser<'a> {
    pub open spec fn struct_end(&self) -> int {
        self.header.off_dt_struct + self.header.size_dt_struct
    }

    pub open spec fn wf(&self) -> bool {
        &&& header_of(self.blob@) == Some(self.header)
        &&& self.info.wf()
        &&& self.blob@.len() + 8 <= usize::MAX
    }

    /// Starts reading the device tree `blob`; nothing when its header is
    /// not one.
    pub fn new(blob: &'a [u8]) -> (r: Option<Self>)
        requires
            blob@.len() + 8 <= usize::MAX,
        ensures
            r is Some <==> header_of(blob@) is Some,
            r matches Some(p) ==> {
                &&& p.wf()
                &&& p.blob == blob
                &&& p.depth == 0
                &&& p.info.fdt_ptr == 0 && p.info.source == BootSource::Fdt
                &&& p.info.ram_start == qemu_virt::RAM_START && p.info.ram_end == qemu_virt::RAM_END
                &&& p.info.mmio_start == usize::MAX && p.info.mmio_end == 0
                &&& p.info.root_compatible_len == 0
                &&& p.info.devices.is_fallback()
                &&& p.nodes@ == Seq::new(MAX_DEPTH_SLOTS as nat, |i: int| fresh_state(NodeKind::Other))
                &&& p.address_cells@ == Seq::new(MAX_DEPTH_SLOTS as nat, |i: int| DEFAULT_ADDRESS_CELLS)
                &&& p.size_cells@ == Seq::new(MAX_DEPTH_SLOTS as nat, |i: int| DEFAULT_SIZE_CELLS)
                &&& p.root_address_cells == DEFAULT_ADDRESS_CELLS && p.root_size_cells == DEFAULT_SIZE_CELLS
                &&& p.interrupt_cells == DEFAULT_INTERRUPT_CELLS
            },
    {
        if blob.len() < 40 {
            return None;
        }
        let magic = read_prop_be32(blob, 0).unwrap();
        if magic != FDT_MAGIC {
            return None;
        }
        let totalsize = read_prop_be32(blob, 4).unwrap() as usize;
        let off_dt_struct = read_prop_be32(blob, 8).unwrap() as usize;
        let off_dt_strings = read_prop_be32(blob, 12).unwrap() as usize;
        let size_dt_strings = read_prop_be32(blob, 32).unwrap() as usize;
        let size_dt_struct = read_prop_be32(blob, 36).unwrap() as usize;
        if totalsize < 40 || off_dt_struct >= totalsize || off_dt_strings >= totalsize
            || size_dt_struct > totalsize - off_dt_struct || size_dt_strings > totalsize - off_dt_strings
            || totalsize > blob.len() {
            return None;
        }
        let mut info = BootInfo::fallback_with_source(0, BootSource::Fdt);
        info.mmio_start = usize::MAX;
        info.mmio_end = 0;
        info.devices = PlatformDevices::fallback();
        let empty = NodeState::empty();
        let r = Parser {
            blob,
            header: FdtHeader { totalsize, off_dt_struct, off_dt_strings, size_dt_struct, size_dt_strings },
            info,
            depth: 0,
            nodes: [empty; MAX_DEPTH_SLOTS],
            address_cells: [DEFAULT_ADDRESS_CELLS; MAX_DEPTH_SLOTS],
            size_cells: [DEFAULT_SIZE_CELLS; MAX_DEPTH_SLOTS],
            root_address_cells: DEFAULT_ADDRESS_CELLS,
            root_size_cells: DEFAULT_SIZE_CELLS,
            interrupt_cells: DEFAULT_INTERRUPT_CELLS,
        };
        assert(r.nodes@ =~= Seq::new(MAX_DEPTH_SLOTS as nat, |i: int| fresh_state(NodeKind::Other)));
        assert(r.address_cells@ =~= Seq::new(MAX_DEPTH_SLOTS as nat, |i: int| DEFAULT_ADDRESS_CELLS));
        assert(r.size_cells@ =~= Seq::new(MAX_DEPTH_SLOTS as nat, |i: int| DEFAULT_SIZE_CELLS));
        Some(r)
    }

    /// The word at `off` of the structure block; nothing past its end.
    pub fn read_struct_be32(&self, off: usize) -> (r: Option<u32>)
        requires
            self.wf(),
        ensures
            off + 4 > self.struct_end() ==> r is None,
            off + 4 <= self.struct_end() ==> r == Some(be32_at(self.blob@, off as int)),
    {
        let end = self.header.off_dt_struct + self.header.size_dt_struct;
        if off > end || end - off < 4 {
            return None;
        }
        read_prop_be32(self.blob, off)
    }

    /// `len` bytes at `off` of the structure block; nothing past its end.
    pub fn struct_slice(&self, off: usize, len: usize) -> (r: Option<&'a [u8]>)
        requires
            self.wf(),
        ensures
            off + len > self.struct_end() ==> r is None,
            off + len <= self.struct_end() ==> (r matches Some(x) && x@ == self.blob@.subrange(off as int, off + len)),
    {
        let end = self.header.off_dt_struct + self.header.size_dt_struct;
        if off > end || end - off < len {
            return None;
        }
        Some(vstd::slice::slice_subrange(self.blob, off, off + len))
    }

    /// The property name at `nameoff` of the strings block: the bytes up to
    /// its NUL, which must lie inside the block.
    pub open spec fn string_spec(&self, nameoff: int) -> Option<Seq<u8>> {
        let start = self.header.off_dt_strings + nameoff;
        let end = self.header.off_dt_strings + self.header.size_dt_strings;
        let window = self.blob@.subrange(start, end);
        if nameoff < 0 || nameoff >= self.header.size_dt_strings || crate::fs::vfs::nul_end(window) >= window.len() {
            None
        } else {
            Some(window.take(crate::fs::vfs::nul_end(window)))
        }
    }

    pub fn string_at(&self, nameoff: usize) -> (r: Option<&'a [u8]>)
        requires
            self.wf(),
        ensures
            match self.string_spec(nameoff as int) {
                Some(s) => r matches Some(x) && x@ == s,
                None => r is None,
            },
    {
        if nameoff >= self.header.size_dt_strings {
            return None;
        }
        let start = self.header.off_dt_strings + nameoff;
        let end = self.header.off_dt_strings + self.header.size_dt_strings;
        let window = vstd::slice::slice_subrange(self.blob, start, end);
        let name = crate::fs::ramfs::trim_nul(window);
        proof {
            crate::fs::vfs::lemma_nul_end_bounds(window@);
        }
        if name.len() >= window.len() {
            return None;
        }
        Some(name)
    }

    /// The length of the node name at `off`: up to its NUL, which must come
    /// before `end`.
    pub fn node_name_len(&self, off: usize, end: usize) -> (r: Option<usize>)
        requires
            self.wf(),
            off <= end <= self.blob@.len(),
        ensures
            ({
                let w = self.blob@.subrange(off as int, end as int);
                if crate::fs::vfs::nul_end(w) < w.len() { r == Some(crate::fs::vfs::nul_end(w) as usize) } else { r is None }
            }),
    {
        let window = vstd::slice::slice_subrange(self.blob, off, end);
        let name = crate::fs::ramfs::trim_nul(window);
        proof {
            crate::fs::vfs::lemma_nul_end_bounds(window@);
        }
        if name.len() < window.len() {
            Some(name.len())
        } else {
            None
        }
    }

    pub open spec fn index_of(&self) -> int {
        if self.depth < MAX_DEPTH_SLOTS - 1 { self.depth as int } else { MAX_DEPTH_SLOTS - 1 }
    }

    pub fn node_index(&self) -> (r: usize)
        ensures
            r == self.index_of(),
    {
        if self.depth < MAX_DEPTH_SLOTS - 1 { self.depth } else { MAX_DEPTH_SLOTS - 1 }
    }

    pub fn current_state(&self) -> (r: NodeState)
        ensures
            r == self.nodes@[self.index_of()],
    {
        self.nodes[self.node_index()]
    }

    pub open spec fn parent_slot(&self) -> int {
        if self.depth == 0 { 0 } else { self.depth - 1 }
    }

    pub open spec fn parent_address_spec(&self) -> u32 {
        if self.parent_slot() < MAX_DEPTH_SLOTS { self.address_cells@[self.parent_slot()] } else { self.root_address_cells }
    }

    pub open spec fn parent_size_spec(&self) -> u32 {
        if self.parent_slot() < MAX_DEPTH_SLOTS { self.size_cells@[self.parent_slot()] } else { self.root_size_cells }
    }

    pub fn parent_address_cells(&self) -> (r: u32)
        ensures
            r == self.parent_address_spec(),
    {
        let parent = if self.depth == 0 { 0 } else { self.depth - 1 };
        if parent < MAX_DEPTH_SLOTS { self.address_cells[parent] } else { self.root_address_cells }
    }

    pub fn parent_size_cells(&self) -> (r: u32)
        ensures
            r == self.parent_size_spec(),
    {
        let parent = if self.depth == 0 { 0 } else { self.depth - 1 };
        if parent < MAX_DEPTH_SLOTS { self.size_cells[parent] } else { self.root_size_cells }
    }

    pub fn set_address_cells(&mut self, cells: u32)
        ensures
            final(self).root_address_cells == if old(self).depth == 1 { cells } else { old(self).root_address_cells },
            final(self).address_cells@ == if old(self).depth < MAX_DEPTH_SLOTS {
                old(self).address_cells@.update(old(self).depth as int, cells)
            } else {
                old(self).address_cells@
            },
            final(self).blob == old(self).blob && final(self).header == old(self).header && final(self).info == old(self).info,
            final(self).depth == old(self).depth && final(self).nodes == old(self).nodes && final(self).size_cells == old(self).size_cells,
            final(self).root_size_cells == old(self).root_size_cells && final(self).interrupt_cells == old(self).interrupt_cells,
    {
        if self.depth == 1 {
            self.root_address_cells = cells;
        }
        if self.depth < MAX_DEPTH_SLOTS {
            self.address_cells[self.depth] = cells;
        }
    }

    pub fn set_size_cells(&mut self, cells: u32)
        ensures
            final(self).root_size_cells == if old(self).depth == 1 { cells } else { old(self).root_size_cells },
            final(self).size_cells@ == if old(self).depth < MAX_DEPTH_SLOTS {
                old(self).size_cells@.update(old(self).depth as int, cells)
            } else {
                old(self).size_cells@
            },
            final(self).blob == old(self).blob && final(self).header == old(self).header && final(self).info == old(self).info,
            final(self).depth == old(self).depth && final(self).nodes == old(self).nodes && final(self).address_cells == old(self).address_cells,
            final(self).root_address_cells == old(self).root_address_cells && final(self).interrupt_cells == old(self).interrupt_cells,
    {
        if self.depth == 1 {
            self.root_size_cells = cells;
        }
        if self.depth < MAX_DEPTH_SLOTS {
            self.size_cells[self.depth] = cells;
        }
    }
}


/// `x + y`, or the largest address when that does not fit.
pub open spec fn sat_end(r: MemRegion) -> usize {
    if r.start + r.size > usize::MAX { usize::MAX } else { (r.start + r.size) as usize }
}

/// `new` is `old` after doing what `action` asks.
pub open spec fn applied<'a>(old: Parser<'a>, new: Parser<'a>, action: PropAction) -> bool {
    match action {
        PropAction::Ignore => new == old,
        PropAction::AddressCells(c) => new.root_address_cells == (if old.depth == 1 { c } else { old.root_address_cells })
            && new.address_cells@ == (if old.depth < MAX_DEPTH_SLOTS { old.address_cells@.update(old.depth as int, c) } else { old.address_cells@ })
            && new.info == old.info && new.nodes == old.nodes
            && new.size_cells == old.size_cells && new.root_size_cells == old.root_size_cells && new.interrupt_cells == old.interrupt_cells,
        PropAction::SizeCells(c) => new.root_size_cells == (if old.depth == 1 { c } else { old.root_size_cells })
            && new.size_cells@ == (if old.depth < MAX_DEPTH_SLOTS { old.size_cells@.update(old.depth as int, c) } else { old.size_cells@ })
            && new.info == old.info && new.nodes == old.nodes
            && new.address_cells == old.address_cells && new.root_address_cells == old.root_address_cells && new.interrupt_cells == old.interrupt_cells,
        PropAction::InterruptCells(c) => new.nodes@ == old.nodes@.update(old.index_of(),
                NodeState { interrupt_cells: c, ..old.nodes@[old.index_of()] })
            && new.info == old.info
            && new.address_cells == old.address_cells && new.size_cells == old.size_cells
            && new.root_address_cells == old.root_address_cells && new.root_size_cells == old.root_size_cells
            && new.interrupt_cells == old.interrupt_cells,
        PropAction::Kind(k) => new.nodes@ == old.nodes@.update(old.index_of(),
                NodeState { kind: k, ..old.nodes@[old.index_of()] })
            && new.info == old.info
            && new.address_cells == old.address_cells && new.size_cells == old.size_cells
            && new.root_address_cells == old.root_address_cells && new.root_size_cells == old.root_size_cells
            && new.interrupt_cells == old.interrupt_cells,
        PropAction::RootCompatible { compatible, len } => new.info.root_compatible == (if len <= ROOT_COMPAT_LEN { compatible } else { old.info.root_compatible })
            && new.info.root_compatible_len == (if len <= ROOT_COMPAT_LEN { len } else { old.info.root_compatible_len })
            && new.nodes == old.nodes
            && new.info.devices == old.info.devices && new.info.mmio_start == old.info.mmio_start && new.info.mmio_end == old.info.mmio_end
            && new.info.ram_start == old.info.ram_start && new.info.ram_end == old.info.ram_end
            && new.info.fdt_ptr == old.info.fdt_ptr && new.info.source == old.info.source
            && new.address_cells == old.address_cells && new.size_cells == old.size_cells
            && new.root_address_cells == old.root_address_cells && new.root_size_cells == old.root_size_cells
            && new.interrupt_cells == old.interrupt_cells,
        PropAction::Reg { first, second } => new.nodes@ == old.nodes@.update(old.index_of(),
                NodeState { first_reg: Some(first), second_reg: second, ..old.nodes@[old.index_of()] })
            && new.info == old.info
            && new.address_cells == old.address_cells && new.size_cells == old.size_cells
            && new.root_address_cells == old.root_address_cells && new.root_size_cells == old.root_size_cells
            && new.interrupt_cells == old.interrupt_cells,
        PropAction::Interrupts { irq, timer } => new.nodes@ == old.nodes@.update(old.index_of(),
                NodeState {
                    first_irq: if irq is Some { irq->Some_0 } else { old.nodes@[old.index_of()].first_irq },
                    timer_irq: if timer is Some { timer->Some_0 } else { old.nodes@[old.index_of()].timer_irq },
                    ..old.nodes@[old.index_of()]
                })
            && new.info == old.info
            && new.address_cells == old.address_cells && new.size_cells == old.size_cells
            && new.root_address_cells == old.root_address_cells && new.root_size_cells == old.root_size_cells
            && new.interrupt_cells == old.interrupt_cells,
    }
}

impl<'a> Parser<'a> {
    /// Everything but the boot information stayed.
    pub open spec fn same_but_info(&self, other: &Parser<'a>) -> bool {
        &&& self.blob == other.blob
        &&& self.header == other.header
        &&& self.depth == other.depth
        &&& self.nodes == other.nodes
        &&& self.address_cells == other.address_cells
        &&& self.size_cells == other.size_cells
        &&& self.root_address_cells == other.root_address_cells
        &&& self.root_size_cells == other.root_size_cells
        &&& self.interrupt_cells == other.interrupt_cells
    }

    /// Widens the MMIO window to take in `region`.
    pub fn include_mmio(&mut self, region: MemRegion)
        ensures
            final(self).same_but_info(old(self)),
            !region.present() ==> final(self).info == old(self).info,
            region.present() ==> {
                &&& final(self).info.mmio_start == if region.start < old(self).info.mmio_start { region.start } else { old(self).info.mmio_start }
                &&& final(self).info.mmio_end == if sat_end(region) > old(self).info.mmio_end { sat_end(region) } else { old(self).info.mmio_end }
                &&& final(self).info.devices == old(self).info.devices
                &&& final(self).info.ram_start == old(self).info.ram_start && final(self).info.ram_end == old(self).info.ram_end
                &&& final(self).info.root_compatible == old(self).info.root_compatible
                &&& final(self).info.root_compatible_len == old(self).info.root_compatible_len
                &&& final(self).info.fdt_ptr == old(self).info.fdt_ptr && final(self).info.source == old(self).info.source
            },
    {
        if !region.is_present() {
            return;
        }
        if region.start < self.info.mmio_start {
            self.info.mmio_start = region.start;
        }
        let end = region.start.saturating_add(region.size);
        if end > self.info.mmio_end {
            self.info.mmio_end = end;
        }
    }

    /// What `compatible` asks: on the root, keep its text; elsewhere, the
    /// kind of device it names.
    pub open spec fn compatible_spec(&self, value: Seq<u8>) -> PropAction {
        if self.nodes@[self.index_of()].kind == NodeKind::Root {
            PropAction::Ignore
        } else if strings_contain(value, 0, word(9)) {
            PropAction::Kind(NodeKind::Uart)
        } else if strings_contain(value, 0, word(10)) || strings_contain(value, 0, word(11)) || strings_contain(value, 0, word(12)) {
            PropAction::Kind(NodeKind::Gic)
        } else if strings_contain(value, 0, word(13)) || strings_contain(value, 0, word(14)) {
            PropAction::Kind(NodeKind::Timer)
        } else if strings_contain(value, 0, word(15)) {
            PropAction::Kind(NodeKind::VirtioMmio)
        } else {
            PropAction::Ignore
        }
    }

    pub fn compatible_action(&self, value: &[u8]) -> (r: PropAction)
        ensures
            self.nodes@[self.index_of()].kind == NodeKind::Root ==> (r matches PropAction::RootCompatible { compatible, len }
                && len <= ROOT_COMPAT_LEN && compatible@.take(len as int) == root_compat(value@, ROOT_COMPAT_LEN as int)),
            self.nodes@[self.index_of()].kind != NodeKind::Root ==> r == self.compatible_spec(value@),
    {
        if self.current_state().kind == NodeKind::Root {
            let mut compatible = [0u8; ROOT_COMPAT_LEN];
            let len = copy_root_compatible(&mut compatible, value, ROOT_COMPAT_LEN);
            return PropAction::RootCompatible { compatible, len };
        }
        if compatible_contains(value, word_bytes(9).as_slice()) {
            PropAction::Kind(NodeKind::Uart)
        } else if compatible_contains(value, word_bytes(10).as_slice()) || compatible_contains(value, word_bytes(11).as_slice())
            || compatible_contains(value, word_bytes(12).as_slice()) {
            PropAction::Kind(NodeKind::Gic)
        } else if compatible_contains(value, word_bytes(13).as_slice()) || compatible_contains(value, word_bytes(14).as_slice()) {
            PropAction::Kind(NodeKind::Timer)
        } else if compatible_contains(value, word_bytes(15).as_slice()) {
            PropAction::Kind(NodeKind::VirtioMmio)
        } else {
            PropAction::Ignore
        }
    }

    pub open spec fn clamp12(x: u32) -> u32 {
        if x < 1 { 1 } else if x > 2 { 2 } else { x }
    }

    /// What `reg` asks: the first region, and the second when there is
    /// one, in the parent's cell sizes (each held to 1 or 2).
    pub open spec fn reg_spec(&self, value: Seq<u8>) -> PropAction {
        let a = Parser::clamp12(self.parent_address_spec());
        let sz = Parser::clamp12(self.parent_size_spec());
        if value.len() < (a + sz) * 4 {
            PropAction::Ignore
        } else {
            match reg_entry(value, a, sz, 0) {
                None => PropAction::Ignore,
                Some(first) => PropAction::Reg { first, second: reg_entry(value, a, sz, 1) },
            }
        }
    }

    pub fn reg_action(&self, value: &[u8]) -> (r: PropAction)
        ensures
            r == self.reg_spec(value@),
    {
        let pa = self.parent_address_cells();
        let ps = self.parent_size_cells();
        let addr_cells: u32 = if pa < 1 { 1 } else if pa > 2 { 2 } else { pa };
        let size_cells: u32 = if ps < 1 { 1 } else if ps > 2 { 2 } else { ps };
        let stride = ((addr_cells + size_cells) as usize) * 4;
        if value.len() < stride {
            return PropAction::Ignore;
        }
        let first = match parse_reg_entry(value, addr_cells, size_cells, 0) {
            Some(f) => f,
            None => {
                return PropAction::Ignore;
            },
        };
        let second = parse_reg_entry(value, addr_cells, size_cells, 1);
        PropAction::Reg { first, second }
    }

    /// What `interrupts` asks: the first specifier and the timer's, in the
    /// interrupt controller's cell count (at least one).
    pub open spec fn interrupts_spec(&self, value: Seq<u8>) -> PropAction {
        let cells = if self.interrupt_cells < 1 { 1int } else { self.interrupt_cells as int };
        if value.len() < cells * 4 {
            PropAction::Ignore
        } else {
            PropAction::Interrupts {
                irq: irq_entry(value, 0, cells),
                timer: timer_irq_from(value, cells, 0, value.len() as int / (cells * 4), None, None),
            }
        }
    }

    pub fn interrupts_action(&self, value: &[u8]) -> (r: PropAction)
        ensures
            r == self.interrupts_spec(value@),
    {
        let cells: usize = if self.interrupt_cells < 1 { 1 } else { self.interrupt_cells as usize };
        let n = value.len();
        let width = match cells.checked_mul(4) {
            Some(w) => w,
            None => {
                assert(n < cells * 4);
                return PropAction::Ignore;
            },
        };
        if value.len() < width {
            return PropAction::Ignore;
        }
        let first = parse_irq(value, 0, cells);
        let timer = choose_timer_irq(value, cells);
        PropAction::Interrupts { irq: first, timer }
    }

    /// Does what `action` asks.
    pub fn apply_action(&mut self, action: PropAction)
        requires
            old(self).wf(),
        ensures
            final(self).wf(),
            final(self).blob == old(self).blob && final(self).header == old(self).header && final(self).depth == old(self).depth,
            applied(*old(self), *final(self), action),
    {
        match action {
            PropAction::Ignore => {},
            PropAction::AddressCells(cells) => self.set_address_cells(cells),
            PropAction::SizeCells(cells) => self.set_size_cells(cells),
            PropAction::InterruptCells(cells) => {
                let i = self.node_index();
                let mut st = self.nodes[i];
                st.interrupt_cells = cells;
                self.nodes[i] = st;
            },
            PropAction::Kind(kind) => {
                let i = self.node_index();
                let mut st = self.nodes[i];
                st.kind = kind;
                self.nodes[i] = st;
            },
            PropAction::RootCompatible { compatible, len } => {
                if len <= ROOT_COMPAT_LEN {
                    self.info.root_compatible = compatible;
                    self.info.root_compatible_len = len;
                }
            },
            PropAction::Reg { first, second } => {
                let i = self.node_index();
                let mut st = self.nodes[i];
                st.first_reg = Some(first);
                st.second_reg = second;
                self.nodes[i] = st;
            },
            PropAction::Interrupts { irq, timer } => {
                let i = self.node_index();
                let mut st = self.nodes[i];
                match irq {
                    Some(v) => {
                        st.first_irq = v;
                    },
                    None => {},
                }
                match timer {
                    Some(irq) => {
                        st.timer_irq = irq;
                    },
                    None => {},
                }
                self.nodes[i] = st;
            },
        }
    }
}


/// What property `name` with value `value` does to the parser.
pub open spec fn prop_effect<'a>(old: Parser<'a>, new: Parser<'a>, name: Seq<u8>, value: Seq<u8>) -> bool {
    if name == word(0) {
        if value.len() >= 4 { applied(old, new, PropAction::AddressCells(be32_at(value, 0))) } else { new == old }
    } else if name == word(1) {
        if value.len() >= 4 { applied(old, new, PropAction::SizeCells(be32_at(value, 0))) } else { new == old }
    } else if name == word(2) {
        if value.len() >= 4 { applied(old, new, PropAction::InterruptCells(be32_at(value, 0))) } else { new == old }
    } else if name == word(3) {
        if old.nodes@[old.index_of()].kind == NodeKind::Root {
            &&& new.info.root_compatible_len <= ROOT_COMPAT_LEN
            &&& new.info.root_compatible@.take(new.info.root_compatible_len as int) == root_compat(value, ROOT_COMPAT_LEN as int)
            &&& new.nodes == old.nodes && new.depth == old.depth && new.blob == old.blob && new.header == old.header
            &&& new.info.devices == old.info.devices && new.info.mmio_start == old.info.mmio_start && new.info.mmio_end == old.info.mmio_end
        } else {
            applied(old, new, old.compatible_spec(value))
        }
    } else if name == word(4) {
        if value.take(crate::fs::vfs::nul_end(value)) == word(7) { applied(old, new, PropAction::Kind(NodeKind::Memory)) } else { new == old }
    } else if name == word(5) {
        applied(old, new, old.reg_spec(value))
    } else if name == word(6) {
        applied(old, new, old.interrupts_spec(value))
    } else {
        new == old
    }
}

/// The new values of the MMIO window after taking in `r`.
pub open spec fn widened(start: usize, end: usize, r: MemRegion) -> (usize, usize) {
    if !r.present() {
        (start, end)
    } else {
        (if r.start < start { r.start } else { start }, if sat_end(r) > end { sat_end(r) } else { end })
    }
}

impl<'a> Parser<'a> {
    /// Reads property `nameoff` whose value of `value_len` bytes is at
    /// `value_off`; nothing when the name or the value lies outside its
    /// block.
    pub fn property(&mut self, nameoff: usize, value_off: usize, value_len: usize) -> (r: Option<()>)
        requires
            old(self).wf(),
        ensures
            final(self).wf(),
            final(self).blob == old(self).blob && final(self).header == old(self).header && final(self).depth == old(self).depth,
            (old(self).string_spec(nameoff as int) is None || value_off + value_len > old(self).struct_end()) ==> r is None && *final(self) == *old(self),
            (old(self).string_spec(nameoff as int) is Some && value_off + value_len <= old(self).struct_end()) ==> r is Some
                && prop_effect(*old(self), *final(self), old(self).string_spec(nameoff as int)->Some_0, old(self).blob@.subrange(value_off as int, value_off + value_len)),
    {
        let name = match self.string_at(nameoff) {
            Some(n) => n,
            None => {
                return None;
            },
        };
        let value = match self.struct_slice(value_off, value_len) {
            Some(v) => v,
            None => {
                return None;
            },
        };
        let mut action = PropAction::Ignore;
        if bytes_eq(name, word_bytes(0).as_slice()) {
            match prop_u32(value) {
                Some(cells) => {
                    action = PropAction::AddressCells(cells);
                },
                None => {},
            }
        } else if bytes_eq(name, word_bytes(1).as_slice()) {
            match prop_u32(value) {
                Some(cells) => {
                    action = PropAction::SizeCells(cells);
                },
                None => {},
            }
        } else if bytes_eq(name, word_bytes(2).as_slice()) {
            match prop_u32(value) {
                Some(cells) => {
                    action = PropAction::InterruptCells(cells);
                },
                None => {},
            }
        } else if bytes_eq(name, word_bytes(3).as_slice()) {
            action = self.compatible_action(value);
        } else if bytes_eq(name, word_bytes(4).as_slice()) {
            if value_streq(value, word_bytes(7).as_slice()) {
                action = PropAction::Kind(NodeKind::Memory);
            }
        } else if bytes_eq(name, word_bytes(5).as_slice()) {
            action = self.reg_action(value);
        } else if bytes_eq(name, word_bytes(6).as_slice()) {
            action = self.interrupts_action(value);
        }
        self.apply_action(action);
        Some(())
    }

    /// Opens a node whose name of `name_len` bytes is at `name_off`: it
    /// inherits its parent's cell sizes; depth one is the root, and
    /// `memory` and `timer` nodes are known by name.
    pub fn begin_node(&mut self, name_off: usize, name_len: usize)
        requires
            old(self).wf(),
            old(self).depth < usize::MAX,
        ensures
            final(self).wf(),
            final(self).blob == old(self).blob && final(self).header == old(self).header && final(self).info == old(self).info,
            final(self).depth == old(self).depth + 1,
            final(self).root_address_cells == old(self).root_address_cells && final(self).root_size_cells == old(self).root_size_cells,
            final(self).interrupt_cells == old(self).interrupt_cells,
            final(self).address_cells@ == if final(self).depth < MAX_DEPTH_SLOTS {
                old(self).address_cells@.update(final(self).depth as int, old(self).address_cells@[old(self).depth as int])
            } else {
                old(self).address_cells@
            },
            final(self).size_cells@ == if final(self).depth < MAX_DEPTH_SLOTS {
                old(self).size_cells@.update(final(self).depth as int, old(self).size_cells@[old(self).depth as int])
            } else {
                old(self).size_cells@
            },
            ({
                let name = if name_off + name_len <= old(self).struct_end() {
                    old(self).blob@.subrange(name_off as int, name_off + name_len)
                } else {
                    Seq::<u8>::empty()
                };
                let kind = if final(self).depth == 1 {
                    NodeKind::Root
                } else if node_name_is(name, word(7)) {
                    NodeKind::Memory
                } else if node_name_is(name, word(8)) {
                    NodeKind::Timer
                } else {
                    NodeKind::Other
                };
                final(self).nodes@ == old(self).nodes@.update(final(self).index_of(), fresh_state(kind))
            }),
    {
        self.depth = self.depth + 1;
        let parent = self.depth - 1;
        if self.depth < MAX_DEPTH_SLOTS {
            let a = self.address_cells[parent];
            let sz = self.size_cells[parent];
            self.address_cells[self.depth] = a;
            self.size_cells[self.depth] = sz;
        }
        let empty: &[u8] = &[];
        let name = match self.struct_slice(name_off, name_len) {
            Some(n) => n,
            None => empty,
        };
        assert(empty@ =~= Seq::<u8>::empty());
        let kind = if self.depth == 1 {
            NodeKind::Root
        } else if node_name_eq(name, word_bytes(7).as_slice()) {
            NodeKind::Memory
        } else if node_name_eq(name, word_bytes(8).as_slice()) {
            NodeKind::Timer
        } else {
            NodeKind::Other
        };
        let index = self.node_index();
        let mut st = NodeState::empty();
        st.kind = kind;
        self.nodes[index] = st;
    }
}


/// The boot information after taking in `r` as the MMIO window grows.
pub open spec fn with_mmio(info: BootInfo, r: MemRegion) -> BootInfo {
    BootInfo { mmio_start: widened(info.mmio_start, info.mmio_end, r).0, mmio_end: widened(info.mmio_start, info.mmio_end, r).1, ..info }
}

/// What closing the current node does to the boot information: a memory
/// node gives the RAM range; a UART, GIC or timer node its registers and
/// interrupt; a virtio node one more transport.
pub open spec fn finished<'a>(old: Parser<'a>, new: Parser<'a>) -> bool {
    let st = old.nodes@[old.index_of()];
    let d = old.info.devices;
    &&& new.same_but_info(&old) || (st.kind == NodeKind::Gic && st.interrupt_cells != 0)
    &&& new.blob == old.blob && new.header == old.header && new.depth == old.depth && new.nodes == old.nodes
    &&& new.address_cells == old.address_cells && new.size_cells == old.size_cells
    &&& new.root_address_cells == old.root_address_cells && new.root_size_cells == old.root_size_cells
    &&& new.interrupt_cells == if st.kind == NodeKind::Gic && st.interrupt_cells != 0 { st.interrupt_cells } else { old.interrupt_cells }
    &&& match st.kind {
        NodeKind::Memory => new.info == match st.first_reg {
            Some(r) => BootInfo { ram_start: r.start, ram_end: sat_end(r), ..old.info },
            None => old.info,
        },
        NodeKind::Uart => {
            let i1 = match st.first_reg {
                Some(r) => with_mmio(BootInfo { devices: PlatformDevices { uart0: Pl011Device { reg: r, ..d.uart0 }, ..d }, ..old.info }, r),
                None => old.info,
            };
            new.info == if st.first_irq.present() {
                BootInfo { devices: PlatformDevices { uart0: Pl011Device { irq: st.first_irq, ..i1.devices.uart0 }, ..i1.devices }, ..i1 }
            } else {
                i1
            }
        },
        NodeKind::Gic => {
            let i1 = match st.first_reg {
                Some(r) => with_mmio(BootInfo { devices: PlatformDevices { gic: GicDevice { distributor: r, ..d.gic }, ..d }, ..old.info }, r),
                None => old.info,
            };
            let i2 = match st.second_reg {
                Some(r) => with_mmio(BootInfo { devices: PlatformDevices { gic: GicDevice { cpu_interface: r, ..i1.devices.gic }, ..i1.devices }, ..i1 }, r),
                None => i1,
            };
            new.info == if st.interrupt_cells != 0 {
                BootInfo { devices: PlatformDevices { gic: GicDevice { interrupt_cells: st.interrupt_cells, ..i2.devices.gic }, ..i2.devices }, ..i2 }
            } else {
                i2
            }
        },
        NodeKind::Timer => {
            let irq = if st.timer_irq.present() { st.timer_irq } else { st.first_irq };
            new.info == if irq.present() {
                BootInfo { devices: PlatformDevices { timer: TimerDevice { physical_irq: irq }, ..d }, ..old.info }
            } else {
                old.info
            }
        },
        NodeKind::VirtioMmio => match st.first_reg {
            None => new.info == old.info,
            Some(r) => {
                let dev = VirtioMmioDevice { reg: r, irq: st.first_irq, kind: VirtioKind::Unknown };
                let w = widened(old.info.mmio_start, old.info.mmio_end, r);
                &&& new.info.mmio_start == w.0 && new.info.mmio_end == w.1
                &&& new.info.devices.uart0 == d.uart0 && new.info.devices.gic == d.gic && new.info.devices.timer == d.timer
                &&& d.virtio_mmio_count < MAX_VIRTIO_MMIO ==> new.info.devices.virtio_mmio@ == d.virtio_mmio@.update(d.virtio_mmio_count as int, dev)
                    && new.info.devices.virtio_mmio_count == d.virtio_mmio_count + 1
                &&& d.virtio_mmio_count >= MAX_VIRTIO_MMIO ==> new.info.devices.virtio_mmio@ == d.virtio_mmio@
                    && new.info.devices.virtio_mmio_count == d.virtio_mmio_count
                &&& new.info.ram_start == old.info.ram_start && new.info.ram_end == old.info.ram_end
                &&& new.info.root_compatible == old.info.root_compatible && new.info.root_compatible_len == old.info.root_compatible_len
                &&& new.info.fdt_ptr == old.info.fdt_ptr && new.info.source == old.info.source
            },
        },
        _ => new.info == old.info,
    }
}

impl<'a> Parser<'a> {
    /// Closes the current node, taking what it described into the boot
    /// information.
    pub fn finish_node(&mut self)
        requires
            old(self).wf(),
        ensures
            final(self).wf(),
            finished(*old(self), *final(self)),
    {
        let state = self.current_state();
        match state.kind {
            NodeKind::Memory => {
                match state.first_reg {
                    Some(region) => {
                        let ghost before = self.info;
                        self.info.ram_start = region.start;
                        let end = region.start.saturating_add(region.size);
                        assert(end == sat_end(region));
                        self.info.ram_end = end;
                        assert(self.info == BootInfo { ram_start: region.start, ram_end: sat_end(region), ..before });
                    },
                    None => {},
                }
            },
            NodeKind::Uart => {
                match state.first_reg {
                    Some(region) => {
                        self.info.devices.uart0.reg = region;
                        self.include_mmio(region);
                    },
                    None => {},
                }
                if state.first_irq.is_present() {
                    self.info.devices.uart0.irq = state.first_irq;
                }
            },
            NodeKind::Gic => {
                match state.first_reg {
                    Some(region) => {
                        self.info.devices.gic.distributor = region;
                        self.include_mmio(region);
                    },
                    None => {},
                }
                match state.second_reg {
                    Some(region) => {
                        self.info.devices.gic.cpu_interface = region;
                        self.include_mmio(region);
                    },
                    None => {},
                }
                if state.interrupt_cells != 0 {
                    self.interrupt_cells = state.interrupt_cells;
                    self.info.devices.gic.interrupt_cells = state.interrupt_cells;
                }
            },
            NodeKind::Timer => {
                let irq = if state.timer_irq.is_present() { state.timer_irq } else { state.first_irq };
                if irq.is_present() {
                    self.info.devices.timer.physical_irq = irq;
                }
            },
            NodeKind::VirtioMmio => {
                match state.first_reg {
                    Some(region) => {
                        let device = VirtioMmioDevice { reg: region, irq: state.first_irq, kind: VirtioKind::Unknown };
                        self.info.devices.push_virtio_mmio(device);
                        self.include_mmio(region);
                    },
                    None => {},
                }
            },
            _ => {},
        }
    }
}


/// The name at `nameoff` in the strings block of `blob` with header `h`.
pub open spec fn name_in(blob: Seq<u8>, h: FdtHeader, nameoff: int) -> Option<Seq<u8>> {
    let start = h.off_dt_strings + nameoff;
    let end = h.off_dt_strings + h.size_dt_strings;
    let window = blob.subrange(start, end);
    if nameoff < 0 || nameoff >= h.size_dt_strings || crate::fs::vfs::nul_end(window) >= window.len() {
        None
    } else {
        Some(window.take(crate::fs::vfs::nul_end(window)))
    }
}

/// The structure block of `blob`, read from `off` with `depth` nodes open,
/// reaches its end token: every node name is terminated, every property's
/// name and value lie in their blocks, no node is closed that was not
/// opened, and no token is unknown or cut off.
pub open spec fn tokens_ok(blob: Seq<u8>, h: FdtHeader, off: int, depth: int) -> bool
    decreases h.off_dt_struct + h.size_dt_struct + 4 - off,
{
    let end = h.off_dt_struct + h.size_dt_struct;
    if off < 0 || off > end || end - off < 4 {
        false
    } else {
        let token = be32_at(blob, off);
        let o = off + 4;
        if token == FDT_BEGIN_NODE {
            let w = blob.subrange(o, end);
            let n = crate::fs::vfs::nul_end(w);
            if n < w.len() {
                let next = crate::fs::archive::align4_spec(o + n + 1);
                proof {
                    crate::fs::vfs::lemma_nul_end_bounds(w);
                    assert(next >= o + n + 1) by (nonlinear_arith)
                        requires
                            next == ((o + n + 1 + 3) / 4) * 4,
                    ;
                }
                if next > end {
                    false
                } else {
                    tokens_ok(blob, h, next, depth + 1)
                }
            } else {
                false
            }
        } else if token == FDT_END_NODE {
            if depth == 0 {
                false
            } else {
                tokens_ok(blob, h, o, depth - 1)
            }
        } else if token == FDT_PROP {
            if o > end || end - o < 8 {
                false
            } else {
                let len = be32_at(blob, o) as int;
                let nameoff = be32_at(blob, o + 4) as int;
                if name_in(blob, h, nameoff) is None || o + 8 + len > end {
                    false
                } else {
                    let next = crate::fs::archive::align4_spec(o + 8 + len);
                    proof {
                        assert(next >= o + 8 + len) by (nonlinear_arith)
                            requires
                                next == ((o + 8 + len + 3) / 4) * 4,
                        ;
                    }
                    if next > end {
                        false
                    } else {
                        tokens_ok(blob, h, next, depth)
                    }
                }
            }
        } else if token == FDT_NOP {
            tokens_ok(blob, h, o, depth)
        } else {
            token == FDT_END
        }
    }
}

impl<'a> Parser<'a> {
    /// Walks the structure block token by token; the boot information is
    /// complete at the end token. Nothing for an unknown token, a node
    /// closed that was never opened, or a token cut off.
    pub fn parse(&mut self) -> (r: Option<BootInfo>)
        requires
            old(self).wf(),
            old(self).depth == 0,
        ensures
            final(self).wf(),
            final(self).blob == old(self).blob && final(self).header == old(self).header,
            r matches Some(info) ==> (info == final(self).info && info.wf() && info.mmio_start != usize::MAX),
            r is Some <==> tokens_ok(old(self).blob@, old(self).header, old(self).header.off_dt_struct as int, 0),
    {
        let mut off = self.header.off_dt_struct;
        let end = self.header.off_dt_struct + self.header.size_dt_struct;
        let ghost blob = self.blob;
        let ghost header = self.header;
        while off <= end && end - off >= 4
            invariant
                self.wf(),
                self.blob == blob && self.header == header,
                blob == old(self).blob && header == old(self).header,
                end == self.struct_end(),
                end <= self.blob@.len(),
                off <= end + 3,
                self.depth <= off,
                tokens_ok(blob@, header, off as int, self.depth as int) == tokens_ok(blob@, header, header.off_dt_struct as int, 0),
            decreases end + 4 - off,
        {
            let ghost off0 = off as int;
            let ghost depth0 = self.depth as int;
            proof {
                assert(forall|k: int| #[trigger] self.string_spec(k) == name_in(blob@, header, k));
            }
            let token = match self.read_struct_be32(off) {
                Some(t) => t,
                None => {
                    return None;
                },
            };
            off = off + 4;
            if token == FDT_BEGIN_NODE {
                let name_start = off;
                let name_len = match self.node_name_len(name_start, end) {
                    Some(n) => n,
                    None => {
                        return None;
                    },
                };
                proof {
                    crate::fs::vfs::lemma_nul_end_bounds(self.blob@.subrange(name_start as int, end as int));
                }
                assert(name_start + name_len < end);
                self.begin_node(name_start, name_len);
                off = align4(name_start + name_len + 1);
            } else if token == FDT_END_NODE {
                if self.depth == 0 {
                    return None;
                }
                self.finish_node();
                self.depth = self.depth - 1;
            } else if token == FDT_PROP {
                if off > end || end - off < 8 {
                    return None;
                }
                let len = match self.read_struct_be32(off) {
                    Some(v) => v as usize,
                    None => {
                        return None;
                    },
                };
                let nameoff = match self.read_struct_be32(off + 4) {
                    Some(v) => v as usize,
                    None => {
                        return None;
                    },
                };
                off = off + 8;
                match self.property(nameoff, off, len) {
                    Some(()) => {},
                    None => {
                        return None;
                    },
                }
                off = align4(off + len);
            } else if token == FDT_NOP {
            } else if token == FDT_END {
                if self.info.mmio_start == usize::MAX {
                    self.info.mmio_start = qemu_virt::MMIO_START;
                    self.info.mmio_end = qemu_virt::MMIO_END;
                }
                return Some(self.info);
            } else {
                return None;
            }
        }
        None
    }
}

/// The boot information for a device tree at `fdt_ptr` whose bytes are
/// `blob`: the static board description when there is no tree, and marked
/// invalid when it cannot be read.
pub fn init(fdt_ptr: usize, blob: &[u8]) -> (r: BootInfo)
    requires
        blob@.len() + 8 <= usize::MAX,
    ensures
        r.wf(),
        fdt_ptr == 0 ==> r.is_fallback(0, BootSource::Static),
        fdt_ptr != 0 && header_of(blob@) is None ==> r.is_fallback(fdt_ptr, BootSource::FdtInvalid),
        fdt_ptr != 0 ==> r.fdt_ptr == fdt_ptr && (r.source == BootSource::Fdt || r.is_fallback(fdt_ptr, BootSource::FdtInvalid)),
        fdt_ptr != 0 ==> (r.source == BootSource::Fdt <==> header_of(blob@) is Some && tokens_ok(
            blob@,
            header_of(blob@)->Some_0,
            header_of(blob@)->Some_0.off_dt_struct as int,
            0,
        )),
        fdt_ptr != 0 && r.source == BootSource::Fdt ==> r.mmio_start != usize::MAX,
{
    if fdt_ptr == 0 {
        return BootInfo::fallback_with_source(0, BootSource::Static);
    }
    let parsed = match Parser::new(blob) {
        Some(mut parser) => parser.parse(),
        None => None,
    };
    match parsed {
        Some(mut info) => {
            info.fdt_ptr = fdt_ptr;
            info.source = BootSource::Fdt;
            info
        },
        None => BootInfo::fallback_with_source(fdt_ptr, BootSource::FdtInvalid),
    }
}

/// Where the device tree is: the address the boot loader left in a
/// register when a valid header (`register_header`) stands there, else the
/// first valid header in the scan window `window` (the bytes from
/// `scan_start` to `scan_end`), else 0.
pub fn detect_fdt_ptr(register_ptr: usize, register_header: &[u8], scan_start: usize, scan_end: usize, window: &[u8]) -> (r: usize)
    requires
        scan_start + 7 <= usize::MAX,
        scan_end + 8 <= usize::MAX,
        scan_start <= scan_end,
        window@.len() == scan_end - scan_start,
    ensures
        valid_header(register_ptr, register_header@) ==> r == register_ptr,
        !valid_header(register_ptr, register_header@) ==> r == match scan_from(scan_start, scan_end, window@, (((scan_start + 7) / 8) * 8) as int) {
            Some(a) => a,
            None => 0usize,
        },
{
    if is_valid_fdt_header(register_ptr, register_header) {
        return register_ptr;
    }
    match scan_fdt(scan_start, scan_end, window) {
        Some(a) => a,
        None => 0,
    }
}

} // verus!
