use vstd::prelude::*;

use crate::drivers::device::{self, DeviceClass, DeviceError, DeviceId, DeviceManager, DeviceNode, DeviceState, IrqStatus};
use crate::kernel::net::interface::{self as netif, NetInterfaces};
use crate::kernel::net::{Ipv4Address, MacAddress};
use crate::platform::fdt::{IrqSpec, MemRegion, VirtioKind, VirtioMmioDevice};

verus! {

pub const VIRTIO_MAGIC: u32 = 0x7472_6976;
pub const VIRTIO_VERSION_LEGACY: u32 = 1;
pub const VIRTIO_VERSION_MODERN: u32 = 2;
pub const VIRTIO_DEVICE_NETWORK: u32 = 1;
pub const VIRTIO_DEVICE_BLOCK: u32 = 2;

pub const STATUS_ACKNOWLEDGE: u32 = 1;
pub const STATUS_DRIVER: u32 = 2;
pub const STATUS_DRIVER_OK: u32 = 4;
pub const STATUS_FEATURES_OK: u32 = 8;
pub const STATUS_FAILED: u32 = 0x80;

pub const VIRTIO_F_VERSION_1: u32 = 1;
pub const VIRTIO_NET_F_MAC: u32 = 0x20;
pub const MAX_VIRTIO_NET_DEVICES: usize = 4;
pub const MAX_VIRTIO_BLOCK_DEVICES: usize = 1;
pub const VIRTIO_BLK_SECTOR_SIZE: usize = 512;
pub const VIRTQUEUE_SIZE: u16 = 8;
pub const VIRTQUEUE_PAGES: usize = 2;
pub const VIRTQ_DESC_F_NEXT: u16 = 1;
pub const VIRTQ_DESC_F_WRITE: u16 = 2;
pub const DESC_SIZE: usize = 16;

pub const VIRTIO_BLK_T_IN: u32 = 0;
pub const VIRTIO_BLK_T_OUT: u32 = 1;
pub const VIRTIO_BLK_S_OK: u8 = 0;
pub const VIRTIO_BLK_S_IOERR: u8 = 1;
pub const VIRTIO_BLK_S_UNSUPP: u8 = 2;

/// What probing a virtio transport's registers found.
#[derive(Clone, Copy, PartialEq, Eq, Structural, Debug)]
pub struct VirtioProbe {
    pub device: VirtioMmioDevice,
    pub magic: u32,
    pub version: u32,
    pub device_id: u32,
    pub vendor_id: u32,
    pub queue0_max: u32,
    pub features0: u32,
    pub supported: bool,
}

pub open spec fn kind_of(device_id: u32) -> VirtioKind {
    if device_id == VIRTIO_DEVICE_NETWORK {
        VirtioKind::Network
    } else if device_id == VIRTIO_DEVICE_BLOCK {
        VirtioKind::Block
    } else {
        VirtioKind::Unknown
    }
}

impl VirtioProbe {
    pub fn empty() -> (r: Self)
        ensures
            r.device == crate::platform::fdt::empty_virtio(),
            r.magic == 0 && r.version == 0 && r.device_id == 0 && r.vendor_id == 0,
            r.queue0_max == 0 && r.features0 == 0 && !r.supported,
    {
        VirtioProbe {
            device: VirtioMmioDevice::empty(),
            magic: 0,
            version: 0,
            device_id: 0,
            vendor_id: 0,
            queue0_max: 0,
            features0: 0,
            supported: false,
        }
    }

    pub fn kind(self) -> (r: VirtioKind)
        ensures
            r == kind_of(self.device_id),
    {
        if self.device_id == VIRTIO_DEVICE_NETWORK {
            VirtioKind::Network
        } else if self.device_id == VIRTIO_DEVICE_BLOCK {
            VirtioKind::Block
        } else {
            VirtioKind::Unknown
        }
    }

    pub fn is_block(self) -> (r: bool)
        ensures
            r == (self.device_id == VIRTIO_DEVICE_BLOCK && self.supported),
    {
        self.device_id == VIRTIO_DEVICE_BLOCK && self.supported
    }

    pub fn is_network(self) -> (r: bool)
        ensures
            r == (self.device_id == VIRTIO_DEVICE_NETWORK && self.supported),
    {
        self.device_id == VIRTIO_DEVICE_NETWORK && self.supported
    }
}

/// A transport is driven when it has the virtio magic, a known version
/// and a device behind it.
pub open spec fn supported_spec(magic: u32, version: u32, device_id: u32) -> bool {
    magic == VIRTIO_MAGIC && (version == VIRTIO_VERSION_LEGACY || version == VIRTIO_VERSION_MODERN) && device_id != 0
}

/// The probe of `device` from the values its identification registers
/// read; queue size and features count only for a supported transport.
pub fn probe(device: VirtioMmioDevice, magic: u32, version: u32, device_id: u32, vendor_id: u32, queue0_max: u32, features0: u32) -> (r: VirtioProbe)
    ensures
        r.supported == supported_spec(magic, version, device_id),
        r.device == (VirtioMmioDevice { kind: (if device_id == VIRTIO_DEVICE_NETWORK || device_id == VIRTIO_DEVICE_BLOCK { kind_of(device_id) } else { device.kind }), ..device }),
        r.magic == magic && r.version == version && r.device_id == device_id && r.vendor_id == vendor_id,
        r.queue0_max == (if r.supported { queue0_max } else { 0 }),
        r.features0 == (if r.supported { features0 } else { 0 }),
{
    let supported = magic == VIRTIO_MAGIC && (version == VIRTIO_VERSION_LEGACY || version == VIRTIO_VERSION_MODERN) && device_id != 0;
    let kind = if device_id == VIRTIO_DEVICE_NETWORK {
        VirtioKind::Network
    } else if device_id == VIRTIO_DEVICE_BLOCK {
        VirtioKind::Block
    } else {
        device.kind
    };
    VirtioProbe {
        device: VirtioMmioDevice { reg: device.reg, irq: device.irq, kind },
        magic,
        version,
        device_id,
        vendor_id,
        queue0_max: if supported { queue0_max } else { 0 },
        features0: if supported { features0 } else { 0 },
        supported,
    }
}

/// A virtqueue as configured.
#[derive(Clone, Copy, PartialEq, Eq, Structural, Debug)]
pub struct VirtQueue {
    pub index: u16,
    pub size: u16,
    pub align: u32,
    pub pfn: u32,
    pub ready: bool,
}

impl VirtQueue {
    pub fn empty() -> (r: Self)
        ensures
            r == (VirtQueue { index: 0, size: 0, align: 4096, pfn: 0, ready: false }),
    {
        VirtQueue { index: 0, size: 0, align: 4096, pfn: 0, ready: false }
    }

    pub fn is_ready(self) -> (r: bool)
        ensures
            r == self.ready,
    {
        self.ready
    }
}

/// The queue size used for a device offering at most `queue_max`
/// entries: none for 0, else no more than `VIRTQUEUE_SIZE`.
pub open spec fn queue_size_spec(queue_max: u32) -> Option<u16> {
    if queue_max == 0 {
        None
    } else if queue_max < VIRTQUEUE_SIZE as u32 {
        Some(queue_max as u16)
    } else {
        Some(VIRTQUEUE_SIZE)
    }
}

pub fn queue_size_for(queue_max: u32) -> (r: Option<u16>)
    ensures
        r == queue_size_spec(queue_max),
{
    if queue_max == 0 {
        None
    } else if queue_max < VIRTQUEUE_SIZE as u32 {
        Some(queue_max as u16)
    } else {
        Some(VIRTQUEUE_SIZE)
    }
}

/// Where the parts of a legacy split virtqueue of `size` entries lie when
/// its memory starts at `desc`: the available ring after the descriptors,
/// the used ring on the next page boundary after the available ring.
pub open spec fn queue_layout_spec(desc: int, size: int) -> (int, int) {
    let avail = desc + DESC_SIZE * size;
    let used = ((avail + 4 + 2 * size + 4095) / 4096) * 4096;
    (avail, used)
}

pub fn queue_layout(desc: usize, size: u16) -> (r: (usize, usize))
    requires
        desc + DESC_SIZE * size + 4 + 2 * size + 4096 <= usize::MAX,
    ensures
        r.0 == queue_layout_spec(desc as int, size as int).0,
        r.1 == queue_layout_spec(desc as int, size as int).1,
{
    let avail = desc + DESC_SIZE * (size as usize);
    let end = avail + 4 + 2 * (size as usize);
    let used = (end + 4095) / 4096 * 4096;
    (avail, used)
}

/// The block driver's queue state.
pub struct VirtioBlock {
    pub probe: VirtioProbe,
    pub initialized: bool,
    pub queue: VirtQueue,
    pub queue_mem: usize,
    pub avail_idx: u16,
    pub last_used_idx: u16,
}

impl VirtioBlock {
    pub fn new(probe: VirtioProbe) -> (r: Self)
        ensures
            r.probe == probe && !r.initialized && r.queue == (VirtQueue { index: 0, size: 0, align: 4096, pfn: 0, ready: false }),
            r.queue_mem == 0 && r.avail_idx == 0 && r.last_used_idx == 0,
    {
        VirtioBlock { probe, initialized: false, queue: VirtQueue::empty(), queue_mem: 0, avail_idx: 0, last_used_idx: 0 }
    }

    pub fn probe(&self) -> (r: VirtioProbe)
        ensures
            r == self.probe,
    {
        self.probe
    }

    pub fn queue(&self) -> (r: VirtQueue)
        ensures
            r == self.queue,
    {
        self.queue
    }

    /// Takes the queue the device offered (at most `queue_max` entries) at
    /// `queue_mem`, and becomes ready. `Unsupported` when the probe is not a
    /// supported block device.
    pub fn configure(&mut self, queue_mem: usize, queue_max: u32) -> (r: Result<(), DeviceError>)
        ensures
            !(old(self).probe.device_id == VIRTIO_DEVICE_BLOCK && old(self).probe.supported) ==> r == Err::<(), DeviceError>(DeviceError::Unsupported) && *final(self) == *old(self),
            (old(self).probe.device_id == VIRTIO_DEVICE_BLOCK && old(self).probe.supported) && queue_max == 0 ==> r == Err::<(), DeviceError>(DeviceError::Invalid) && *final(self) == *old(self),
            (old(self).probe.device_id == VIRTIO_DEVICE_BLOCK && old(self).probe.supported) && queue_max != 0 ==> r is Ok && final(self).queue == (VirtQueue {
                index: 0,
                size: queue_size_spec(queue_max)->Some_0,
                align: 4096,
                pfn: (queue_mem / 4096) as u32,
                ready: true,
            }) && final(self).queue_mem == queue_mem && final(self).avail_idx == 0 && final(self).last_used_idx == 0
                && final(self).initialized && final(self).probe == old(self).probe,
    {
        if !self.probe.is_block() {
            return Err(DeviceError::Unsupported);
        }
        let size = match queue_size_for(queue_max) {
            Some(s) => s,
            None => {
                return Err(DeviceError::Invalid);
            },
        };
        self.queue = VirtQueue { index: 0, size, align: 4096, pfn: (queue_mem / 4096) as u32, ready: true };
        self.queue_mem = queue_mem;
        self.avail_idx = 0;
        self.last_used_idx = 0;
        self.initialized = true;
        Ok(())
    }

    /// Whether a request can go out.
    pub fn can_submit(&self) -> (r: bool)
        ensures
            r == (self.initialized && self.queue.ready && self.queue_mem != 0 && self.queue.size != 0),
    {
        self.initialized && self.queue.ready && self.queue_mem != 0 && self.queue.size != 0
    }

    /// Offers the request at the head of the descriptor chain: the ring
    /// slot it takes, and the index the available ring then shows.
    pub fn submit(&mut self) -> (r: (usize, u16))
        requires
            old(self).queue.size != 0,
        ensures
            r.0 == old(self).avail_idx as int % old(self).queue.size as int,
            r.1 == old(self).avail_idx.wrapping_add(1),
            final(self).avail_idx == old(self).avail_idx.wrapping_add(1),
            final(self).last_used_idx == old(self).last_used_idx,
            final(self).queue == old(self).queue && final(self).probe == old(self).probe,
            final(self).queue_mem == old(self).queue_mem && final(self).initialized == old(self).initialized,
    {
        let slot = (self.avail_idx as usize) % (self.queue.size as usize);
        self.avail_idx = self.avail_idx.wrapping_add(1);
        (slot, self.avail_idx)
    }

    /// The device has used the request: whether `used_idx` shows it.
    pub fn request_done(&self, used_idx: u16) -> (r: bool)
        ensures
            r == (used_idx != self.last_used_idx),
    {
        used_idx != self.last_used_idx
    }

    /// Takes the used entry in.
    pub fn complete(&mut self)
        ensures
            final(self).last_used_idx == old(self).last_used_idx.wrapping_add(1),
            final(self).avail_idx == old(self).avail_idx && final(self).queue == old(self).queue,
            final(self).probe == old(self).probe && final(self).queue_mem == old(self).queue_mem,
            final(self).initialized == old(self).initialized,
    {
        self.last_used_idx = self.last_used_idx.wrapping_add(1);
    }

    /// The channel tasks waiting on the device sleep on.
    pub fn wait_channel(&self) -> (r: Option<u32>)
        ensures
            self.probe.device.irq.irq != 0 ==> r == Some(wait_channel_for(self.probe.device.irq.irq)),
            self.probe.device.irq.irq == 0 ==> r is None,
    {
        if self.probe.device.irq.is_present() {
            Some(irq_wait_channel(self.probe.device.irq.irq))
        } else {
            None
        }
    }
}

pub open spec fn wait_channel_for(irq: u32) -> u32 {
    0x5652_0000 | (irq & 0xffff)
}

pub fn irq_wait_channel(irq: u32) -> (r: u32)
    ensures
        r == wait_channel_for(irq),
{
    0x5652_0000 | (irq & 0xffff)
}

/// One entry of the descriptor table.
#[derive(Clone, Copy, PartialEq, Eq, Structural, Debug)]
pub struct VirtqDesc {
    pub addr: u64,
    pub len: u32,
    pub flags: u16,
    pub next: u16,
}

/// The header of a block request.
#[derive(Clone, Copy, PartialEq, Eq, Structural, Debug)]
pub struct VirtioBlkRequestHeader {
    pub request_type: u32,
    pub reserved: u32,
    pub sector: u64,
}

/// The three descriptors of a sector read: the request header, the
/// sector buffer the device writes, and the status byte it writes.
pub fn read_request(header_addr: u64, buffer_addr: u64, status_addr: u64) -> (r: [VirtqDesc; 3])
    ensures
        r[0] == (VirtqDesc { addr: header_addr, len: 16, flags: VIRTQ_DESC_F_NEXT, next: 1 }),
        r[1] == (VirtqDesc { addr: buffer_addr, len: VIRTIO_BLK_SECTOR_SIZE as u32, flags: VIRTQ_DESC_F_NEXT | VIRTQ_DESC_F_WRITE, next: 2 }),
        r[2] == (VirtqDesc { addr: status_addr, len: 1, flags: VIRTQ_DESC_F_WRITE, next: 0 }),
{
    [
        VirtqDesc { addr: header_addr, len: 16, flags: VIRTQ_DESC_F_NEXT, next: 1 },
        VirtqDesc { addr: buffer_addr, len: VIRTIO_BLK_SECTOR_SIZE as u32, flags: VIRTQ_DESC_F_NEXT | VIRTQ_DESC_F_WRITE, next: 2 },
        VirtqDesc { addr: status_addr, len: 1, flags: VIRTQ_DESC_F_WRITE, next: 0 },
    ]
}

/// The outcome a request's status byte gives.
pub fn request_result(status: u8) -> (r: Result<(), DeviceError>)
    ensures
        status == VIRTIO_BLK_S_OK ==> r is Ok,
        status != VIRTIO_BLK_S_OK ==> r == Err::<(), DeviceError>(DeviceError::Io),
{
    if status == VIRTIO_BLK_S_OK {
        Ok(())
    } else {
        Err(DeviceError::Io)
    }
}

/// A read of bytes from the disk, sector by sector.
pub struct BlockRead {
    pub offset: usize,
    pub done: usize,
    pub total: usize,
}

impl BlockRead {
    pub open spec fn wf(&self) -> bool {
        self.done <= self.total && self.offset + self.total <= usize::MAX
    }

    pub fn new(offset: usize, total: usize) -> (r: Self)
        requires
            offset + total <= usize::MAX,
        ensures
            r.wf() && r.offset == offset && r.done == 0 && r.total == total,
    {
        BlockRead { offset, done: 0, total }
    }

    /// The sector to read next, until all is read.
    pub fn next_sector(&self) -> (r: Option<u64>)
        requires
            self.wf(),
        ensures
            self.done < self.total ==> r == Some(((self.offset + self.done) / VIRTIO_BLK_SECTOR_SIZE as int) as u64),
            self.done >= self.total ==> r is None,
    {
        if self.done >= self.total {
            return None;
        }
        Some(((self.offset + self.done) / VIRTIO_BLK_SECTOR_SIZE) as u64)
    }

    /// Copies from the sector just read (`sector`) what the read wants of
    /// it into `dst`.
    pub fn absorb(&mut self, sector: &[u8], dst: &mut [u8])
        requires
            old(self).wf(),
            old(self).done < old(self).total,
            old(self).total == old(dst)@.len(),
            sector@.len() == VIRTIO_BLK_SECTOR_SIZE,
        ensures
            final(self).wf(),
            final(self).offset == old(self).offset && final(self).total == old(self).total,
            ({
                let abs = old(self).offset + old(self).done;
                let in_sector = abs % VIRTIO_BLK_SECTOR_SIZE as int;
                let room = VIRTIO_BLK_SECTOR_SIZE - in_sector;
                let left = old(self).total - old(self).done;
                let count = if room < left { room } else { left };
                &&& final(self).done == old(self).done + count
                &&& count > 0
                &&& final(dst)@ == old(dst)@.take(old(self).done as int) + sector@.subrange(in_sector, in_sector + count)
                    + old(dst)@.skip(old(self).done + count)
            }),
    {
        let absolute = self.offset + self.done;
        let sector_offset = absolute % VIRTIO_BLK_SECTOR_SIZE;
        let room = VIRTIO_BLK_SECTOR_SIZE - sector_offset;
        let left = self.total - self.done;
        let count = if room < left { room } else { left };
        let ghost d0 = dst@;
        let n = dst.len();
        let start = self.done;
        let mut i: usize = 0;
        while i < count
            invariant
                i <= count,
                n == d0.len(),
                count <= room,
                room == VIRTIO_BLK_SECTOR_SIZE - sector_offset,
                sector_offset < VIRTIO_BLK_SECTOR_SIZE,
                start + count <= d0.len(),
                sector@.len() == VIRTIO_BLK_SECTOR_SIZE,
                dst@.len() == d0.len(),
                forall|k: int| 0 <= k < start ==> #[trigger] dst@[k] == d0[k],
                forall|k: int| start <= k < start + i ==> #[trigger] dst@[k] == sector@[sector_offset + k - start],
                forall|k: int| start + i <= k < d0.len() ==> #[trigger] dst@[k] == d0[k],
            decreases count - i,
        {
            dst[start + i] = sector[sector_offset + i];
            i += 1;
        }
        assert(dst@ =~= d0.take(start as int) + sector@.subrange(sector_offset as int, sector_offset + count) + d0.skip(start + count));
        self.done = self.done + count;
    }
}

/// The name of network interface number `slot`.
pub fn netdev_name(slot: usize) -> (r: &'static str)
    ensures
        slot == 0 ==> r@ == "eth0"@,
        slot == 1 ==> r@ == "eth1"@,
        slot == 2 ==> r@ == "eth2"@,
        slot >= 3 ==> r@ == "eth3"@,
{
    if slot == 0 {
        "eth0"
    } else if slot == 1 {
        "eth1"
    } else if slot == 2 {
        "eth2"
    } else {
        "eth3"
    }
}

/// The locally administered address a card without one gets, from its
/// register page and interrupt.
pub fn fallback_mac(base: usize, irq: u32) -> (r: MacAddress)
    ensures
        r.0@ == seq![0x52u8, 0x54, 0x00, ((base / 4096) % 256) as u8, (irq % 256) as u8, 0x01],
{
    let b3 = ((base / 4096) % 256) as u8;
    let b4 = (irq % 256) as u8;
    let r = MacAddress::new([0x52, 0x54, 0x00, b3, b4, 0x01]);
    assert(r.0@ =~= seq![0x52u8, 0x54, 0x00, ((base / 4096) % 256) as u8, (irq % 256) as u8, 0x01]);
    r
}

/// The address in the card's configuration space, or the fallback when it
/// reads all zeros.
pub fn mac_from_config(bytes: [u8; 6], base: usize) -> (r: MacAddress)
    ensures
        bytes@ == seq![0u8, 0, 0, 0, 0, 0] ==> r.0@ == seq![0x52u8, 0x54, 0x00, ((base / 4096) % 256) as u8, 0u8, 0x01],
        bytes@ != seq![0u8, 0, 0, 0, 0, 0] ==> r.0 == bytes,
{
    if bytes[0] == 0 && bytes[1] == 0 && bytes[2] == 0 && bytes[3] == 0 && bytes[4] == 0 && bytes[5] == 0 {
        assert(bytes@ =~= seq![0u8, 0, 0, 0, 0, 0]);
        fallback_mac(base, 0)
    } else {
        proof {
            if bytes@ == seq![0u8, 0, 0, 0, 0, 0] {
                assert(bytes@[0] == 0 && bytes@[1] == 0 && bytes@[2] == 0 && bytes@[3] == 0 && bytes@[4] == 0 && bytes@[5] == 0);
            }
        }
        MacAddress::new(bytes)
    }
}

/// The features the network driver takes: the MAC address, when offered.
pub fn net_driver_features(features0: u32) -> (r: u32)
    ensures
        r == features0 & VIRTIO_NET_F_MAC,
{
    features0 & VIRTIO_NET_F_MAC
}

/// Whether the device kept `FEATURES_OK` set.
pub fn features_accepted(status: u32) -> (r: bool)
    ensures
        r == (status & STATUS_FEATURES_OK != 0),
{
    status & STATUS_FEATURES_OK != 0
}

/// A network card and the interface it is bound to.
#[derive(Clone, Copy, Debug)]
pub struct VirtioNet {
    pub probe: VirtioProbe,
    pub initialized: bool,
    pub present: bool,
    pub interface: usize,
    pub mac: MacAddress,
    pub rx_queue: VirtQueue,
    pub tx_queue: VirtQueue,
}

impl VirtioNet {
    pub fn empty() -> (r: Self)
        ensures
            !r.initialized && !r.present && r.interface == usize::MAX,
    {
        VirtioNet {
            probe: VirtioProbe::empty(),
            initialized: false,
            present: false,
            interface: usize::MAX,
            mac: MacAddress::zero(),
            rx_queue: VirtQueue::empty(),
            tx_queue: VirtQueue::empty(),
        }
    }

    pub fn new(probe: VirtioProbe) -> (r: Self)
        ensures
            r.probe == probe && !r.initialized && r.present && r.interface == usize::MAX,
    {
        VirtioNet {
            probe,
            initialized: false,
            present: true,
            interface: usize::MAX,
            mac: MacAddress::zero(),
            rx_queue: VirtQueue::empty(),
            tx_queue: VirtQueue::empty(),
        }
    }

    pub fn is_present(self) -> (r: bool)
        ensures
            r == self.present,
    {
        self.present
    }

    pub fn interface(self) -> (r: Option<usize>)
        ensures
            (self.initialized && self.interface != usize::MAX) ==> r == Some(self.interface),
            !(self.initialized && self.interface != usize::MAX) ==> r is None,
    {
        if self.initialized && self.interface != usize::MAX {
            Some(self.interface)
        } else {
            None
        }
    }
}

/// The address of a fallback card: locally administered, from its register
/// page and interrupt.
pub open spec fn fallback_mac_bytes(base: usize, irq: u32) -> Seq<u8> {
    seq![0x52u8, 0x54, 0x00, ((base / 4096) % 256) as u8, (irq % 256) as u8, 0x01]
}

/// The address a network card is bound with: the one in its configuration
/// space when it offers one (the fallback, with interrupt 0, when that
/// reads all zeros), else the fallback.
pub open spec fn chosen_mac(p: VirtioProbe, config: [u8; 6]) -> Seq<u8> {
    if p.features0 & VIRTIO_NET_F_MAC != 0 {
        if config@ == seq![0u8, 0, 0, 0, 0, 0] {
            fallback_mac_bytes(p.device.reg.start, 0)
        } else {
            config@
        }
    } else {
        fallback_mac_bytes(p.device.reg.start, p.device.irq.irq)
    }
}

impl VirtioNet {
    /// Finishes binding a network card once it accepted its features: with
    /// the queue sizes probed (`rx_queue`, `tx_queue`) and the address its
    /// configuration space holds (`config_mac`, consulted only when the
    /// card offered one), registers interface `netdev_name(slot)` in
    /// `interfaces` with the default address. `Unsupported` for a card
    /// that is no network card, `Invalid` when a queue is missing, `Busy`
    /// when no interface slot is free.
    pub fn bind(
        &mut self,
        slot: usize,
        rx_queue: VirtQueue,
        tx_queue: VirtQueue,
        config_mac: [u8; 6],
        interfaces: &mut NetInterfaces,
    ) -> (r: Result<(), DeviceError>)
        requires
            old(interfaces).wf(),
        ensures
            final(interfaces).wf(),
            !(old(self).probe.device_id == VIRTIO_DEVICE_NETWORK && old(self).probe.supported) ==> r == Err::<(), DeviceError>(DeviceError::Unsupported)
                && *final(self) == *old(self) && final(interfaces).ifaces@ == old(interfaces).ifaces@,
            (old(self).probe.device_id == VIRTIO_DEVICE_NETWORK && old(self).probe.supported) && (rx_queue.size == 0 || tx_queue.size == 0) ==> r == Err::<(), DeviceError>(DeviceError::Invalid)
                && final(self).probe == old(self).probe && !final(self).initialized && final(interfaces).ifaces@ == old(interfaces).ifaces@,
            (old(self).probe.device_id == VIRTIO_DEVICE_NETWORK && old(self).probe.supported) && rx_queue.size != 0 && tx_queue.size != 0 ==> {
                let mac = chosen_mac(old(self).probe, config_mac);
                match netif::free_iface_from(old(interfaces).ifaces@, 0) {
                    None => r == Err::<(), DeviceError>(DeviceError::Busy) && final(interfaces).ifaces@ == old(interfaces).ifaces@
                        && !final(self).initialized,
                    Some(k) => {
                        &&& r is Ok
                        &&& final(self).initialized && final(self).interface == k
                        &&& final(self).mac.0@ == mac
                        &&& final(self).rx_queue == rx_queue && final(self).tx_queue == tx_queue
                        &&& final(self).probe == old(self).probe && final(self).present == old(self).present
                        &&& final(interfaces).iface(k as usize).used && final(interfaces).iface(k as usize).mac == final(self).mac
                        &&& final(interfaces).iface(k as usize).ipv4.0@ == seq![10u8, 0, 2, 15]
                        &&& final(interfaces).others_same(old(interfaces), k as usize)
                    },
                }
            },
    {
        if !self.probe.is_network() {
            return Err(DeviceError::Unsupported);
        }
        if rx_queue.size == 0 || tx_queue.size == 0 {
            self.initialized = false;
            return Err(DeviceError::Invalid);
        }
        let mac = if self.probe.features0 & VIRTIO_NET_F_MAC != 0 {
            let m = mac_from_config(config_mac, self.probe.device.reg.start);
            proof {
                if config_mac@ == seq![0u8, 0, 0, 0, 0, 0] {
                    assert(m.0@ =~= fallback_mac_bytes(self.probe.device.reg.start, 0));
                } else {
                    assert(m.0@ == config_mac@);
                }
            }
            m
        } else {
            fallback_mac(self.probe.device.reg.start, self.probe.device.irq.irq)
        };
        self.rx_queue = rx_queue;
        self.tx_queue = tx_queue;
        self.mac = mac;
        let name = netdev_name(slot);
        let index = match netif::register(interfaces, name, mac) {
            Ok(i) => i,
            Err(_) => {
                self.initialized = false;
                return Err(DeviceError::Busy);
            },
        };
        let ghost registered = *interfaces;
        proof {
            netif::lemma_free_iface_range(old(interfaces).ifaces@, 0);
            assert(registered.live(index));
        }
        let _ = netif::set_ipv4(interfaces, index, Ipv4Address::default_ipv4());
        proof {
            assert forall|j: int| 0 <= j < old(interfaces).ifaces@.len() && j != index implies #[trigger] interfaces.ifaces@[j] == old(interfaces).ifaces@[j] by {
                assert(registered.ifaces@[j] == old(interfaces).ifaces@[j]);
            }
        }
        self.interface = index;
        self.initialized = true;
        Ok(())
    }
}

/// How an interrupt of a bound card is answered: unhandled when nothing
/// is pending, a wake of its interface's channel when it has one.
pub fn net_irq_status(status: u32, interface_channel: Option<u32>) -> (r: IrqStatus)
    ensures
        status == 0 ==> r == IrqStatus::Unhandled,
        status != 0 && interface_channel is Some ==> r == (IrqStatus::Wake { channel: interface_channel->Some_0 }),
        status != 0 && interface_channel is None ==> r == IrqStatus::Handled,
{
    if status == 0 {
        return IrqStatus::Unhandled;
    }
    match interface_channel {
        Some(channel) => IrqStatus::Wake { channel },
        None => IrqStatus::Handled,
    }
}

/// The first bound card that raises `irq`.
pub open spec fn irq_card_from(cards: Seq<VirtioNet>, irq: u32, i: int) -> Option<int>
    decreases cards.len() - i,
{
    if i < 0 || i >= cards.len() {
        None
    } else if cards[i].initialized && cards[i].probe.device.irq.irq == irq {
        Some(i)
    } else {
        irq_card_from(cards, irq, i + 1)
    }
}

pub fn find_irq_card(cards: &[VirtioNet], irq: u32) -> (r: Option<usize>)
    ensures
        match irq_card_from(cards@, irq, 0) {
            Some(i) => r == Some(i as usize),
            None => r is None,
        },
{
    let mut i: usize = 0;
    while i < cards.len()
        invariant
            i <= cards@.len(),
            irq_card_from(cards@, irq, 0) == irq_card_from(cards@, irq, i as int),
        decreases cards@.len() - i,
    {
        if cards[i].initialized && cards[i].probe.device.irq.irq == irq {
            return Some(i);
        }
        i += 1;
    }
    None
}

pub fn owns_irq(cards: &[VirtioNet], irq: u32) -> (r: bool)
    ensures
        r == irq_card_from(cards@, irq, 0) is Some,
{
    find_irq_card(cards, irq).is_some()
}

/// The number of bound cards.
pub open spec fn bound_count(cards: Seq<VirtioNet>) -> nat
    decreases cards.len(),
{
    if cards.len() == 0 {
        0
    } else {
        bound_count(cards.drop_last()) + if cards.last().initialized { 1nat } else { 0nat }
    }
}

pub fn network_device_count(cards: &[VirtioNet]) -> (r: usize)
    ensures
        r == bound_count(cards@),
{
    let mut count: usize = 0;
    let mut i: usize = 0;
    while i < cards.len()
        invariant
            i <= cards@.len(),
            count == bound_count(cards@.take(i as int)),
            count <= i,
        decreases cards@.len() - i,
    {
        assert(cards@.take(i + 1).drop_last() =~= cards@.take(i as int));
        if cards[i].initialized {
            count += 1;
        }
        i += 1;
    }
    assert(cards@.take(cards@.len() as int) =~= cards@);
    count
}

/// The device node a supported probe is registered as.
pub open spec fn probe_node(p: VirtioProbe, minor: int) -> (DeviceClass, u16, u16, u32) {
    let k = kind_of(p.device_id);
    (
        if k == VirtioKind::Block { DeviceClass::Block } else if k == VirtioKind::Network { DeviceClass::Network } else { DeviceClass::Bus },
        if k == VirtioKind::Block { 254u16 } else if k == VirtioKind::Network { 255u16 } else { 0u16 },
        minor as u16,
        if p.device.irq.irq != 0 { wait_channel_for(p.device.irq.irq) } else { 0u32 },
    )
}

pub fn node_for_probe(p: VirtioProbe, minor: usize) -> (r: DeviceNode)
    ensures
        r.id.0 == usize::MAX,
        r.state == DeviceState::Discovered,
        r.class == probe_node(p, minor as int).0,
        r.major == probe_node(p, minor as int).1,
        r.minor == probe_node(p, minor as int).2,
        r.wait_channel == probe_node(p, minor as int).3,
        r.mmio_base == p.device.reg.start && r.mmio_size == p.device.reg.size && r.irq == p.device.irq.irq,
        r.driver == "virtio-mmio",
{
    let kind = p.kind();
    let (class, name, major) = match kind {
        VirtioKind::Block => (DeviceClass::Block, "virtio-blk", 254u16),
        VirtioKind::Network => (DeviceClass::Network, "virtio-net", 255u16),
        VirtioKind::Unknown => (DeviceClass::Bus, "virtio-mmio", 0u16),
    };
    DeviceNode {
        id: DeviceId::new(usize::MAX),
        name,
        driver: "virtio-mmio",
        class,
        state: DeviceState::Discovered,
        mmio_base: p.device.reg.start,
        mmio_size: p.device.reg.size,
        irq: p.device.irq.irq,
        major,
        minor: minor as u16,
        wait_channel: if p.device.irq.is_present() { irq_wait_channel(p.device.irq.irq) } else { 0 },
    }
}

/// `n` is the node registered in slot `id` for probe `p` as the device
/// with minor number `minor`.
pub open spec fn probe_registered(n: DeviceNode, p: VirtioProbe, minor: int, id: int) -> bool {
    &&& n.id.0 == id
    &&& n.state == DeviceState::Discovered
    &&& n.driver == "virtio-mmio"
    &&& n.class == probe_node(p, minor).0
    &&& n.major == probe_node(p, minor).1
    &&& n.minor == probe_node(p, minor).2
    &&& n.wait_channel == probe_node(p, minor).3
    &&& n.mmio_base == p.device.reg.start && n.mmio_size == p.device.reg.size && n.irq == p.device.irq.irq
}

/// How many of `probes[from..to]` are supported.
pub open spec fn supported_count(probes: Seq<VirtioProbe>, from: int, to: int) -> int
    decreases to - from,
{
    if to <= from {
        0
    } else {
        supported_count(probes, from, to - 1) + if probes[to - 1].supported { 1int } else { 0int }
    }
}

/// The smaller of `a` and `b`.
pub open spec fn min_int(a: int, b: int) -> int {
    if a < b { a } else { b }
}

/// Slot `i` holds the node registered for some supported probe of
/// `probes[from..to]`, as the device with minor `minor`.
pub open spec fn registered_from(nodes: Seq<DeviceNode>, probes: Seq<VirtioProbe>, from: int, to: int, minor: int, i: int) -> bool {
    exists|j: int| from <= j < to && probes[j].supported && #[trigger] probe_registered(nodes[i], probes[j], minor, i)
}

/// Each slot `c0 + k` below `c` holds the node registered for probe
/// `src[k]`, so each such slot holds the node of some supported probe of
/// `probes[from..to]`.
proof fn lemma_registered_from(nodes: Seq<DeviceNode>, probes: Seq<VirtioProbe>, src: Seq<int>, from: int, to: int, reg0: int, c0: int, c: int)
    requires
        src.len() == c - c0,
        forall|k: int|
            0 <= k < src.len() ==> from <= #[trigger] src[k] < to && probes[src[k]].supported && probe_registered(
                nodes[c0 + k],
                probes[src[k]],
                reg0 + k,
                c0 + k,
            ),
    ensures
        forall|i: int| c0 <= i < c ==> #[trigger] registered_from(nodes, probes, from, to, reg0 + (i - c0), i),
{
    assert forall|i: int| c0 <= i < c implies #[trigger] registered_from(nodes, probes, from, to, reg0 + (i - c0), i) by {
        let k = i - c0;
        assert(from <= src[k] < to);
        assert(c0 + k == i);
        assert(probe_registered(nodes[i], probes[src[k]], reg0 + (i - c0), i));
    }
}

/// What registering the probes asks of the caller next.
#[derive(Clone, Copy, PartialEq, Eq, Structural, Debug)]
pub enum ProbeStep {
    /// Bring up the block device `probe` in block slot `slot`, then report.
    BringUpBlock { probe: VirtioProbe, slot: usize, id: DeviceId },
    /// Bring up the network card `probe` in card slot `slot`, then report.
    BringUpNet { probe: VirtioProbe, slot: usize, id: DeviceId },
    /// All probes were gone through; this many were registered.
    Done { registered: usize },
}

/// Registering virtio probes as devices, one at a time; the caller brings
/// up each block device and network card and reports the outcome.
pub struct ProbeRegistration {
    pub next: usize,
    pub registered: usize,
    pub net_slot: usize,
    pub block_slot: usize,
    pub block_enabled: bool,
    pub net_enabled: bool,
}

impl ProbeRegistration {
    pub open spec fn wf(&self) -> bool {
        self.registered <= self.next && self.net_slot <= self.next && self.block_slot <= self.next
    }

    pub fn new(block_enabled: bool, net_enabled: bool) -> (r: Self)
        ensures
            r.wf() && r.next == 0 && r.registered == 0 && r.net_slot == 0 && r.block_slot == 0,
            r.block_enabled == block_enabled && r.net_enabled == net_enabled,
    {
        ProbeRegistration { next: 0, registered: 0, net_slot: 0, block_slot: 0, block_enabled, net_enabled }
    }

    /// Goes on to the next supported probe: registers its node in
    /// `manager` and says whether it needs bringing up. Unsupported probes,
    /// and probes the table has no room for, are passed over.
    pub fn step(&mut self, probes: &[VirtioProbe], manager: &mut DeviceManager) -> (r: ProbeStep)
        requires
            old(self).wf(),
            old(manager).wf(),
            old(self).next <= probes@.len(),
        ensures
            final(self).wf(),
            final(manager).wf(),
            final(self).next <= probes@.len(),
            final(self).block_enabled == old(self).block_enabled && final(self).net_enabled == old(self).net_enabled,
            final(self).net_slot == old(self).net_slot && final(self).block_slot == old(self).block_slot,
            r matches ProbeStep::Done { registered } ==> registered == final(self).registered && final(self).next == probes@.len(),
            old(self).next <= final(self).next,
            final(self).registered - old(self).registered == final(manager).count - old(manager).count,
            forall|i: int|
                0 <= i < crate::drivers::device::MAX_DEVICES && !(old(manager).count <= i < final(manager).count)
                    ==> #[trigger] final(manager).nodes@[i] == old(manager).nodes@[i],
            forall|i: int|
                old(manager).count <= i < final(manager).count ==> #[trigger] registered_from(
                    final(manager).nodes@,
                    probes@,
                    old(self).next as int,
                    final(self).next as int,
                    old(self).registered + (i - old(manager).count),
                    i,
                ),
            r is Done ==> final(manager).count == min_int(
                crate::drivers::device::MAX_DEVICES as int,
                old(manager).count + supported_count(probes@, old(self).next as int, probes@.len() as int),
            ),
            !(r is Done) ==> final(self).next >= 1 && probes@[final(self).next - 1] == (match r {
                ProbeStep::BringUpBlock { probe, slot, id } => probe,
                ProbeStep::BringUpNet { probe, slot, id } => probe,
                ProbeStep::Done { registered } => probes@[0],
            }),
            r matches ProbeStep::BringUpBlock { probe, slot, id } ==> id.0 == final(manager).count - 1 && probe_registered(
                final(manager).nodes@[id.0 as int], probe, final(self).registered - 1, id.0 as int),
            r matches ProbeStep::BringUpNet { probe, slot, id } ==> id.0 == final(manager).count - 1 && probe_registered(
                final(manager).nodes@[id.0 as int], probe, final(self).registered - 1, id.0 as int),
            r matches ProbeStep::BringUpBlock { probe, slot, id } ==> (probe.device_id == VIRTIO_DEVICE_BLOCK && probe.supported) && slot == final(self).block_slot && final(self).block_enabled
                && id.0 < crate::drivers::device::MAX_DEVICES && final(manager).nodes@[id.0 as int].present(),
            r matches ProbeStep::BringUpNet { probe, slot, id } ==> (probe.device_id == VIRTIO_DEVICE_NETWORK && probe.supported) && slot == final(self).net_slot && final(self).net_enabled
                && id.0 < crate::drivers::device::MAX_DEVICES && final(manager).nodes@[id.0 as int].present(),
        decreases probes@.len() - old(self).next,
    {
        let ghost mut src: Seq<int> = Seq::empty();
        while self.next < probes.len()
            invariant
                self.wf(),
                manager.wf(),
                self.next <= probes@.len(),
                self.block_enabled == old(self).block_enabled && self.net_enabled == old(self).net_enabled,
                self.net_slot == old(self).net_slot && self.block_slot == old(self).block_slot,
                old(self).next <= self.next,
                self.registered - old(self).registered == manager.count - old(manager).count,
                manager.count == min_int(
                    crate::drivers::device::MAX_DEVICES as int,
                    old(manager).count + supported_count(probes@, old(self).next as int, self.next as int),
                ),
                forall|i: int|
                    0 <= i < crate::drivers::device::MAX_DEVICES && !(old(manager).count <= i < manager.count)
                        ==> #[trigger] manager.nodes@[i] == old(manager).nodes@[i],
                src.len() == manager.count - old(manager).count,
                forall|k: int|
                    0 <= k < src.len() ==> old(self).next <= #[trigger] src[k] < self.next && probes@[src[k]].supported
                        && probe_registered(
                        manager.nodes@[old(manager).count + k],
                        probes@[src[k]],
                        old(self).registered + k,
                        old(manager).count + k,
                    ),
            decreases probes@.len() - self.next,
        {
            let probe = probes[self.next];
            let ghost m0 = *manager;
            let ghost j0 = self.next as int;
            self.next = self.next + 1;
            if !probe.supported {
                continue;
            }
            let node = node_for_probe(probe, self.registered);
            let id = match device::register(manager, node) {
                Ok(id) => id,
                Err(_) => {
                    continue;
                },
            };
            proof {
                let c = m0.count as int;
                assert(probe_registered(manager.nodes@[c], probes@[j0], old(self).registered + (c - old(manager).count), c));
                let src0 = src;
                src = src.push(j0);
                assert forall|k: int| 0 <= k < src.len() implies old(self).next <= #[trigger] src[k] < self.next
                    && probes@[src[k]].supported && probe_registered(
                    manager.nodes@[old(manager).count + k],
                    probes@[src[k]],
                    old(self).registered + k,
                    old(manager).count + k,
                ) by {
                    if k < src0.len() {
                        assert(src[k] == src0[k]);
                        assert(manager.nodes@[old(manager).count + k] == m0.nodes@[old(manager).count + k]);
                    }
                }
            }
            let kind = probe.kind();
            let registered = self.registered;
            self.registered = registered + 1;
            match kind {
                VirtioKind::Block => {
                    if self.block_enabled {
                        proof {
                            lemma_registered_from(manager.nodes@, probes@, src, old(self).next as int, self.next as int, old(self).registered as int, old(manager).count as int, manager.count as int);
                        }
                        return ProbeStep::BringUpBlock { probe, slot: self.block_slot, id };
                    }
                },
                VirtioKind::Network => {
                    if self.net_enabled {
                        proof {
                            lemma_registered_from(manager.nodes@, probes@, src, old(self).next as int, self.next as int, old(self).registered as int, old(manager).count as int, manager.count as int);
                        }
                        return ProbeStep::BringUpNet { probe, slot: self.net_slot, id };
                    }
                },
                VirtioKind::Unknown => {},
            }
        }
        proof {
            lemma_registered_from(manager.nodes@, probes@, src, old(self).next as int, self.next as int, old(self).registered as int, old(manager).count as int, manager.count as int);
        }
        ProbeStep::Done { registered: self.registered }
    }

    /// Takes in how bringing up the device of `step` went: its node becomes
    /// ready and its kind's slot advances, or its node is marked failed.
    pub fn report(&mut self, step: ProbeStep, ok: bool, manager: &mut DeviceManager)
        requires
            old(self).wf(),
            old(manager).wf(),
        ensures
            final(self).wf(),
            final(manager).wf(),
            final(self).next == old(self).next && final(self).registered == old(self).registered,
            final(self).block_enabled == old(self).block_enabled && final(self).net_enabled == old(self).net_enabled,
            final(self).block_slot == old(self).block_slot + (if ok && step is BringUpBlock && old(self).block_slot < old(self).next { 1int } else { 0int }),
            final(self).net_slot == old(self).net_slot + (if ok && step is BringUpNet && old(self).net_slot < old(self).next { 1int } else { 0int }),
            final(manager).count == old(manager).count,
    {
        match step {
            ProbeStep::BringUpBlock { probe, slot, id } => {
                if ok {
                    let _ = device::mark_ready(manager, id);
                    if self.block_slot < self.next {
                        self.block_slot = self.block_slot + 1;
                    }
                } else {
                    let _ = device::mark_failed(manager, id);
                }
            },
            ProbeStep::BringUpNet { probe, slot, id } => {
                if ok {
                    let _ = device::mark_ready(manager, id);
                    if self.net_slot < self.next {
                        self.net_slot = self.net_slot + 1;
                    }
                } else {
                    let _ = device::mark_failed(manager, id);
                }
            },
            ProbeStep::Done { registered } => {},
        }
    }
}

/// Whether a block device may go in slot `slot`.
pub fn block_slot_free(slot: usize) -> (r: Result<(), DeviceError>)
    ensures
        slot < MAX_VIRTIO_BLOCK_DEVICES ==> r is Ok,
        slot >= MAX_VIRTIO_BLOCK_DEVICES ==> r == Err::<(), DeviceError>(DeviceError::Busy),
{
    if slot >= MAX_VIRTIO_BLOCK_DEVICES {
        Err(DeviceError::Busy)
    } else {
        Ok(())
    }
}

/// Whether a network card may go in slot `slot`.
pub fn net_slot_free(slot: usize) -> (r: Result<(), DeviceError>)
    ensures
        slot < MAX_VIRTIO_NET_DEVICES ==> r is Ok,
        slot >= MAX_VIRTIO_NET_DEVICES ==> r == Err::<(), DeviceError>(DeviceError::Busy),
{
    if slot >= MAX_VIRTIO_NET_DEVICES {
        Err(DeviceError::Busy)
    } else {
        Ok(())
    }
}

} // verus!
