use vstd::prelude::*;

use crate::kernel::net::{copy_into, Ipv4Address, MacAddress, NetError, PacketBuffer, MAX_PACKET_SIZE};
use crate::kernel::queue::{lemma_ring_distinct, lemma_ring_step};
use crate::kernel::task::wrap_inc;
use vstd::string::StringSliceAdditionalSpecFns;

verus! {

pub const MAX_NET_INTERFACES: usize = 4;
pub const RX_QUEUE_LEN: usize = 8;
pub const TX_QUEUE_LEN: usize = 8;
pub const NET_WAIT_BASE: u32 = 0x4e45_0000;

#[derive(Clone, Copy, PartialEq, Eq, Structural, Debug)]
pub enum NetIfState {
    Down,
    Up,
}

#[derive(Clone, Copy, PartialEq, Eq, Structural, Debug)]
pub struct NetStats {
    pub rx_packets: u64,
    pub rx_bytes: u64,
    pub rx_errors: u64,
    pub rx_dropped: u64,
    pub tx_packets: u64,
    pub tx_bytes: u64,
    pub tx_errors: u64,
    pub tx_dropped: u64,
    pub arp_packets: u64,
    pub icmp_packets: u64,
    pub udp_packets: u64,
    pub tcp_packets: u64,
}

impl NetStats {
    pub fn empty() -> (r: Self)
        ensures
            r == (NetStats {
                rx_packets: 0,
                rx_bytes: 0,
                rx_errors: 0,
                rx_dropped: 0,
                tx_packets: 0,
                tx_bytes: 0,
                tx_errors: 0,
                tx_dropped: 0,
                arp_packets: 0,
                icmp_packets: 0,
                udp_packets: 0,
                tcp_packets: 0,
            }),
    {
        NetStats {
            rx_packets: 0,
            rx_bytes: 0,
            rx_errors: 0,
            rx_dropped: 0,
            tx_packets: 0,
            tx_bytes: 0,
            tx_errors: 0,
            tx_dropped: 0,
            arp_packets: 0,
            icmp_packets: 0,
            udp_packets: 0,
            tcp_packets: 0,
        }
    }
}

/// `x + n` in 64 bits, wrapping.
pub open spec fn wrap_add(x: u64, n: u64) -> u64 {
    ((x + n) % 0x1_0000_0000_0000_0000) as u64
}

fn wrapping_add64(x: u64, n: u64) -> (r: u64)
    ensures
        r == wrap_add(x, n),
{
    if x > u64::MAX - n {
        n - (u64::MAX - x) - 1
    } else {
        x + n
    }
}

fn wrapping_inc64(x: u64) -> (r: u64)
    ensures
        r == wrap_inc(x),
{
    if x == u64::MAX {
        0
    } else {
        x + 1
    }
}

/// A network interface with its receive and transmit rings.
pub struct NetInterface {
    pub used: bool,
    pub name: [u8; 16],
    pub name_len: usize,
    pub mac: MacAddress,
    pub ipv4: Ipv4Address,
    pub state: NetIfState,
    pub mtu: usize,
    pub rx_head: usize,
    pub rx_len: usize,
    pub rx: Vec<PacketBuffer>,
    pub tx_head: usize,
    pub tx_len: usize,
    pub tx: Vec<PacketBuffer>,
    pub stats: NetStats,
}

/// The packets in the ring `ring` from `head`, `len` of them, oldest first.
pub open spec fn ring_packets(ring: Seq<PacketBuffer>, head: usize, len: usize) -> Seq<Seq<u8>> {
    Seq::new(len as nat, |i: int| ring[(head + i) % 8].data())
}

/// `core::str::from_utf8`: the text that `bytes` encode when they are valid
/// UTF-8, nothing otherwise.
#[verifier::external_body]
pub(crate) fn utf8_text(bytes: &[u8]) -> (r: Option<&str>)
    ensures
        r is Some <==> vstd::utf8::valid_utf8(bytes@),
        r matches Some(s) ==> s.spec_bytes() == bytes@,
{
    core::str::from_utf8(bytes).ok()
}

impl NetInterface {
    pub open spec fn wf(&self) -> bool {
        &&& self.name_len <= 16
        &&& self.rx@.len() == RX_QUEUE_LEN
        &&& self.tx@.len() == TX_QUEUE_LEN
        &&& self.rx_head < RX_QUEUE_LEN && self.rx_len <= RX_QUEUE_LEN
        &&& self.tx_head < TX_QUEUE_LEN && self.tx_len <= TX_QUEUE_LEN
        &&& forall|i: int| 0 <= i < RX_QUEUE_LEN ==> (#[trigger] self.rx@[i]).wf()
        &&& forall|i: int| 0 <= i < TX_QUEUE_LEN ==> (#[trigger] self.tx@[i]).wf()
    }

    /// The received packets waiting to be read, oldest first.
    pub open spec fn rx_queue(&self) -> Seq<Seq<u8>> {
        ring_packets(self.rx@, self.rx_head, self.rx_len)
    }

    /// The packets waiting to be sent, oldest first.
    pub open spec fn tx_queue(&self) -> Seq<Seq<u8>> {
        ring_packets(self.tx@, self.tx_head, self.tx_len)
    }

    pub fn empty() -> (r: Self)
        ensures
            r.wf(),
            !r.used,
            r.name_len == 0,
            r.state == NetIfState::Down,
            r.mtu == 1500,
            r.ipv4.0@ == seq![0u8, 0, 0, 0],
            r.mac.0@ == seq![0u8, 0, 0, 0, 0, 0],
            r.rx_head == 0 && r.rx_len == 0 && r.tx_head == 0 && r.tx_len == 0,
            r.stats == NetStats::empty_spec(),
    {
        let mut rx: Vec<PacketBuffer> = Vec::new();
        let mut tx: Vec<PacketBuffer> = Vec::new();
        let mut i: usize = 0;
        while i < 8
            invariant
                i <= 8,
                rx@.len() == i && tx@.len() == i,
                forall|j: int| 0 <= j < i ==> (#[trigger] rx@[j]).wf(),
                forall|j: int| 0 <= j < i ==> (#[trigger] tx@[j]).wf(),
            decreases 8 - i,
        {
            rx.push(PacketBuffer::empty());
            tx.push(PacketBuffer::empty());
            i += 1;
        }
        NetInterface {
            used: false,
            name: [0u8; 16],
            name_len: 0,
            mac: MacAddress::zero(),
            ipv4: Ipv4Address::zero(),
            state: NetIfState::Down,
            mtu: 1500,
            rx_head: 0,
            rx_len: 0,
            rx,
            tx_head: 0,
            tx_len: 0,
            tx,
            stats: NetStats::empty(),
        }
    }

    /// The name as text, empty when its bytes are not UTF-8.
    pub fn name_str(&self) -> (r: &str)
        requires
            self.wf(),
        ensures
            vstd::utf8::valid_utf8(self.name@.subrange(0, self.name_len as int)) ==> r.spec_bytes() == self.name@.subrange(
                0,
                self.name_len as int,
            ),
            !vstd::utf8::valid_utf8(self.name@.subrange(0, self.name_len as int)) ==> r@ == ""@,
    {
        let bytes = vstd::slice::slice_subrange(self.name.as_slice(), 0, self.name_len);
        match utf8_text(bytes) {
            Some(s) => s,
            None => "",
        }
    }
}

impl NetStats {
    pub open spec fn empty_spec() -> NetStats {
        NetStats {
            rx_packets: 0,
            rx_bytes: 0,
            rx_errors: 0,
            rx_dropped: 0,
            tx_packets: 0,
            tx_bytes: 0,
            tx_errors: 0,
            tx_dropped: 0,
            arp_packets: 0,
            icmp_packets: 0,
            udp_packets: 0,
            tcp_packets: 0,
        }
    }
}

/// The interfaces of the system.
pub struct NetInterfaces {
    pub ifaces: Vec<NetInterface>,
}

impl NetInterfaces {
    pub open spec fn wf(&self) -> bool {
        &&& self.ifaces@.len() == MAX_NET_INTERFACES
        &&& forall|i: int| 0 <= i < MAX_NET_INTERFACES ==> (#[trigger] self.ifaces@[i]).wf()
    }

    /// Interface `index` is registered.
    pub open spec fn live(&self, index: usize) -> bool {
        index < MAX_NET_INTERFACES && self.ifaces@[index as int].used
    }

    pub open spec fn iface(&self, index: usize) -> NetInterface {
        self.ifaces@[index as int]
    }

    /// Every interface but `index` is as in `o`.
    pub open spec fn others_same(&self, o: &NetInterfaces, index: usize) -> bool {
        &&& self.ifaces@.len() == o.ifaces@.len()
        &&& forall|j: int| 0 <= j < o.ifaces@.len() && j != index ==> #[trigger] self.ifaces@[j] == o.ifaces@[j]
    }

    pub fn new() -> (r: Self)
        ensures
            r.wf(),
            forall|i: int| 0 <= i < MAX_NET_INTERFACES ==> !(#[trigger] r.ifaces@[i]).used,
    {
        let mut ifaces: Vec<NetInterface> = Vec::new();
        let mut i: usize = 0;
        while i < MAX_NET_INTERFACES
            invariant
                i <= MAX_NET_INTERFACES,
                ifaces@.len() == i,
                forall|j: int| 0 <= j < i ==> (#[trigger] ifaces@[j]).wf() && !ifaces@[j].used,
            decreases MAX_NET_INTERFACES - i,
        {
            ifaces.push(NetInterface::empty());
            i += 1;
        }
        NetInterfaces { ifaces }
    }
}

/// The first unused interface slot at or after `i`.
pub open spec fn free_iface_from(s: Seq<NetInterface>, i: int) -> Option<int>
    decreases s.len() - i,
{
    if i < 0 || i >= s.len() {
        None
    } else if !s[i].used {
        Some(i)
    } else {
        free_iface_from(s, i + 1)
    }
}

pub proof fn lemma_free_iface_range(s: Seq<NetInterface>, i: int)
    ensures
        free_iface_from(s, i) matches Some(k) ==> i <= k < s.len() && !s[k].used,
    decreases s.len() - i,
{
    if 0 <= i < s.len() && s[i].used {
        lemma_free_iface_range(s, i + 1);
    }
}

/// Registers an interface that is up, under the first 16 bytes of `name`,
/// in the first free slot; `QueueFull` when there is none.
pub fn register(table: &mut NetInterfaces, name: &str, mac: MacAddress) -> (r: Result<usize, NetError>)
    requires
        old(table).wf(),
    ensures
        final(table).wf(),
        match free_iface_from(old(table).ifaces@, 0) {
            None => r == Err::<usize, NetError>(NetError::QueueFull) && final(table).ifaces@ == old(table).ifaces@,
            Some(k) => {
                let f = final(table).iface(k as usize);
                let n = if name.spec_bytes().len() < 16 {
                    name.spec_bytes().len()
                } else {
                    16
                };
                &&& r == Ok::<usize, NetError>(k as usize)
                &&& final(table).others_same(old(table), k as usize)
                &&& f.used && f.state == NetIfState::Up && f.mac == mac
                &&& f.name_len == n
                &&& f.name@.subrange(0, n as int) == name.spec_bytes().subrange(0, n as int)
                &&& f.ipv4.0@ == seq![0u8, 0, 0, 0]
                &&& f.rx_queue().len() == 0 && f.tx_queue().len() == 0
                &&& f.stats == NetStats::empty_spec()
            },
        },
{
    let mut index: usize = 0;
    while index < MAX_NET_INTERFACES
        invariant
            table.wf(),
            table.ifaces@ == old(table).ifaces@,
            index <= MAX_NET_INTERFACES,
            free_iface_from(old(table).ifaces@, 0) == free_iface_from(old(table).ifaces@, index as int),
        decreases MAX_NET_INTERFACES - index,
    {
        if !table.ifaces[index].used {
            let bytes = name.as_bytes();
            let n = if bytes.len() < 16 {
                bytes.len()
            } else {
                16
            };
            let mut iface = NetInterface::empty();
            iface.used = true;
            iface.name_len = n;
            let mut i: usize = 0;
            while i < n
                invariant
                    i <= n <= 16,
                    n <= bytes@.len(),
                    forall|j: int| 0 <= j < i ==> iface.name[j] == bytes@[j],
                    iface.wf(),
                    iface.used,
                    iface.name_len == n,
                    iface.rx_len == 0 && iface.tx_len == 0,
                    iface.stats == NetStats::empty_spec(),
                    iface.ipv4.0@ == seq![0u8, 0, 0, 0],
                decreases n - i,
            {
                iface.name[i] = bytes[i];
                i += 1;
            }
            assert(iface.name@.subrange(0, n as int) =~= bytes@.subrange(0, n as int));
            iface.mac = mac;
            iface.state = NetIfState::Up;
            let ghost f = iface;
            table.ifaces.set(index, iface);
            assert(f.rx_queue() =~= Seq::<Seq<u8>>::empty());
            assert(f.tx_queue() =~= Seq::<Seq<u8>>::empty());
            return Ok(index);
        }
        index += 1;
    }
    Err(NetError::QueueFull)
}

/// `Invalid` unless interface `index` is registered.
fn check_live(table: &NetInterfaces, index: usize) -> (r: Result<(), NetError>)
    requires
        table.wf(),
    ensures
        r is Ok <==> table.live(index),
        r is Err ==> r->Err_0 == NetError::Invalid,
{
    if index >= MAX_NET_INTERFACES || !table.ifaces[index].used {
        return Err(NetError::Invalid);
    }
    Ok(())
}

pub fn set_ipv4(table: &mut NetInterfaces, index: usize, ipv4: Ipv4Address) -> (r: Result<(), NetError>)
    requires
        old(table).wf(),
    ensures
        final(table).wf(),
        !old(table).live(index) ==> r == Err::<(), NetError>(NetError::Invalid) && final(table).ifaces@ == old(
            table,
        ).ifaces@,
        old(table).live(index) ==> r == Ok::<(), NetError>(()) && final(table).others_same(old(table), index)
            && final(table).iface(index) == (NetInterface { ipv4, ..old(table).iface(index) }),
{
    check_live(table, index)?;
    table.ifaces[index].ipv4 = ipv4;
    Ok(())
}

/// Interface `i` of `n` is `f(o)` for interface `o` of the old table, all
/// else unchanged.
pub open spec fn only_stats(o: &NetInterfaces, n: &NetInterfaces, index: usize, stats: NetStats) -> bool {
    &&& n.others_same(o, index)
    &&& n.iface(index) == (NetInterface { stats, ..o.iface(index) })
}

pub fn record_rx(table: &mut NetInterfaces, index: usize, len: usize)
    requires
        old(table).wf(),
    ensures
        final(table).wf(),
        !old(table).live(index) ==> final(table).ifaces@ == old(table).ifaces@,
        old(table).live(index) ==> ({
            let s = old(table).iface(index).stats;
            only_stats(old(table), final(table), index, NetStats {
                rx_packets: wrap_inc(s.rx_packets),
                rx_bytes: wrap_add(s.rx_bytes, len as u64),
                ..s
            })
        }),
{
    if check_live(table, index).is_ok() {
        let s = table.ifaces[index].stats;
        table.ifaces[index].stats = NetStats {
            rx_packets: wrapping_inc64(s.rx_packets),
            rx_bytes: wrapping_add64(s.rx_bytes, len as u64),
            ..s
        };
    }
}

pub fn record_rx_error(table: &mut NetInterfaces, index: usize)
    requires
        old(table).wf(),
    ensures
        final(table).wf(),
        !old(table).live(index) ==> final(table).ifaces@ == old(table).ifaces@,
        old(table).live(index) ==> ({
            let s = old(table).iface(index).stats;
            only_stats(old(table), final(table), index, NetStats { rx_errors: wrap_inc(s.rx_errors), ..s })
        }),
{
    if check_live(table, index).is_ok() {
        let s = table.ifaces[index].stats;
        table.ifaces[index].stats = NetStats { rx_errors: wrapping_inc64(s.rx_errors), ..s };
    }
}

pub fn record_rx_drop(table: &mut NetInterfaces, index: usize)
    requires
        old(table).wf(),
    ensures
        final(table).wf(),
        !old(table).live(index) ==> final(table).ifaces@ == old(table).ifaces@,
        old(table).live(index) ==> ({
            let s = old(table).iface(index).stats;
            only_stats(old(table), final(table), index, NetStats { rx_dropped: wrap_inc(s.rx_dropped), ..s })
        }),
{
    if check_live(table, index).is_ok() {
        let s = table.ifaces[index].stats;
        table.ifaces[index].stats = NetStats { rx_dropped: wrapping_inc64(s.rx_dropped), ..s };
    }
}

pub fn record_tx_error(table: &mut NetInterfaces, index: usize)
    requires
        old(table).wf(),
    ensures
        final(table).wf(),
        !old(table).live(index) ==> final(table).ifaces@ == old(table).ifaces@,
        old(table).live(index) ==> ({
            let s = old(table).iface(index).stats;
            only_stats(old(table), final(table), index, NetStats { tx_errors: wrap_inc(s.tx_errors), ..s })
        }),
{
    if check_live(table, index).is_ok() {
        let s = table.ifaces[index].stats;
        table.ifaces[index].stats = NetStats { tx_errors: wrapping_inc64(s.tx_errors), ..s };
    }
}

pub fn record_arp(table: &mut NetInterfaces, index: usize)
    requires
        old(table).wf(),
    ensures
        final(table).wf(),
        !old(table).live(index) ==> final(table).ifaces@ == old(table).ifaces@,
        old(table).live(index) ==> ({
            let s = old(table).iface(index).stats;
            only_stats(old(table), final(table), index, NetStats { arp_packets: wrap_inc(s.arp_packets), ..s })
        }),
{
    if check_live(table, index).is_ok() {
        let s = table.ifaces[index].stats;
        table.ifaces[index].stats = NetStats { arp_packets: wrapping_inc64(s.arp_packets), ..s };
    }
}

pub fn record_icmp(table: &mut NetInterfaces, index: usize)
    requires
        old(table).wf(),
    ensures
        final(table).wf(),
        !old(table).live(index) ==> final(table).ifaces@ == old(table).ifaces@,
        old(table).live(index) ==> ({
            let s = old(table).iface(index).stats;
            only_stats(old(table), final(table), index, NetStats { icmp_packets: wrap_inc(s.icmp_packets), ..s })
        }),
{
    if check_live(table, index).is_ok() {
        let s = table.ifaces[index].stats;
        table.ifaces[index].stats = NetStats { icmp_packets: wrapping_inc64(s.icmp_packets), ..s };
    }
}

pub fn record_udp(table: &mut NetInterfaces, index: usize)
    requires
        old(table).wf(),
    ensures
        final(table).wf(),
        !old(table).live(index) ==> final(table).ifaces@ == old(table).ifaces@,
        old(table).live(index) ==> ({
            let s = old(table).iface(index).stats;
            only_stats(old(table), final(table), index, NetStats { udp_packets: wrap_inc(s.udp_packets), ..s })
        }),
{
    if check_live(table, index).is_ok() {
        let s = table.ifaces[index].stats;
        table.ifaces[index].stats = NetStats { udp_packets: wrapping_inc64(s.udp_packets), ..s };
    }
}

pub fn record_tcp(table: &mut NetInterfaces, index: usize)
    requires
        old(table).wf(),
    ensures
        final(table).wf(),
        !old(table).live(index) ==> final(table).ifaces@ == old(table).ifaces@,
        old(table).live(index) ==> ({
            let s = old(table).iface(index).stats;
            only_stats(old(table), final(table), index, NetStats { tcp_packets: wrap_inc(s.tcp_packets), ..s })
        }),
{
    if check_live(table, index).is_ok() {
        let s = table.ifaces[index].stats;
        table.ifaces[index].stats = NetStats { tcp_packets: wrapping_inc64(s.tcp_packets), ..s };
    }
}

/// A buffer holding exactly `bytes`.
fn packet_of(bytes: &[u8]) -> (r: PacketBuffer)
    requires
        bytes@.len() <= MAX_PACKET_SIZE,
    ensures
        r.wf(),
        r.data() == bytes@,
{
    let mut pb = PacketBuffer::empty();
    let _ = pb.resize(bytes.len());
    let ghost before = pb.bytes@;
    let slot = pb.as_mut_slice();
    copy_into(slot, 0, bytes);
    assert(slot@ =~= bytes@);
    proof {
        assert(pb.bytes@.subrange(0, bytes@.len() as int) =~= bytes@);
    }
    pb
}

/// What appending `bytes` to a ring of `len` packets from `head` does.
proof fn lemma_ring_push(ring: Seq<PacketBuffer>, head: usize, len: usize, pb: PacketBuffer)
    requires
        ring.len() == 8,
        head < 8,
        len < 8,
    ensures
        ring_packets(ring.update(((head + len) % 8) as int, pb), head, (len + 1) as usize) == ring_packets(
            ring,
            head,
            len,
        ).push(pb.data()),
{
    let tail = (head + len) % 8;
    let n = ring.update(tail as int, pb);
    assert forall|i: int| 0 <= i < len implies #[trigger] n[(head + i) % 8] == ring[(head + i) % 8] by {
        lemma_ring_distinct(head as int, i, len as int);
    }
    assert(ring_packets(n, head, (len + 1) as usize) =~= ring_packets(ring, head, len).push(pb.data()));
}

/// What taking the oldest packet off a ring does.
proof fn lemma_ring_pop(ring: Seq<PacketBuffer>, head: usize, len: usize, pb: PacketBuffer)
    requires
        ring.len() == 8,
        head < 8,
        0 < len <= 8,
    ensures
        ring_packets(ring.update(head as int, pb), ((head + 1) % 8) as usize, (len - 1) as usize) == ring_packets(
            ring,
            head,
            len,
        ).drop_first(),
{
    let n = ring.update(head as int, pb);
    assert forall|i: int| 0 <= i < len - 1 implies #[trigger] n[(((head + 1) % 8) + i) % 8] == ring[(head + (i + 1)) % 8] by {
        lemma_ring_step(head as int, i);
        lemma_ring_distinct(head as int, 0, i + 1);
    }
    assert(ring_packets(n, ((head + 1) % 8) as usize, (len - 1) as usize) =~= ring_packets(ring, head, len).drop_first());
}

/// Queues a received packet on interface `index`.
pub fn push_rx(table: &mut NetInterfaces, index: usize, bytes: &[u8]) -> (r: Result<(), NetError>)
    requires
        old(table).wf(),
    ensures
        final(table).wf(),
        bytes@.len() > MAX_PACKET_SIZE ==> r == Err::<(), NetError>(NetError::TooLarge) && final(table).ifaces@
            == old(table).ifaces@,
        bytes@.len() <= MAX_PACKET_SIZE && !old(table).live(index) ==> r == Err::<(), NetError>(NetError::Invalid)
            && final(table).ifaces@ == old(table).ifaces@,
        bytes@.len() <= MAX_PACKET_SIZE && old(table).live(index) && old(table).iface(index).rx_len >= RX_QUEUE_LEN
            ==> r == Err::<(), NetError>(NetError::QueueFull) && final(table).ifaces@ == old(table).ifaces@,
        bytes@.len() <= MAX_PACKET_SIZE && old(table).live(index) && old(table).iface(index).rx_len < RX_QUEUE_LEN
            ==> ({
            let o = old(table).iface(index);
            let f = final(table).iface(index);
            &&& r == Ok::<(), NetError>(())
            &&& final(table).others_same(old(table), index)
            &&& f == (NetInterface { rx: f.rx, rx_len: (o.rx_len + 1) as usize, ..o })
            &&& f.rx_queue() == o.rx_queue().push(bytes@)
        }),
{
    if bytes.len() > MAX_PACKET_SIZE {
        return Err(NetError::TooLarge);
    }
    check_live(table, index)?;
    assert(table.ifaces@[index as int].wf());
    let head = table.ifaces[index].rx_head;
    let len = table.ifaces[index].rx_len;
    if len >= RX_QUEUE_LEN {
        return Err(NetError::QueueFull);
    }
    let tail = (head + len) % RX_QUEUE_LEN;
    let pb = packet_of(bytes);
    proof {
        lemma_ring_push(table.ifaces@[index as int].rx@, head, len, pb);
    }
    table.ifaces[index].rx.set(tail, pb);
    table.ifaces[index].rx_len = len + 1;
    Ok(())
}

/// Queues a packet for sending on interface `index`, counting it; a packet
/// too large counts as a send error, one that finds the ring full as dropped.
pub fn queue_tx(table: &mut NetInterfaces, index: usize, bytes: &[u8]) -> (r: Result<(), NetError>)
    requires
        old(table).wf(),
    ensures
        final(table).wf(),
        bytes@.len() > MAX_PACKET_SIZE ==> r == Err::<(), NetError>(NetError::TooLarge) && (!old(table).live(index)
            ==> final(table).ifaces@ == old(table).ifaces@) && (old(table).live(index) ==> ({
            let s = old(table).iface(index).stats;
            only_stats(old(table), final(table), index, NetStats { tx_errors: wrap_inc(s.tx_errors), ..s })
        })),
        bytes@.len() <= MAX_PACKET_SIZE && !old(table).live(index) ==> r == Err::<(), NetError>(NetError::Invalid)
            && final(table).ifaces@ == old(table).ifaces@,
        bytes@.len() <= MAX_PACKET_SIZE && old(table).live(index) && old(table).iface(index).tx_len >= TX_QUEUE_LEN
            ==> r == Err::<(), NetError>(NetError::QueueFull) && ({
            let s = old(table).iface(index).stats;
            only_stats(old(table), final(table), index, NetStats { tx_dropped: wrap_inc(s.tx_dropped), ..s })
        }),
        bytes@.len() <= MAX_PACKET_SIZE && old(table).live(index) && old(table).iface(index).tx_len < TX_QUEUE_LEN
            ==> ({
            let o = old(table).iface(index);
            let f = final(table).iface(index);
            &&& r == Ok::<(), NetError>(())
            &&& final(table).others_same(old(table), index)
            &&& f == (NetInterface {
                tx: f.tx,
                tx_len: (o.tx_len + 1) as usize,
                stats: NetStats {
                    tx_packets: wrap_inc(o.stats.tx_packets),
                    tx_bytes: wrap_add(o.stats.tx_bytes, bytes@.len() as u64),
                    ..o.stats
                },
                ..o
            })
            &&& f.tx_queue() == o.tx_queue().push(bytes@)
        }),
{
    if bytes.len() > MAX_PACKET_SIZE {
        record_tx_error(table, index);
        return Err(NetError::TooLarge);
    }
    check_live(table, index)?;
    assert(table.ifaces@[index as int].wf());
    let head = table.ifaces[index].tx_head;
    let len = table.ifaces[index].tx_len;
    if len >= TX_QUEUE_LEN {
        let s = table.ifaces[index].stats;
        table.ifaces[index].stats = NetStats { tx_dropped: wrapping_inc64(s.tx_dropped), ..s };
        return Err(NetError::QueueFull);
    }
    let tail = (head + len) % TX_QUEUE_LEN;
    let pb = packet_of(bytes);
    proof {
        lemma_ring_push(table.ifaces@[index as int].tx@, head, len, pb);
    }
    table.ifaces[index].tx.set(tail, pb);
    table.ifaces[index].tx_len = len + 1;
    let s = table.ifaces[index].stats;
    table.ifaces[index].stats = NetStats {
        tx_packets: wrapping_inc64(s.tx_packets),
        tx_bytes: wrapping_add64(s.tx_bytes, bytes.len() as u64),
        ..s
    };
    Ok(())
}

/// What popping the oldest packet of a ring into `out` answers and leaves in `out`.
pub open spec fn popped(packet: Seq<u8>, o: Seq<u8>, n: Seq<u8>, count: usize) -> bool {
    let c = if o.len() < packet.len() {
        o.len()
    } else {
        packet.len()
    };
    count == c && n == packet.take(c as int) + o.skip(c as int)
}

/// Moves the oldest received packet of interface `index` into `out`, as
/// much as fits, and returns how many bytes were copied.
pub fn pop_rx(table: &mut NetInterfaces, index: usize, out: &mut [u8]) -> (r: Result<usize, NetError>)
    requires
        old(table).wf(),
    ensures
        final(table).wf(),
        !old(table).live(index) ==> r == Err::<usize, NetError>(NetError::Invalid) && final(table).ifaces@ == old(
            table,
        ).ifaces@ && final(out)@ == old(out)@,
        old(table).live(index) && old(table).iface(index).rx_len == 0 ==> r == Err::<usize, NetError>(
            NetError::QueueEmpty,
        ) && final(table).ifaces@ == old(table).ifaces@ && final(out)@ == old(out)@,
        old(table).live(index) && old(table).iface(index).rx_len > 0 ==> ({
            let o = old(table).iface(index);
            let f = final(table).iface(index);
            &&& r is Ok && popped(o.rx_queue()[0], old(out)@, final(out)@, r->Ok_0)
            &&& final(table).others_same(old(table), index)
            &&& f == (NetInterface {
                rx: f.rx,
                rx_head: ((o.rx_head + 1) % (RX_QUEUE_LEN as int)) as usize,
                rx_len: (o.rx_len - 1) as usize,
                ..o
            })
            &&& f.rx_queue() == o.rx_queue().drop_first()
        }),
{
    check_live(table, index)?;
    assert(table.ifaces@[index as int].wf());
    let head = table.ifaces[index].rx_head;
    let len = table.ifaces[index].rx_len;
    if len == 0 {
        return Err(NetError::QueueEmpty);
    }
    assert(table.ifaces@[index as int].rx@[head as int].wf());
    let plen = table.ifaces[index].rx[head].len;
    let count = if out.len() < plen {
        out.len()
    } else {
        plen
    };
    let ghost data = table.ifaces@[index as int].rx@[head as int].data();
    copy_into(out, 0, vstd::slice::slice_subrange(table.ifaces[index].rx[head].as_slice(), 0, count));
    assert(out@ =~= data.take(count as int) + old(out)@.skip(count as int));
    let empty = PacketBuffer::empty();
    proof {
        lemma_ring_pop(table.ifaces@[index as int].rx@, head, len, empty);
        assert(data == table.ifaces@[index as int].rx_queue()[0int]);
    }
    table.ifaces[index].rx.set(head, empty);
    table.ifaces[index].rx_head = (head + 1) % RX_QUEUE_LEN;
    table.ifaces[index].rx_len = len - 1;
    Ok(count)
}

/// Moves the oldest packet waiting to be sent on interface `index` into
/// `out`, as much as fits, and returns how many bytes were copied.
pub fn pop_tx(table: &mut NetInterfaces, index: usize, out: &mut [u8]) -> (r: Result<usize, NetError>)
    requires
        old(table).wf(),
    ensures
        final(table).wf(),
        !old(table).live(index) ==> r == Err::<usize, NetError>(NetError::Invalid) && final(table).ifaces@ == old(
            table,
        ).ifaces@ && final(out)@ == old(out)@,
        old(table).live(index) && old(table).iface(index).tx_len == 0 ==> r == Err::<usize, NetError>(
            NetError::QueueEmpty,
        ) && final(table).ifaces@ == old(table).ifaces@ && final(out)@ == old(out)@,
        old(table).live(index) && old(table).iface(index).tx_len > 0 ==> ({
            let o = old(table).iface(index);
            let f = final(table).iface(index);
            &&& r is Ok && popped(o.tx_queue()[0], old(out)@, final(out)@, r->Ok_0)
            &&& final(table).others_same(old(table), index)
            &&& f == (NetInterface {
                tx: f.tx,
                tx_head: ((o.tx_head + 1) % (TX_QUEUE_LEN as int)) as usize,
                tx_len: (o.tx_len - 1) as usize,
                ..o
            })
            &&& f.tx_queue() == o.tx_queue().drop_first()
        }),
{
    check_live(table, index)?;
    assert(table.ifaces@[index as int].wf());
    let head = table.ifaces[index].tx_head;
    let len = table.ifaces[index].tx_len;
    if len == 0 {
        return Err(NetError::QueueEmpty);
    }
    assert(table.ifaces@[index as int].tx@[head as int].wf());
    let plen = table.ifaces[index].tx[head].len;
    let count = if out.len() < plen {
        out.len()
    } else {
        plen
    };
    let ghost data = table.ifaces@[index as int].tx@[head as int].data();
    copy_into(out, 0, vstd::slice::slice_subrange(table.ifaces[index].tx[head].as_slice(), 0, count));
    assert(out@ =~= data.take(count as int) + old(out)@.skip(count as int));
    let empty = PacketBuffer::empty();
    proof {
        lemma_ring_pop(table.ifaces@[index as int].tx@, head, len, empty);
        assert(data == table.ifaces@[index as int].tx_queue()[0int]);
    }
    table.ifaces[index].tx.set(head, empty);
    table.ifaces[index].tx_head = (head + 1) % TX_QUEUE_LEN;
    table.ifaces[index].tx_len = len - 1;
    Ok(count)
}

/// The number of registered interfaces in `s`.
pub open spec fn used_ifaces(s: Seq<NetInterface>) -> nat
    decreases s.len(),
{
    if s.len() == 0 {
        0
    } else {
        used_ifaces(s.drop_last()) + if s.last().used {
            1nat
        } else {
            0nat
        }
    }
}

/// The number of registered interfaces.
pub fn count(table: &NetInterfaces) -> (r: usize)
    requires
        table.wf(),
    ensures
        r == used_ifaces(table.ifaces@),
{
    let mut n: usize = 0;
    let mut index: usize = 0;
    while index < MAX_NET_INTERFACES
        invariant
            table.wf(),
            index <= MAX_NET_INTERFACES,
            n <= index,
            n == used_ifaces(table.ifaces@.subrange(0, index as int)),
        decreases MAX_NET_INTERFACES - index,
    {
        assert(table.ifaces@.subrange(0, index + 1).drop_last() =~= table.ifaces@.subrange(0, index as int));
        if table.ifaces[index].used {
            n += 1;
        }
        index += 1;
    }
    assert(table.ifaces@.subrange(0, MAX_NET_INTERFACES as int) =~= table.ifaces@);
    n
}

/// Interface `index`, if registered.
pub fn get(table: &NetInterfaces, index: usize) -> (r: Option<&NetInterface>)
    requires
        table.wf(),
    ensures
        match r {
            Some(i) => table.live(index) && *i == table.iface(index),
            None => !table.live(index),
        },
{
    if index >= MAX_NET_INTERFACES || !table.ifaces[index].used {
        return None;
    }
    Some(&table.ifaces[index])
}

/// The channel that readers of interface `index` sleep on.
pub fn wait_channel(index: usize) -> (r: u32)
    ensures
        r == NET_WAIT_BASE | ((index as u32) & 0xffffu32),
{
    NET_WAIT_BASE | ((index as u32) & 0xffff)
}

} // verus!
