pub mod arp;
pub mod ethernet;
pub mod icmp;
pub mod interface;
pub mod ipv4;
pub mod udp;

use vstd::prelude::*;
use vstd::std_specs::cmp::PartialEqSpecImpl;

use crate::kernel::net::arp::{arp_bytes, ip_at, ArpPacket};
use crate::kernel::net::ethernet::mac_at;
use crate::kernel::net::icmp::{parse_echo, reply_spec, write_echo_reply};
use crate::kernel::net::interface::{
    get, push_rx, queue_tx, record_arp, record_icmp, record_rx, record_rx_drop, record_rx_error, record_tcp,
    record_udp, wrap_add, NetInterface, NetInterfaces, NetStats, RX_QUEUE_LEN, TX_QUEUE_LEN,
};
use crate::kernel::net::ipv4::header_bytes_spec;
use crate::kernel::task::wrap_inc;

verus! {

pub const MAX_PACKET_SIZE: usize = 1536;

#[derive(Clone, Copy, Eq, Debug)]
pub struct MacAddress(pub [u8; 6]);

impl PartialEq for MacAddress {
    fn eq(&self, other: &Self) -> (r: bool) {
        self.0[0] == other.0[0] && self.0[1] == other.0[1] && self.0[2] == other.0[2] && self.0[3]
            == other.0[3] && self.0[4] == other.0[4] && self.0[5] == other.0[5]
    }
}

impl PartialEqSpecImpl for MacAddress {
    open spec fn obeys_eq_spec() -> bool {
        true
    }

    open spec fn eq_spec(&self, other: &Self) -> bool {
        self.0[0] == other.0[0] && self.0[1] == other.0[1] && self.0[2] == other.0[2] && self.0[3]
            == other.0[3] && self.0[4] == other.0[4] && self.0[5] == other.0[5]
    }
}

impl MacAddress {
    pub fn new(bytes: [u8; 6]) -> (r: Self)
        ensures
            r.0 == bytes,
    {
        MacAddress(bytes)
    }

    pub fn as_bytes(self) -> (r: [u8; 6])
        ensures
            r == self.0,
    {
        self.0
    }

    pub fn broadcast() -> (r: Self)
        ensures
            r.0@ == seq![0xffu8, 0xff, 0xff, 0xff, 0xff, 0xff],
    {
        let r = MacAddress([0xff, 0xff, 0xff, 0xff, 0xff, 0xff]);
        assert(r.0@ =~= seq![0xffu8, 0xff, 0xff, 0xff, 0xff, 0xff]);
        r
    }

    pub fn zero() -> (r: Self)
        ensures
            r.0@ == seq![0u8, 0, 0, 0, 0, 0],
    {
        let r = MacAddress([0, 0, 0, 0, 0, 0]);
        assert(r.0@ =~= seq![0u8, 0, 0, 0, 0, 0]);
        r
    }
}

#[derive(Clone, Copy, Eq, Debug)]
pub struct Ipv4Address(pub [u8; 4]);

impl PartialEq for Ipv4Address {
    fn eq(&self, other: &Self) -> (r: bool) {
        self.0[0] == other.0[0] && self.0[1] == other.0[1] && self.0[2] == other.0[2] && self.0[3] == other.0[3]
    }
}

impl PartialEqSpecImpl for Ipv4Address {
    open spec fn obeys_eq_spec() -> bool {
        true
    }

    open spec fn eq_spec(&self, other: &Self) -> bool {
        self.0[0] == other.0[0] && self.0[1] == other.0[1] && self.0[2] == other.0[2] && self.0[3] == other.0[3]
    }
}

impl Ipv4Address {
    pub fn new(a: u8, b: u8, c: u8, d: u8) -> (r: Self)
        ensures
            r.0@ == seq![a, b, c, d],
    {
        let r = Ipv4Address([a, b, c, d]);
        assert(r.0@ =~= seq![a, b, c, d]);
        r
    }

    /// The address an interface gets when nothing else is configured: 10.0.2.15.
    pub fn default_ipv4() -> (r: Self)
        ensures
            r.0@ == seq![10u8, 0, 2, 15],
    {
        Ipv4Address::new(10, 0, 2, 15)
    }

    pub fn as_bytes(self) -> (r: [u8; 4])
        ensures
            r == self.0,
    {
        self.0
    }

    pub fn zero() -> (r: Self)
        ensures
            r.0@ == seq![0u8, 0, 0, 0],
    {
        Ipv4Address::new(0, 0, 0, 0)
    }

    pub fn broadcast() -> (r: Self)
        ensures
            r.0@ == seq![255u8, 255, 255, 255],
    {
        Ipv4Address::new(255, 255, 255, 255)
    }
}

/// A packet of up to `MAX_PACKET_SIZE` bytes, of which the first `len` count.
pub struct PacketBuffer {
    pub bytes: Vec<u8>,
    pub len: usize,
}

impl PacketBuffer {
    pub open spec fn wf(&self) -> bool {
        self.bytes@.len() == MAX_PACKET_SIZE && self.len <= MAX_PACKET_SIZE
    }

    /// The bytes that count.
    pub open spec fn data(&self) -> Seq<u8> {
        self.bytes@.subrange(0, self.len as int)
    }

    pub fn empty() -> (r: Self)
        ensures
            r.wf(),
            r.len == 0,
            r.bytes@ == Seq::new(MAX_PACKET_SIZE as nat, |_i: int| 0u8),
    {
        PacketBuffer { bytes: crate::kernel::process::filled_vec(0u8, MAX_PACKET_SIZE), len: 0 }
    }

    pub fn as_slice(&self) -> (r: &[u8])
        requires
            self.wf(),
        ensures
            r@ == self.data(),
    {
        vstd::slice::slice_subrange(self.bytes.as_slice(), 0, self.len)
    }

    pub fn as_mut_slice(&mut self) -> (r: &mut [u8])
        requires
            old(self).wf(),
        ensures
            r@ == old(self).data(),
            final(self).len == old(self).len,
            final(self).bytes@ == final(r)@ + old(self).bytes@.subrange(old(self).len as int, MAX_PACKET_SIZE as int),
    {
        let len = self.len;
        let (head, _tail) = self.bytes.as_mut_slice().split_at_mut(len);
        head
    }

    pub fn resize(&mut self, len: usize) -> (r: Result<(), NetError>)
        requires
            old(self).wf(),
        ensures
            final(self).wf(),
            final(self).bytes@ == old(self).bytes@,
            len > MAX_PACKET_SIZE ==> r == Err::<(), NetError>(NetError::TooLarge) && final(self).len == old(self).len,
            len <= MAX_PACKET_SIZE ==> r == Ok::<(), NetError>(()) && final(self).len == len,
    {
        if len > MAX_PACKET_SIZE {
            return Err(NetError::TooLarge);
        }
        self.len = len;
        Ok(())
    }
}

#[derive(Clone, Copy, PartialEq, Eq, Structural, Debug)]
pub enum NetError {
    Truncated,
    Invalid,
    Unsupported,
    TooLarge,
    NoRoute,
    QueueFull,
    QueueEmpty,
}

#[derive(Clone, Copy, PartialEq, Eq, Structural, Debug)]
pub enum PacketKind {
    Arp,
    Icmp,
    Udp,
    Tcp,
    Unsupported,
}

#[derive(Clone, Copy, PartialEq, Eq, Structural, Debug)]
pub enum RxDisposition {
    Consumed,
    Ignored,
    QueuedReply,
}

/// The big-endian 16-bit value of bytes `i` and `i + 1` of `s`.
pub open spec fn be16_at(s: Seq<u8>, i: int) -> u16 {
    (s[i] * 256 + s[i + 1]) as u16
}

/// Reads the big-endian 16-bit value at `i`.
pub fn read_be16(bytes: &[u8], i: usize) -> (r: u16)
    requires
        i + 1 < bytes@.len(),
    ensures
        r == be16_at(bytes@, i as int),
{
    (bytes[i] as u16) * 256 + bytes[i + 1] as u16
}

/// `s` with the big-endian bytes of `v` at `i` and `i + 1`.
pub open spec fn put_be16(s: Seq<u8>, i: int, v: u16) -> Seq<u8> {
    s.update(i, (v / 256) as u8).update(i + 1, (v % 256) as u8)
}

pub proof fn lemma_be16_roundtrip(s: Seq<u8>, i: int, v: u16)
    requires
        0 <= i && i + 1 < s.len(),
    ensures
        be16_at(put_be16(s, i, v), i) == v,
{
}

/// Writes `v` big-endian at `i`.
pub fn write_be16(bytes: &mut [u8], i: usize, v: u16)
    requires
        i + 1 < old(bytes)@.len(),
    ensures
        final(bytes)@ == put_be16(old(bytes)@, i as int, v),
{
    bytes[i] = (v / 256) as u8;
    bytes[i + 1] = (v % 256) as u8;
}

/// Copies `src` into `bytes` from `at` on.
pub fn copy_into(bytes: &mut [u8], at: usize, src: &[u8])
    requires
        at + src@.len() <= old(bytes)@.len(),
    ensures
        final(bytes)@ == old(bytes)@.subrange(0, at as int) + src@ + old(bytes)@.subrange(
            at + src@.len(),
            old(bytes)@.len() as int,
        ),
{
    let ghost o = bytes@;
    let blen = bytes.len();
    let mut i: usize = 0;
    while i < src.len()
        invariant
            i <= src@.len(),
            blen == o.len(),
            at + src@.len() <= o.len(),
            bytes@.len() == o.len(),
            forall|j: int| 0 <= j < at ==> bytes@[j] == o[j],
            forall|j: int| 0 <= j < i ==> bytes@[at + j] == src@[j],
            forall|j: int| at + i <= j < o.len() ==> bytes@[j] == o[j],
        decreases src@.len() - i,
    {
        bytes[at + i] = src[i];
        i += 1;
    }
    assert(bytes@ =~= o.subrange(0, at as int) + src@ + o.subrange(at + src@.len(), o.len() as int));
}

/// Sets `len` bytes from `at` to zero.
pub fn zero_range(bytes: &mut [u8], at: usize, len: usize)
    requires
        at + len <= old(bytes)@.len(),
    ensures
        final(bytes)@.len() == old(bytes)@.len(),
        forall|j: int| 0 <= j < old(bytes)@.len() ==> #[trigger] final(bytes)@[j] == if at <= j < at + len {
            0u8
        } else {
            old(bytes)@[j]
        },
{
    let ghost o = bytes@;
    let blen = bytes.len();
    let mut i: usize = 0;
    while i < len
        invariant
            i <= len,
            blen == o.len(),
            at + len <= o.len(),
            bytes@.len() == o.len(),
            forall|j: int| 0 <= j < o.len() ==> #[trigger] bytes@[j] == if at <= j < at + i {
                0u8
            } else {
                o[j]
            },
        decreases len - i,
    {
        bytes[at + i] = 0;
        i += 1;
    }
}

/// The 16-bit word starting at byte `i`; a last odd byte is padded with zero.
pub open spec fn word_at(s: Seq<u8>, i: int) -> int {
    if i + 1 < s.len() {
        s[i] * 256 + s[i + 1]
    } else {
        s[i] * 256
    }
}

/// The sum of the first `n` words of `s`.
pub open spec fn word_sum(s: Seq<u8>, n: nat) -> int
    decreases n,
{
    if n == 0 {
        0
    } else {
        word_sum(s, (n - 1) as nat) + word_at(s, 2 * (n - 1))
    }
}

/// Adds the carries back in until the value fits in 16 bits.
pub open spec fn fold16(x: int) -> int
    decreases x,
{
    if x < 0x10000 {
        x
    } else {
        fold16(x % 0x10000 + x / 0x10000)
    }
}

/// The Internet checksum of `s`: the complement of the folded sum of its
/// words, the sum taken modulo 2^32.
pub open spec fn checksum_spec(s: Seq<u8>) -> u16 {
    (0xffff - fold16(word_sum(s, ((s.len() + 1) / 2) as nat) % 0x1_0000_0000)) as u16
}

proof fn lemma_word_bound(s: Seq<u8>, i: int)
    requires
        0 <= i < s.len(),
    ensures
        0 <= word_at(s, i) <= 0xffff,
{
}

proof fn lemma_fold_bound(x: int)
    requires
        x >= 0,
    ensures
        0 <= fold16(x) <= 0xffff,
    decreases x,
{
    if x >= 0x10000 {
        lemma_fold_bound(x % 0x10000 + x / 0x10000);
    }
}

/// The Internet checksum of `bytes`.
pub fn checksum16(bytes: &[u8]) -> (r: u16)
    ensures
        r == checksum_spec(bytes@),
{
    let n = bytes.len();
    let mut sum: u32 = 0;
    let mut i: usize = 0;
    while i + 1 < n
        invariant
            n == bytes@.len(),
            i % 2 == 0,
            i <= n,
            sum == word_sum(bytes@, (i / 2) as nat) % 0x1_0000_0000,
        decreases n - i,
    {
        let w = (bytes[i] as u32) * 256 + bytes[i + 1] as u32;
        proof {
            assert(word_sum(bytes@, ((i + 2) / 2) as nat) == word_sum(bytes@, (i / 2) as nat) + w);
            vstd::arithmetic::div_mod::lemma_add_mod_noop(word_sum(bytes@, (i / 2) as nat), w as int, 0x1_0000_0000);
            vstd::arithmetic::div_mod::lemma_small_mod(w as nat, 0x1_0000_0000);
        }
        sum = ((sum as u64 + w as u64) % 0x1_0000_0000) as u32;
        i += 2;
    }
    if i < n {
        let w = (bytes[i] as u32) * 256;
        proof {
            assert(word_sum(bytes@, ((i + 2) / 2) as nat) == word_sum(bytes@, (i / 2) as nat) + w);
            vstd::arithmetic::div_mod::lemma_add_mod_noop(word_sum(bytes@, (i / 2) as nat), w as int, 0x1_0000_0000);
            vstd::arithmetic::div_mod::lemma_small_mod(w as nat, 0x1_0000_0000);
        }
        sum = ((sum as u64 + w as u64) % 0x1_0000_0000) as u32;
        assert(((i + 2) / 2) as nat == ((n + 1) / 2) as nat);
    } else {
        assert((i / 2) as nat == ((n + 1) / 2) as nat);
    }
    let ghost total = sum as int;
    while sum / 0x10000 != 0
        invariant
            fold16(sum as int) == fold16(total),
        decreases sum,
    {
        sum = (sum % 0x10000) + (sum / 0x10000);
    }
    proof {
        lemma_fold_bound(total);
    }
    (0xffff - sum) as u16
}

/// Folding keeps the value modulo 0xffff.
pub proof fn lemma_fold16_mod(x: int)
    requires
        x >= 0,
    ensures
        fold16(x) % 0xffff == x % 0xffff,
        x > 0 ==> fold16(x) > 0,
        fold16(x) <= 0xffff,
    decreases x,
{
    if x >= 0x10000 {
        let y = x % 0x10000 + x / 0x10000;
        lemma_fold16_mod(y);
        assert(x == 0x10000 * (x / 0x10000) + x % 0x10000) by {
            vstd::arithmetic::div_mod::lemma_fundamental_div_mod(x, 0x10000);
        }
        assert(x - y == 0xffff * (x / 0x10000));
        vstd::arithmetic::div_mod::lemma_mod_multiples_vanish(x / 0x10000, y, 0xffff);
        assert(x % 0xffff == (0xffff * (x / 0x10000) + y) % 0xffff);
    }
}

proof fn lemma_word_sum_bound(s: Seq<u8>, n: nat)
    requires
        2 * n <= s.len() + 1,
    ensures
        0 <= word_sum(s, n) <= 0xffff * n,
    decreases n,
{
    if n > 0 {
        lemma_word_sum_bound(s, (n - 1) as nat);
    }
}

/// Two sequences whose first `n` words agree but for word `k`, where they
/// differ by `d`, have word sums that differ by `d`.
proof fn lemma_word_sum_change(s: Seq<u8>, t: Seq<u8>, n: nat, k: int, d: int)
    requires
        s.len() == t.len(),
        2 * n <= s.len() + 1,
        0 <= k,
        forall|j: int| 0 <= j < n && j != k ==> #[trigger] word_at(s, 2 * j) == word_at(t, 2 * j),
        k < n ==> word_at(t, 2 * k) == word_at(s, 2 * k) + d,
    ensures
        word_sum(t, n) == word_sum(s, n) + if k < n {
            d
        } else {
            0
        },
    decreases n,
{
    if n > 0 {
        lemma_word_sum_change(s, t, (n - 1) as nat, k, d);
    }
}

proof fn lemma_word_sum_same(a: Seq<u8>, b: Seq<u8>, n: nat)
    requires
        forall|j: int| 0 <= j < n ==> #[trigger] word_at(a, 2 * j) == word_at(b, 2 * j),
    ensures
        word_sum(a, n) == word_sum(b, n),
    decreases n,
{
    if n > 0 {
        lemma_word_sum_same(a, b, (n - 1) as nat);
    }
}

/// The big-endian bytes of `v`.
pub open spec fn be16_bytes(v: u16) -> Seq<u8> {
    seq![(v / 256) as u8, (v % 256) as u8]
}

/// Appending to a buffer of even length its own checksum, big-endian,
/// gives a buffer whose checksum is zero.
pub proof fn lemma_checksum_append(d: Seq<u8>)
    requires
        d.len() % 2 == 0,
        d.len() + 2 <= 0x1ffff,
    ensures
        checksum_spec(d + be16_bytes(checksum_spec(d))) == 0,
{
    let k = (d.len() / 2) as int;
    let s = d + seq![0u8, 0u8];
    assert forall|j: int| 0 <= j < k implies #[trigger] word_at(s, 2 * j) == word_at(d, 2 * j) by {
        assert(s[2 * j] == d[2 * j] && s[2 * j + 1] == d[2 * j + 1]);
    }
    lemma_word_sum_same(s, d, k as nat);
    assert(word_at(s, 2 * k) == 0);
    assert(word_sum(s, (k + 1) as nat) == word_sum(s, k as nat) + word_at(s, 2 * k));
    assert(((s.len() + 1) / 2) as nat == (k + 1) as nat);
    assert(((d.len() + 1) / 2) as nat == k as nat);
    assert(checksum_spec(s) == checksum_spec(d));
    lemma_checksum_insert(s, k);
    assert(put_be16(s, 2 * k, checksum_spec(s)) =~= d + be16_bytes(checksum_spec(d)));
}

/// Putting the checksum of a buffer, taken with its checksum field at word
/// `k` zero, into that field makes the checksum of the buffer zero: such a
/// buffer passes a checksum test.
pub proof fn lemma_checksum_insert(s: Seq<u8>, k: int)
    requires
        s.len() <= 0x1ffff,
        0 <= 2 * k && 2 * k + 1 < s.len(),
        s[2 * k] == 0 && s[2 * k + 1] == 0,
    ensures
        checksum_spec(put_be16(s, 2 * k, checksum_spec(s))) == 0,
{
    let n = ((s.len() + 1) / 2) as nat;
    let c = checksum_spec(s);
    let t = put_be16(s, 2 * k, c);
    lemma_word_sum_bound(s, n);
    let w = word_sum(s, n);
    assert(w < 0x1_0000_0000) by (nonlinear_arith)
        requires
            w <= 0xffff * n,
            n <= 0x10000,
    ;
    vstd::arithmetic::div_mod::lemma_small_mod(w as nat, 0x1_0000_0000);
    lemma_fold16_mod(w);
    assert(c == 0xffff - fold16(w));
    assert forall|j: int| 0 <= j < n && j != k implies #[trigger] word_at(s, 2 * j) == word_at(t, 2 * j) by {}
    assert(word_at(t, 2 * k) == word_at(s, 2 * k) + c);
    lemma_word_sum_change(s, t, n, k, c as int);
    let w2 = word_sum(t, n);
    assert(w2 == w + c);
    assert(w2 < 0x1_0000_0000);
    vstd::arithmetic::div_mod::lemma_small_mod(w2 as nat, 0x1_0000_0000);
    lemma_fold16_mod(w2);
    assert(w2 > 0);
    assert(w2 % 0xffff == 0) by {
        assert(w2 == (w - fold16(w)) + 0xffff);
        assert((w - fold16(w)) % 0xffff == 0) by {
            vstd::arithmetic::div_mod::lemma_sub_mod_noop(w, fold16(w), 0xffff);
            vstd::arithmetic::div_mod::lemma_mod_self_0(0xffff);
        }
        vstd::arithmetic::div_mod::lemma_add_mod_noop(w - fold16(w), 0xffff, 0xffff);
        vstd::arithmetic::div_mod::lemma_mod_self_0(0xffff);
    }
    assert(fold16(w2) == 0xffff);
}

/// Equal bytes make equal addresses.
pub proof fn lemma_mac_eq(a: MacAddress, b: Seq<u8>)
    requires
        b.len() == 6,
    ensures
        (a.0[0] == b[0] && a.0[1] == b[1] && a.0[2] == b[2] && a.0[3] == b[3] && a.0[4] == b[4] && a.0[5]
            == b[5]) <==> a.0@ == b,
{
    if a.0[0] == b[0] && a.0[1] == b[1] && a.0[2] == b[2] && a.0[3] == b[3] && a.0[4] == b[4] && a.0[5] == b[5] {
        assert(a.0@ =~= b);
    }
}

pub proof fn lemma_ip_eq(a: Ipv4Address, b: Seq<u8>)
    requires
        b.len() == 4,
    ensures
        (a.0[0] == b[0] && a.0[1] == b[1] && a.0[2] == b[2] && a.0[3] == b[3]) <==> a.0@ == b,
{
    if a.0[0] == b[0] && a.0[1] == b[1] && a.0[2] == b[2] && a.0[3] == b[3] {
        assert(a.0@ =~= b);
    }
}

/// Why `arp::parse` refuses `s`, if it does.
pub open spec fn arp_error(s: Seq<u8>) -> Option<NetError> {
    if s.len() < arp::ARP_PACKET_LEN {
        Some(NetError::Truncated)
    } else if !arp::arp_supported(s) {
        Some(NetError::Unsupported)
    } else {
        None
    }
}

/// Why `parse_echo` refuses `s`, if it does.
pub open spec fn echo_error(s: Seq<u8>) -> Option<NetError> {
    if s.len() < 8 {
        Some(NetError::Truncated)
    } else if checksum_spec(s) != 0 {
        Some(NetError::Invalid)
    } else {
        None
    }
}

/// Why `udp::parse` refuses `s`, if it does.
pub open spec fn udp_error(s: Seq<u8>) -> Option<NetError> {
    if s.len() < udp::UDP_HEADER_LEN || be16_at(s, 4) < udp::UDP_HEADER_LEN || be16_at(s, 4) > s.len() {
        Some(NetError::Truncated)
    } else {
        None
    }
}

/// The payload of an IPv4 packet that `ipv4::parse` accepts.
pub open spec fn ip_payload(p: Seq<u8>) -> Seq<u8> {
    p.subrange(ipv4::ihl_of(p), be16_at(p, 2) as int)
}

/// What `classify_ethernet` answers for frame `s`.
pub open spec fn classify_spec(s: Seq<u8>) -> Result<PacketKind, NetError> {
    if s.len() < ethernet::ETH_HEADER_LEN {
        Err(NetError::Truncated)
    } else {
        let payload = s.skip(14);
        let et = be16_at(s, 12);
        if et == ethernet::ETH_TYPE_ARP {
            match arp_error(payload) {
                Some(e) => Err(e),
                None => Ok(PacketKind::Arp),
            }
        } else if et == ethernet::ETH_TYPE_IPV4 {
            match ipv4::ipv4_error(payload) {
                Some(e) => Err(e),
                None => {
                    let proto = payload[9];
                    let body = ip_payload(payload);
                    if proto == ipv4::IP_PROTO_ICMP {
                        match echo_error(body) {
                            Some(e) => Err(e),
                            None => Ok(PacketKind::Icmp),
                        }
                    } else if proto == ipv4::IP_PROTO_UDP {
                        match udp_error(body) {
                            Some(e) => Err(e),
                            None => Ok(PacketKind::Udp),
                        }
                    } else if proto == ipv4::IP_PROTO_TCP {
                        Ok(PacketKind::Tcp)
                    } else {
                        Ok(PacketKind::Unsupported)
                    }
                },
            }
        } else {
            Ok(PacketKind::Unsupported)
        }
    }
}

/// Sorts a frame by what it carries, checking each layer on the way down.
pub fn classify_ethernet(bytes: &[u8]) -> (r: Result<PacketKind, NetError>)
    ensures
        r == classify_spec(bytes@),
{
    let frame = ethernet::parse(bytes)?;
    if frame.ethertype == ethernet::ETH_TYPE_ARP {
        let _ = arp::parse(frame.payload)?;
        Ok(PacketKind::Arp)
    } else if frame.ethertype == ethernet::ETH_TYPE_IPV4 {
        let packet = ipv4::parse(frame.payload)?;
        if packet.protocol == ipv4::IP_PROTO_ICMP {
            let _ = parse_echo(packet.payload)?;
            Ok(PacketKind::Icmp)
        } else if packet.protocol == ipv4::IP_PROTO_UDP {
            let _ = udp::parse(packet.payload)?;
            Ok(PacketKind::Udp)
        } else if packet.protocol == ipv4::IP_PROTO_TCP {
            Ok(PacketKind::Tcp)
        } else {
            Ok(PacketKind::Unsupported)
        }
    } else {
        Ok(PacketKind::Unsupported)
    }
}

/// The counter a received frame adds one to, besides the receive counters.
#[derive(Clone, Copy, PartialEq, Eq, Structural, Debug)]
pub enum RxCounter {
    Nothing,
    RxError,
    Arp,
    Echo,
    Udp,
    Tcp,
}

pub open spec fn bump(s: NetStats, c: RxCounter) -> NetStats {
    match c {
        RxCounter::Nothing => s,
        RxCounter::RxError => NetStats { rx_errors: wrap_inc(s.rx_errors), ..s },
        RxCounter::Arp => NetStats { arp_packets: wrap_inc(s.arp_packets), ..s },
        RxCounter::Echo => NetStats { icmp_packets: wrap_inc(s.icmp_packets), ..s },
        RxCounter::Udp => NetStats { udp_packets: wrap_inc(s.udp_packets), ..s },
        RxCounter::Tcp => NetStats { tcp_packets: wrap_inc(s.tcp_packets), ..s },
    }
}

pub open spec fn broadcast_mac() -> Seq<u8> {
    seq![0xffu8, 0xff, 0xff, 0xff, 0xff, 0xff]
}

pub open spec fn broadcast_ip() -> Seq<u8> {
    seq![255u8, 255, 255, 255]
}

pub open spec fn zero_ip() -> Seq<u8> {
    seq![0u8, 0, 0, 0]
}

/// The ARP reply frame to request `req` from an interface with `mac` and `ip`.
pub open spec fn arp_reply_frame(mac: Seq<u8>, ip: Seq<u8>, req: Seq<u8>) -> Seq<u8> {
    mac_at(req, 8) + mac + seq![8u8, 6u8] + seq![0u8, 1, 8, 0, 6, 4, 0, 2] + mac + ip + mac_at(req, 8) + ip_at(
        req,
        14,
    )
}

/// The echo reply frame to the echo request in `frame`.
pub open spec fn echo_reply_frame(mac: Seq<u8>, ip: Seq<u8>, frame: Seq<u8>) -> Seq<u8> {
    let p = frame.skip(14);
    let body = ip_payload(p);
    mac_at(frame, 6) + mac + seq![8u8, 0u8] + header_bytes_spec(
        ip,
        ip_at(p, 12),
        1,
        (20 + body.len()) as u16,
        be16_at(p, 4),
    ) + reply_spec(be16_at(body, 4), be16_at(body, 6), body.skip(8))
}

/// A reply to an ICMP echo request goes back to where the request came
/// from: to the sender's hardware address from the interface's, with the
/// interface's address as its IPv4 source and the request's IPv4 source as
/// its destination, carrying an ICMP echo reply.
pub proof fn lemma_echo_reply_addressed(s: Seq<u8>, mac: Seq<u8>, ip: Seq<u8>)
    requires
        mac.len() == 6,
        ip.len() == 4,
    ensures
        be16_at(s, 12) == ethernet::ETH_TYPE_IPV4 ==> (rx_verdict(s, mac, ip).2 matches Some(reply) ==> {
            &&& reply.subrange(0, 6) == s.subrange(6, 12)
            &&& reply.subrange(6, 12) == mac
            &&& reply.subrange(26, 30) == ip
            &&& reply.subrange(30, 34) == s.subrange(26, 30)
            &&& reply[23] == 1
            &&& reply[34] == 0
            &&& reply.subrange(38, 42) == ip_payload(s.skip(14)).subrange(4, 8)
            &&& reply.skip(42) == ip_payload(s.skip(14)).skip(8)
        }),
{
    if be16_at(s, 12) == ethernet::ETH_TYPE_IPV4 && rx_verdict(s, mac, ip).2 is Some {
        let p = s.skip(14);
        let body = ip_payload(p);
        assert(s.len() >= 14 + 20);
        let h = header_bytes_spec(ip, ip_at(p, 12), 1, (20 + body.len()) as u16, be16_at(p, 4));
        assert(h.len() == 20);
        assert(h.subrange(12, 16) =~= ip);
        assert(h.subrange(16, 20) =~= p.subrange(12, 16));
        assert(h[9] == 1);
        let rep = reply_spec(be16_at(body, 4), be16_at(body, 6), body.skip(8));
        assert(rep[0] == 0);
        let reply = echo_reply_frame(mac, ip, s);
        assert(reply == mac_at(s, 6) + mac + seq![8u8, 0u8] + h + rep);
        assert(reply.subrange(0, 6) =~= s.subrange(6, 12));
        assert(reply.subrange(6, 12) =~= mac);
        assert(reply.subrange(26, 30) =~= h.subrange(12, 16));
        assert(reply.subrange(30, 34) =~= h.subrange(16, 20));
        assert(p.subrange(12, 16) =~= s.subrange(26, 30));
        assert(reply[23] == h[9]);
        assert(reply[34] == rep[0]);
        assert(body.len() >= 8);
        let id = be16_at(body, 4);
        let sq = be16_at(body, 6);
        assert((id / 256) as u8 == body[4] && (id % 256) as u8 == body[5]) by (nonlinear_arith)
            requires
                id == (body[4] * 256 + body[5]) as u16,
                0 <= body[4] < 256,
                0 <= body[5] < 256,
        ;
        assert((sq / 256) as u8 == body[6] && (sq % 256) as u8 == body[7]) by (nonlinear_arith)
            requires
                sq == (body[6] * 256 + body[7]) as u16,
                0 <= body[6] < 256,
                0 <= body[7] < 256,
        ;
        assert(rep.subrange(4, 8) =~= body.subrange(4, 8));
        assert(rep.skip(8) =~= body.skip(8));
        assert(reply.subrange(38, 42) =~= rep.subrange(4, 8));
        assert(reply.skip(42) =~= rep.skip(8));
    }
}

/// A reply to an ARP request for the interface's address goes back to the
/// asker: to its hardware address, from the interface's, naming the
/// interface's hardware and IPv4 addresses as the sender and the asker as
/// the target.
pub proof fn lemma_arp_reply_addressed(s: Seq<u8>, mac: Seq<u8>, ip: Seq<u8>)
    requires
        mac.len() == 6,
        ip.len() == 4,
    ensures
        be16_at(s, 12) == ethernet::ETH_TYPE_ARP ==> (rx_verdict(s, mac, ip).2 matches Some(reply) ==> {
            &&& reply.subrange(0, 6) == s.subrange(22, 28)
            &&& reply.subrange(6, 12) == mac
            &&& reply.subrange(22, 28) == mac
            &&& reply.subrange(28, 32) == ip
            &&& reply.subrange(32, 38) == s.subrange(22, 28)
            &&& reply.subrange(38, 42) == s.subrange(28, 32)
            &&& be16_at(reply, 20) == arp::ARP_REPLY
        }),
{
    if be16_at(s, 12) == ethernet::ETH_TYPE_ARP && rx_verdict(s, mac, ip).2 is Some {
        let req = s.skip(14);
        assert(req.len() >= 28);
        let reply = arp_reply_frame(mac, ip, req);
        assert(reply.subrange(0, 6) =~= s.subrange(22, 28));
        assert(reply.subrange(6, 12) =~= mac);
        assert(reply.subrange(22, 28) =~= mac);
        assert(reply.subrange(28, 32) =~= ip);
        assert(reply.subrange(32, 38) =~= s.subrange(22, 28));
        assert(reply.subrange(38, 42) =~= s.subrange(28, 32));
    }
}

/// How an interface with `mac` and `ip` treats ARP packet `p`.
pub open spec fn arp_verdict(p: Seq<u8>, mac: Seq<u8>, ip: Seq<u8>) -> (
    Result<RxDisposition, NetError>,
    RxCounter,
    Option<Seq<u8>>,
) {
    match arp_error(p) {
        Some(e) => (Err(e), RxCounter::Arp, None),
        None => if be16_at(p, 6) != arp::ARP_REQUEST || ip_at(p, 24) != ip || ip == zero_ip() {
            (Ok(RxDisposition::Consumed), RxCounter::Arp, None)
        } else {
            (Ok(RxDisposition::QueuedReply), RxCounter::Arp, Some(arp_reply_frame(mac, ip, p)))
        },
    }
}

/// How an interface with `mac` and `ip` treats the echo message in the
/// accepted IPv4 packet of frame `s`.
pub open spec fn echo_verdict(s: Seq<u8>, mac: Seq<u8>, ip: Seq<u8>) -> (
    Result<RxDisposition, NetError>,
    RxCounter,
    Option<Seq<u8>>,
) {
    let body = ip_payload(s.skip(14));
    match echo_error(body) {
        Some(e) => (Err(e), RxCounter::Echo, None),
        None => if body[0] != 8 || body[1] != 0 {
            (Ok(RxDisposition::Consumed), RxCounter::Echo, None)
        } else if 34 + body.len() > MAX_PACKET_SIZE {
            (Err(NetError::TooLarge), RxCounter::Echo, None)
        } else {
            (Ok(RxDisposition::QueuedReply), RxCounter::Echo, Some(echo_reply_frame(mac, ip, s)))
        },
    }
}

/// How an interface with `mac` and `ip` treats the IPv4 packet of frame `s`.
pub open spec fn ipv4_verdict(s: Seq<u8>, mac: Seq<u8>, ip: Seq<u8>) -> (
    Result<RxDisposition, NetError>,
    RxCounter,
    Option<Seq<u8>>,
) {
    let p = s.skip(14);
    match ipv4::ipv4_error(p) {
        Some(e) => (Err(e), RxCounter::Nothing, None),
        None => if ip_at(p, 16) != ip && ip_at(p, 16) != broadcast_ip() {
            (Ok(RxDisposition::Ignored), RxCounter::Nothing, None)
        } else {
            let proto = p[9];
            if proto == 1 {
                echo_verdict(s, mac, ip)
            } else if proto == 17 {
                match udp_error(ip_payload(p)) {
                    Some(e) => (Err(e), RxCounter::Nothing, None),
                    None => (Ok(RxDisposition::Consumed), RxCounter::Udp, None),
                }
            } else if proto == 6 {
                (Ok(RxDisposition::Consumed), RxCounter::Tcp, None)
            } else {
                (Ok(RxDisposition::Ignored), RxCounter::Nothing, None)
            }
        },
    }
}

/// How an interface with `mac` and `ip` treats frame `s`: the answer, the
/// counter it bumps and the reply it sends, if any.
pub open spec fn rx_verdict(s: Seq<u8>, mac: Seq<u8>, ip: Seq<u8>) -> (
    Result<RxDisposition, NetError>,
    RxCounter,
    Option<Seq<u8>>,
) {
    if s.len() < 14 {
        (Err(NetError::Truncated), RxCounter::RxError, None)
    } else if mac_at(s, 0) != mac && mac_at(s, 0) != broadcast_mac() {
        (Ok(RxDisposition::Ignored), RxCounter::Nothing, None)
    } else if be16_at(s, 12) == ethernet::ETH_TYPE_ARP {
        arp_verdict(s.skip(14), mac, ip)
    } else if be16_at(s, 12) == ethernet::ETH_TYPE_IPV4 {
        ipv4_verdict(s, mac, ip)
    } else {
        (Ok(RxDisposition::Ignored), RxCounter::Nothing, None)
    }
}

/// Interface `n` is `o` after counting `c` and queueing `reply`; `r` is
/// `answer`, or `QueueFull` when the reply found the transmit ring full.
pub open spec fn finished(
    o: NetInterface,
    n: NetInterface,
    c: RxCounter,
    reply: Option<Seq<u8>>,
    answer: Result<RxDisposition, NetError>,
    r: Result<RxDisposition, NetError>,
) -> bool {
    let s = bump(o.stats, c);
    match reply {
        None => n == (NetInterface { stats: s, ..o }) && r == answer,
        Some(f) => if o.tx_len < TX_QUEUE_LEN {
            &&& n == (NetInterface {
                tx: n.tx,
                tx_len: (o.tx_len + 1) as usize,
                stats: NetStats {
                    tx_packets: wrap_inc(s.tx_packets),
                    tx_bytes: wrap_add(s.tx_bytes, f.len() as u64),
                    ..s
                },
                ..o
            })
            &&& n.tx_queue() == o.tx_queue().push(f)
            &&& r == answer
        } else {
            n == (NetInterface { stats: NetStats { tx_dropped: wrap_inc(s.tx_dropped), ..s }, ..o }) && r
                == Err::<RxDisposition, NetError>(NetError::QueueFull)
        },
    }
}

/// Answers an ARP packet for interface `index`: a request for its address
/// gets a reply queued for sending.
fn handle_arp(table: &mut NetInterfaces, index: usize, payload: &[u8]) -> (r: Result<RxDisposition, NetError>)
    requires
        old(table).wf(),
        old(table).live(index),
    ensures
        final(table).wf(),
        final(table).others_same(old(table), index),
        ({
            let o = old(table).iface(index);
            let v = arp_verdict(payload@, o.mac.0@, o.ipv4.0@);
            finished(o, final(table).iface(index), v.1, v.2, v.0, r)
        }),
{
    let mac = table.ifaces[index].mac;
    let ip = table.ifaces[index].ipv4;
    record_arp(table, index);
    let packet = match arp::parse(payload) {
        Ok(p) => p,
        Err(e) => {
            return Err(e);
        },
    };
    proof {
        lemma_ip_eq(packet.target_ip, ip.0@);
        lemma_ip_eq(ip, zero_ip());
    }
    if packet.operation != arp::ARP_REQUEST || packet.target_ip != ip || ip == Ipv4Address::zero() {
        return Ok(RxDisposition::Consumed);
    }
    let mut out = PacketBuffer::empty();
    let _ = out.resize(42);
    let reply = ArpPacket {
        operation: arp::ARP_REPLY,
        sender_mac: mac,
        sender_ip: ip,
        target_mac: packet.sender_mac,
        target_ip: packet.sender_ip,
    };
    {
        let slice = out.as_mut_slice();
        let rest = match ethernet::write_header(slice, packet.sender_mac, mac, ethernet::ETH_TYPE_ARP) {
            Ok(rest) => rest,
            Err(e) => {
                return Err(e);
            },
        };
        let _ = arp::write(rest, reply);
    }
    assert(out.data() =~= arp_reply_frame(mac.0@, ip.0@, payload@));
    queue_tx(table, index, out.as_slice())?;
    Ok(RxDisposition::QueuedReply)
}

/// Answers an echo request carried in frame `frame` whose IPv4 packet
/// `packet` was accepted: the reply goes back to the sender.
fn handle_echo(
    table: &mut NetInterfaces,
    index: usize,
    frame: &[u8],
    peer_mac: MacAddress,
    packet: ipv4::Ipv4Packet<'_>,
) -> (r: Result<RxDisposition, NetError>)
    requires
        old(table).wf(),
        old(table).live(index),
        frame@.len() >= 14,
        ipv4::ipv4_error(frame@.skip(14)) == None::<NetError>,
        peer_mac.0@ == mac_at(frame@, 6),
        packet.src.0@ == ip_at(frame@.skip(14), 12),
        packet.identification == be16_at(frame@.skip(14), 4),
        packet.payload@ == ip_payload(frame@.skip(14)),
    ensures
        final(table).wf(),
        final(table).others_same(old(table), index),
        ({
            let o = old(table).iface(index);
            let v = echo_verdict(frame@, o.mac.0@, o.ipv4.0@);
            finished(o, final(table).iface(index), v.1, v.2, v.0, r)
        }),
{
    let mac = table.ifaces[index].mac;
    let ip = table.ifaces[index].ipv4;
    record_icmp(table, index);
    let echo = match parse_echo(packet.payload) {
        Ok(e) => e,
        Err(e) => {
            return Err(e);
        },
    };
    if echo.icmp_type != 8 || echo.code != 0 {
        return Ok(RxDisposition::Consumed);
    }
    let body_len = packet.payload.len();
    if body_len > MAX_PACKET_SIZE - 34 {
        return Err(NetError::TooLarge);
    }
    let total_len = 34 + body_len;
    let mut out = PacketBuffer::empty();
    let _ = out.resize(total_len);
    {
        let slice = out.as_mut_slice();
        let ip_part = match ethernet::write_header(slice, peer_mac, mac, ethernet::ETH_TYPE_IPV4) {
            Ok(rest) => rest,
            Err(e) => {
                return Err(e);
            },
        };
        let echo_part = match ipv4::write_header(
            ip_part,
            ip,
            packet.src,
            ipv4::IP_PROTO_ICMP,
            body_len,
            packet.identification,
        ) {
            Ok(rest) => rest,
            Err(e) => {
                return Err(e);
            },
        };
        let _ = write_echo_reply(echo_part, echo.identifier, echo.sequence, echo.payload);
    }
    assert(out.data() =~= echo_reply_frame(mac.0@, ip.0@, frame@));
    queue_tx(table, index, out.as_slice())?;
    Ok(RxDisposition::QueuedReply)
}

/// Handles the IPv4 packet of `frame` for interface `index`: echo requests
/// are answered, UDP and TCP counted, the rest ignored.
fn handle_ipv4(table: &mut NetInterfaces, index: usize, frame: &[u8], peer_mac: MacAddress, payload: &[u8]) -> (r:
    Result<RxDisposition, NetError>)
    requires
        old(table).wf(),
        old(table).live(index),
        frame@.len() >= 14,
        payload@ == frame@.skip(14),
        peer_mac.0@ == mac_at(frame@, 6),
    ensures
        final(table).wf(),
        final(table).others_same(old(table), index),
        ({
            let o = old(table).iface(index);
            let v = ipv4_verdict(frame@, o.mac.0@, o.ipv4.0@);
            finished(o, final(table).iface(index), v.1, v.2, v.0, r)
        }),
{
    let ip = table.ifaces[index].ipv4;
    let packet = match ipv4::parse(payload) {
        Ok(p) => p,
        Err(e) => {
            assert(table.iface(index) =~= (NetInterface { stats: bump(table.iface(index).stats, RxCounter::Nothing), ..table.iface(index) }));
            return Err(e);
        },
    };
    proof {
        lemma_ip_eq(packet.dst, ip.0@);
        lemma_ip_eq(packet.dst, broadcast_ip());
    }
    if packet.dst != ip && packet.dst != Ipv4Address::broadcast() {
        return Ok(RxDisposition::Ignored);
    }
    if packet.protocol == ipv4::IP_PROTO_ICMP {
        handle_echo(table, index, frame, peer_mac, packet)
    } else if packet.protocol == ipv4::IP_PROTO_UDP {
        let _ = udp::parse(packet.payload)?;
        record_udp(table, index);
        Ok(RxDisposition::Consumed)
    } else if packet.protocol == ipv4::IP_PROTO_TCP {
        record_tcp(table, index);
        Ok(RxDisposition::Consumed)
    } else {
        Ok(RxDisposition::Ignored)
    }
}

/// Interface `n` is `o` after the receive counters have counted `s` and the
/// receive ring has taken it if it fits and there is room.
pub open spec fn received(o: NetInterface, n: NetInterface, s: Seq<u8>) -> bool {
    let s1 = NetStats { rx_packets: wrap_inc(o.stats.rx_packets), rx_bytes: wrap_add(o.stats.rx_bytes, s.len() as u64), ..o.stats };
    if s.len() > MAX_PACKET_SIZE {
        n == (NetInterface { stats: s1, ..o })
    } else if o.rx_len >= RX_QUEUE_LEN {
        n == (NetInterface { stats: NetStats { rx_dropped: wrap_inc(s1.rx_dropped), ..s1 }, ..o })
    } else {
        &&& n == (NetInterface { rx: n.rx, rx_len: (o.rx_len + 1) as usize, stats: s1, ..o })
        &&& n.rx_queue() == o.rx_queue().push(s)
    }
}

/// Takes in frame `bytes` on interface `index`: counts it, keeps it on the
/// receive ring if there is room, and answers ARP requests for the
/// interface's address and echo requests to it.
pub fn handle_rx(table: &mut NetInterfaces, interface_index: usize, bytes: &[u8]) -> (r: Result<
    RxDisposition,
    NetError,
>)
    requires
        old(table).wf(),
    ensures
        final(table).wf(),
        !old(table).live(interface_index) ==> r == Err::<RxDisposition, NetError>(NetError::Invalid)
            && final(table).ifaces@ == old(table).ifaces@,
        old(table).live(interface_index) ==> ({
            let o = old(table).iface(interface_index);
            let v = rx_verdict(bytes@, o.mac.0@, o.ipv4.0@);
            exists|m: NetInterface|
                received(o, m, bytes@) && finished(m, final(table).iface(interface_index), v.1, v.2, v.0, r)
        }),
        final(table).others_same(old(table), interface_index),
{
    record_rx(table, interface_index, bytes.len());
    match push_rx(table, interface_index, bytes) {
        Err(NetError::QueueFull) => record_rx_drop(table, interface_index),
        _ => {},
    }
    let ghost m = table.iface(interface_index);
    assert(old(table).live(interface_index) ==> received(old(table).iface(interface_index), m, bytes@));
    let iface = match get(table, interface_index) {
        Some(i) => i,
        None => {
            return Err(NetError::Invalid);
        },
    };
    let mac = iface.mac;
    let frame = match ethernet::parse(bytes) {
        Ok(f) => f,
        Err(e) => {
            record_rx_error(table, interface_index);
            return Err(e);
        },
    };
    proof {
        lemma_mac_eq(frame.dst, mac.0@);
        lemma_mac_eq(frame.dst, broadcast_mac());
    }
    if frame.dst != mac && frame.dst != MacAddress::broadcast() {
        assert(table.iface(interface_index) =~= (NetInterface { stats: bump(m.stats, RxCounter::Nothing), ..m }));
        return Ok(RxDisposition::Ignored);
    }
    if frame.ethertype == ethernet::ETH_TYPE_ARP {
        handle_arp(table, interface_index, frame.payload)
    } else if frame.ethertype == ethernet::ETH_TYPE_IPV4 {
        handle_ipv4(table, interface_index, bytes, frame.src, frame.payload)
    } else {
        assert(table.iface(interface_index) =~= (NetInterface { stats: bump(m.stats, RxCounter::Nothing), ..m }));
        Ok(RxDisposition::Ignored)
    }
}

} // verus!
