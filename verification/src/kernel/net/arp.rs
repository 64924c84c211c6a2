use vstd::prelude::*;

use crate::kernel::net::ethernet::{mac_at, read_mac, write_mac};
use crate::kernel::net::{be16_at, read_be16, write_be16, Ipv4Address, MacAddress, NetError};

verus! {

pub const ARP_PACKET_LEN: usize = 28;
pub const ARP_HTYPE_ETHERNET: u16 = 1;
pub const ARP_PTYPE_IPV4: u16 = 0x0800;
pub const ARP_REQUEST: u16 = 1;
pub const ARP_REPLY: u16 = 2;

#[derive(Clone, Copy, Debug)]
pub struct ArpPacket {
    pub operation: u16,
    pub sender_mac: MacAddress,
    pub sender_ip: Ipv4Address,
    pub target_mac: MacAddress,
    pub target_ip: Ipv4Address,
}

/// The four bytes of `s` from `at` as an address.
pub open spec fn ip_at(s: Seq<u8>, at: int) -> Seq<u8> {
    s.subrange(at, at + 4)
}

/// Reads the address in bytes `at..at + 4`.
pub fn read_ip(bytes: &[u8], at: usize) -> (r: Ipv4Address)
    requires
        at + 4 <= bytes@.len(),
    ensures
        r.0@ == ip_at(bytes@, at as int),
{
    let r = Ipv4Address([bytes[at], bytes[at + 1], bytes[at + 2], bytes[at + 3]]);
    assert(r.0@ =~= ip_at(bytes@, at as int));
    r
}

/// Writes `ip` into bytes `at..at + 4`.
pub fn write_ip(bytes: &mut [u8], at: usize, ip: Ipv4Address)
    requires
        at + 4 <= old(bytes)@.len(),
    ensures
        final(bytes)@ == old(bytes)@.subrange(0, at as int) + ip.0@ + old(bytes)@.subrange(
            at + 4,
            old(bytes)@.len() as int,
        ),
{
    crate::kernel::net::copy_into(bytes, at, ip.0.as_slice());
}

/// An Ethernet/IPv4 ARP packet: the header fields match and the addresses
/// have the lengths of those kinds.
pub open spec fn arp_supported(s: Seq<u8>) -> bool {
    be16_at(s, 0) == ARP_HTYPE_ETHERNET && be16_at(s, 2) == ARP_PTYPE_IPV4 && s[4] == 6 && s[5] == 4
}

/// The packet that bytes `s` hold.
pub open spec fn arp_fields(p: ArpPacket, s: Seq<u8>) -> bool {
    &&& p.operation == be16_at(s, 6)
    &&& p.sender_mac.0@ == mac_at(s, 8)
    &&& p.sender_ip.0@ == ip_at(s, 14)
    &&& p.target_mac.0@ == mac_at(s, 18)
    &&& p.target_ip.0@ == ip_at(s, 24)
}

/// Reads an ARP packet: `Truncated` when shorter than one, `Unsupported`
/// unless it is for Ethernet and IPv4.
pub fn parse(bytes: &[u8]) -> (r: Result<ArpPacket, NetError>)
    ensures
        bytes@.len() < ARP_PACKET_LEN ==> r == Err::<ArpPacket, NetError>(NetError::Truncated),
        bytes@.len() >= ARP_PACKET_LEN && !arp_supported(bytes@) ==> r == Err::<ArpPacket, NetError>(
            NetError::Unsupported,
        ),
        bytes@.len() >= ARP_PACKET_LEN && arp_supported(bytes@) ==> r is Ok && arp_fields(r->Ok_0, bytes@),
{
    if bytes.len() < ARP_PACKET_LEN {
        return Err(NetError::Truncated);
    }
    let htype = read_be16(bytes, 0);
    let ptype = read_be16(bytes, 2);
    let hlen = bytes[4];
    let plen = bytes[5];
    if htype != ARP_HTYPE_ETHERNET || ptype != ARP_PTYPE_IPV4 || hlen != 6 || plen != 4 {
        return Err(NetError::Unsupported);
    }
    Ok(ArpPacket {
        operation: read_be16(bytes, 6),
        sender_mac: read_mac(bytes, 8),
        sender_ip: read_ip(bytes, 14),
        target_mac: read_mac(bytes, 18),
        target_ip: read_ip(bytes, 24),
    })
}

/// The bytes `write` puts down for `p`.
pub open spec fn arp_bytes(p: ArpPacket) -> Seq<u8> {
    seq![0u8, 1, 8, 0, 6, 4, (p.operation / 256) as u8, (p.operation % 256) as u8] + p.sender_mac.0@
        + p.sender_ip.0@ + p.target_mac.0@ + p.target_ip.0@
}

/// Writes `packet` at the start of `bytes` and returns its length;
/// `TooLarge` when the buffer cannot hold it.
pub fn write(bytes: &mut [u8], packet: ArpPacket) -> (r: Result<usize, NetError>)
    ensures
        old(bytes)@.len() < ARP_PACKET_LEN ==> r == Err::<usize, NetError>(NetError::TooLarge) && final(bytes)@
            == old(bytes)@,
        old(bytes)@.len() >= ARP_PACKET_LEN ==> r == Ok::<usize, NetError>(ARP_PACKET_LEN) && final(bytes)@
            == arp_bytes(packet) + old(bytes)@.skip(ARP_PACKET_LEN as int),
{
    if bytes.len() < ARP_PACKET_LEN {
        return Err(NetError::TooLarge);
    }
    let ghost o = bytes@;
    write_be16(bytes, 0, ARP_HTYPE_ETHERNET);
    write_be16(bytes, 2, ARP_PTYPE_IPV4);
    bytes[4] = 6;
    bytes[5] = 4;
    write_be16(bytes, 6, packet.operation);
    write_mac(bytes, 8, packet.sender_mac);
    write_ip(bytes, 14, packet.sender_ip);
    write_mac(bytes, 18, packet.target_mac);
    write_ip(bytes, 24, packet.target_ip);
    assert(bytes@ =~= arp_bytes(packet) + o.skip(ARP_PACKET_LEN as int));
    Ok(ARP_PACKET_LEN)
}

/// A packet written by `write` parses back to itself.
pub proof fn lemma_arp_roundtrip(p: ArpPacket, rest: Seq<u8>)
    ensures
        arp_supported(arp_bytes(p) + rest),
        arp_fields(p, arp_bytes(p) + rest),
        (arp_bytes(p) + rest).len() >= ARP_PACKET_LEN,
{
    let b = arp_bytes(p) + rest;
    assert(mac_at(b, 8) =~= p.sender_mac.0@);
    assert(ip_at(b, 14) =~= p.sender_ip.0@);
    assert(mac_at(b, 18) =~= p.target_mac.0@);
    assert(ip_at(b, 24) =~= p.target_ip.0@);
}

} // verus!
