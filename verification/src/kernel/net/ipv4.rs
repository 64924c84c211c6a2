use vstd::prelude::*;

use crate::kernel::net::arp::{ip_at, read_ip, write_ip};
use crate::kernel::net::{
    be16_at, checksum16, checksum_spec, lemma_checksum_insert, put_be16, read_be16, write_be16, zero_range,
    Ipv4Address, NetError,
};

verus! {

pub const IPV4_HEADER_LEN: usize = 20;
pub const IP_PROTO_ICMP: u8 = 1;
pub const IP_PROTO_TCP: u8 = 6;
pub const IP_PROTO_UDP: u8 = 17;

pub struct Ipv4Packet<'a> {
    pub src: Ipv4Address,
    pub dst: Ipv4Address,
    pub protocol: u8,
    pub ttl: u8,
    pub identification: u16,
    pub payload: &'a [u8],
}

/// The header length that the first byte of `s` gives, in bytes.
pub open spec fn ihl_of(s: Seq<u8>) -> int {
    (s[0] % 16) * 4
}

/// How `parse` judges `s`: `None` for a packet it accepts, else the error.
pub open spec fn ipv4_error(s: Seq<u8>) -> Option<NetError> {
    if s.len() < IPV4_HEADER_LEN {
        Some(NetError::Truncated)
    } else if s[0] / 16 != 4 || ihl_of(s) < IPV4_HEADER_LEN || s.len() < ihl_of(s) {
        Some(NetError::Invalid)
    } else if be16_at(s, 2) < ihl_of(s) || be16_at(s, 2) > s.len() {
        Some(NetError::Truncated)
    } else if checksum_spec(s.subrange(0, ihl_of(s))) != 0 {
        Some(NetError::Invalid)
    } else {
        None
    }
}

/// Reads an IPv4 packet, checking version, header length, total length and
/// header checksum; the payload ends where the total length says.
pub fn parse(bytes: &[u8]) -> (r: Result<Ipv4Packet<'_>, NetError>)
    ensures
        match ipv4_error(bytes@) {
            Some(e) => r is Err && r->Err_0 == e,
            None => r is Ok && ({
                let p = r->Ok_0;
                &&& p.src.0@ == ip_at(bytes@, 12)
                &&& p.dst.0@ == ip_at(bytes@, 16)
                &&& p.protocol == bytes@[9]
                &&& p.ttl == bytes@[8]
                &&& p.identification == be16_at(bytes@, 4)
                &&& p.payload@ == bytes@.subrange(ihl_of(bytes@), be16_at(bytes@, 2) as int)
            }),
        },
{
    if bytes.len() < IPV4_HEADER_LEN {
        return Err(NetError::Truncated);
    }
    let version = bytes[0] / 16;
    let ihl = (bytes[0] % 16) as usize * 4;
    if version != 4 || ihl < IPV4_HEADER_LEN || bytes.len() < ihl {
        return Err(NetError::Invalid);
    }
    let total_len = read_be16(bytes, 2) as usize;
    if total_len < ihl || total_len > bytes.len() {
        return Err(NetError::Truncated);
    }
    if checksum16(vstd::slice::slice_subrange(bytes, 0, ihl)) != 0 {
        return Err(NetError::Invalid);
    }
    Ok(Ipv4Packet {
        src: read_ip(bytes, 12),
        dst: read_ip(bytes, 16),
        protocol: bytes[9],
        ttl: bytes[8],
        identification: read_be16(bytes, 4),
        payload: vstd::slice::slice_subrange(bytes, ihl, total_len),
    })
}

/// The header `write_header` lays down before its checksum goes in.
pub open spec fn raw_header(
    src: Ipv4Address,
    dst: Ipv4Address,
    protocol: u8,
    total_len: u16,
    identification: u16,
) -> Seq<u8> {
    raw_header_bytes(src.0@, dst.0@, protocol, total_len, identification)
}

/// The raw header for source and destination addresses given as bytes.
pub open spec fn raw_header_bytes(
    src: Seq<u8>,
    dst: Seq<u8>,
    protocol: u8,
    total_len: u16,
    identification: u16,
) -> Seq<u8> {
    seq![
        0x45u8,
        0,
        (total_len / 256) as u8,
        (total_len % 256) as u8,
        (identification / 256) as u8,
        (identification % 256) as u8,
        0,
        0,
        64,
        protocol,
        0,
        0,
    ] + src + dst
}

/// The finished header for addresses given as bytes.
pub open spec fn header_bytes_spec(
    src: Seq<u8>,
    dst: Seq<u8>,
    protocol: u8,
    total_len: u16,
    identification: u16,
) -> Seq<u8> {
    let h = raw_header_bytes(src, dst, protocol, total_len, identification);
    put_be16(h, 10, checksum_spec(h))
}

/// The finished header: the raw header with its checksum in bytes 10 and 11.
pub open spec fn header_spec(
    src: Ipv4Address,
    dst: Ipv4Address,
    protocol: u8,
    total_len: u16,
    identification: u16,
) -> Seq<u8> {
    let h = raw_header(src, dst, protocol, total_len, identification);
    put_be16(h, 10, checksum_spec(h))
}

/// Writes a header for a payload of `payload_len` bytes and hands back the
/// room for that payload; `TooLarge` when the buffer or the 16-bit total
/// length cannot hold header and payload.
pub fn write_header(
    bytes: &mut [u8],
    src: Ipv4Address,
    dst: Ipv4Address,
    protocol: u8,
    payload_len: usize,
    identification: u16,
) -> (r: Result<&mut [u8], NetError>)
    requires
        payload_len + IPV4_HEADER_LEN <= usize::MAX,
    ensures
        ({
            let total = payload_len + IPV4_HEADER_LEN;
            if old(bytes)@.len() < total || total > u16::MAX {
                r is Err && r->Err_0 == NetError::TooLarge && final(bytes)@ == old(bytes)@
            } else {
                &&& r is Ok
                &&& r->Ok_0@ == old(bytes)@.subrange(IPV4_HEADER_LEN as int, total)
                &&& final(bytes)@ == header_spec(src, dst, protocol, total as u16, identification)
                    + final(r->Ok_0)@ + old(bytes)@.skip(total)
            }
        }),
{
    let total_len = IPV4_HEADER_LEN + payload_len;
    if bytes.len() < total_len || total_len > 0xffff {
        return Err(NetError::TooLarge);
    }
    let ghost o = bytes@;
    zero_range(bytes, 0, IPV4_HEADER_LEN);
    bytes[0] = 0x45;
    bytes[1] = 0;
    write_be16(bytes, 2, total_len as u16);
    write_be16(bytes, 4, identification);
    write_be16(bytes, 6, 0);
    bytes[8] = 64;
    bytes[9] = protocol;
    write_ip(bytes, 12, src);
    write_ip(bytes, 16, dst);
    let ghost h = raw_header(src, dst, protocol, total_len as u16, identification);
    assert(bytes@.subrange(0, IPV4_HEADER_LEN as int) =~= h);
    let checksum = checksum16(vstd::slice::slice_subrange(bytes, 0, IPV4_HEADER_LEN));
    write_be16(bytes, 10, checksum);
    assert(bytes@.subrange(0, IPV4_HEADER_LEN as int) =~= header_spec(
        src,
        dst,
        protocol,
        total_len as u16,
        identification,
    ));
    assert(bytes@.skip(IPV4_HEADER_LEN as int) =~= o.skip(IPV4_HEADER_LEN as int));
    let (_head, rest) = bytes.split_at_mut(IPV4_HEADER_LEN);
    let (payload, _tail) = rest.split_at_mut(payload_len);
    assert(o.skip(IPV4_HEADER_LEN as int).subrange(0, payload_len as int) =~= o.subrange(
        IPV4_HEADER_LEN as int,
        total_len as int,
    ));
    assert(o.skip(IPV4_HEADER_LEN as int).skip(payload_len as int) =~= o.skip(total_len as int));
    Ok(payload)
}

/// A packet made of a header written by `write_header`, its payload and any
/// trailing bytes passes every check of `parse` and reads back the header
/// fields and exactly that payload.
pub proof fn lemma_ipv4_roundtrip(
    src: Ipv4Address,
    dst: Ipv4Address,
    protocol: u8,
    identification: u16,
    payload: Seq<u8>,
    rest: Seq<u8>,
)
    requires
        payload.len() + IPV4_HEADER_LEN <= u16::MAX,
    ensures
        ({
            let total = payload.len() + IPV4_HEADER_LEN;
            let b = header_spec(src, dst, protocol, total as u16, identification) + payload + rest;
            &&& ipv4_error(b) == None::<NetError>
            &&& ip_at(b, 12) == src.0@
            &&& ip_at(b, 16) == dst.0@
            &&& b[9] == protocol
            &&& be16_at(b, 4) == identification
            &&& b.subrange(ihl_of(b), be16_at(b, 2) as int) == payload
        }),
{
    let total = payload.len() + IPV4_HEADER_LEN;
    let h = raw_header(src, dst, protocol, total as u16, identification);
    lemma_checksum_insert(h, 5);
    let hs = header_spec(src, dst, protocol, total as u16, identification);
    let b = hs + payload + rest;
    assert(b.subrange(0, 20) =~= hs);
    assert(ihl_of(b) == 20);
    assert(be16_at(b, 2) == total);
    assert(ip_at(b, 12) =~= src.0@);
    assert(ip_at(b, 16) =~= dst.0@);
    assert(b.subrange(20, total as int) =~= payload);
}

} // verus!
