use vstd::prelude::*;

use crate::kernel::net::{be16_at, put_be16, read_be16, write_be16, MacAddress, NetError};

verus! {

pub const ETH_HEADER_LEN: usize = 14;
pub const ETH_TYPE_IPV4: u16 = 0x0800;
pub const ETH_TYPE_ARP: u16 = 0x0806;

pub struct EthernetFrame<'a> {
    pub dst: MacAddress,
    pub src: MacAddress,
    pub ethertype: u16,
    pub payload: &'a [u8],
}

/// The six bytes of `s` from `at` as an address.
pub open spec fn mac_at(s: Seq<u8>, at: int) -> Seq<u8> {
    s.subrange(at, at + 6)
}

/// Reads the address in bytes `at..at + 6`.
pub fn read_mac(bytes: &[u8], at: usize) -> (r: MacAddress)
    requires
        at + 6 <= bytes@.len(),
    ensures
        r.0@ == mac_at(bytes@, at as int),
{
    let r = MacAddress([bytes[at], bytes[at + 1], bytes[at + 2], bytes[at + 3], bytes[at + 4], bytes[at + 5]]);
    assert(r.0@ =~= mac_at(bytes@, at as int));
    r
}

/// Writes `mac` into bytes `at..at + 6`.
pub fn write_mac(bytes: &mut [u8], at: usize, mac: MacAddress)
    requires
        at + 6 <= old(bytes)@.len(),
    ensures
        final(bytes)@ == old(bytes)@.subrange(0, at as int) + mac.0@ + old(bytes)@.subrange(
            at + 6,
            old(bytes)@.len() as int,
        ),
{
    crate::kernel::net::copy_into(bytes, at, mac.0.as_slice());
}

/// The header that `write_header` puts in front of the payload.
pub open spec fn header_bytes(dst: MacAddress, src: MacAddress, ethertype: u16) -> Seq<u8> {
    dst.0@ + src.0@ + seq![(ethertype / 256) as u8, (ethertype % 256) as u8]
}

/// Splits a frame into its header fields and payload; `Truncated` when it
/// is shorter than a header.
pub fn parse(bytes: &[u8]) -> (r: Result<EthernetFrame<'_>, NetError>)
    ensures
        bytes@.len() < ETH_HEADER_LEN ==> r is Err && r->Err_0 == NetError::Truncated,
        bytes@.len() >= ETH_HEADER_LEN ==> r is Ok && ({
            let f = r->Ok_0;
            &&& f.dst.0@ == mac_at(bytes@, 0)
            &&& f.src.0@ == mac_at(bytes@, 6)
            &&& f.ethertype == be16_at(bytes@, 12)
            &&& f.payload@ == bytes@.skip(ETH_HEADER_LEN as int)
        }),
{
    if bytes.len() < ETH_HEADER_LEN {
        return Err(NetError::Truncated);
    }
    Ok(EthernetFrame {
        dst: read_mac(bytes, 0),
        src: read_mac(bytes, 6),
        ethertype: read_be16(bytes, 12),
        payload: vstd::slice::slice_subrange(bytes, ETH_HEADER_LEN, bytes.len()),
    })
}

/// Writes a header for `dst`, `src` and `ethertype` and hands back the rest
/// of the buffer for the payload; `TooLarge` when the buffer cannot hold a header.
pub fn write_header(bytes: &mut [u8], dst: MacAddress, src: MacAddress, ethertype: u16) -> (r: Result<
    &mut [u8],
    NetError,
>)
    ensures
        old(bytes)@.len() < ETH_HEADER_LEN ==> r is Err && r->Err_0 == NetError::TooLarge && final(bytes)@ == old(
            bytes,
        )@,
        old(bytes)@.len() >= ETH_HEADER_LEN ==> r is Ok && r->Ok_0@ == old(bytes)@.skip(ETH_HEADER_LEN as int)
            && final(bytes)@ == header_bytes(dst, src, ethertype) + final(r->Ok_0)@,
{
    if bytes.len() < ETH_HEADER_LEN {
        return Err(NetError::TooLarge);
    }
    let ghost o = bytes@;
    write_mac(bytes, 0, dst);
    write_mac(bytes, 6, src);
    write_be16(bytes, 12, ethertype);
    let ghost h = bytes@;
    assert(h.subrange(0, ETH_HEADER_LEN as int) =~= header_bytes(dst, src, ethertype));
    assert(h.skip(ETH_HEADER_LEN as int) =~= o.skip(ETH_HEADER_LEN as int));
    let (_head, rest) = bytes.split_at_mut(ETH_HEADER_LEN);
    Ok(rest)
}

/// A frame written by `write_header` parses back to the same header fields
/// and the payload that follows.
pub proof fn lemma_ethernet_roundtrip(dst: MacAddress, src: MacAddress, ethertype: u16, payload: Seq<u8>)
    ensures
        ({
            let b = header_bytes(dst, src, ethertype) + payload;
            &&& b.len() >= ETH_HEADER_LEN
            &&& mac_at(b, 0) == dst.0@
            &&& mac_at(b, 6) == src.0@
            &&& be16_at(b, 12) == ethertype
            &&& b.skip(ETH_HEADER_LEN as int) == payload
        }),
{
    let b = header_bytes(dst, src, ethertype) + payload;
    assert(mac_at(b, 0) =~= dst.0@);
    assert(mac_at(b, 6) =~= src.0@);
    assert(b.skip(ETH_HEADER_LEN as int) =~= payload);
}

} // verus!
