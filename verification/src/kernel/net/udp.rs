use vstd::prelude::*;

use crate::kernel::net::{
    be16_at, checksum16, checksum_spec, copy_into, put_be16, read_be16, write_be16, zero_range, Ipv4Address,
    NetError, MAX_PACKET_SIZE,
};

verus! {

pub const UDP_HEADER_LEN: usize = 8;

pub struct UdpPacket<'a> {
    pub src_port: u16,
    pub dst_port: u16,
    pub payload: &'a [u8],
}

/// Reads a datagram: `Truncated` below a header or when its length field
/// is shorter than a header or longer than the bytes.
pub fn parse(bytes: &[u8]) -> (r: Result<UdpPacket<'_>, NetError>)
    ensures
        bytes@.len() < UDP_HEADER_LEN || be16_at(bytes@, 4) < UDP_HEADER_LEN || be16_at(bytes@, 4) > bytes@.len()
            ==> r is Err && r->Err_0 == NetError::Truncated,
        !(bytes@.len() < UDP_HEADER_LEN || be16_at(bytes@, 4) < UDP_HEADER_LEN || be16_at(bytes@, 4)
            > bytes@.len()) ==> r is Ok && ({
            let u = r->Ok_0;
            &&& u.src_port == be16_at(bytes@, 0)
            &&& u.dst_port == be16_at(bytes@, 2)
            &&& u.payload@ == bytes@.subrange(UDP_HEADER_LEN as int, be16_at(bytes@, 4) as int)
        }),
{
    if bytes.len() < UDP_HEADER_LEN {
        return Err(NetError::Truncated);
    }
    let len = read_be16(bytes, 4) as usize;
    if len < UDP_HEADER_LEN || len > bytes.len() {
        return Err(NetError::Truncated);
    }
    Ok(UdpPacket {
        src_port: read_be16(bytes, 0),
        dst_port: read_be16(bytes, 2),
        payload: vstd::slice::slice_subrange(bytes, UDP_HEADER_LEN, len),
    })
}

/// The pseudo header and datagram the UDP checksum is taken over.
pub open spec fn pseudo_bytes(src: Ipv4Address, dst: Ipv4Address, udp: Seq<u8>) -> Seq<u8> {
    src.0@ + dst.0@ + seq![0u8, 17, (udp.len() / 256) as u8, (udp.len() % 256) as u8] + udp
}

/// The UDP checksum, in which 0 is sent as 0xffff.
pub open spec fn udp_checksum_spec(src: Ipv4Address, dst: Ipv4Address, udp: Seq<u8>) -> u16 {
    let c = checksum_spec(pseudo_bytes(src, dst, udp));
    if c == 0 {
        0xffff
    } else {
        c
    }
}

fn udp_checksum(src: Ipv4Address, dst: Ipv4Address, udp: &[u8]) -> (r: u16)
    requires
        udp@.len() <= MAX_PACKET_SIZE,
    ensures
        r == udp_checksum_spec(src, dst, udp@),
{
    let mut pseudo: Vec<u8> = crate::kernel::process::filled_vec(0u8, 12 + MAX_PACKET_SIZE);
    let n = udp.len();
    copy_into(pseudo.as_mut_slice(), 0, src.0.as_slice());
    copy_into(pseudo.as_mut_slice(), 4, dst.0.as_slice());
    pseudo.set(8, 0);
    pseudo.set(9, 17);
    write_be16(pseudo.as_mut_slice(), 10, n as u16);
    copy_into(pseudo.as_mut_slice(), 12, udp);
    assert(pseudo@.subrange(0, 12 + n) =~= pseudo_bytes(src, dst, udp@));
    let checksum = checksum16(vstd::slice::slice_subrange(pseudo.as_slice(), 0, 12 + n));
    if checksum == 0 {
        0xffff
    } else {
        checksum
    }
}

/// The datagram `write` lays down before its checksum goes in.
pub open spec fn raw_datagram(src_port: u16, dst_port: u16, payload: Seq<u8>) -> Seq<u8> {
    let len = payload.len() + UDP_HEADER_LEN;
    seq![
        (src_port / 256) as u8,
        (src_port % 256) as u8,
        (dst_port / 256) as u8,
        (dst_port % 256) as u8,
        (len / 256) as u8,
        (len % 256) as u8,
        0,
        0,
    ] + payload
}

/// Writes a datagram from `src_port` to `dst_port` carrying `payload`, with
/// its checksum over the pseudo header of `src` and `dst`, and returns its
/// length; `TooLarge` when the buffer or the 16-bit length cannot hold it.
pub fn write(
    bytes: &mut [u8],
    src: Ipv4Address,
    dst: Ipv4Address,
    src_port: u16,
    dst_port: u16,
    payload: &[u8],
) -> (r: Result<usize, NetError>)
    requires
        payload@.len() + UDP_HEADER_LEN <= MAX_PACKET_SIZE || old(bytes)@.len() < payload@.len()
            + UDP_HEADER_LEN,
    ensures
        ({
            let len = payload@.len() + UDP_HEADER_LEN;
            if old(bytes)@.len() < len || len > u16::MAX {
                r == Err::<usize, NetError>(NetError::TooLarge) && final(bytes)@ == old(bytes)@
            } else {
                let d = raw_datagram(src_port, dst_port, payload@);
                &&& r == Ok::<usize, NetError>(len as usize)
                &&& final(bytes)@ == put_be16(d, 6, udp_checksum_spec(src, dst, d)) + old(bytes)@.skip(len as int)
            }
        }),
{
    if bytes.len() < payload.len() || bytes.len() - payload.len() < UDP_HEADER_LEN {
        return Err(NetError::TooLarge);
    }
    let len = UDP_HEADER_LEN + payload.len();
    if len > 0xffff {
        return Err(NetError::TooLarge);
    }
    let ghost o = bytes@;
    zero_range(bytes, 0, len);
    write_be16(bytes, 0, src_port);
    write_be16(bytes, 2, dst_port);
    write_be16(bytes, 4, len as u16);
    copy_into(bytes, 8, payload);
    let ghost d = raw_datagram(src_port, dst_port, payload@);
    assert(bytes@.subrange(0, len as int) =~= d);
    let checksum = udp_checksum(src, dst, vstd::slice::slice_subrange(bytes, 0, len));
    write_be16(bytes, 6, checksum);
    assert(bytes@ =~= put_be16(d, 6, udp_checksum_spec(src, dst, d)) + o.skip(len as int));
    Ok(len)
}

} // verus!
