use vstd::prelude::*;

use crate::kernel::net::{
    be16_at, checksum16, checksum_spec, copy_into, lemma_checksum_insert, put_be16, read_be16, write_be16,
    zero_range, NetError,
};

verus! {

pub const ICMP_ECHO_REPLY: u8 = 0;
pub const ICMP_ECHO_REQUEST: u8 = 8;

pub struct IcmpEcho<'a> {
    pub icmp_type: u8,
    pub code: u8,
    pub identifier: u16,
    pub sequence: u16,
    pub payload: &'a [u8],
}

/// Reads an echo message: `Truncated` below eight bytes, `Invalid` when
/// the checksum over the whole message fails.
pub fn parse_echo(bytes: &[u8]) -> (r: Result<IcmpEcho<'_>, NetError>)
    ensures
        bytes@.len() < 8 ==> r is Err && r->Err_0 == NetError::Truncated,
        bytes@.len() >= 8 && checksum_spec(bytes@) != 0 ==> r is Err && r->Err_0 == NetError::Invalid,
        bytes@.len() >= 8 && checksum_spec(bytes@) == 0 ==> r is Ok && ({
            let e = r->Ok_0;
            &&& e.icmp_type == bytes@[0]
            &&& e.code == bytes@[1]
            &&& e.identifier == be16_at(bytes@, 4)
            &&& e.sequence == be16_at(bytes@, 6)
            &&& e.payload@ == bytes@.skip(8)
        }),
{
    if bytes.len() < 8 {
        return Err(NetError::Truncated);
    }
    if checksum16(bytes) != 0 {
        return Err(NetError::Invalid);
    }
    Ok(IcmpEcho {
        icmp_type: bytes[0],
        code: bytes[1],
        identifier: read_be16(bytes, 4),
        sequence: read_be16(bytes, 6),
        payload: vstd::slice::slice_subrange(bytes, 8, bytes.len()),
    })
}

/// An echo reply before its checksum goes in.
pub open spec fn raw_reply(identifier: u16, sequence: u16, payload: Seq<u8>) -> Seq<u8> {
    seq![
        ICMP_ECHO_REPLY,
        0u8,
        0,
        0,
        (identifier / 256) as u8,
        (identifier % 256) as u8,
        (sequence / 256) as u8,
        (sequence % 256) as u8,
    ] + payload
}

/// The finished echo reply.
pub open spec fn reply_spec(identifier: u16, sequence: u16, payload: Seq<u8>) -> Seq<u8> {
    let m = raw_reply(identifier, sequence, payload);
    put_be16(m, 2, checksum_spec(m))
}

/// Writes an echo reply carrying `payload` and returns its length;
/// `TooLarge` when the buffer cannot hold it.
pub fn write_echo_reply(bytes: &mut [u8], identifier: u16, sequence: u16, payload: &[u8]) -> (r: Result<
    usize,
    NetError,
>)
    requires
        payload@.len() + 8 <= usize::MAX,
    ensures
        ({
            let len = payload@.len() + 8;
            if old(bytes)@.len() < len {
                r == Err::<usize, NetError>(NetError::TooLarge) && final(bytes)@ == old(bytes)@
            } else {
                r == Ok::<usize, NetError>(len as usize) && final(bytes)@ == reply_spec(identifier, sequence, payload@)
                    + old(bytes)@.skip(len as int)
            }
        }),
{
    let len = 8 + payload.len();
    if bytes.len() < len {
        return Err(NetError::TooLarge);
    }
    let ghost o = bytes@;
    zero_range(bytes, 0, len);
    bytes[0] = ICMP_ECHO_REPLY;
    bytes[1] = 0;
    write_be16(bytes, 4, identifier);
    write_be16(bytes, 6, sequence);
    copy_into(bytes, 8, payload);
    let ghost m = raw_reply(identifier, sequence, payload@);
    assert(bytes@.subrange(0, len as int) =~= m);
    let checksum = checksum16(vstd::slice::slice_subrange(bytes, 0, len));
    write_be16(bytes, 2, checksum);
    assert(bytes@ =~= reply_spec(identifier, sequence, payload@) + o.skip(len as int));
    Ok(len)
}

/// An echo reply written by `write_echo_reply` passes the checks of
/// `parse_echo` and reads back its identifier, sequence and payload.
pub proof fn lemma_echo_roundtrip(identifier: u16, sequence: u16, payload: Seq<u8>)
    requires
        payload.len() + 8 <= 0x1ffff,
    ensures
        ({
            let m = reply_spec(identifier, sequence, payload);
            &&& m.len() >= 8
            &&& checksum_spec(m) == 0
            &&& m[0] == ICMP_ECHO_REPLY && m[1] == 0
            &&& be16_at(m, 4) == identifier
            &&& be16_at(m, 6) == sequence
            &&& m.skip(8) == payload
        }),
{
    let m = raw_reply(identifier, sequence, payload);
    lemma_checksum_insert(m, 1);
    assert(reply_spec(identifier, sequence, payload).skip(8) =~= payload);
}

} // verus!
