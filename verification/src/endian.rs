//! Little-endian integers, read and written by the `byteorder` crate.
use vstd::prelude::*;
use byteorder::{ByteOrder, LittleEndian};

verus! {

/// Byte `k` of `v`, the lowest byte being byte 0.
pub open spec fn byte_of(v: u64, k: int) -> u8 {
    ((v >> ((8 * k) as u64)) & 0xff) as u8
}

/// The first `n` bytes of `v`, lowest first.
pub open spec fn le_bytes(v: u64, n: nat) -> Seq<u8> {
    Seq::new(n, |k: int| byte_of(v, k))
}

/// The number whose four bytes, lowest first, are the first four of `s`.
pub open spec fn le_u32(s: Seq<u8>) -> u32 {
    (s[0] as u32) | ((s[1] as u32) << 8) | ((s[2] as u32) << 16) | ((s[3] as u32) << 24)
}

/// The number whose six bytes, lowest first, are the first six of `s`.
pub open spec fn le_u48(s: Seq<u8>) -> u64 {
    (s[0] as u64) | ((s[1] as u64) << 8) | ((s[2] as u64) << 16) | ((s[3] as u64) << 24) | ((
    s[4] as u64) << 32) | ((s[5] as u64) << 40)
}

/// The number whose eight bytes, lowest first, are the first eight of `s`.
pub open spec fn le_u64(s: Seq<u8>) -> u64 {
    le_u48(s) | ((s[6] as u64) << 48) | ((s[7] as u64) << 56)
}

/// Calls `byteorder::LittleEndian::read_u32`, which reads the first four bytes
/// of the slice as a little-endian number and panics on a shorter slice. Not
/// proved: that the result is `le_u32` of those bytes.
#[verifier::external_body]
pub(crate) fn read_u32_le(buf: &[u8]) -> (n: u32)
    requires
        buf@.len() >= 4,
    ensures
        n == le_u32(buf@),
{
    LittleEndian::read_u32(buf)
}

/// Calls `byteorder::LittleEndian::read_u64`, which reads the first eight bytes
/// of the slice as a little-endian number and panics on a shorter slice. Not
/// proved: that the result is `le_u64` of those bytes.
#[verifier::external_body]
pub(crate) fn read_u64_le(buf: &[u8]) -> (n: u64)
    requires
        buf@.len() >= 8,
    ensures
        n == le_u64(buf@),
{
    LittleEndian::read_u64(buf)
}

/// Calls `byteorder::LittleEndian::write_u32` on a buffer of four bytes, which
/// it fills with the bytes of `n`, lowest first. Not proved: that these are
/// the bytes that come back.
#[verifier::external_body]
pub(crate) fn u32_to_le(n: u32) -> (bytes: [u8; 4])
    ensures
        bytes@ == le_bytes(n as u64, 4),
{
    let mut bytes = [0u8; 4];
    LittleEndian::write_u32(&mut bytes, n);
    bytes
}

/// Calls `byteorder::LittleEndian::write_u64` on a buffer of eight bytes, which
/// it fills with the bytes of `n`, lowest first. Not proved: that these are
/// the bytes that come back.
#[verifier::external_body]
pub(crate) fn u64_to_le(n: u64) -> (bytes: [u8; 8])
    ensures
        bytes@ == le_bytes(n, 8),
{
    let mut bytes = [0u8; 8];
    LittleEndian::write_u64(&mut bytes, n);
    bytes
}

/// Reading gives back what was written, for four, six and eight bytes.
pub proof fn lemma_le_round_trip(v: u64)
    ensures
        v <= u32::MAX ==> le_u32(le_bytes(v, 4)) == v,
        v >> 48 == 0 ==> le_u48(le_bytes(v, 6)) == v,
        le_u64(le_bytes(v, 8)) == v,
{
    let b0 = byte_of(v, 0);
    let b1 = byte_of(v, 1);
    let b2 = byte_of(v, 2);
    let b3 = byte_of(v, 3);
    let b4 = byte_of(v, 4);
    let b5 = byte_of(v, 5);
    let b6 = byte_of(v, 6);
    let b7 = byte_of(v, 7);
    assert((v <= 0xffff_ffff ==> ((b0 as u32) | ((b1 as u32) << 8) | ((b2 as u32) << 16) | ((
    b3 as u32) << 24)) == v) && (v >> 48 == 0 ==> ((b0 as u64) | ((b1 as u64) << 8) | ((b2 as u64)
        << 16) | ((b3 as u64) << 24) | ((b4 as u64) << 32) | ((b5 as u64) << 40)) == v) && (((
    b0 as u64) | ((b1 as u64) << 8) | ((b2 as u64) << 16) | ((b3 as u64) << 24) | ((b4 as u64)
        << 32) | ((b5 as u64) << 40)) | ((b6 as u64) << 48) | ((b7 as u64) << 56)) == v)
        by (bit_vector)
        requires
            b0 == ((v >> 0) & 0xff) as u8,
            b1 == ((v >> 8) & 0xff) as u8,
            b2 == ((v >> 16) & 0xff) as u8,
            b3 == ((v >> 24) & 0xff) as u8,
            b4 == ((v >> 32) & 0xff) as u8,
            b5 == ((v >> 40) & 0xff) as u8,
            b6 == ((v >> 48) & 0xff) as u8,
            b7 == ((v >> 56) & 0xff) as u8,
    ;
}

} // verus!
