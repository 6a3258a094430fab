//! Little-endian integers and CRC32 checksums, as the file formats use them.

use byteorder::{ByteOrder, LittleEndian, WriteBytesExt};
use vstd::bytes::{
    spec_u32_from_le_bytes, spec_u32_to_le_bytes, spec_u64_from_le_bytes, spec_u64_to_le_bytes,
};
use vstd::prelude::*;
use vstd::slice::slice_subrange;

verus! {

/// The CRC32 (IEEE) checksum of a byte string, as `crc32fast` computes it.
pub uninterp spec fn crc32(data: Seq<u8>) -> u32;

/// The `u32` that the four bytes at `pos` encode, little-endian.
pub open spec fn u32_at(data: Seq<u8>, pos: int) -> u32 {
    spec_u32_from_le_bytes(data.subrange(pos, pos + 4))
}

/// The `u64` that the eight bytes at `pos` encode, little-endian.
pub open spec fn u64_at(data: Seq<u8>, pos: int) -> u64 {
    spec_u64_from_le_bytes(data.subrange(pos, pos + 8))
}

/// Calls `crc32fast::hash`. The checksum is a function of the bytes alone;
/// the contract names it and claims nothing else of it.
#[verifier::external_body]
pub(crate) fn checksum(buf: &[u8]) -> (r: u32)
    ensures
        r == crc32(buf@),
{
    crc32fast::hash(buf)
}

/// Calls `byteorder::LittleEndian::read_u32`, which decodes the first four
/// bytes of `buf` and panics on a shorter one.
#[verifier::external_body]
pub(crate) fn decode_u32(buf: &[u8]) -> (r: u32)
    requires
        buf@.len() >= 4,
    ensures
        r == spec_u32_from_le_bytes(buf@.subrange(0, 4)),
{
    LittleEndian::read_u32(buf)
}

/// Calls `byteorder::LittleEndian::read_u64`, which decodes the first eight
/// bytes of `buf` and panics on a shorter one.
#[verifier::external_body]
pub(crate) fn decode_u64(buf: &[u8]) -> (r: u64)
    requires
        buf@.len() >= 8,
    ensures
        r == spec_u64_from_le_bytes(buf@.subrange(0, 8)),
{
    LittleEndian::read_u64(buf)
}

/// Calls `byteorder::WriteBytesExt::write_u32` on a `Vec<u8>`, which appends
/// the four little-endian bytes of `n`; writing to a vector cannot fail.
#[verifier::external_body]
pub(crate) fn push_u32(out: &mut Vec<u8>, n: u32)
    ensures
        final(out)@ == old(out)@ + spec_u32_to_le_bytes(n),
{
    let _ = out.write_u32::<LittleEndian>(n);
}

/// Calls `byteorder::WriteBytesExt::write_u64` on a `Vec<u8>`, which appends
/// the eight little-endian bytes of `n`; writing to a vector cannot fail.
#[verifier::external_body]
pub(crate) fn push_u64(out: &mut Vec<u8>, n: u64)
    ensures
        final(out)@ == old(out)@ + spec_u64_to_le_bytes(n),
{
    let _ = out.write_u64::<LittleEndian>(n);
}

/// Reads the little-endian `u32` at `pos`.
pub fn read_u32_at(data: &[u8], pos: usize) -> (r: u32)
    requires
        pos + 4 <= data@.len(),
    ensures
        r == u32_at(data@, pos as int),
{
    let len: usize = data.len();
    assert(pos + 4 <= len);
    let part: &[u8] = slice_subrange(data, pos, pos + 4);
    assert(part@.subrange(0, 4) == part@);
    decode_u32(part)
}

/// Reads the little-endian `u64` at `pos`.
pub fn read_u64_at(data: &[u8], pos: usize) -> (r: u64)
    requires
        pos + 8 <= data@.len(),
    ensures
        r == u64_at(data@, pos as int),
{
    let len: usize = data.len();
    assert(pos + 8 <= len);
    let part: &[u8] = slice_subrange(data, pos, pos + 8);
    assert(part@.subrange(0, 8) == part@);
    decode_u64(part)
}

/// Appends a byte string to `out`.
pub fn push_bytes(out: &mut Vec<u8>, data: &[u8])
    ensures
        final(out)@ == old(out)@ + data@,
{
    out.extend_from_slice(data);
    assert(out@ =~= old(out)@ + data@);
}

/// The checksum of the bytes of `data` from `from` up to `to`.
pub fn checksum_range(data: &[u8], from: usize, to: usize) -> (r: u32)
    requires
        from <= to <= data@.len(),
    ensures
        r == crc32(data@.subrange(from as int, to as int)),
{
    checksum(slice_subrange(data, from, to))
}

} // verus!
