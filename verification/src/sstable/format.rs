//! The footer of a table, in its three versions, and the errors of the
//! table format.
//!
//! - v1, magic `SST1`, 12 bytes: `index_offset:u64 | magic:u32`
//! - v2, magic `SST2`, 20 bytes: `bloom_offset:u64 | index_offset:u64 | magic:u32`
//! - v3, magic `SST3`, 28 bytes:
//!   `max_seq:u64 | bloom_offset:u64 | index_offset:u64 | magic:u32`
//!
//! The version is told by the last four bytes of the file.

use crate::bloom::BloomError;
use crate::codec::{push_u32, push_u64, read_u32_at, read_u64_at, u32_at, u64_at};
use vstd::bytes::{
    lemma_auto_spec_u32_to_from_le_bytes, lemma_auto_spec_u64_to_from_le_bytes,
    spec_u32_to_le_bytes, spec_u64_to_le_bytes,
};
use vstd::prelude::*;
use vstd::string::StringExecFns;

verus! {

/// The magic of v1 tables, ASCII "SST1".
pub const SSTABLE_MAGIC_V1: u32 = 0x5353_5431;

/// The magic of v2 tables, ASCII "SST2".
pub const SSTABLE_MAGIC_V2: u32 = 0x5353_5432;

/// The magic of v3 tables, ASCII "SST3".
pub const SSTABLE_MAGIC_V3: u32 = 0x5353_5433;

/// The size of the v1 footer in bytes.
pub const FOOTER_BYTES_V1: u64 = 12;

/// The size of the v2 footer in bytes.
pub const FOOTER_BYTES_V2: u64 = 20;

/// The size of the v3 footer in bytes.
pub const FOOTER_BYTES_V3: u64 = 28;

/// The magic of the oldest format.
pub const SSTABLE_MAGIC: u32 = SSTABLE_MAGIC_V1;

/// The size of the smallest footer.
pub const FOOTER_BYTES: u64 = FOOTER_BYTES_V1;

/// The longest key that a reader accepts: 64 KiB.
pub const MAX_KEY_BYTES: usize = 65_536;

/// The longest value that a reader accepts: 10 MiB.
pub const MAX_VALUE_BYTES: usize = 10_485_760;

/// What can be wrong with a table, or with what is to be written as one.
#[derive(Debug, Clone, Copy, PartialEq, Eq, Structural)]
pub enum SstError {
    /// The file is shorter than the footer of its version.
    TooSmall,
    /// The last four bytes are no known magic.
    UnknownMagic(u32),
    /// The footer's index offset lies outside the file.
    InvalidIndexOffset,
    /// The file ends inside a field.
    UnexpectedEof,
    /// The bloom filter cannot be deserialized.
    Bloom(BloomError),
    /// The bloom filter's probes fall outside its bit vector.
    CorruptBloom,
    /// An index entry declares a key longer than [`MAX_KEY_BYTES`].
    CorruptIndex,
    /// A data record declares a key longer than [`MAX_KEY_BYTES`] or a value
    /// longer than [`MAX_VALUE_BYTES`].
    CorruptData,
    /// The record that the index points to holds another key.
    KeyMismatch,
    /// A data record does not match its checksum.
    ChecksumMismatch,
    /// There is no entry to write: an empty table is refused.
    Empty,
    /// A key, a value or the bloom filter is too long for a `u32` length.
    TooLarge,
}

impl SstError {
    /// What the error says.
    pub open spec fn message(self) -> Seq<char> {
        match self {
            SstError::TooSmall => "sstable file too small"@,
            SstError::UnknownMagic(magic) => "unknown SSTable magic"@,
            SstError::InvalidIndexOffset => "invalid index_offset"@,
            SstError::UnexpectedEof => "sstable: unexpected end of file"@,
            SstError::Bloom(e) => e.message(),
            SstError::CorruptBloom => "corrupt bloom filter: a probe falls outside the bits"@,
            SstError::CorruptIndex => "corrupt index: key_len exceeds maximum"@,
            SstError::CorruptData => "corrupt data: length exceeds maximum"@,
            SstError::KeyMismatch => "index pointed to mismatching key at offset"@,
            SstError::ChecksumMismatch => "CRC32 mismatch (data corruption)"@,
            SstError::Empty => "refusing to write an empty SSTable (no entries)"@,
            SstError::TooLarge => "sstable: a length does not fit the format"@,
        }
    }

    /// What the error says.
    pub fn to_string(&self) -> (r: String)
        ensures
            r@ == self.message(),
    {
        match self {
            SstError::TooSmall => String::from_str("sstable file too small"),
            SstError::UnknownMagic(magic) => String::from_str("unknown SSTable magic"),
            SstError::InvalidIndexOffset => String::from_str("invalid index_offset"),
            SstError::UnexpectedEof => String::from_str("sstable: unexpected end of file"),
            SstError::Bloom(e) => e.to_string(),
            SstError::CorruptBloom => String::from_str(
                "corrupt bloom filter: a probe falls outside the bits",
            ),
            SstError::CorruptIndex => String::from_str("corrupt index: key_len exceeds maximum"),
            SstError::CorruptData => String::from_str("corrupt data: length exceeds maximum"),
            SstError::KeyMismatch => String::from_str("index pointed to mismatching key at offset"),
            SstError::ChecksumMismatch => String::from_str("CRC32 mismatch (data corruption)"),
            SstError::Empty => String::from_str("refusing to write an empty SSTable (no entries)"),
            SstError::TooLarge => String::from_str("sstable: a length does not fit the format"),
        }
    }
}

/// A parsed footer.
#[derive(Debug, Clone, Copy, PartialEq, Eq, Structural)]
pub enum Footer {
    /// v1: no bloom filter.
    V1 { index_offset: u64 },
    /// v2: with a bloom filter.
    V2 { bloom_offset: u64, index_offset: u64 },
    /// v3: with a checksum per record and the largest sequence number.
    V3 { max_seq: u64, bloom_offset: u64, index_offset: u64 },
}

impl Footer {
    /// The offset of the index section.
    pub open spec fn spec_index_offset(&self) -> u64 {
        match *self {
            Footer::V1 { index_offset } => index_offset,
            Footer::V2 { bloom_offset, index_offset } => index_offset,
            Footer::V3 { max_seq, bloom_offset, index_offset } => index_offset,
        }
    }

    /// The offset of the bloom section, from v2 on.
    pub open spec fn spec_bloom_offset(&self) -> Option<u64> {
        match *self {
            Footer::V1 { index_offset } => None,
            Footer::V2 { bloom_offset, index_offset } => Some(bloom_offset),
            Footer::V3 { max_seq, bloom_offset, index_offset } => Some(bloom_offset),
        }
    }

    /// The largest sequence number in the table, in v3.
    pub open spec fn spec_max_seq(&self) -> Option<u64> {
        match *self {
            Footer::V3 { max_seq, bloom_offset, index_offset } => Some(max_seq),
            _ => None,
        }
    }

    /// The size of the footer in bytes.
    pub open spec fn spec_footer_size(&self) -> u64 {
        match *self {
            Footer::V1 { .. } => FOOTER_BYTES_V1,
            Footer::V2 { .. } => FOOTER_BYTES_V2,
            Footer::V3 { .. } => FOOTER_BYTES_V3,
        }
    }

    /// The bytes of the footer.
    pub open spec fn encoded(self) -> Seq<u8> {
        match self {
            Footer::V1 { index_offset } => spec_u64_to_le_bytes(index_offset)
                + spec_u32_to_le_bytes(SSTABLE_MAGIC_V1),
            Footer::V2 { bloom_offset, index_offset } => spec_u64_to_le_bytes(bloom_offset)
                + spec_u64_to_le_bytes(index_offset) + spec_u32_to_le_bytes(SSTABLE_MAGIC_V2),
            Footer::V3 { max_seq, bloom_offset, index_offset } => spec_u64_to_le_bytes(max_seq)
                + spec_u64_to_le_bytes(bloom_offset) + spec_u64_to_le_bytes(index_offset)
                + spec_u32_to_le_bytes(SSTABLE_MAGIC_V3),
        }
    }

    /// The offset of the index section.
    #[verifier::when_used_as_spec(spec_index_offset)]
    pub fn index_offset(&self) -> (r: u64)
        ensures
            r == self.spec_index_offset(),
    {
        match self {
            Footer::V1 { index_offset } => *index_offset,
            Footer::V2 { index_offset, .. } => *index_offset,
            Footer::V3 { index_offset, .. } => *index_offset,
        }
    }

    /// The offset of the bloom section, from v2 on.
    #[verifier::when_used_as_spec(spec_bloom_offset)]
    pub fn bloom_offset(&self) -> (r: Option<u64>)
        ensures
            r == self.spec_bloom_offset(),
    {
        match self {
            Footer::V1 { .. } => None,
            Footer::V2 { bloom_offset, .. } => Some(*bloom_offset),
            Footer::V3 { bloom_offset, .. } => Some(*bloom_offset),
        }
    }

    /// The largest sequence number in the table, which only v3 records.
    #[verifier::when_used_as_spec(spec_max_seq)]
    pub fn max_seq(&self) -> (r: Option<u64>)
        ensures
            r == self.spec_max_seq(),
    {
        match self {
            Footer::V1 { .. } => None,
            Footer::V2 { .. } => None,
            Footer::V3 { max_seq, .. } => Some(*max_seq),
        }
    }

    /// Whether the data records carry checksums: v3 alone.
    pub fn has_checksums(&self) -> (r: bool)
        ensures
            r == (*self is V3),
    {
        match self {
            Footer::V3 { .. } => true,
            _ => false,
        }
    }

    /// The magic of the footer's version.
    pub fn magic(&self) -> (r: u32)
        ensures
            r == (match *self {
                Footer::V1 { .. } => SSTABLE_MAGIC_V1,
                Footer::V2 { .. } => SSTABLE_MAGIC_V2,
                Footer::V3 { .. } => SSTABLE_MAGIC_V3,
            }),
    {
        match self {
            Footer::V1 { .. } => SSTABLE_MAGIC_V1,
            Footer::V2 { .. } => SSTABLE_MAGIC_V2,
            Footer::V3 { .. } => SSTABLE_MAGIC_V3,
        }
    }

    /// The size of the footer in bytes.
    #[verifier::when_used_as_spec(spec_footer_size)]
    pub fn footer_size(&self) -> (r: u64)
        ensures
            r == self.spec_footer_size(),
    {
        match self {
            Footer::V1 { .. } => FOOTER_BYTES_V1,
            Footer::V2 { .. } => FOOTER_BYTES_V2,
            Footer::V3 { .. } => FOOTER_BYTES_V3,
        }
    }
}

/// Where the v1 footer starts in a file of `filesize` bytes, or 0 for a file
/// shorter than that footer.
pub fn footer_pos(filesize: u64) -> (r: u64)
    ensures
        r == (if filesize < FOOTER_BYTES_V1 {
            0
        } else {
            filesize - FOOTER_BYTES_V1
        }),
{
    filesize.saturating_sub(FOOTER_BYTES_V1)
}

/// Appends a v1 footer to `w`.
pub fn write_footer(w: &mut Vec<u8>, index_offset: u64)
    ensures
        final(w)@ == old(w)@ + (Footer::V1 { index_offset }).encoded(),
{
    push_u64(w, index_offset);
    push_u32(w, SSTABLE_MAGIC_V1);
    assert(w@ =~= old(w)@ + (Footer::V1 { index_offset }).encoded());
}

/// Appends a v2 footer to `w`.
pub fn write_footer_v2(w: &mut Vec<u8>, bloom_offset: u64, index_offset: u64)
    ensures
        final(w)@ == old(w)@ + (Footer::V2 { bloom_offset, index_offset }).encoded(),
{
    push_u64(w, bloom_offset);
    push_u64(w, index_offset);
    push_u32(w, SSTABLE_MAGIC_V2);
    assert(w@ =~= old(w)@ + (Footer::V2 { bloom_offset, index_offset }).encoded());
}

/// Appends a v3 footer to `w`.
pub fn write_footer_v3(w: &mut Vec<u8>, max_seq: u64, bloom_offset: u64, index_offset: u64)
    ensures
        final(w)@ == old(w)@ + (Footer::V3 { max_seq, bloom_offset, index_offset }).encoded(),
{
    push_u64(w, max_seq);
    push_u64(w, bloom_offset);
    push_u64(w, index_offset);
    push_u32(w, SSTABLE_MAGIC_V3);
    assert(w@ =~= old(w)@ + (Footer::V3 { max_seq, bloom_offset, index_offset }).encoded());
}

/// The footer of a file: the magic in its last four bytes tells the version,
/// and the fields lie before it.
pub open spec fn parse_footer(data: Seq<u8>) -> Result<Footer, SstError> {
    let len = data.len() as int;
    if len < FOOTER_BYTES_V1 {
        Err(SstError::TooSmall)
    } else {
        let magic = u32_at(data, len - 4);
        if magic == SSTABLE_MAGIC_V3 {
            if len < FOOTER_BYTES_V3 {
                Err(SstError::TooSmall)
            } else {
                Ok(
                    Footer::V3 {
                        max_seq: u64_at(data, len - 28),
                        bloom_offset: u64_at(data, len - 20),
                        index_offset: u64_at(data, len - 12),
                    },
                )
            }
        } else if magic == SSTABLE_MAGIC_V2 {
            if len < FOOTER_BYTES_V2 {
                Err(SstError::TooSmall)
            } else {
                Ok(
                    Footer::V2 {
                        bloom_offset: u64_at(data, len - 20),
                        index_offset: u64_at(data, len - 12),
                    },
                )
            }
        } else if magic == SSTABLE_MAGIC_V1 {
            Ok(Footer::V1 { index_offset: u64_at(data, len - 12) })
        } else {
            Err(SstError::UnknownMagic(magic))
        }
    }
}

/// Reads the footer of a file, whatever its version.
pub fn read_footer_versioned(data: &[u8]) -> (r: Result<Footer, SstError>)
    ensures
        r == parse_footer(data@),
{
    let len: usize = data.len();
    if len < 12 {
        return Err(SstError::TooSmall);
    }
    let magic: u32 = read_u32_at(data, len - 4);
    if magic == SSTABLE_MAGIC_V3 {
        if len < 28 {
            return Err(SstError::TooSmall);
        }
        let max_seq: u64 = read_u64_at(data, len - 28);
        let bloom_offset: u64 = read_u64_at(data, len - 20);
        let index_offset: u64 = read_u64_at(data, len - 12);
        Ok(Footer::V3 { max_seq, bloom_offset, index_offset })
    } else if magic == SSTABLE_MAGIC_V2 {
        if len < 20 {
            return Err(SstError::TooSmall);
        }
        let bloom_offset: u64 = read_u64_at(data, len - 20);
        let index_offset: u64 = read_u64_at(data, len - 12);
        Ok(Footer::V2 { bloom_offset, index_offset })
    } else if magic == SSTABLE_MAGIC_V1 {
        let index_offset: u64 = read_u64_at(data, len - 12);
        Ok(Footer::V1 { index_offset })
    } else {
        Err(SstError::UnknownMagic(magic))
    }
}

/// Reads the last twelve bytes of a file as a v1 footer: the index offset
/// and the magic, whatever the magic is.
pub fn read_footer(data: &[u8]) -> (r: Result<(u64, u32), SstError>)
    ensures
        data@.len() < 12 ==> r == Err::<(u64, u32), SstError>(SstError::UnexpectedEof),
        data@.len() >= 12 ==> r == Ok::<(u64, u32), SstError>(
            (u64_at(data@, data@.len() - 12), u32_at(data@, data@.len() - 4)),
        ),
{
    let len: usize = data.len();
    if len < 12 {
        return Err(SstError::UnexpectedEof);
    }
    let index_offset: u64 = read_u64_at(data, len - 12);
    let magic: u32 = read_u32_at(data, len - 4);
    Ok((index_offset, magic))
}

/// A footer that was written is read back, whatever precedes it in the file.
pub proof fn lemma_footer_round_trip(head: Seq<u8>, footer: Footer)
    ensures
        parse_footer(head + footer.encoded()) == Ok::<Footer, SstError>(footer),
{
    lemma_auto_spec_u32_to_from_le_bytes();
    lemma_auto_spec_u64_to_from_le_bytes();
    let data = head + footer.encoded();
    let len = data.len() as int;
    match footer {
        Footer::V1 { index_offset } => {
            assert(data.subrange(len - 4, len) =~= spec_u32_to_le_bytes(SSTABLE_MAGIC_V1));
            assert(data.subrange(len - 12, len - 4) =~= spec_u64_to_le_bytes(index_offset));
        },
        Footer::V2 { bloom_offset, index_offset } => {
            assert(data.subrange(len - 4, len) =~= spec_u32_to_le_bytes(SSTABLE_MAGIC_V2));
            assert(data.subrange(len - 12, len - 4) =~= spec_u64_to_le_bytes(index_offset));
            assert(data.subrange(len - 20, len - 12) =~= spec_u64_to_le_bytes(bloom_offset));
        },
        Footer::V3 { max_seq, bloom_offset, index_offset } => {
            assert(data.subrange(len - 4, len) =~= spec_u32_to_le_bytes(SSTABLE_MAGIC_V3));
            assert(data.subrange(len - 12, len - 4) =~= spec_u64_to_le_bytes(index_offset));
            assert(data.subrange(len - 20, len - 12) =~= spec_u64_to_le_bytes(bloom_offset));
            assert(data.subrange(len - 28, len - 20) =~= spec_u64_to_le_bytes(max_seq));
        },
    }
}

} // verus!
