//! SSTables: immutable sorted files of keys with their entries.
//!
//! A table in the current format (v3) holds, in order: the data records, the
//! serialized bloom filter, the index and the footer.
//!
//! ```text
//! DATA    repeated: crc32:u32 | key_len:u32 | key | seq:u64 | present:u8 | [val_len:u32 | val]
//! BLOOM   num_bits:u64 | num_hashes:u32 | bits_len:u32 | bits
//! INDEX   repeated: key_len:u32 | key | data_offset:u64
//! FOOTER  max_seq:u64 | bloom_offset:u64 | index_offset:u64 | magic:u32
//! ```
//!
//! All integers are little-endian. The checksum of a data record covers what
//! follows it in the record.

pub mod format;
pub mod merge;
pub mod merge_laws;
pub mod reader;
pub mod round_trip;
pub mod writer;

pub use format::{
    FOOTER_BYTES, FOOTER_BYTES_V2, FOOTER_BYTES_V3, SSTABLE_MAGIC, SSTABLE_MAGIC_V2,
    SSTABLE_MAGIC_V3,
};
pub use writer::SSTableWriter;
pub use reader::SSTableReader;
pub use merge::MergeIterator;
