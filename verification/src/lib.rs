//! RiptideKV: an embedded, single-writer key-value store built on a
//! log-structured merge tree.
//!
//! The library is the storage engine's logic over plain values. Files are
//! byte vectors: the write-ahead log, every SSTable and the manifest are
//! produced and parsed as bytes, and the engine hands its caller the list of
//! disk operations that make a mutation durable.
//!
//! | Module       | What it holds                                             |
//! |--------------|-----------------------------------------------------------|
//! | [`bytes`]    | byte strings and their lexicographic order                |
//! | [`codec`]    | little-endian integers and checksums                      |
//! | [`chunks`]   | sequences made of chunks                                  |
//! | [`ordered`]  | sorted vectors of keys, read as mappings                  |
//! | [`bloom`]    | the bloom filter                                          |
//! | [`wal`]      | the write-ahead log: frames and replay                    |
//! | [`memtable`] | the sorted in-memory write buffer                         |
//! | [`sstable`]  | tables: format, writer, reader and merge                  |
//! | [`manifest`] | the list of tables by level, and its text                 |
//! | [`engine`]   | the engine: write path, read path, compaction, recovery   |

pub mod bloom;
pub mod bytes;
pub mod chunks;
pub mod codec;
pub mod engine;
pub mod manifest;
pub mod memtable;
pub mod ordered;
pub mod sstable;
pub mod wal;
