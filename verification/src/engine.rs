//! The engine: it sequences writes through the log and the memtable,
//! flushes the memtable into tables, compacts tables, and reads through all
//! of them.
//!
//! The engine touches no file. Every mutation adds, in order, the disk
//! operations that make it durable to a list of pending operations; the
//! owner of the engine performs and removes them after each call.

pub mod compaction;
pub mod crash;
pub mod disk;
pub mod durability;
pub mod laws;
pub mod name_order;
pub mod naming;
pub mod read;
pub mod recovery;
pub mod reopen;
pub mod scan_laws;
pub mod write;

use crate::manifest::{Manifest, ManifestError, SstMetaView};
use crate::memtable::{Memtable, Pair};
use crate::ordered::as_map;
use crate::sstable::format::SstError;
use crate::sstable::reader::SSTableReader;
use crate::wal::{WalError, WalWriter};
use vstd::prelude::*;
use vstd::string::StringExecFns;

verus! {

/// The longest key that the engine accepts: 64 KiB.
pub const MAX_KEY_SIZE: usize = 65_536;

/// The longest value that the engine accepts: 10 MiB.
pub const MAX_VALUE_SIZE: usize = 10_485_760;

/// The number of level-0 tables at which a flush starts a compaction, unless
/// another is set. Zero switches that off.
pub const DEFAULT_L0_COMPACTION_TRIGGER: usize = 4;

/// What an operation of the engine can fail with.
#[derive(Debug, Clone, Copy, PartialEq, Eq, Structural)]
pub enum EngineError {
    /// The key is empty.
    EmptyKey,
    /// The key is longer than [`MAX_KEY_SIZE`].
    KeyTooLarge,
    /// The value is longer than [`MAX_VALUE_SIZE`].
    ValueTooLarge,
    /// The sequence number has reached `u64::MAX`.
    SeqOverflow,
    /// The clock stands before the epoch, so a table file cannot be named.
    Clock,
    /// The log failed.
    Wal(WalError),
    /// A table failed.
    Sst(SstError),
    /// The manifest failed.
    Manifest(ManifestError),
}

impl EngineError {
    /// What the error says.
    pub open spec fn message(self) -> Seq<char> {
        match self {
            EngineError::EmptyKey => "key must not be empty"@,
            EngineError::KeyTooLarge => "key too large"@,
            EngineError::ValueTooLarge => "value too large"@,
            EngineError::SeqOverflow => "sequence number overflow (u64::MAX reached)"@,
            EngineError::Clock => "the system clock stands before the epoch"@,
            EngineError::Wal(e) => e.message(),
            EngineError::Sst(e) => e.message(),
            EngineError::Manifest(e) => e.message(),
        }
    }

    /// What the error says.
    pub fn to_string(&self) -> (r: String)
        ensures
            r@ == self.message(),
    {
        match self {
            EngineError::EmptyKey => String::from_str("key must not be empty"),
            EngineError::KeyTooLarge => String::from_str("key too large"),
            EngineError::ValueTooLarge => String::from_str("value too large"),
            EngineError::SeqOverflow => String::from_str(
                "sequence number overflow (u64::MAX reached)",
            ),
            EngineError::Clock => String::from_str("the system clock stands before the epoch"),
            EngineError::Wal(e) => e.to_string(),
            EngineError::Sst(e) => e.to_string(),
            EngineError::Manifest(e) => e.to_string(),
        }
    }
}

/// An operation on the disk that the owner of the engine is to perform.
#[derive(Debug, Clone, PartialEq, Eq)]
pub enum DiskOp {
    /// Create the log file if it does not exist.
    CreateWal,
    /// Append `frame` to the log file in a single write and, with `sync`,
    /// sync the file before going on.
    AppendWal { frame: Vec<u8>, sync: bool },
    /// Truncate the log file to zero bytes.
    TruncateWal,
    /// Create the table file `name` with the content `image`, atomically:
    /// write a temporary file, sync it, move it into place, and sync the
    /// directory.
    WriteTable { name: String, image: Vec<u8> },
    /// Replace the manifest file's content with `text`, atomically.
    SaveManifest { text: String },
    /// Remove the file `name` from the table directory, if it is there.
    RemoveFile { name: String },
    /// Remove every table file from the table directory but `keep`.
    RetainTables { keep: Option<String> },
}

/// What a [`DiskOp`] holds, as mathematical values.
pub enum DiskOpView {
    CreateWal,
    AppendWal { frame: Seq<u8>, sync: bool },
    TruncateWal,
    WriteTable { name: Seq<char>, image: Seq<u8> },
    SaveManifest { text: Seq<char> },
    RemoveFile { name: Seq<char> },
    RetainTables { keep: Option<Seq<char>> },
}

impl View for DiskOp {
    type V = DiskOpView;

    open spec fn view(&self) -> DiskOpView {
        match *self {
            DiskOp::CreateWal => DiskOpView::CreateWal,
            DiskOp::AppendWal { frame, sync } => DiskOpView::AppendWal { frame: frame@, sync },
            DiskOp::TruncateWal => DiskOpView::TruncateWal,
            DiskOp::WriteTable { name, image } => DiskOpView::WriteTable {
                name: name@,
                image: image@,
            },
            DiskOp::SaveManifest { text } => DiskOpView::SaveManifest { text: text@ },
            DiskOp::RemoveFile { name } => DiskOpView::RemoveFile { name: name@ },
            DiskOp::RetainTables { keep } => DiskOpView::RetainTables {
                keep: match keep {
                    Some(k) => Some(k@),
                    None => None,
                },
            },
        }
    }
}

/// The views of a sequence of disk operations.
pub open spec fn op_views(ops: Seq<DiskOp>) -> Seq<DiskOpView> {
    Seq::new(ops.len(), |i: int| ops[i]@)
}

/// What an engine holds.
pub struct EngineView {
    /// The memtable's entries in ascending key order.
    pub mem_pairs: Seq<Pair>,
    /// The memtable's tracked size.
    pub mem_size: usize,
    /// The tables of level 0, newest first.
    pub l0: Seq<SSTableReader>,
    /// The tables of level 1, newest first.
    pub l1: Seq<SSTableReader>,
    /// The manifest.
    pub manifest: Seq<SstMetaView>,
    /// The sequence number of the last mutation.
    pub seq: u64,
    /// The memtable size at which it is flushed.
    pub flush_threshold: usize,
    /// The number of level-0 tables at which they are compacted.
    pub l0_compaction_trigger: usize,
    /// Whether every log append is synced.
    pub wal_sync: bool,
    /// The disk operations that are still to be performed, oldest first.
    pub pending: Seq<DiskOpView>,
}

/// The storage engine.
pub struct Engine {
    pub(crate) mem: Memtable,
    pub(crate) l0_sstables: Vec<SSTableReader>,
    pub(crate) l1_sstables: Vec<SSTableReader>,
    pub(crate) wal_writer: WalWriter,
    pub(crate) manifest: Manifest,
    pub(crate) seq: u64,
    pub(crate) flush_threshold: usize,
    pub(crate) l0_compaction_trigger: usize,
    pub(crate) wal_sync: bool,
    pub(crate) pending: Vec<DiskOp>,
}

impl View for Engine {
    type V = EngineView;

    open(crate) spec fn view(&self) -> EngineView {
        EngineView {
            mem_pairs: self.mem.pairs(),
            mem_size: self.mem@.approx_size,
            l0: self.l0_sstables@,
            l1: self.l1_sstables@,
            manifest: self.manifest@,
            seq: self.seq,
            flush_threshold: self.flush_threshold,
            l0_compaction_trigger: self.l0_compaction_trigger,
            wal_sync: self.wal_sync,
            pending: op_views(self.pending@),
        }
    }
}

/// Every table of the sequence is well-formed.
pub open spec fn tables_wf(tables: Seq<SSTableReader>) -> bool {
    forall|i: int| 0 <= i < tables.len() ==> (#[trigger] tables[i]).wf()
}

impl EngineView {
    /// The memtable's entries by key.
    pub open spec fn mem_map(self) -> Map<Seq<u8>, crate::memtable::EntryView> {
        as_map(self.mem_pairs)
    }
}

impl Engine {
    /// The memtable and the tables are well-formed, the manifest knows
    /// every level, and the log writer syncs as the engine was told.
    pub open(crate) spec fn wf(&self) -> bool {
        &&& self.mem.wf()
        &&& tables_wf(self.l0_sstables@)
        &&& tables_wf(self.l1_sstables@)
        &&& self.manifest.levels_known()
        &&& self.wal_writer.sync() == self.wal_sync
    }

    /// What a well-formed engine's state is known to be: the keys of the
    /// memtable ascend, and the tables are well-formed.
    pub proof fn lemma_wf(&self)
        requires
            self.wf(),
        ensures
            crate::ordered::ascending(self@.mem_pairs),
            tables_wf(self@.l0),
            tables_wf(self@.l1),
    {
    }

    /// The sequence number of the last mutation.
    pub fn seq(&self) -> (r: u64)
        ensures
            r == self@.seq,
    {
        self.seq
    }

    /// The memtable size in bytes at which the memtable is flushed.
    pub fn flush_threshold(&self) -> (r: usize)
        ensures
            r == self@.flush_threshold,
    {
        self.flush_threshold
    }

    /// Sets the memtable size at which the memtable is flushed.
    pub fn set_flush_threshold(&mut self, threshold: usize)
        ensures
            final(self)@ == (EngineView { flush_threshold: threshold, ..old(self)@ }),
            old(self).wf() ==> final(self).wf(),
    {
        self.flush_threshold = threshold;
    }

    /// The number of level-0 tables at which a flush starts a compaction;
    /// zero means never.
    pub fn l0_compaction_trigger(&self) -> (r: usize)
        ensures
            r == self@.l0_compaction_trigger,
    {
        self.l0_compaction_trigger
    }

    /// Sets the number of level-0 tables at which a flush starts a
    /// compaction; zero switches that off.
    pub fn set_l0_compaction_trigger(&mut self, trigger: usize)
        ensures
            final(self)@ == (EngineView { l0_compaction_trigger: trigger, ..old(self)@ }),
            old(self).wf() ==> final(self).wf(),
    {
        self.l0_compaction_trigger = trigger;
    }

    /// The number of tables of both levels. It saturates at `usize::MAX`.
    pub fn sstable_count(&self) -> (r: usize)
        ensures
            r == self@.l0.len() + self@.l1.len() || (r == usize::MAX && self@.l0.len()
                + self@.l1.len() > usize::MAX),
    {
        self.l0_sstables.len().saturating_add(self.l1_sstables.len())
    }

    /// The number of level-0 tables.
    pub fn l0_sstable_count(&self) -> (r: usize)
        ensures
            r == self@.l0.len(),
    {
        self.l0_sstables.len()
    }

    /// The number of level-1 tables.
    pub fn l1_sstable_count(&self) -> (r: usize)
        ensures
            r == self@.l1.len(),
    {
        self.l1_sstables.len()
    }

    /// Whether every log append is to be synced to disk.
    pub fn wal_sync(&self) -> (r: bool)
        ensures
            r == self@.wal_sync,
    {
        self.wal_sync
    }

    /// The approximate number of bytes that the memtable holds.
    pub fn memtable_size(&self) -> (r: usize)
        ensures
            r == self@.mem_size,
    {
        self.mem.approx_size()
    }

    /// The number of entries that the memtable holds.
    pub fn memtable_entries(&self) -> (r: usize)
        ensures
            r == self@.mem_pairs.len(),
    {
        self.mem.len()
    }

    /// The disk operations that are still to be performed, oldest first.
    pub fn pending_ops(&self) -> (r: &[DiskOp])
        ensures
            op_views(r@) == self@.pending,
    {
        self.pending.as_slice()
    }

    /// Hands out the pending disk operations, oldest first, and forgets
    /// them.
    pub fn take_ops(&mut self) -> (r: Vec<DiskOp>)
        ensures
            op_views(r@) == old(self)@.pending,
            final(self)@ == (EngineView { pending: Seq::empty(), ..old(self)@ }),
            old(self).wf() ==> final(self).wf(),
    {
        let mut out: Vec<DiskOp> = Vec::new();
        core::mem::swap(&mut out, &mut self.pending);
        assert(op_views(self.pending@) =~= Seq::<DiskOpView>::empty());
        out
    }
}

} // verus!
