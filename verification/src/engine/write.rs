//! The write path: `set`, `del` and the flush of the memtable.
//!
//! A mutation is validated, takes the next sequence number, is framed for
//! the log and applied to the memtable, in this order. When the memtable has
//! grown to the flush threshold it is flushed: the table is written, then
//! the manifest, and only then is the log truncated. A flush that brings
//! level 0 to the compaction trigger is followed by a compaction.

use crate::engine::{
    DiskOp, DiskOpView, Engine, EngineError, EngineView, MAX_KEY_SIZE, MAX_VALUE_SIZE, op_views,
};
use crate::engine::compaction::compacted;
use crate::engine::naming::{sst_name, table_name};
use crate::manifest::{first_at, saved, SstMetaView};
use crate::memtable::{MemView, Pair};
use crate::ordered::ascending;
use crate::sstable::reader::{parse_table, SSTableReader};
use crate::sstable::writer::{SSTableWriter, write_outcome};
use crate::wal::{frame_of, lemma_body_len, WalRecord, WalRecordView, WalWriter};
use std::time::{Duration, SystemTime};
use vstd::prelude::*;

verus! {

/// The system clock's time.
#[verifier::external_type_specification]
#[verifier::external_body]
pub struct ExSystemTime(SystemTime);

/// Calls `std::time::SystemTime::now`. Nothing is claimed of the time.
#[verifier::external_body]
fn system_now() -> SystemTime {
    SystemTime::now()
}

/// Calls `std::time::SystemTime::duration_since` with the epoch, which
/// fails where the time stands before it. Nothing is claimed of the
/// duration.
#[verifier::external_body]
fn since_epoch(time: &SystemTime) -> Option<Duration> {
    match time.duration_since(std::time::UNIX_EPOCH) {
        Ok(d) => Some(d),
        Err(_) => None,
    }
}

/// Calls `std::time::Duration::as_millis`. Nothing is claimed of the number.
#[verifier::external_body]
fn whole_millis(d: &Duration) -> u128 {
    d.as_millis()
}

/// The milliseconds since the epoch by the system clock, or `None` where
/// the clock stands before the epoch.
///
/// The reading is the clock's alone, so nothing is stated of it: what the
/// engine does with each possible reading is stated by the functions that
/// take one, such as [`Engine::set_at`] and [`Engine::force_flush_at`].
pub fn clock_ms() -> Option<u128> {
    let now: SystemTime = system_now();
    match since_epoch(&now) {
        Some(d) => Some(whole_millis(&d)),
        None => None,
    }
}

/// The disk operations of a flush, in the order that keeps acknowledged
/// writes safe: the table, then the manifest, then the log.
pub open spec fn flush_ops(name: Seq<char>, image: Seq<u8>, manifest: Seq<SstMetaView>) -> Seq<
    DiskOpView,
> {
    seq![
        DiskOpView::WriteTable { name, image },
        DiskOpView::SaveManifest { text: saved(manifest) },
        DiskOpView::TruncateWal,
    ]
}

/// `post` is what flushing the memtable at time `ms` makes of `pre`, and `r`
/// is the outcome.
///
/// If the table cannot be written, nothing changes. Otherwise the image of
/// the table is a vector of bytes, the table goes in front of level 0 in
/// the manifest, the memtable is emptied, and the table is opened as the
/// newest of level 0; if it cannot be opened, that last step is missing.
pub open spec fn flushed(pre: EngineView, post: EngineView, ms: u128, r: Result<(), EngineError>) -> bool {
    let name = table_name(pre.seq, ms);
    match write_outcome(pre.mem_pairs, pre.mem_pairs.len()) {
        Err(e) => r == Err::<(), EngineError>(EngineError::Sst(e)) && post == pre,
        Ok(image) => {
            let manifest = pre.manifest.insert(
                first_at(pre.manifest, 0, 0),
                SstMetaView { filename: name, level: 0 },
            );
            let mid = EngineView {
                mem_pairs: Seq::empty(),
                mem_size: 0,
                manifest,
                pending: pre.pending + flush_ops(name, image, manifest),
                ..pre
            };
            image.len() <= usize::MAX && match parse_table(image) {
                Err(e) => r == Err::<(), EngineError>(EngineError::Sst(e)) && post == mid,
                Ok(table) => r == Ok::<(), EngineError>(()) && post.l0.len() == pre.l0.len() + 1
                    && post.l0[0]@ == table && post.l0[0].wf() && post.l0.skip(1) == pre.l0
                    && post == (EngineView { l0: post.l0, ..mid }),
            }
        },
    }
}

/// The time that names the table of a compaction which a flush at time
/// `ms` starts: the next millisecond, so that the table of the compaction
/// does not get the name of the table of the flush.
pub open spec fn after_flush(ms: u128) -> u128 {
    if ms < u128::MAX {
        (ms + 1) as u128
    } else {
        ms
    }
}

/// Whether level 0 has reached the compaction trigger.
pub open spec fn compaction_due(e: EngineView) -> bool {
    e.l0_compaction_trigger > 0 && e.l0.len() >= e.l0_compaction_trigger
}

/// `post` is what a flush at time `ms`, with the compaction that it may
/// start, makes of `pre`.
pub open spec fn flush_cycle(pre: EngineView, post: EngineView, ms: u128, r: Result<(), EngineError>) -> bool {
    exists|mid: EngineView, first: Result<(), EngineError>| #[trigger]
        flushed(pre, mid, ms, first) && (if first is Ok && compaction_due(mid) {
            compacted(mid, post, after_flush(ms), r)
        } else {
            post == mid && r == first
        })
}

/// `post` is what a flush makes of `pre` when the clock says `now`.
pub open spec fn flush_cycle_now(
    pre: EngineView,
    post: EngineView,
    now: Option<u128>,
    r: Result<(), EngineError>,
) -> bool {
    match now {
        None => r == Err::<(), EngineError>(EngineError::Clock) && post == pre,
        Some(ms) => flush_cycle(pre, post, ms, r),
    }
}

/// Why a key is refused, if it is.
pub open spec fn key_error(key: Seq<u8>) -> Option<EngineError> {
    if key.len() == 0 {
        Some(EngineError::EmptyKey)
    } else if key.len() > MAX_KEY_SIZE {
        Some(EngineError::KeyTooLarge)
    } else {
        None
    }
}

/// The view of a value that may be missing.
pub open spec fn value_view(value: Option<Vec<u8>>) -> Option<Seq<u8>> {
    match value {
        Some(v) => Some(v@),
        None => None,
    }
}

/// The log record of a mutation.
pub open spec fn record_of(seq: u64, key: Seq<u8>, value: Option<Seq<u8>>) -> WalRecordView {
    match value {
        Some(v) => WalRecordView::Put { seq, key, value: v },
        None => WalRecordView::Del { seq, key },
    }
}

/// `post` is `pre` after a valid mutation of `key` was logged and applied:
/// a put of `value`, or a delete where `value` is `None`. It has the next
/// sequence number, its frame is pending for the log, and the memtable
/// holds it.
pub open spec fn applied(pre: EngineView, post: EngineView, key: Seq<u8>, value: Option<Seq<u8>>) -> bool {
    let seq = (pre.seq + 1) as u64;
    let mem = MemView { map: pre.mem_map(), approx_size: pre.mem_size };
    let after = match value {
        Some(v) => mem.put(key, v, seq),
        None => mem.delete(key, seq),
    };
    &&& ascending(post.mem_pairs)
    &&& post.mem_map() == after.map
    &&& post.mem_size == after.approx_size
    &&& post == (EngineView {
        seq,
        mem_pairs: post.mem_pairs,
        mem_size: post.mem_size,
        pending: pre.pending.push(
            DiskOpView::AppendWal { frame: frame_of(record_of(seq, key, value)), sync: pre.wal_sync },
        ),
        ..pre
    })
}

/// `post` is what a mutation of `key` makes of `pre` when the clock says
/// `now`, and `r` is its outcome. A mutation that is refused changes
/// nothing, the sequence number included.
pub open spec fn mutated(
    pre: EngineView,
    post: EngineView,
    key: Seq<u8>,
    value: Option<Seq<u8>>,
    now: Option<u128>,
    r: Result<(), EngineError>,
) -> bool {
    if key_error(key) is Some {
        r == Err::<(), EngineError>(key_error(key)->Some_0) && post == pre
    } else if value is Some && value->Some_0.len() > MAX_VALUE_SIZE {
        r == Err::<(), EngineError>(EngineError::ValueTooLarge) && post == pre
    } else if pre.seq == u64::MAX {
        r == Err::<(), EngineError>(EngineError::SeqOverflow) && post == pre
    } else {
        exists|mid: EngineView| #[trigger]
            applied(pre, mid, key, value) && (if mid.mem_size >= mid.flush_threshold {
                flush_cycle_now(mid, post, now, r)
            } else {
                post == mid && r == Ok::<(), EngineError>(())
            })
    }
}

/// `post` is what a forced flush makes of `pre` when the clock says `now`.
/// An empty memtable is not flushed.
pub open spec fn force_flushed(
    pre: EngineView,
    post: EngineView,
    now: Option<u128>,
    r: Result<(), EngineError>,
) -> bool {
    if pre.mem_pairs.len() == 0 {
        r == Ok::<(), EngineError>(()) && post == pre
    } else {
        flush_cycle_now(pre, post, now, r)
    }
}

impl Engine {
    /// Flushes the memtable into a new table of level 0, named after the
    /// time `ms`. It starts no compaction.
    #[verifier::rlimit(50)]
    pub fn flush_at(&mut self, ms: u128) -> (r: Result<(), EngineError>)
        requires
            old(self).wf(),
        ensures
            final(self).wf(),
            flushed(old(self)@, final(self)@, ms, r),
    {
        let ghost pre = self@;
        let sst_name: String = sst_name(self.seq, ms);
        let ghost name = sst_name@;
        let image: Vec<u8> = match SSTableWriter::write_from_memtable(&self.mem) {
            Err(e) => {
                return Err(EngineError::Sst(e));
            },
            Ok(image) => image,
        };
        let image_len: usize = image.len();
        let ghost before = op_views(self.pending@);
        self.manifest.add(sst_name.clone(), 0);
        assert(self.manifest.levels_known()) by {
            let old_entries = pre.manifest;
            let pos = first_at(old_entries, 0, 0);
            crate::engine::write::lemma_first_at_range(old_entries, 0, 0);
            assert forall|i: int| 0 <= i < self.manifest@.len() implies (#[trigger] self.manifest@[i]).level
                <= 1 by {
                if i < pos {
                    assert(self.manifest@[i] == old_entries[i]);
                } else if i > pos {
                    assert(self.manifest@[i] == old_entries[i - 1]);
                }
            }
        }
        let text: String = self.manifest.save();
        self.pending.push(
            DiskOp::WriteTable { name: sst_name, image: crate::bytes::copy_bytes(image.as_slice()) },
        );
        self.pending.push(DiskOp::SaveManifest { text });
        self.pending.push(DiskOp::TruncateWal);
        assert(op_views(self.pending@) =~= before + flush_ops(name, image@, self.manifest@));
        self.wal_writer = WalWriter::create(self.wal_sync);
        self.mem.clear();
        assert(self.mem.pairs() =~= Seq::<Pair>::empty());
        let reader: SSTableReader = match SSTableReader::open(image) {
            Err(e) => {
                return Err(EngineError::Sst(e));
            },
            Ok(r) => r,
        };
        self.l0_sstables.insert(0, reader);
        assert(self.l0_sstables@.skip(1) =~= pre.l0);
        Ok(())
    }

    /// Flushes the memtable at time `ms`, and compacts if level 0 has then
    /// reached the trigger.
    pub fn flush_cycle_at(&mut self, ms: u128) -> (r: Result<(), EngineError>)
        requires
            old(self).wf(),
        ensures
            final(self).wf(),
            flush_cycle(old(self)@, final(self)@, ms, r),
    {
        let ghost pre = self@;
        let first: Result<(), EngineError> = self.flush_at(ms);
        let ghost mid = self@;
        assert(flushed(pre, mid, ms, first));
        match first {
            Err(e) => Err(e),
            Ok(()) => {
                if self.l0_compaction_trigger > 0 && self.l0_sstables.len()
                    >= self.l0_compaction_trigger {
                    let later: u128 = if ms < u128::MAX {
                        ms + 1
                    } else {
                        ms
                    };
                    self.compact_at(later)
                } else {
                    Ok(())
                }
            },
        }
    }

    /// Flushes the memtable when the clock says `now`.
    fn flush_now(&mut self, now: Option<u128>) -> (r: Result<(), EngineError>)
        requires
            old(self).wf(),
        ensures
            final(self).wf(),
            flush_cycle_now(old(self)@, final(self)@, now, r),
    {
        match now {
            None => Err(EngineError::Clock),
            Some(ms) => self.flush_cycle_at(ms),
        }
    }

    /// Logs a valid mutation under the next sequence number and applies it
    /// to the memtable.
    fn apply(&mut self, key: Vec<u8>, value: Option<Vec<u8>>)
        requires
            old(self).wf(),
            old(self)@.seq < u64::MAX,
            key@.len() <= MAX_KEY_SIZE,
            value is Some ==> value->Some_0@.len() <= MAX_VALUE_SIZE,
        ensures
            final(self).wf(),
            applied(old(self)@, final(self)@, key@, value_view(value)),
    {
        let ghost pre = self@;
        self.seq = self.seq + 1;
        let seq: u64 = self.seq;
        let record: WalRecord = match &value {
            Some(v) => WalRecord::Put {
                seq,
                key: crate::bytes::copy_bytes(key.as_slice()),
                value: crate::bytes::copy_bytes(v.as_slice()),
            },
            None => WalRecord::Del { seq, key: crate::bytes::copy_bytes(key.as_slice()) },
        };
        proof {
            lemma_body_len(record@);
        }
        let appended = self.wal_writer.append(&record);
        let frame: Vec<u8> = crate::bytes::copy_bytes(self.wal_writer.last_frame());
        let ghost before = op_views(self.pending@);
        self.pending.push(DiskOp::AppendWal { frame, sync: self.wal_sync });
        assert(op_views(self.pending@) =~= before.push(
            DiskOpView::AppendWal { frame: frame_of(record@), sync: pre.wal_sync },
        ));
        match value {
            Some(v) => {
                self.mem.put(key, v, seq);
            },
            None => {
                self.mem.delete(key, seq);
            },
        }
    }

    /// Validates, logs and applies a mutation, and flushes if the memtable
    /// has grown to the threshold.
    fn mutate(&mut self, key: Vec<u8>, value: Option<Vec<u8>>, now: Option<u128>) -> (r: Result<
        (),
        EngineError,
    >)
        requires
            old(self).wf(),
        ensures
            final(self).wf(),
            mutated(old(self)@, final(self)@, key@, value_view(value), now, r),
    {
        if key.len() == 0 {
            return Err(EngineError::EmptyKey);
        }
        if key.len() > MAX_KEY_SIZE {
            return Err(EngineError::KeyTooLarge);
        }
        match &value {
            Some(v) => {
                if v.len() > MAX_VALUE_SIZE {
                    return Err(EngineError::ValueTooLarge);
                }
            },
            None => {},
        }
        if self.seq == u64::MAX {
            return Err(EngineError::SeqOverflow);
        }
        let ghost pre = self@;
        let ghost k = key@;
        let ghost v = value_view(value);
        self.apply(key, value);
        let ghost mid = self@;
        assert(applied(pre, mid, k, v));
        if self.mem.approx_size() >= self.flush_threshold {
            self.flush_now(now)
        } else {
            Ok(())
        }
    }

    /// Writes `value` for `key` when the clock says `now`.
    pub fn set_at(&mut self, key: Vec<u8>, value: Vec<u8>, now: Option<u128>) -> (r: Result<
        (),
        EngineError,
    >)
        requires
            old(self).wf(),
        ensures
            final(self).wf(),
            mutated(old(self)@, final(self)@, key@, Some(value@), now, r),
            r is Ok ==> final(self)@.seq == old(self)@.seq + 1,
            r is Err ==> final(self)@.seq == old(self)@.seq || final(self)@.seq == old(self)@.seq
                + 1,
    {
        let ghost pre = self@;
        let ghost k = key@;
        let ghost v = value@;
        let r = self.mutate(key, Some(value), now);
        proof {
            lemma_mutated_seq(pre, self@, k, Some(v), now, r);
        }
        r
    }

    /// Deletes `key` when the clock says `now`.
    pub fn del_at(&mut self, key: Vec<u8>, now: Option<u128>) -> (r: Result<(), EngineError>)
        requires
            old(self).wf(),
        ensures
            final(self).wf(),
            mutated(old(self)@, final(self)@, key@, None, now, r),
            r is Ok ==> final(self)@.seq == old(self)@.seq + 1,
            r is Err ==> final(self)@.seq == old(self)@.seq || final(self)@.seq == old(self)@.seq
                + 1,
    {
        let ghost pre = self@;
        let ghost k = key@;
        let r = self.mutate(key, None, now);
        proof {
            lemma_mutated_seq(pre, self@, k, None, now, r);
        }
        r
    }

    /// Flushes the memtable, unless it is empty, when the clock says `now`.
    pub fn force_flush_at(&mut self, now: Option<u128>) -> (r: Result<(), EngineError>)
        requires
            old(self).wf(),
        ensures
            final(self).wf(),
            force_flushed(old(self)@, final(self)@, now, r),
    {
        if self.mem.is_empty() {
            return Ok(());
        }
        self.flush_now(now)
    }

    /// Writes `value` for `key`. The key must not be empty nor longer than
    /// [`MAX_KEY_SIZE`], the value not longer than [`MAX_VALUE_SIZE`].
    pub fn set(&mut self, key: Vec<u8>, value: Vec<u8>) -> (r: Result<(), EngineError>)
        requires
            old(self).wf(),
        ensures
            final(self).wf(),
            exists|now: Option<u128>| #[trigger]
                mutated(old(self)@, final(self)@, key@, Some(value@), now, r),
            r is Ok ==> final(self)@.seq == old(self)@.seq + 1,
    {
        let now: Option<u128> = clock_ms();
        self.set_at(key, value, now)
    }

    /// Deletes `key` by writing a tombstone. The key must not be empty nor
    /// longer than [`MAX_KEY_SIZE`].
    pub fn del(&mut self, key: Vec<u8>) -> (r: Result<(), EngineError>)
        requires
            old(self).wf(),
        ensures
            final(self).wf(),
            exists|now: Option<u128>| #[trigger]
                mutated(old(self)@, final(self)@, key@, None, now, r),
            r is Ok ==> final(self)@.seq == old(self)@.seq + 1,
    {
        let now: Option<u128> = clock_ms();
        self.del_at(key, now)
    }

    /// Flushes the memtable into a new table, unless it is empty.
    pub fn force_flush(&mut self) -> (r: Result<(), EngineError>)
        requires
            old(self).wf(),
        ensures
            final(self).wf(),
            exists|now: Option<u128>| #[trigger]
                force_flushed(old(self)@, final(self)@, now, r),
    {
        let now: Option<u128> = clock_ms();
        self.force_flush_at(now)
    }

    /// Compacts all tables of both levels into a single table of level 1.
    pub fn compact(&mut self) -> (r: Result<(), EngineError>)
        requires
            old(self).wf(),
        ensures
            final(self).wf(),
            exists|now: Option<u128>| #[trigger]
                crate::engine::compaction::compacted_now(old(self)@, final(self)@, now, r),
    {
        let now: Option<u128> = clock_ms();
        self.compact_now(now)
    }

    /// Ends the engine's life: flushes what the memtable holds, and hands
    /// out the pending disk operations. A flush that fails here is passed
    /// over in silence, since the log still holds what the memtable held.
    pub fn close(self) -> (r: Vec<DiskOp>)
        requires
            self.wf(),
        ensures
            exists|now: Option<u128>, last: EngineView, outcome: Result<(), EngineError>| #[trigger]
                force_flushed(self@, last, now, outcome) && op_views(r@) == last.pending,
    {
        let mut engine: Engine = self;
        let ghost pre = engine@;
        let now: Option<u128> = clock_ms();
        let outcome = engine.force_flush_at(now);
        assert(force_flushed(pre, engine@, now, outcome));
        engine.take_ops()
    }
}

/// A search for a level ends inside the entries or at their end.
pub proof fn lemma_first_at_range(entries: Seq<SstMetaView>, level: u32, from: int)
    requires
        0 <= from <= entries.len(),
    ensures
        from <= first_at(entries, level, from) <= entries.len(),
    decreases entries.len() - from,
{
    if from < entries.len() && entries[from].level != level {
        lemma_first_at_range(entries, level, from + 1);
    }
}

/// Monotonic sequence numbers: a mutation that succeeds has the sequence
/// number after the one before it, and no mutation moves the sequence
/// number by more than one.
pub proof fn lemma_mutated_seq(
    pre: EngineView,
    post: EngineView,
    key: Seq<u8>,
    value: Option<Seq<u8>>,
    now: Option<u128>,
    r: Result<(), EngineError>,
)
    requires
        mutated(pre, post, key, value, now, r),
    ensures
        r is Ok ==> post.seq == pre.seq + 1,
        post.seq == pre.seq || post.seq == pre.seq + 1,
{
    if key_error(key) is None && !(value is Some && value->Some_0.len() > MAX_VALUE_SIZE) && pre.seq
        != u64::MAX {
        let mid = choose|mid: EngineView| #[trigger]
            applied(pre, mid, key, value) && (if mid.mem_size >= mid.flush_threshold {
                flush_cycle_now(mid, post, now, r)
            } else {
                post == mid && r == Ok::<(), EngineError>(())
            });
        if mid.mem_size >= mid.flush_threshold {
            if now is Some {
                lemma_flush_cycle_seq(mid, post, now->Some_0, r);
            }
        }
    }
}

/// Neither a flush nor a compaction moves the sequence number.
pub proof fn lemma_flush_cycle_seq(pre: EngineView, post: EngineView, ms: u128, r: Result<(), EngineError>)
    requires
        flush_cycle(pre, post, ms, r),
    ensures
        post.seq == pre.seq,
{
    let (mid, first) = choose|mid: EngineView, first: Result<(), EngineError>| #[trigger]
        flushed(pre, mid, ms, first) && (if first is Ok && compaction_due(mid) {
            compacted(mid, post, after_flush(ms), r)
        } else {
            post == mid && r == first
        });
    assert(mid.seq == pre.seq);
    assert(post.seq == mid.seq);
}

} // verus!
