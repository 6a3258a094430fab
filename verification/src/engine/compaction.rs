//! Compaction: all tables of both levels are merged into a single table of
//! level 1.
//!
//! Since every table takes part, a tombstone has nothing left to shadow in
//! the tables and is dropped, unless the memtable holds its key: the
//! memtable takes no part, so that tombstone is kept.

use crate::engine::{DiskOp, DiskOpView, Engine, EngineError, EngineView, op_views};
use crate::engine::naming::{sst_name, table_name, temp_name, tmp_name};
use crate::manifest::{saved, SstMetaView};
use crate::memtable::{EntryView, Memtable, Pair, pair_views, ValueEntry};
use crate::sstable::format::SstError;
use crate::sstable::merge::{at_start, merged, MergeIterator};
use crate::sstable::reader::{parse_table, SSTableReader};
use crate::sstable::writer::{SSTableWriter, write_outcome};
use vstd::prelude::*;

verus! {

/// The pairs without the tombstones whose key the memtable does not hold.
pub open spec fn collected(all: Seq<Pair>, mem: Map<Seq<u8>, EntryView>) -> Seq<Pair>
    decreases all.len(),
{
    if all.len() == 0 {
        Seq::empty()
    } else if all.last().1.value is None && !mem.contains_key(all.last().0) {
        collected(all.drop_last(), mem)
    } else {
        collected(all.drop_last(), mem).push(all.last())
    }
}

/// The number of keys in the indexes of the first `n` tables, saturating at
/// `usize::MAX`.
pub open spec fn key_count(tables: Seq<SSTableReader>, n: int) -> usize
    decreases n,
{
    if n <= 0 {
        0
    } else {
        let sum = key_count(tables, n - 1) + tables[n - 1].index_pairs().len();
        if sum > usize::MAX {
            usize::MAX
        } else {
            sum as usize
        }
    }
}

/// The number of entries that a table written from `tables` is sized for:
/// their key count, and at least one.
pub open spec fn expected_entries(tables: Seq<SSTableReader>) -> nat {
    let n = key_count(tables, tables.len() as int);
    if n == 0 {
        1
    } else {
        n as nat
    }
}

/// The disk operations of a compaction that wrote the table `name`.
pub open spec fn compaction_ops(name: Seq<char>, image: Seq<u8>) -> Seq<DiskOpView> {
    seq![
        DiskOpView::WriteTable { name, image },
        DiskOpView::SaveManifest {
            text: saved(seq![SstMetaView { filename: name, level: 1 }]),
        },
        DiskOpView::RetainTables { keep: Some(name) },
    ]
}

/// The disk operations of a compaction that left no entry.
pub open spec fn clearing_ops(name: Seq<char>) -> Seq<DiskOpView> {
    seq![
        DiskOpView::RemoveFile { name: temp_name(name) },
        DiskOpView::SaveManifest { text: saved(Seq::empty()) },
        DiskOpView::RetainTables { keep: None },
    ]
}

/// `post` is what a compaction at time `ms` makes of `pre`, and `r` is its
/// outcome.
///
/// With at most one table nothing happens. Otherwise the tables leave both
/// levels and are merged. If a read fails, the error is returned, and only
/// the temporary file is removed: manifest and table files stay. If nothing
/// is left to write, the manifest is cleared and every table file removed.
/// Otherwise the new table, whose image is a vector of bytes, is written,
/// the manifest names it alone, the other table files are removed, and the
/// new table is opened as the only one of level 1.
pub open spec fn compacted(
    pre: EngineView,
    post: EngineView,
    ms: u128,
    r: Result<(), EngineError>,
) -> bool {
    if pre.l0.len() + pre.l1.len() <= 1 {
        r == Ok::<(), EngineError>(()) && post == pre
    } else {
        let readers = pre.l0 + pre.l1;
        let name = table_name(pre.seq, ms);
        let gone = EngineView { l0: Seq::empty(), l1: Seq::empty(), ..pre };
        match merged(readers, at_start(readers.len())) {
            Err(e) => r == Err::<(), EngineError>(EngineError::Sst(e)) && post == (EngineView {
                pending: pre.pending.push(DiskOpView::RemoveFile { name: temp_name(name) }),
                ..gone
            }),
            Ok(all) => match write_outcome(
                collected(all, pre.mem_map()),
                expected_entries(readers),
            ) {
                Err(SstError::Empty) => r == Ok::<(), EngineError>(()) && post == (EngineView {
                    manifest: Seq::empty(),
                    pending: pre.pending + clearing_ops(name),
                    ..gone
                }),
                Err(e) => r == Err::<(), EngineError>(EngineError::Sst(e)) && post == gone,
                Ok(image) => {
                    let mid = EngineView {
                        manifest: seq![SstMetaView { filename: name, level: 1 }],
                        pending: pre.pending + compaction_ops(name, image),
                        ..gone
                    };
                    image.len() <= usize::MAX && match parse_table(image) {
                        Err(e) => r == Err::<(), EngineError>(EngineError::Sst(e)) && post == mid,
                        Ok(table) => r == Ok::<(), EngineError>(()) && post.l1.len() == 1
                            && post.l1[0]@ == table && post.l1[0].wf() && post == (EngineView {
                            l1: post.l1,
                            ..mid
                        }),
                    }
                },
            },
        }
    }
}

/// `post` is what a compaction makes of `pre` when the clock says `now`. A
/// compaction that has tables to merge needs the time to name its table.
pub open spec fn compacted_now(
    pre: EngineView,
    post: EngineView,
    now: Option<u128>,
    r: Result<(), EngineError>,
) -> bool {
    if pre.l0.len() + pre.l1.len() <= 1 {
        r == Ok::<(), EngineError>(()) && post == pre
    } else {
        match now {
            None => r == Err::<(), EngineError>(EngineError::Clock) && post == pre,
            Some(ms) => compacted(pre, post, ms, r),
        }
    }
}

/// The number of keys in the indexes of the tables, saturating.
fn count_keys(tables: &Vec<SSTableReader>) -> (r: usize)
    ensures
        r == key_count(tables@, tables@.len() as int),
{
    let mut sum: usize = 0;
    let mut i: usize = 0;
    while i < tables.len()
        invariant
            0 <= i <= tables@.len(),
            sum == key_count(tables@, i as int),
        decreases tables@.len() - i,
    {
        sum = sum.saturating_add(tables[i].len());
        i += 1;
    }
    sum
}

/// Drops the tombstones whose key the memtable does not hold.
fn collect_garbage(all: Vec<(Vec<u8>, ValueEntry)>, mem: &Memtable) -> (r: Vec<(Vec<u8>, ValueEntry)>)
    requires
        mem.wf(),
    ensures
        pair_views(r@) == collected(pair_views(all@), mem@.map),
{
    let ghost pairs = pair_views(all@);
    let mut kept: Vec<(Vec<u8>, ValueEntry)> = Vec::new();
    let mut i: usize = 0;
    assert(pairs.take(0) =~= Seq::<Pair>::empty());
    assert(pair_views(kept@) =~= collected(pairs.take(0), mem@.map));
    while i < all.len()
        invariant
            0 <= i <= all@.len(),
            pairs == pair_views(all@),
            mem.wf(),
            pair_views(kept@) == collected(pairs.take(i as int), mem@.map),
        decreases all@.len() - i,
    {
        let key: &Vec<u8> = &all[i].0;
        let entry: &ValueEntry = &all[i].1;
        proof {
            assert(pairs.take(i + 1).drop_last() =~= pairs.take(i as int));
            assert(pairs.take(i + 1).last() == (key@, entry@));
        }
        let dead: bool = entry.value.is_none() && !mem.contains_key(key.as_slice());
        if !dead {
            let ghost before = pair_views(kept@);
            kept.push((crate::bytes::copy_bytes(key.as_slice()), entry.clone()));
            assert(pair_views(kept@) =~= before.push((key@, entry@)));
        }
        i += 1;
    }
    assert(pairs.take(i as int) =~= pairs);
    kept
}

impl Engine {
    /// Compacts all tables into one, naming the new table after the time
    /// `ms`, in milliseconds since the epoch.
    #[verifier::rlimit(50)]
    pub fn compact_at(&mut self, ms: u128) -> (r: Result<(), EngineError>)
        requires
            old(self).wf(),
        ensures
            final(self).wf(),
            compacted(old(self)@, final(self)@, ms, r),
    {
        let total: usize = self.l0_sstables.len().saturating_add(self.l1_sstables.len());
        if total <= 1 {
            return Ok(());
        }
        let ghost pre = self@;
        let mut all_sstables: Vec<SSTableReader> = Vec::new();
        all_sstables.append(&mut self.l0_sstables);
        all_sstables.append(&mut self.l1_sstables);
        assert(all_sstables@ =~= pre.l0 + pre.l1);
        assert(self.l0_sstables@ =~= Seq::<SSTableReader>::empty());
        assert(self.l1_sstables@ =~= Seq::<SSTableReader>::empty());
        let ghost readers = all_sstables@;
        let estimated: usize = count_keys(&all_sstables);
        let sst_name: String = sst_name(self.seq, ms);
        let ghost name = sst_name@;
        let ghost gone = EngineView { l0: Seq::empty(), l1: Seq::empty(), ..pre };
        assert(self@ == gone);
        let collected_all: Result<Vec<(Vec<u8>, ValueEntry)>, SstError> = {
            let mut merge = MergeIterator::new(all_sstables.as_slice());
            assert(merge.positions() =~= at_start(readers.len()));
            merge.collect_all()
        };
        let all: Vec<(Vec<u8>, ValueEntry)> = match collected_all {
            Err(e) => {
                let ghost before = op_views(self.pending@);
                self.pending.push(DiskOp::RemoveFile { name: tmp_name(sst_name.as_str()) });
                assert(op_views(self.pending@) =~= before.push(
                    DiskOpView::RemoveFile { name: temp_name(name) },
                ));
                return Err(EngineError::Sst(e));
            },
            Ok(v) => v,
        };
        let kept: Vec<(Vec<u8>, ValueEntry)> = collect_garbage(all, &self.mem);
        let image: Vec<u8> = match SSTableWriter::write_from_iterator(estimated, kept.as_slice()) {
            Err(SstError::Empty) => {
                let ghost before = op_views(self.pending@);
                self.manifest.entries.clear();
                let text: String = self.manifest.save();
                self.pending.push(DiskOp::RemoveFile { name: tmp_name(sst_name.as_str()) });
                self.pending.push(DiskOp::SaveManifest { text });
                self.pending.push(DiskOp::RetainTables { keep: None });
                assert(self.manifest@ =~= Seq::<SstMetaView>::empty());
                assert(op_views(self.pending@) =~= before + clearing_ops(name));
                return Ok(());
            },
            Err(e) => {
                return Err(EngineError::Sst(e));
            },
            Ok(image) => image,
        };
        let image_len: usize = image.len();
        let ghost before = op_views(self.pending@);
        self.manifest.replace_all_with_l1(sst_name.clone());
        let text: String = self.manifest.save();
        self.pending.push(
            DiskOp::WriteTable { name: sst_name.clone(), image: crate::bytes::copy_bytes(image.as_slice()) },
        );
        self.pending.push(DiskOp::SaveManifest { text });
        self.pending.push(DiskOp::RetainTables { keep: Some(sst_name) });
        assert(op_views(self.pending@) =~= before + compaction_ops(name, image@));
        let reader: SSTableReader = match SSTableReader::open(image) {
            Err(e) => {
                return Err(EngineError::Sst(e));
            },
            Ok(r) => r,
        };
        self.l1_sstables.push(reader);
        Ok(())
    }

    /// Compacts all tables into one when the clock says `now`, which is
    /// `None` where it stands before the epoch.
    pub fn compact_now(&mut self, now: Option<u128>) -> (r: Result<(), EngineError>)
        requires
            old(self).wf(),
        ensures
            final(self).wf(),
            compacted_now(old(self)@, final(self)@, now, r),
    {
        let total: usize = self.l0_sstables.len().saturating_add(self.l1_sstables.len());
        if total <= 1 {
            return Ok(());
        }
        match now {
            None => Err(EngineError::Clock),
            Some(ms) => self.compact_at(ms),
        }
    }
}

} // verus!
