//! Reopening: what an engine that is opened on a disk starts from.
//!
//! An engine that is opened on an empty disk meets the invariant, and the
//! disk holds its state. An engine that is opened on a disk which holds the
//! state of an engine that met the invariant meets it too, and reads as
//! that engine did.

use crate::engine::{DiskOpView, EngineError, EngineView, tables_wf};
use crate::engine::compaction::compacted;
use crate::engine::disk::{DiskView, FileView, survivors};
use crate::engine::durability::{
    added, empty_mem, fresh_names, held, lemma_added_chain, lemma_apply_concat, lemma_apply_one,
    lemma_held_applied, lemma_held_compacted, lemma_held_flushed, lemma_images_same,
    lemma_recovery, lemma_same_reads, lemma_survivors_file, lemma_tables_max,
    lemma_tables_max_cons, listed, logged, no_tables, stored_seq,
};
use crate::engine::laws::{
    lemma_applied, lemma_compacted_keeps, lemma_flushed, lemma_get_newest, lemma_max_seq_of,
};
use crate::engine::naming::{is_table_name, is_temp_name};
use crate::engine::recovery::{
    cleanup_ops, later, max_record_seq, record_seq, recovered, recovery, replayed, table_max_seq,
    table_views,
};
use crate::engine::write::{
    after_flush, applied, compaction_due, flush_cycle_now, flushed, force_flushed, mutated,
    record_of,
};
use crate::manifest::names_at;
use crate::memtable::EntryView;
use crate::ordered::{ascending, has_key, index_of, lemma_lookup_at};
use crate::sstable::merge_laws::{all_sound, entry_of, sound};
use crate::sstable::reader::{SSTableReader, TableView};
use crate::sstable::round_trip::readable;
use crate::wal::{log_of, WalRecordView};
use vstd::prelude::*;

verus! {

/// No entry of a memtable that a log replays to has a sequence number above
/// the highest in the log, and one has that number unless the log is empty.
pub proof fn lemma_replayed_seq(records: Seq<WalRecordView>)
    ensures
        forall|k: Seq<u8>|
            (#[trigger] replayed(records, empty_mem()).map.contains_key(k)) ==> replayed(
                records,
                empty_mem(),
            ).map[k].seq <= max_record_seq(records),
        records.len() > 0 ==> exists|k: Seq<u8>|
            #[trigger] replayed(records, empty_mem()).map.contains_key(k) && replayed(
                records,
                empty_mem(),
            ).map[k].seq == max_record_seq(records),
    decreases records.len(),
{
    if records.len() > 0 {
        let init = records.drop_last();
        let last = records.last();
        lemma_replayed_seq(init);
        let before = replayed(init, empty_mem());
        let after = replayed(records, empty_mem());
        let key = match last {
            WalRecordView::Put { seq, key, value } => key,
            WalRecordView::Del { seq, key } => key,
        };
        let seq = record_seq(last);
        assert forall|k: Seq<u8>| (#[trigger] after.map.contains_key(k)) implies after.map[k].seq
            <= max_record_seq(records) by {
            if before.map.contains_key(k) {
                assert(before.map[k].seq <= max_record_seq(init));
            }
        }
        if seq > max_record_seq(init) {
            // The last record has the highest number, and is not stale.
            if before.map.contains_key(key) {
                assert(before.map[key].seq <= max_record_seq(init));
            }
            assert(after.map.contains_key(key) && after.map[key].seq == seq);
        } else if init.len() > 0 {
            let k = choose|k: Seq<u8>|
                #[trigger] before.map.contains_key(k) && before.map[k].seq == max_record_seq(init);
            // An entry with the highest number is replaced by none with a lower one.
            assert(after.map.contains_key(k) && after.map[k].seq == max_record_seq(records));
        } else {
            assert(after.map.contains_key(key) && after.map[key].seq == seq);
        }
    }
}

/// Removing the temporary table files leaves every other file as it was,
/// and adds no file.
pub proof fn lemma_cleanup(d: DiskView, n: int, name: Seq<char>)
    requires
        0 <= n <= d.files.len(),
        !is_temp_name(name),
    ensures
        d.apply_all(cleanup_ops(d.files, n)).file(name) == d.file(name),
        d.apply_all(cleanup_ops(d.files, n)).wal == d.wal,
        d.apply_all(cleanup_ops(d.files, n)).manifest == d.manifest,
        no_tables(d) ==> no_tables(d.apply_all(cleanup_ops(d.files, n))),
    decreases n,
{
    if n > 0 {
        lemma_cleanup(d, n - 1, name);
        let before = d.apply_all(cleanup_ops(d.files, n - 1));
        if is_temp_name(d.files[n - 1].0) {
            let op = DiskOpView::RemoveFile { name: d.files[n - 1].0 };
            let ops = cleanup_ops(d.files, n);
            assert(ops.drop_last() =~= cleanup_ops(d.files, n - 1));
            assert(ops.last() == op);
            lemma_survivors_file(before.files, op, name);
            if no_tables(d) {
                lemma_survivors_subset(before.files, op);
            }
        }
    }
}

/// Every file that outlasts an operation was there before.
pub proof fn lemma_survivors_subset(files: Seq<FileView>, op: DiskOpView)
    ensures
        forall|i: int|
            0 <= i < survivors(files, op).len() ==> exists|j: int|
                0 <= j < files.len() && files[j] == #[trigger] survivors(files, op)[i],
    decreases files.len(),
{
    let out = survivors(files, op);
    if files.len() > 0 {
        let init = files.drop_last();
        let kept = survivors(init, op);
        lemma_survivors_subset(init, op);
        assert forall|i: int| 0 <= i < out.len() implies exists|j: int|
            0 <= j < files.len() && files[j] == #[trigger] out[i] by {
            if i < kept.len() {
                let j = choose|j: int| 0 <= j < init.len() && init[j] == kept[i];
                assert(files[j] == out[i]);
            } else {
                assert(files[files.len() - 1] == out[i]);
            }
        }
    }
}

/// The name of a table file is not that of a temporary file.
pub proof fn lemma_table_not_temp(name: Seq<char>)
    requires
        is_table_name(name),
    ensures
        !is_temp_name(name),
{
    if is_temp_name(name) {
        let n = name.len() as int;
        assert(name.subrange(n - 4, n)[3] == 't');
        assert(name.subrange(n - 8, n)[7] == 'p');
    }
}

/// Tables with the same views as sound, well-formed tables are sound.
pub proof fn lemma_sound_views(a: Seq<SSTableReader>, b: Seq<SSTableReader>)
    requires
        table_views(a) == table_views(b),
        all_sound(b),
        tables_wf(a),
    ensures
        all_sound(a),
        forall|i: int, k: Seq<u8>|
            0 <= i < a.len() ==> #[trigger] entry_of(a[i], k) == entry_of(b[i], k),
{
    assert(a.len() == table_views(a).len());
    assert(b.len() == table_views(b).len());
    assert forall|i: int| 0 <= i < a.len() implies sound(#[trigger] a[i]) && a[i]@ == b[i]@ by {
        assert(a[i]@ == table_views(a)[i]);
        assert(b[i]@ == table_views(b)[i]);
        assert(sound(b[i]));
        a[i].lemma_sorted_index();
        b[i].lemma_sorted_index();
    }
}

/// Reopening: an engine that is opened on a disk which holds the state of
/// an engine that met the invariant meets the invariant, reads as that
/// engine read, and has its levels and its manifest; the disk, with the
/// disk operations of the opening performed, holds its state. Its sequence
/// number is the highest that the log or a table knows.
#[verifier::rlimit(50)]
pub proof fn lemma_reopened(
    d: DiskView,
    e: EngineView,
    records: Seq<WalRecordView>,
    again: EngineView,
)
    requires
        held(d, e, records),
        e.inv(),
        recovery(d) is Ok ==> recovered(
            again,
            recovery(d)->Ok_0,
            again.flush_threshold,
            again.wal_sync,
        ),
        ascending(again.mem_pairs),
        tables_wf(again.l0),
        tables_wf(again.l1),
    ensures
        recovery(d) is Ok,
        again.inv(),
        held(d.apply_all(again.pending), again, records),
        again.seq == later(max_record_seq(records), stored_seq(e)),
        again.manifest == e.manifest,
        table_views(again.l0) == table_views(e.l0),
        table_views(again.l1) == table_views(e.l1),
        forall|k: Seq<u8>| #[trigger] again.get(k) == e.get(k),
{
    lemma_recovery(d, e, records);
    let found = recovery(d)->Ok_0;
    assert forall|k: Seq<u8>| #[trigger] again.get(k) == e.get(k) by {
        lemma_same_reads(again, e, k);
    }
    // The invariant.
    let mine = again.tables();
    let theirs = e.tables();
    assert(table_views(mine) =~= table_views(again.l0) + table_views(again.l1));
    assert(table_views(theirs) =~= table_views(e.l0) + table_views(e.l1));
    assert(tables_wf(mine));
    lemma_sound_views(mine, theirs);
    assert(mine.len() == table_views(mine).len());
    assert(theirs.len() == table_views(theirs).len());
    assert forall|j: int| 0 <= j < mine.len() implies (#[trigger] mine[j])@ == theirs[j]@ by {
        assert(mine[j]@ == table_views(mine)[j]);
        assert(theirs[j]@ == table_views(theirs)[j]);
    }
    assert forall|i: int| 0 <= i < again.mem_pairs.len() implies readable(
        #[trigger] again.mem_pairs[i],
    ) by {
        lemma_lookup_at(again.mem_pairs, i);
        let k = again.mem_pairs[i].0;
        assert(again.mem_map() == e.mem_map());
        assert(again.mem_map().contains_key(k));
        assert(again.mem_map()[k] == again.mem_pairs[i].1);
        assert(e.mem_map().contains_key(k));
        let j = index_of(e.mem_pairs, k);
        lemma_lookup_at(e.mem_pairs, j);
        assert(e.mem_map()[k] == e.mem_pairs[j].1);
        assert(readable(e.mem_pairs[j]));
        assert(again.mem_pairs[i] == e.mem_pairs[j]);
    }
    assert(again.layered());
    assert(again.faithful());
    lemma_replayed_seq(records);
    lemma_tables_max(table_views(theirs), theirs.len() as int);
    assert(again.bounded()) by {
        assert forall|i: int| 0 <= i < again.mem_pairs.len() implies (
        #[trigger] again.mem_pairs[i]).1.seq <= again.seq by {
            lemma_lookup_at(again.mem_pairs, i);
            let k = again.mem_pairs[i].0;
            assert(replayed(records, empty_mem()).map.contains_key(k));
        }
        assert forall|key: Seq<u8>, j: int|
            0 <= j < mine.len() && (#[trigger] entry_of(mine[j], key)) is Some implies entry_of(
            mine[j],
            key,
        )->Some_0.seq <= again.seq by {
            assert(entry_of(theirs[j], key) == entry_of(mine[j], key));
            assert(table_max_seq(theirs[j]@) is Ok);
            assert(table_views(theirs)[j] == theirs[j]@);
        }
    }
    // The disk.
    let ops = cleanup_ops(d.files, d.files.len() as int);
    let create = DiskOpView::CreateWal;
    assert(again.pending == ops.push(create));
    assert(ops.push(create) =~= ops + seq![create]);
    lemma_apply_concat(d, ops, seq![create]);
    lemma_apply_one(d.apply_all(ops), create);
    let d1 = d.apply_all(ops);
    let d2 = d1.apply(create);
    assert(d2 == d.apply_all(again.pending));
    assert(!is_temp_name(seq!['x']));
    lemma_cleanup(d, d.files.len() as int, seq!['x']);
    assert(d2.files == d1.files);
    let names0 = names_at(e.manifest, 0);
    let names1 = names_at(e.manifest, 1);
    assert forall|i: int| 0 <= i < names0.len() implies d2.file(#[trigger] names0[i]) == d.file(
        names0[i],
    ) by {
        crate::engine::durability::lemma_names_are_entries(e.manifest, 0, i);
        lemma_table_not_temp(names0[i]);
        lemma_cleanup(d, d.files.len() as int, names0[i]);
    }
    assert forall|i: int| 0 <= i < names1.len() implies d2.file(#[trigger] names1[i]) == d.file(
        names1[i],
    ) by {
        crate::engine::durability::lemma_names_are_entries(e.manifest, 1, i);
        lemma_table_not_temp(names1[i]);
        lemma_cleanup(d, d.files.len() as int, names1[i]);
    }
    lemma_images_same(names0, d2, d, names0.len() as int);
    lemma_images_same(names1, d2, d, names1.len() as int);
    assert(logged(d2, again, records));
    assert(listed(d2, again));
}

/// A fresh start: an engine that is opened on an empty disk holds nothing,
/// starts from sequence number 0 and meets the invariant; the disk, with
/// the disk operations of the opening performed, holds its state.
#[verifier::rlimit(50)]
pub proof fn lemma_fresh(again: EngineView)
    requires
        recovered(
            again,
            recovery(DiskView { wal: None, manifest: None, files: Seq::empty() })->Ok_0,
            again.flush_threshold,
            again.wal_sync,
        ),
        ascending(again.mem_pairs),
    ensures
        recovery(DiskView { wal: None, manifest: None, files: Seq::empty() }) is Ok,
        again.inv(),
        again.seq == 0,
        again.mem_pairs.len() == 0,
        again.l0.len() == 0,
        again.l1.len() == 0,
        held(
            (DiskView { wal: None, manifest: None, files: Seq::empty() }).apply_all(again.pending),
            again,
            Seq::empty(),
        ),
{
    let d = DiskView { wal: None, manifest: None, files: Seq::empty() };
    let none = Seq::<Seq<char>>::empty();
    assert(crate::engine::recovery::table_names_desc(d.files, 0) =~= none);
    assert(crate::engine::recovery::images_of(none, d, 0) =~= Seq::<Seq<u8>>::empty());
    let found = recovery(d)->Ok_0;
    assert(recovery(d) is Ok);
    if again.mem_pairs.len() > 0 {
        assert(has_key(again.mem_pairs, again.mem_pairs[0].0));
        assert(again.mem_map().contains_key(again.mem_pairs[0].0));
    }
    assert(table_views(again.l0).len() == again.l0.len());
    assert(table_views(again.l1).len() == again.l1.len());
    assert(again.tables() =~= Seq::<SSTableReader>::empty());
    assert(table_views(again.l0) + table_views(again.l1) =~= Seq::<TableView>::empty());
    let create = DiskOpView::CreateWal;
    assert(cleanup_ops(d.files, 0) =~= Seq::<DiskOpView>::empty());
    assert(again.pending =~= seq![create]);
    lemma_apply_one(d, create);
    let d1 = d.apply(create);
    assert(log_of(Seq::<WalRecordView>::empty()) =~= Seq::<u8>::empty());
    assert(again.mem_map() =~= Map::<Seq<u8>, EntryView>::empty());
    assert(names_at(again.manifest, 0) =~= none);
    assert(names_at(again.manifest, 1) =~= none);
    assert(crate::engine::recovery::images_of(none, d1, 0) =~= Seq::<Seq<u8>>::empty());
    assert(logged(d1, again, Seq::empty()));
    assert(crate::engine::recovery::level0_entries(none) =~= Seq::<
        crate::manifest::SstMetaView,
    >::empty());
    assert(again.manifest =~= Seq::<crate::manifest::SstMetaView>::empty());
    assert(table_views(again.l0) =~= Seq::<TableView>::empty());
    assert(table_views(again.l1) =~= Seq::<TableView>::empty());
    assert(d1.manifest is None);
    assert(d1.files =~= Seq::<FileView>::empty());
    assert(no_tables(d1));
    assert(listed(d1, again));
}

/// Recovery of the sequence number: after a mutation that succeeded, an
/// engine that is opened on the disk, with the disk operations of the
/// mutation performed, goes on from a sequence number that is no lower
/// than that of the mutation. It holds of every `set`, and of a `del` that
/// started no compaction; a compaction may drop the tombstone of a `del`,
/// and with it the only trace of its sequence number.
#[verifier::rlimit(50)]
pub proof fn lemma_reopen_seq(
    d: DiskView,
    pre: EngineView,
    post: EngineView,
    records: Seq<WalRecordView>,
    key: Seq<u8>,
    value: Option<Seq<u8>>,
    now: Option<u128>,
)
    requires
        held(d, pre, records),
        pre.inv(),
        mutated(pre, post, key, value, now, Ok(())),
        fresh_names(pre, now),
        value is Some || pre.l0_compaction_trigger == 0,
    ensures
        recovery(d.apply_all(added(pre, post))) is Ok,
        recovery(d.apply_all(added(pre, post)))->Ok_0.seq >= post.seq,
{
    let mid = choose|mid: EngineView| #[trigger]
        applied(pre, mid, key, value) && (if mid.mem_size >= mid.flush_threshold {
            flush_cycle_now(mid, post, now, Ok(()))
        } else {
            post == mid
        });
    lemma_held_applied(d, pre, mid, records, key, value);
    lemma_applied(pre, mid, key, value);
    let logged_records = records.push(record_of(mid.seq, key, value));
    let d1 = d.apply_all(added(pre, mid));
    if mid.mem_size >= mid.flush_threshold {
        let ms = now->Some_0;
        let (f, first) = choose|m: EngineView, first: Result<(), EngineError>| #[trigger]
            flushed(mid, m, ms, first) && (if first is Ok && compaction_due(m) {
                compacted(m, post, after_flush(ms), Ok(()))
            } else {
                post == m && Ok::<(), EngineError>(()) == first
            });
        assert(mid.manifest == pre.manifest);
        lemma_held_flushed(d1, mid, f, logged_records, ms);
        lemma_flushed(mid, f, ms);
        let d2 = d1.apply_all(added(mid, f));
        lemma_added_chain(pre, mid, f);
        lemma_apply_concat(d, added(pre, mid), added(mid, f));
        // The flushed table knows the sequence number of the mutation.
        let i = index_of(mid.mem_pairs, key);
        lemma_lookup_at(mid.mem_pairs, i);
        lemma_max_seq_of(mid.mem_pairs);
        assert(stored_seq(f) >= mid.seq);
        if first is Ok && compaction_due(f) {
            lemma_held_compacted(d2, f, post, Seq::empty(), after_flush(ms));
            lemma_added_chain(pre, f, post);
            lemma_apply_concat(d, added(pre, f), added(f, post));
            lemma_recovery(d.apply_all(added(pre, post)), post, Seq::empty());
            if f.l0.len() + f.l1.len() > 1 {
                // The compaction keeps the value that was set.
                lemma_get_newest(mid, key);
                assert(f.get(key) == mid.get(key));
                assert(!f.mem_map().contains_key(key)) by {
                    if has_key(f.mem_pairs, key) {
                        let j = index_of(f.mem_pairs, key);
                    }
                }
                lemma_compacted_keeps(f, post, after_flush(ms), key);
                let table = post.l1[0]@;
                assert(table_views(post.l0) =~= Seq::<TableView>::empty());
                assert(table_views(post.l1) =~= seq![table] + Seq::<TableView>::empty());
                assert(table_views(post.l0) + table_views(post.l1) =~= seq![table]
                    + Seq::<TableView>::empty());
                lemma_tables_max_cons(table, Seq::<TableView>::empty(), 0);
            }
        } else {
            lemma_recovery(d.apply_all(added(pre, post)), post, Seq::empty());
        }
    } else {
        lemma_recovery(d.apply_all(added(pre, post)), post, logged_records);
    }
}

/// Manifest fidelity of a forced flush: once the disk operations of a
/// forced flush that succeeded were performed, the disk holds the state
/// after it, so that an engine opened on it has the same levels.
#[verifier::rlimit(50)]
pub proof fn lemma_held_force_flushed(
    d: DiskView,
    pre: EngineView,
    post: EngineView,
    records: Seq<WalRecordView>,
    now: Option<u128>,
)
    requires
        held(d, pre, records),
        force_flushed(pre, post, now, Ok(())),
        now is Some ==> forall|i: int|
            0 <= i < pre.manifest.len() ==> (#[trigger] pre.manifest[i]).filename
                != crate::engine::naming::table_name(pre.seq, now->Some_0),
    ensures
        exists|after: Seq<WalRecordView>| #[trigger]
            held(d.apply_all(added(pre, post)), post, after),
{
    if pre.mem_pairs.len() == 0 {
        assert(added(pre, post) =~= Seq::<DiskOpView>::empty());
        assert(d.apply_all(Seq::<DiskOpView>::empty()) == d);
        assert(held(d.apply_all(added(pre, post)), post, records));
    } else {
        let ms = now->Some_0;
        let (f, first) = choose|m: EngineView, first: Result<(), EngineError>| #[trigger]
            flushed(pre, m, ms, first) && (if first is Ok && compaction_due(m) {
                compacted(m, post, after_flush(ms), Ok(()))
            } else {
                post == m && Ok::<(), EngineError>(()) == first
            });
        lemma_held_flushed(d, pre, f, records, ms);
        let d1 = d.apply_all(added(pre, f));
        if first is Ok && compaction_due(f) {
            lemma_held_compacted(d1, f, post, Seq::empty(), after_flush(ms));
            lemma_added_chain(pre, f, post);
            lemma_apply_concat(d, added(pre, f), added(f, post));
            assert(held(d.apply_all(added(pre, post)), post, Seq::empty()));
        } else {
            assert(held(d.apply_all(added(pre, post)), post, Seq::empty()));
        }
    }
}

} // verus!
