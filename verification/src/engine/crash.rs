//! Crashes between disk operations: a flush or a compaction that is cut
//! short after any of its disk operations leaves a disk from which recovery
//! reads what the engine read.
//!
//! This is why the order of the operations matters: the log is truncated
//! only after the table and the manifest are on the disk, and the old
//! tables are removed only after the manifest names the new one.

use crate::engine::{DiskOpView, EngineView};
use crate::engine::compaction::{collected, compacted, compaction_ops, expected_entries};
use crate::engine::disk::DiskView;
use crate::engine::durability::{
    added, held, lemma_apply_three, lemma_held_compacted, lemma_held_flushed, lemma_images_cons,
    lemma_images_same, lemma_names_are_entries, lemma_no_tables, lemma_parse_all_cons,
    lemma_survivors_only, lemma_tables_max_cons, lemma_write_table, listed, logged, mem_of,
};
use crate::engine::laws::lemma_first_hit_shift;
use crate::engine::name_order::lemma_table_name;
use crate::engine::naming::{is_table_name, table_name};
use crate::engine::recovery::{
    images_of, level0_entries, recovery, slot, table_names_desc, table_views,
};
use crate::engine::write::{flush_ops, flushed};
use crate::manifest::{first_at, names_at, saved, SstMetaView};
use crate::memtable::EntryView;
use crate::ordered::lookup;
use crate::sstable::format::SstError;
use crate::sstable::merge::{at_start, merged};
use crate::sstable::reader::TableView;
use crate::sstable::round_trip::lemma_written_table;
use crate::sstable::writer::{image_of, write_outcome};
use crate::wal::WalRecordView;
use vstd::prelude::*;

verus! {

/// The state between the second and the third disk operation of a flush:
/// the table is written and the manifest names it, and the memtable still
/// holds what the log holds.
pub open spec fn half_flushed(pre: EngineView, post: EngineView) -> EngineView {
    EngineView { l0: post.l0, manifest: post.manifest, ..pre }
}

/// A flush that is cut short after its table was written and its manifest
/// saved, before the log is truncated: the disk holds the state in which
/// the new table and the memtable hold the same entries, and every read
/// returns what it returned before the flush.
#[verifier::rlimit(50)]
pub proof fn lemma_flush_cut_before_truncate(
    d: DiskView,
    pre: EngineView,
    post: EngineView,
    records: Seq<WalRecordView>,
    ms: u128,
)
    requires
        held(d, pre, records),
        pre.inv(),
        flushed(pre, post, ms, Ok(())),
        forall|i: int|
            0 <= i < pre.manifest.len() ==> (#[trigger] pre.manifest[i]).filename != table_name(
                pre.seq,
                ms,
            ),
    ensures
        held(
            d.apply(added(pre, post)[0]).apply(added(pre, post)[1]),
            half_flushed(pre, post),
            records,
        ),
        forall|k: Seq<u8>| #[trigger] half_flushed(pre, post).get(k) == pre.get(k),
{
    let name = table_name(pre.seq, ms);
    let pairs = pre.mem_pairs;
    let image = write_outcome(pairs, pairs.len())->Ok_0;
    assert(image == image_of(pairs, pairs.len()));
    let manifest = pre.manifest.insert(
        first_at(pre.manifest, 0, 0),
        SstMetaView { filename: name, level: 0 },
    );
    let w = DiskOpView::WriteTable { name, image };
    let s = DiskOpView::SaveManifest { text: saved(manifest) };
    let t = DiskOpView::TruncateWal;
    assert(added(pre, post) =~= flush_ops(name, image, manifest));
    lemma_held_flushed(d, pre, post, records, ms);
    lemma_apply_three(d, w, s, t);
    let d2 = d.apply(w).apply(s);
    let d3 = d2.apply(t);
    let both = half_flushed(pre, post);
    // The manifest and the files are those after the flush.
    assert(d3.files == d2.files);
    assert(d3.manifest == d2.manifest);
    let names0 = names_at(post.manifest, 0);
    let names1 = names_at(post.manifest, 1);
    lemma_images_same(names0, d2, d3, names0.len() as int);
    lemma_images_same(names1, d2, d3, names1.len() as int);
    assert(post.manifest.len() > 0);
    assert(listed(d2, both));
    // The log is that before the flush.
    assert(d2.wal == d.wal);
    assert(logged(d2, both, records));
    // The reads.
    let t0 = post.l0[0];
    lemma_written_table(pairs, pairs.len(), t0);
    assert(post.l0 =~= seq![t0] + pre.l0);
    assert forall|k: Seq<u8>| #[trigger] both.get(k) == pre.get(k) by {
        assert(t0@.get(k) == Ok::<Option<EntryView>, SstError>(lookup(pairs, k)));
        if !pre.mem_map().contains_key(k) {
            lemma_first_hit_shift(seq![t0], pre.l0, k, 0);
        }
    }
}

/// A flush that is cut short after its table was written, before its
/// manifest is saved: where the manifest holds entries, the disk still
/// holds the state before the flush, since the manifest does not name the
/// new table.
pub proof fn lemma_flush_cut_before_manifest(
    d: DiskView,
    pre: EngineView,
    post: EngineView,
    records: Seq<WalRecordView>,
    ms: u128,
)
    requires
        held(d, pre, records),
        flushed(pre, post, ms, Ok(())),
        pre.manifest.len() > 0,
        forall|i: int|
            0 <= i < pre.manifest.len() ==> (#[trigger] pre.manifest[i]).filename != table_name(
                pre.seq,
                ms,
            ),
    ensures
        held(d.apply(added(pre, post)[0]), pre, records),
{
    let name = table_name(pre.seq, ms);
    let pairs = pre.mem_pairs;
    let image = write_outcome(pairs, pairs.len())->Ok_0;
    let manifest = pre.manifest.insert(
        first_at(pre.manifest, 0, 0),
        SstMetaView { filename: name, level: 0 },
    );
    assert(added(pre, post) =~= flush_ops(name, image, manifest));
    let w = DiskOpView::WriteTable { name, image };
    let d1 = d.apply(w);
    lemma_write_table(d, name, image, name);
    let names0 = names_at(pre.manifest, 0);
    let names1 = names_at(pre.manifest, 1);
    assert forall|i: int| 0 <= i < names0.len() implies d1.file(#[trigger] names0[i]) == d.file(
        names0[i],
    ) by {
        lemma_names_are_entries(pre.manifest, 0, i);
        lemma_write_table(d, name, image, names0[i]);
    }
    assert forall|i: int| 0 <= i < names1.len() implies d1.file(#[trigger] names1[i]) == d.file(
        names1[i],
    ) by {
        lemma_names_are_entries(pre.manifest, 1, i);
        lemma_write_table(d, name, image, names1[i]);
    }
    lemma_images_same(names0, d1, d, names0.len() as int);
    lemma_images_same(names1, d1, d, names1.len() as int);
}

/// The first flush that is cut short after its table was written, before
/// its manifest is saved: without a manifest, recovery finds the new table
/// in the directory, and the memtable in the log; so it finds the state in
/// which both hold the same entries.
#[verifier::rlimit(50)]
pub proof fn lemma_first_flush_cut_before_manifest(
    d: DiskView,
    pre: EngineView,
    post: EngineView,
    records: Seq<WalRecordView>,
    ms: u128,
)
    requires
        held(d, pre, records),
        flushed(pre, post, ms, Ok(())),
        pre.manifest.len() == 0,
    ensures
        recovery(d.apply(added(pre, post)[0])) is Ok,
        recovery(d.apply(added(pre, post)[0]))->Ok_0.mem == mem_of(pre),
        recovery(d.apply(added(pre, post)[0]))->Ok_0.l0 == table_views(post.l0),
        recovery(d.apply(added(pre, post)[0]))->Ok_0.l1 == table_views(post.l1),
        recovery(d.apply(added(pre, post)[0]))->Ok_0.manifest == post.manifest,
{
    let name = table_name(pre.seq, ms);
    let pairs = pre.mem_pairs;
    let image = write_outcome(pairs, pairs.len())->Ok_0;
    let meta = SstMetaView { filename: name, level: 0 };
    let manifest = pre.manifest.insert(first_at(pre.manifest, 0, 0), meta);
    assert(added(pre, post) =~= flush_ops(name, image, manifest));
    let w = DiskOpView::WriteTable { name, image };
    let d1 = d.apply(w);
    lemma_table_name(pre.seq, ms);
    lemma_write_table(d, name, image, name);
    crate::wal::lemma_write_then_replay(records);
    // The new table is the only table file of the directory.
    let kept = crate::engine::disk::survivors(d.files, w);
    lemma_survivors_only(d.files, w);
    crate::engine::reopen::lemma_survivors_subset(d.files, w);
    assert forall|i: int| 0 <= i < kept.len() implies !is_table_name((#[trigger] kept[i]).0) by {
        let j = choose|j: int| 0 <= j < d.files.len() && d.files[j] == kept[i];
        assert(!is_table_name(d.files[j].0));
    }
    assert(d1.files == kept.push((name, image)));
    lemma_no_tables(d1.files, kept.len() as int);
    let n = d1.files.len() as int;
    assert(table_names_desc(d1.files, n - 1) =~= Seq::<Seq<char>>::empty());
    let none = Seq::<Seq<char>>::empty();
    assert(slot(none, name, 0) == 0);
    assert(table_names_desc(d1.files, n) =~= seq![name]);
    let names = table_names_desc(d1.files, n);
    lemma_images_cons(name, none, d1, 0);
    assert(seq![name] + none =~= seq![name]);
    assert(images_of(none, d1, 0) =~= Seq::<Seq<u8>>::empty());
    assert(images_of(names, d1, 1) =~= seq![image]);
    lemma_parse_all_cons(image, Seq::<Seq<u8>>::empty(), 0);
    assert(seq![image] + Seq::<Seq<u8>>::empty() =~= seq![image]);
    let table = post.l0[0]@;
    assert(manifest =~= seq![meta]);
    assert(level0_entries(names) =~= seq![meta]);
    assert(pre.l0.len() == 0) by {
        assert(table_views(pre.l0).len() == pre.l0.len());
        assert(names_at(pre.manifest, 0) =~= none);
        assert(images_of(none, d, 0) =~= Seq::<Seq<u8>>::empty());
    }
    assert(pre.l1.len() == 0) by {
        assert(table_views(pre.l1).len() == pre.l1.len());
        assert(names_at(pre.manifest, 1) =~= none);
        assert(images_of(none, d, 0) =~= Seq::<Seq<u8>>::empty());
    }
    assert(table_views(post.l0) =~= seq![table] + Seq::<TableView>::empty());
    assert(table_views(post.l1) =~= Seq::<TableView>::empty());
    crate::engine::durability::lemma_written_footer(pairs, pairs.len());
    lemma_tables_max_cons(table, Seq::<TableView>::empty(), 0);
    assert(d1.manifest == d.manifest);
    assert(d1.wal == d.wal);
}

/// A compaction that is cut short after the new table was written, before
/// the manifest is saved, leaves a disk that holds the state before the
/// compaction; cut short after the manifest was saved, before the old
/// tables are removed, it leaves a disk that holds the state after it.
#[verifier::rlimit(50)]
pub proof fn lemma_compaction_cut(
    d: DiskView,
    pre: EngineView,
    post: EngineView,
    records: Seq<WalRecordView>,
    ms: u128,
)
    requires
        held(d, pre, records),
        compacted(pre, post, ms, Ok(())),
        post.l1.len() == 1,
        pre.l0.len() + pre.l1.len() > 1,
        forall|i: int|
            0 <= i < pre.manifest.len() ==> (#[trigger] pre.manifest[i]).filename != table_name(
                pre.seq,
                ms,
            ),
    ensures
        held(d.apply(added(pre, post)[0]), pre, records),
        held(d.apply(added(pre, post)[0]).apply(added(pre, post)[1]), post, records),
{
    let readers = pre.l0 + pre.l1;
    let name = table_name(pre.seq, ms);
    let all = merged(readers, at_start(readers.len()))->Ok_0;
    let kept = collected(all, pre.mem_map());
    let expected = expected_entries(readers);
    let image = write_outcome(kept, expected)->Ok_0;
    assert(write_outcome(kept, expected) is Ok);
    let manifest = seq![SstMetaView { filename: name, level: 1 }];
    let w = DiskOpView::WriteTable { name, image };
    let s = DiskOpView::SaveManifest { text: saved(manifest) };
    let r = DiskOpView::RetainTables { keep: Some(name) };
    assert(post.pending == pre.pending + compaction_ops(name, image));
    assert(added(pre, post) =~= seq![w, s, r]);
    lemma_held_compacted(d, pre, post, records, ms);
    lemma_apply_three(d, w, s, r);
    let d1 = d.apply(w);
    let d2 = d1.apply(s);
    let d3 = d2.apply(r);
    // After the table was written.
    lemma_write_table(d, name, image, name);
    let names0 = names_at(pre.manifest, 0);
    let names1 = names_at(pre.manifest, 1);
    assert forall|i: int| 0 <= i < names0.len() implies d1.file(#[trigger] names0[i]) == d.file(
        names0[i],
    ) by {
        lemma_names_are_entries(pre.manifest, 0, i);
        lemma_write_table(d, name, image, names0[i]);
    }
    assert forall|i: int| 0 <= i < names1.len() implies d1.file(#[trigger] names1[i]) == d.file(
        names1[i],
    ) by {
        lemma_names_are_entries(pre.manifest, 1, i);
        lemma_write_table(d, name, image, names1[i]);
    }
    lemma_images_same(names0, d1, d, names0.len() as int);
    lemma_images_same(names1, d1, d, names1.len() as int);
    assert(pre.manifest.len() > 0) by {
        if pre.manifest.len() == 0 {
            let none = Seq::<Seq<char>>::empty();
            assert(names0 =~= none);
            assert(names1 =~= none);
            assert(images_of(none, d, 0) =~= Seq::<Seq<u8>>::empty());
            assert(table_views(pre.l0).len() == pre.l0.len());
            assert(table_views(pre.l1).len() == pre.l1.len());
        }
    }
    assert(held(d1, pre, records));
    // After the manifest was saved.
    crate::engine::durability::lemma_retain_tables(d2, Some(name));
    assert(d2.files == d1.files);
    let new0 = names_at(post.manifest, 0);
    let new1 = names_at(post.manifest, 1);
    assert(post.manifest == manifest);
    assert(manifest.drop_last() =~= Seq::<SstMetaView>::empty());
    assert(names_at(manifest.drop_last(), 0) =~= Seq::<Seq<char>>::empty());
    assert(names_at(manifest.drop_last(), 1) =~= Seq::<Seq<char>>::empty());
    assert(new0 =~= Seq::<Seq<char>>::empty());
    assert(new1 =~= seq![name]);
    assert(d2.file(name) == d3.file(name));
    lemma_images_same(new0, d2, d3, new0.len() as int);
    lemma_images_same(new1, d2, d3, new1.len() as int);
    assert(d2.manifest == d3.manifest);
    assert(d2.wal == d.wal);
    assert(listed(d2, post));
    assert(logged(d2, post, records));
}

} // verus!
