//! Durability: what the disk holds after the engine's disk operations were
//! performed, and what recovery makes of it.
//!
//! A disk holds an engine's state if the log replays to the engine's
//! memtable, the manifest reads as the engine's manifest, and the files
//! that the manifest names open as the engine's tables. Every operation of
//! the engine that succeeds keeps the disk holding its state, once its disk
//! operations were performed; and recovery on a disk that holds a state
//! gives that state back.

use crate::bloom::one_percent_filter;
use crate::engine::{DiskOpView, EngineError, EngineView, MAX_VALUE_SIZE};
use crate::engine::compaction::{
    clearing_ops, collected, compacted, compaction_ops, expected_entries,
};
use crate::engine::disk::{DiskView, file_among, FileView, survives, survivors};
use crate::engine::name_order::lemma_table_name;
use crate::engine::naming::{is_table_name, table_name};
use crate::engine::read::first_hit;
use crate::engine::recovery::{
    disk_wal, images_of, later, level0_entries, max_record_seq, parse_all, recovery, replayed,
    table_max_seq, table_names_desc, table_views, tables_max_seq,
};
use crate::engine::write::{
    after_flush, applied, compaction_due, flush_cycle_now, flush_ops, flushed, key_error, mutated,
    record_of,
};
use crate::manifest::{first_at, ManifestError, names_at, parse_manifest, saved, SstMetaView};
use crate::manifest::laws::{clean_entries, clean_name, lemma_save_then_load};
use crate::memtable::{EntryView, MemView};
use crate::sstable::format::{Footer, lemma_footer_round_trip, SstError};
use crate::sstable::merge::{at_start, merged};
use crate::sstable::reader::{parse_table, SSTableReader, TableView};
use crate::sstable::writer::{
    data_section, filter_of, image_of, index_section, max_seq_of, write_outcome,
};
use crate::wal::{frame_of, lemma_write_then_replay, log_of, replayable, WalError, WalRecordView};
use vstd::prelude::*;

verus! {

/// The files named `name` are the same among the files that outlast an
/// operation which does not touch that name.
pub proof fn lemma_survivors_file(files: Seq<FileView>, op: DiskOpView, name: Seq<char>)
    requires
        forall|image: Seq<u8>| survives((name, image), op),
    ensures
        file_among(survivors(files, op), name, survivors(files, op).len() as int) == file_among(
            files,
            name,
            files.len() as int,
        ),
    decreases files.len(),
{
    if files.len() > 0 {
        let init = files.drop_last();
        let last = files.last();
        lemma_survivors_file(init, op, name);
        lemma_file_among_prefix(files, init, name, init.len() as int);
        let kept = survivors(init, op);
        if survives(last, op) {
            let out = kept.push(last);
            lemma_file_among_prefix(out, kept, name, kept.len() as int);
        } else {
            assert(last.0 != name) by {
                if last.0 == name {
                    assert(survives((name, last.1), op));
                }
            }
        }
    }
}

/// The first file of a name among the first `n` files is the same in any
/// sequence that starts with those files.
pub proof fn lemma_file_among_prefix(long: Seq<FileView>, short: Seq<FileView>, name: Seq<char>, n: int)
    requires
        0 <= n <= short.len() <= long.len(),
        forall|i: int| 0 <= i < n ==> long[i] == short[i],
    ensures
        file_among(long, name, n) == file_among(short, name, n),
    decreases n,
{
    if n > 0 {
        lemma_file_among_prefix(long, short, name, n - 1);
    }
}

/// No file that outlasts an operation is one that the operation removes.
pub proof fn lemma_survivors_only(files: Seq<FileView>, op: DiskOpView)
    ensures
        forall|i: int|
            0 <= i < survivors(files, op).len() ==> survives(#[trigger] survivors(files, op)[i], op),
    decreases files.len(),
{
    let out = survivors(files, op);
    if files.len() > 0 {
        let kept = survivors(files.drop_last(), op);
        lemma_survivors_only(files.drop_last(), op);
        assert forall|i: int| 0 <= i < out.len() implies survives(#[trigger] out[i], op) by {
            if i < kept.len() {
                assert(out[i] == kept[i]);
            } else {
                assert(out[i] == files.last());
            }
        }
    }
}

/// Among files none of which has the name, no file of the name is found.
pub proof fn lemma_file_absent(files: Seq<FileView>, name: Seq<char>, n: int)
    requires
        0 <= n <= files.len(),
        forall|i: int| 0 <= i < n ==> (#[trigger] files[i]).0 != name,
    ensures
        file_among(files, name, n) is None,
    decreases n,
{
    if n > 0 {
        lemma_file_absent(files, name, n - 1);
    }
}

/// After a table file was written, the file of its name has the content
/// that was written, and every other file is as before.
pub proof fn lemma_write_table(d: DiskView, name: Seq<char>, image: Seq<u8>, other: Seq<char>)
    ensures
        d.apply(DiskOpView::WriteTable { name, image }).file(name) == Some(image),
        other != name ==> d.apply(DiskOpView::WriteTable { name, image }).file(other) == d.file(
            other,
        ),
        d.apply(DiskOpView::WriteTable { name, image }).wal == d.wal,
        d.apply(DiskOpView::WriteTable { name, image }).manifest == d.manifest,
{
    let op = DiskOpView::WriteTable { name, image };
    let kept = survivors(d.files, op);
    let after = kept.push((name, image));
    lemma_survivors_only(d.files, op);
    lemma_file_absent(kept, name, kept.len() as int);
    lemma_file_among_prefix(after, kept, name, kept.len() as int);
    if other != name {
        lemma_survivors_file(d.files, op, other);
        lemma_file_among_prefix(after, kept, other, kept.len() as int);
    }
}

/// After every table file but `keep` was removed, the file `keep` is as
/// before, and no other table file is left.
pub proof fn lemma_retain_tables(d: DiskView, keep: Option<Seq<char>>)
    ensures
        keep is Some ==> d.apply(DiskOpView::RetainTables { keep }).file(keep->Some_0) == d.file(
            keep->Some_0,
        ),
        forall|i: int|
            0 <= i < d.apply(DiskOpView::RetainTables { keep }).files.len() ==> !is_table_name(
                (#[trigger] d.apply(DiskOpView::RetainTables { keep }).files[i]).0,
            ) || keep == Some(d.apply(DiskOpView::RetainTables { keep }).files[i].0),
        d.apply(DiskOpView::RetainTables { keep }).wal == d.wal,
        d.apply(DiskOpView::RetainTables { keep }).manifest == d.manifest,
{
    let op = DiskOpView::RetainTables { keep };
    lemma_survivors_only(d.files, op);
    if keep is Some {
        lemma_survivors_file(d.files, op, keep->Some_0);
    }
}

/// Among files none of which is a table file, no table name is found.
pub proof fn lemma_no_tables(files: Seq<FileView>, n: int)
    requires
        0 <= n <= files.len(),
        forall|i: int| 0 <= i < n ==> !is_table_name((#[trigger] files[i]).0),
    ensures
        table_names_desc(files, n) == Seq::<Seq<char>>::empty(),
    decreases n,
{
    if n > 0 {
        lemma_no_tables(files, n - 1);
    }
}

/// After a table was added at level 0, the names of level 0 are its name
/// and then those before it, and the names of level 1 are as before.
pub proof fn lemma_names_after_add(entries: Seq<SstMetaView>, name: Seq<char>)
    requires
        forall|i: int| 0 <= i < entries.len() ==> (#[trigger] entries[i]).level <= 1,
    ensures
        names_at(
            entries.insert(first_at(entries, 0, 0), SstMetaView { filename: name, level: 0 }),
            0,
        ) == seq![name] + names_at(entries, 0),
        names_at(
            entries.insert(first_at(entries, 0, 0), SstMetaView { filename: name, level: 0 }),
            1,
        ) == names_at(entries, 1),
{
    let pos = first_at(entries, 0, 0);
    crate::engine::write::lemma_first_at_range(entries, 0, 0);
    lemma_first_at(entries, 0, 0);
    let meta = SstMetaView { filename: name, level: 0 };
    let after = entries.insert(pos, meta);
    lemma_names_insert(entries, pos, meta, 0);
    lemma_names_insert(entries, pos, meta, 1);
    lemma_names_none(entries.take(pos), 0);
    assert(seq![name] + names_at(entries.skip(pos), 0) =~= Seq::<Seq<char>>::empty() + seq![name]
        + names_at(entries.skip(pos), 0));
    lemma_names_split(entries, pos, 0);
    assert(Seq::<Seq<char>>::empty() + names_at(entries.skip(pos), 0) =~= names_at(
        entries.skip(pos),
        0,
    ));
    lemma_names_split(entries, pos, 1);
}

/// Before the first entry of a level there is no entry of that level.
pub proof fn lemma_first_at(entries: Seq<SstMetaView>, level: u32, from: int)
    requires
        0 <= from <= entries.len(),
    ensures
        forall|i: int|
            from <= i < first_at(entries, level, from) ==> (#[trigger] entries[i]).level != level,
    decreases entries.len() - from,
{
    if from < entries.len() && entries[from].level != level {
        lemma_first_at(entries, level, from + 1);
    }
}

/// Entries of which none is at a level have no name at that level.
pub proof fn lemma_names_none(entries: Seq<SstMetaView>, level: u32)
    requires
        forall|i: int| 0 <= i < entries.len() ==> (#[trigger] entries[i]).level != level,
    ensures
        names_at(entries, level) == Seq::<Seq<char>>::empty(),
    decreases entries.len(),
{
    if entries.len() > 0 {
        let init = entries.drop_last();
        assert forall|i: int| 0 <= i < init.len() implies (#[trigger] init[i]).level != level by {
            assert(init[i] == entries[i]);
        }
        lemma_names_none(init, level);
    }
}

/// The names at a level are those before a position and then those from it
/// on.
pub proof fn lemma_names_split(entries: Seq<SstMetaView>, pos: int, level: u32)
    requires
        0 <= pos <= entries.len(),
    ensures
        names_at(entries, level) == names_at(entries.take(pos), level) + names_at(
            entries.skip(pos),
            level,
        ),
    decreases entries.len() - pos,
{
    let tail = entries.skip(pos);
    if pos == entries.len() {
        assert(entries.take(pos) =~= entries);
        assert(tail =~= Seq::<SstMetaView>::empty());
        assert(names_at(entries, level) + Seq::<Seq<char>>::empty() =~= names_at(entries, level));
    } else {
        let init = entries.drop_last();
        lemma_names_split(init, pos, level);
        assert(init.take(pos) =~= entries.take(pos));
        assert(tail.drop_last() =~= init.skip(pos));
        assert(tail.last() == entries.last());
        let a = names_at(entries.take(pos), level);
        let b = names_at(init.skip(pos), level);
        if entries.last().level == level {
            assert((a + b).push(entries.last().filename) =~= a + b.push(entries.last().filename));
        }
    }
}

/// The names at a level after an entry was inserted.
pub proof fn lemma_names_insert(entries: Seq<SstMetaView>, pos: int, meta: SstMetaView, level: u32)
    requires
        0 <= pos <= entries.len(),
    ensures
        names_at(entries.insert(pos, meta), level) == names_at(entries.take(pos), level) + (if meta.level
            == level {
            seq![meta.filename]
        } else {
            Seq::empty()
        }) + names_at(entries.skip(pos), level),
{
    let after = entries.insert(pos, meta);
    lemma_names_split(after, pos, level);
    lemma_names_split(after.skip(pos), 1, level);
    assert(after.take(pos) =~= entries.take(pos));
    assert(after.skip(pos).skip(1) =~= entries.skip(pos));
    let one = after.skip(pos).take(1);
    assert(one =~= seq![meta]);
    assert(one.drop_last() =~= Seq::<SstMetaView>::empty());
    assert(names_at(one.drop_last(), level) =~= Seq::<Seq<char>>::empty());
    assert(names_at(one, level) =~= (if meta.level == level {
        seq![meta.filename]
    } else {
        Seq::empty()
    }));
    assert(names_at(entries.take(pos), level) + (names_at(one, level) + names_at(
        entries.skip(pos),
        level,
    )) =~= names_at(entries.take(pos), level) + names_at(one, level) + names_at(
        entries.skip(pos),
        level,
    ));
}

/// The engine's memtable.
pub open spec fn mem_of(e: EngineView) -> MemView {
    MemView { map: e.mem_map(), approx_size: e.mem_size }
}

/// A memtable without entries.
pub open spec fn empty_mem() -> MemView {
    MemView { map: Map::empty(), approx_size: 0 }
}

/// The log on the disk holds exactly the frames of `records`, which replay
/// to the engine's memtable.
pub open spec fn logged(d: DiskView, e: EngineView, records: Seq<WalRecordView>) -> bool {
    &&& d.wal == Some(log_of(records))
    &&& forall|i: int| 0 <= i < records.len() ==> replayable(#[trigger] records[i])
    &&& replayed(records, empty_mem()) == mem_of(e)
}

/// No file of the directory is a table file.
pub open spec fn no_tables(d: DiskView) -> bool {
    forall|i: int| 0 <= i < d.files.len() ==> !is_table_name((#[trigger] d.files[i]).0)
}

/// The manifest on the disk reads as the engine's manifest, and the files
/// that it names, which have the names of table files, open as the
/// engine's tables, level by level. Where the engine has no manifest entry,
/// the directory holds no table file.
pub open spec fn listed(d: DiskView, e: EngineView) -> bool {
    &&& clean_entries(e.manifest)
    &&& forall|i: int| 0 <= i < e.manifest.len() ==> is_table_name((#[trigger] e.manifest[i]).filename)
    &&& parse_manifest(d.manifest) == Ok::<Seq<SstMetaView>, ManifestError>(e.manifest)
    &&& e.manifest.len() == 0 ==> no_tables(d)
    &&& parse_all(
        images_of(names_at(e.manifest, 0), d, names_at(e.manifest, 0).len() as int),
        images_of(names_at(e.manifest, 0), d, names_at(e.manifest, 0).len() as int).len() as int,
    ) == Ok::<Seq<TableView>, SstError>(table_views(e.l0))
    &&& parse_all(
        images_of(names_at(e.manifest, 1), d, names_at(e.manifest, 1).len() as int),
        images_of(names_at(e.manifest, 1), d, names_at(e.manifest, 1).len() as int).len() as int,
    ) == Ok::<Seq<TableView>, SstError>(table_views(e.l1))
    &&& tables_max_seq(
        table_views(e.l0) + table_views(e.l1),
        (table_views(e.l0) + table_views(e.l1)).len() as int,
    ) is Ok
}

/// The disk holds the engine's state: its log, its manifest and its
/// tables.
pub open spec fn held(d: DiskView, e: EngineView, records: Seq<WalRecordView>) -> bool {
    logged(d, e, records) && listed(d, e)
}

/// The highest sequence number that the tables of the engine know.
pub open spec fn stored_seq(e: EngineView) -> u64 {
    tables_max_seq(
        table_views(e.l0) + table_views(e.l1),
        (table_views(e.l0) + table_views(e.l1)).len() as int,
    )->Ok_0
}

/// Manifest fidelity and recovery: on a disk that holds an engine's state,
/// recovery succeeds and finds that state: the memtable, the tables of each
/// level in their order, and the manifest. The sequence number that it
/// goes on from is the highest that the log or a table knows.
pub proof fn lemma_recovery(d: DiskView, e: EngineView, records: Seq<WalRecordView>)
    requires
        held(d, e, records),
    ensures
        recovery(d) is Ok,
        recovery(d)->Ok_0.mem == mem_of(e),
        recovery(d)->Ok_0.l0 == table_views(e.l0),
        recovery(d)->Ok_0.l1 == table_views(e.l1),
        recovery(d)->Ok_0.manifest == e.manifest,
        recovery(d)->Ok_0.seq == later(max_record_seq(records), stored_seq(e)),
{
    lemma_write_then_replay(records);
    assert(disk_wal(d) == Ok::<Seq<u8>, WalError>(log_of(records)));
    if e.manifest.len() == 0 {
        lemma_no_tables(d.files, d.files.len() as int);
        let names = table_names_desc(d.files, d.files.len() as int);
        assert(names =~= Seq::<Seq<char>>::empty());
        assert(level0_entries(names) =~= Seq::<SstMetaView>::empty());
        assert(names_at(e.manifest, 0) =~= Seq::<Seq<char>>::empty());
        assert(names_at(e.manifest, 1) =~= Seq::<Seq<char>>::empty());
        assert(table_views(e.l0) =~= Seq::<TableView>::empty());
        assert(table_views(e.l1) =~= Seq::<TableView>::empty());
        assert(table_views(e.l0) + table_views(e.l1) =~= table_views(e.l0));
    }
}

/// The log of records with one more record is the log with one more frame.
pub proof fn lemma_log_push(records: Seq<WalRecordView>, r: WalRecordView)
    ensures
        log_of(records.push(r)) == log_of(records) + frame_of(r),
    decreases records.len(),
{
    let all = records.push(r);
    if records.len() == 0 {
        assert(all.drop_first() =~= Seq::<WalRecordView>::empty());
        assert(all[0] == r);
        assert(log_of(all.drop_first()) =~= Seq::<u8>::empty());
        assert(log_of(all) == frame_of(all[0]) + log_of(all.drop_first()));
        assert(log_of(all) =~= frame_of(r));
        assert(log_of(records) + frame_of(r) =~= frame_of(r));
    } else {
        lemma_log_push(records.drop_first(), r);
        assert(all.drop_first() =~= records.drop_first().push(r));
        assert(log_of(all) =~= log_of(records) + frame_of(r));
    }
}

/// The images of names of which the first is on the disk.
pub proof fn lemma_images_cons(first: Seq<char>, names: Seq<Seq<char>>, d: DiskView, n: int)
    requires
        0 <= n <= names.len(),
        d.file(first) is Some,
    ensures
        images_of(seq![first] + names, d, n + 1) == seq![d.file(first)->Some_0] + images_of(
            names,
            d,
            n,
        ),
    decreases n,
{
    let all = seq![first] + names;
    if n > 0 {
        lemma_images_cons(first, names, d, n - 1);
        assert(all[n] == names[n - 1]);
        let before = images_of(names, d, n - 1);
        if d.file(names[n - 1]) is Some {
            assert((seq![d.file(first)->Some_0] + before).push(d.file(names[n - 1])->Some_0)
                =~= seq![d.file(first)->Some_0] + before.push(d.file(names[n - 1])->Some_0));
        }
    } else {
        assert(images_of(all, d, 0) =~= Seq::<Seq<u8>>::empty());
        assert(images_of(all, d, 1) =~= seq![d.file(first)->Some_0]);
        assert(seq![d.file(first)->Some_0] + images_of(names, d, 0) =~= seq![
            d.file(first)->Some_0,
        ]);
    }
}

/// The images of names are the same on two disks that hold the same file,
/// or none, for each of the names.
pub proof fn lemma_images_same(names: Seq<Seq<char>>, a: DiskView, b: DiskView, n: int)
    requires
        0 <= n <= names.len(),
        forall|i: int| 0 <= i < n ==> a.file(#[trigger] names[i]) == b.file(names[i]),
    ensures
        images_of(names, a, n) == images_of(names, b, n),
    decreases n,
{
    if n > 0 {
        lemma_images_same(names, a, b, n - 1);
    }
}

/// The tables of an image and then more images.
pub proof fn lemma_parse_all_cons(first: Seq<u8>, images: Seq<Seq<u8>>, n: int)
    requires
        0 <= n <= images.len(),
    ensures
        parse_all(seq![first] + images, n + 1) == (match parse_table(first) {
            Err(e) => Err(e),
            Ok(t) => match parse_all(images, n) {
                Err(e) => Err(e),
                Ok(rest) => Ok(seq![t] + rest),
            },
        }),
    decreases n,
{
    let all = seq![first] + images;
    if n > 0 {
        lemma_parse_all_cons(first, images, n - 1);
        assert(all[n] == images[n - 1]);
        if parse_table(first) is Ok && parse_all(images, n - 1) is Ok && parse_table(
            images[n - 1],
        ) is Ok {
            let t = parse_table(first)->Ok_0;
            let rest = parse_all(images, n - 1)->Ok_0;
            let x = parse_table(images[n - 1])->Ok_0;
            assert((seq![t] + rest).push(x) =~= seq![t] + rest.push(x));
        }
    } else {
        assert(all[0] == first);
        assert(parse_all(all, 0) == Ok::<Seq<TableView>, SstError>(Seq::empty()));
        assert(parse_all(images, 0) == Ok::<Seq<TableView>, SstError>(Seq::empty()));
        if parse_table(first) is Ok {
            let t = parse_table(first)->Ok_0;
            assert(Seq::<TableView>::empty().push(t) =~= seq![t] + Seq::<TableView>::empty());
            assert(parse_all(all, 1) == Ok::<Seq<TableView>, SstError>(
                Seq::<TableView>::empty().push(t),
            ));
        } else {
            assert(parse_all(all, 1) == Err::<Seq<TableView>, SstError>(
                parse_table(first)->Err_0,
            ));
        }
    }
}

/// The highest sequence number among tables is known exactly if that of
/// each table is; and it is no lower than that of any of them.
pub proof fn lemma_tables_max(tables: Seq<TableView>, n: int)
    requires
        0 <= n <= tables.len(),
    ensures
        tables_max_seq(tables, n) is Ok <==> forall|i: int|
            0 <= i < n ==> table_max_seq(#[trigger] tables[i]) is Ok,
        tables_max_seq(tables, n) is Ok ==> forall|i: int|
            0 <= i < n ==> table_max_seq(#[trigger] tables[i])->Ok_0 <= tables_max_seq(
                tables,
                n,
            )->Ok_0,
        tables_max_seq(tables, n) is Ok && tables_max_seq(tables, n)->Ok_0 > 0 ==> exists|i: int|
            0 <= i < n && table_max_seq(#[trigger] tables[i]) == tables_max_seq(tables, n),
    decreases n,
{
    if n > 0 {
        lemma_tables_max(tables, n - 1);
        if tables_max_seq(tables, n) is Ok && tables_max_seq(tables, n)->Ok_0 > 0 {
            let m = tables_max_seq(tables, n);
            if table_max_seq(tables[n - 1]) == m {
            } else {
                let i = choose|i: int|
                    0 <= i < n - 1 && table_max_seq(#[trigger] tables[i]) == tables_max_seq(
                        tables,
                        n - 1,
                    );
                assert(0 <= i < n && table_max_seq(tables[i]) == m);
            }
        }
    }
}

/// The disk operations that an operation of the engine added.
pub open spec fn added(pre: EngineView, post: EngineView) -> Seq<DiskOpView> {
    post.pending.skip(pre.pending.len() as int)
}

/// Performing operations one after the other.
pub proof fn lemma_apply_concat(d: DiskView, a: Seq<DiskOpView>, b: Seq<DiskOpView>)
    ensures
        d.apply_all(a + b) == d.apply_all(a).apply_all(b),
    decreases b.len(),
{
    if b.len() == 0 {
        assert(a + b =~= a);
    } else {
        lemma_apply_concat(d, a, b.drop_last());
        assert((a + b).drop_last() =~= a + b.drop_last());
        assert((a + b).last() == b.last());
    }
}

/// Performing one operation.
pub proof fn lemma_apply_one(d: DiskView, op: DiskOpView)
    ensures
        d.apply_all(seq![op]) == d.apply(op),
{
    let ops = seq![op];
    assert(ops.drop_last() =~= Seq::<DiskOpView>::empty());
    assert(ops.last() == op);
    assert(d.apply_all(ops.drop_last()) == d);
    assert(d.apply_all(ops) == d.apply_all(ops.drop_last()).apply(ops.last()));
}

/// Performing three operations.
pub proof fn lemma_apply_three(d: DiskView, a: DiskOpView, b: DiskOpView, c: DiskOpView)
    ensures
        d.apply_all(seq![a, b, c]) == d.apply(a).apply(b).apply(c),
{
    let three = seq![a, b, c];
    let two = seq![a, b];
    assert(three.drop_last() =~= two);
    assert(three.last() == c);
    assert(two.drop_last() =~= seq![a]);
    assert(two.last() == b);
    lemma_apply_one(d, a);
    assert(d.apply_all(two) == d.apply_all(two.drop_last()).apply(two.last()));
    assert(d.apply_all(three) == d.apply_all(three.drop_last()).apply(three.last()));
}

/// The names at a level are file names of entries.
pub proof fn lemma_names_are_entries(entries: Seq<SstMetaView>, level: u32, i: int)
    requires
        0 <= i < names_at(entries, level).len(),
    ensures
        exists|j: int| 0 <= j < entries.len() && (#[trigger] entries[j]).filename == names_at(
            entries,
            level,
        )[i],
    decreases entries.len(),
{
    if entries.len() > 0 {
        let init = entries.drop_last();
        if i < names_at(init, level).len() {
            lemma_names_are_entries(init, level, i);
            let j = choose|j: int|
                0 <= j < init.len() && (#[trigger] init[j]).filename == names_at(init, level)[i];
            assert(entries[j].filename == names_at(entries, level)[i]);
        } else {
            assert(entries[entries.len() - 1].filename == names_at(entries, level)[i]);
        }
    }
}

/// The footer of a table that was written and opens records the highest
/// sequence number of its entries.
pub proof fn lemma_written_footer(pairs: Seq<crate::memtable::Pair>, expected: nat)
    requires
        parse_table(image_of(pairs, expected)) is Ok,
    ensures
        table_max_seq(parse_table(image_of(pairs, expected))->Ok_0) == Ok::<u64, SstError>(
            max_seq_of(pairs),
        ),
{
    let data = data_section(pairs);
    let bloom = filter_of(pairs, one_percent_filter(expected)).serialized();
    let footer = Footer::V3 {
        max_seq: max_seq_of(pairs),
        bloom_offset: data.len() as u64,
        index_offset: (data.len() + bloom.len()) as u64,
    };
    let head = data + bloom + index_section(pairs);
    assert(image_of(pairs, expected) == head + footer.encoded());
    lemma_footer_round_trip(head, footer);
}

/// Durability of a mutation: once the frame of a mutation was appended to
/// the log, the disk holds the state after the mutation.
#[verifier::rlimit(50)]
pub proof fn lemma_held_applied(
    d: DiskView,
    pre: EngineView,
    post: EngineView,
    records: Seq<WalRecordView>,
    key: Seq<u8>,
    value: Option<Seq<u8>>,
)
    requires
        held(d, pre, records),
        pre.seq < u64::MAX,
        key_error(key) is None,
        value is Some ==> value->Some_0.len() <= MAX_VALUE_SIZE,
        applied(pre, post, key, value),
    ensures
        held(
            d.apply_all(added(pre, post)),
            post,
            records.push(record_of(post.seq, key, value)),
        ),
        max_record_seq(records.push(record_of(post.seq, key, value))) >= post.seq,
        extends(pre, post),
{
    let r = record_of(post.seq, key, value);
    let op = DiskOpView::AppendWal { frame: frame_of(r), sync: pre.wal_sync };
    assert(added(pre, post) =~= seq![op]);
    assert(post.pending.take(pre.pending.len() as int) =~= pre.pending);
    lemma_apply_one(d, op);
    lemma_log_push(records, r);
    let after = records.push(r);
    assert(after.drop_last() =~= records);
    assert(after.last() == r);
    assert forall|i: int| 0 <= i < after.len() implies replayable(#[trigger] after[i]) by {
        if i < records.len() {
            assert(after[i] == records[i]);
        }
    }
    let d1 = d.apply(op);
    assert(d1.files == d.files);
    assert(d1.manifest == d.manifest);
    assert(d1.wal == Some(log_of(after)));
    assert(post.l0 == pre.l0);
    assert(post.l1 == pre.l1);
    assert(post.manifest == pre.manifest);
    crate::wal::lemma_body_len(r);
    assert(replayable(r));
    assert(replayed(after, empty_mem()) == mem_of(post)) by {
        let before = replayed(records, empty_mem());
        assert(before == mem_of(pre));
    }
    assert(logged(d1, post, after));
    let names0 = names_at(pre.manifest, 0);
    let names1 = names_at(pre.manifest, 1);
    lemma_images_same(names0, d1, d, names0.len() as int);
    lemma_images_same(names1, d1, d, names1.len() as int);
    assert(listed(d1, post));
}

/// Manifest fidelity of a flush: once the disk operations of a flush that
/// succeeded were performed, the disk holds the state after the flush. It
/// holds of a flush whose table gets a name that the manifest does not
/// hold yet.
#[verifier::rlimit(50)]
pub proof fn lemma_held_flushed(
    d: DiskView,
    pre: EngineView,
    post: EngineView,
    records: Seq<WalRecordView>,
    ms: u128,
)
    requires
        held(d, pre, records),
        flushed(pre, post, ms, Ok(())),
        forall|i: int|
            0 <= i < pre.manifest.len() ==> (#[trigger] pre.manifest[i]).filename != table_name(
                pre.seq,
                ms,
            ),
    ensures
        held(d.apply_all(added(pre, post)), post, Seq::empty()),
        stored_seq(post) == later(max_seq_of(pre.mem_pairs), stored_seq(pre)),
        extends(pre, post),
{
    assert(post.pending.take(pre.pending.len() as int) =~= pre.pending);
    let name = table_name(pre.seq, ms);
    let pairs = pre.mem_pairs;
    let image = write_outcome(pairs, pairs.len())->Ok_0;
    assert(image == image_of(pairs, pairs.len()));
    let meta = SstMetaView { filename: name, level: 0 };
    let manifest = pre.manifest.insert(first_at(pre.manifest, 0, 0), meta);
    let w = DiskOpView::WriteTable { name, image };
    let s = DiskOpView::SaveManifest { text: saved(manifest) };
    let t = DiskOpView::TruncateWal;
    assert(added(pre, post) =~= flush_ops(name, image, manifest));
    lemma_apply_three(d, w, s, t);
    let d1 = d.apply(w);
    let d3 = d1.apply(s).apply(t);
    assert(d3.files == d1.files);
    // The log.
    assert(log_of(Seq::<WalRecordView>::empty()) =~= Seq::<u8>::empty());
    assert(post.mem_map() =~= Map::<Seq<u8>, EntryView>::empty()) by {
        assert forall|k: Seq<u8>| !post.mem_map().contains_key(k) by {
            if crate::ordered::has_key(post.mem_pairs, k) {
                let i = crate::ordered::index_of(post.mem_pairs, k);
            }
        }
    }
    // The manifest.
    crate::engine::write::lemma_first_at_range(pre.manifest, 0, 0);
    lemma_table_name(pre.seq, ms);
    assert(clean_entries(manifest)) by {
        let pos = first_at(pre.manifest, 0, 0);
        assert forall|i: int| 0 <= i < manifest.len() implies (#[trigger] manifest[i]).level <= 1
            && clean_name(manifest[i].filename) by {
            if i < pos {
                assert(manifest[i] == pre.manifest[i]);
            } else if i > pos {
                assert(manifest[i] == pre.manifest[i - 1]);
            }
        }
    }
    assert forall|i: int| 0 <= i < manifest.len() implies is_table_name(
        (#[trigger] manifest[i]).filename,
    ) by {
        let pos = first_at(pre.manifest, 0, 0);
        if i < pos {
            assert(manifest[i] == pre.manifest[i]);
        } else if i > pos {
            assert(manifest[i] == pre.manifest[i - 1]);
        }
    }
    lemma_save_then_load(manifest);
    lemma_names_after_add(pre.manifest, name);
    // The files.
    let names0 = names_at(pre.manifest, 0);
    let names1 = names_at(pre.manifest, 1);
    lemma_write_table(d, name, image, name);
    assert forall|i: int| 0 <= i < names0.len() implies d3.file(#[trigger] names0[i]) == d.file(
        names0[i],
    ) by {
        lemma_names_are_entries(pre.manifest, 0, i);
        lemma_write_table(d, name, image, names0[i]);
    }
    assert forall|i: int| 0 <= i < names1.len() implies d3.file(#[trigger] names1[i]) == d.file(
        names1[i],
    ) by {
        lemma_names_are_entries(pre.manifest, 1, i);
        lemma_write_table(d, name, image, names1[i]);
    }
    lemma_images_same(names0, d3, d, names0.len() as int);
    lemma_images_same(names1, d3, d, names1.len() as int);
    lemma_images_cons(name, names0, d3, names0.len() as int);
    let images0 = images_of(names0, d, names0.len() as int);
    lemma_parse_all_cons(image, images0, images0.len() as int);
    let t0 = post.l0[0];
    assert(table_views(post.l0) =~= seq![t0@] + table_views(pre.l0)) by {
        assert forall|i: int| 0 <= i < post.l0.len() implies table_views(post.l0)[i] == (seq![
            t0@,
        ] + table_views(pre.l0))[i] by {
            if i > 0 {
                assert(post.l0.skip(1)[i - 1] == post.l0[i]);
            }
        }
    }
    assert(post.l1 == pre.l1);
    // The sequence numbers of the tables.
    lemma_written_footer(pairs, pairs.len());
    let old = table_views(pre.l0) + table_views(pre.l1);
    let new = table_views(post.l0) + table_views(post.l1);
    assert(new =~= seq![t0@] + old);
    lemma_tables_max_cons(t0@, old, old.len() as int);
}

/// The highest sequence number among a table and then more tables.
pub proof fn lemma_tables_max_cons(first: TableView, tables: Seq<TableView>, n: int)
    requires
        0 <= n <= tables.len(),
    ensures
        tables_max_seq(seq![first] + tables, n + 1) == (match table_max_seq(first) {
            Err(e) => Err(e),
            Ok(a) => match tables_max_seq(tables, n) {
                Err(e) => Err(e),
                Ok(b) => Ok(later(a, b)),
            },
        }),
    decreases n,
{
    let all = seq![first] + tables;
    if n > 0 {
        lemma_tables_max_cons(first, tables, n - 1);
        assert(all[n] == tables[n - 1]);
    } else {
        assert(all[0] == first);
        assert(tables_max_seq(all, 0) == Ok::<u64, SstError>(0));
    }
}

/// The pending operations of `post` are those of `pre` and then more.
pub open spec fn extends(pre: EngineView, post: EngineView) -> bool {
    post.pending.len() >= pre.pending.len() && post.pending.take(pre.pending.len() as int)
        == pre.pending
}

/// What two operations added, one after the other.
pub proof fn lemma_added_chain(a: EngineView, b: EngineView, c: EngineView)
    requires
        extends(a, b),
        extends(b, c),
    ensures
        extends(a, c),
        added(a, c) == added(a, b) + added(b, c),
{
    assert(c.pending.take(a.pending.len() as int) =~= c.pending.take(b.pending.len() as int).take(
        a.pending.len() as int,
    ));
    assert(added(a, c) =~= added(a, b) + added(b, c)) by {
        assert forall|i: int| 0 <= i < added(a, b).len() implies added(a, c)[i] == added(a, b)[i] by {
            assert(c.pending.take(b.pending.len() as int)[a.pending.len() + i] == b.pending[
                a.pending.len() + i
            ]);
        }
    }
}

/// Manifest fidelity of a compaction: once the disk operations of a
/// compaction that succeeded were performed, the disk holds the state after
/// the compaction.
#[verifier::rlimit(50)]
pub proof fn lemma_held_compacted(
    d: DiskView,
    pre: EngineView,
    post: EngineView,
    records: Seq<WalRecordView>,
    ms: u128,
)
    requires
        held(d, pre, records),
        compacted(pre, post, ms, Ok(())),
    ensures
        held(d.apply_all(added(pre, post)), post, records),
        extends(pre, post),
{
    if pre.l0.len() + pre.l1.len() <= 1 {
        assert(added(pre, post) =~= Seq::<DiskOpView>::empty());
        assert(pre.pending.take(pre.pending.len() as int) =~= pre.pending);
    } else {
        let readers = pre.l0 + pre.l1;
        let name = table_name(pre.seq, ms);
        let all = merged(readers, at_start(readers.len()))->Ok_0;
        let kept = collected(all, pre.mem_map());
        let expected = expected_entries(readers);
        lemma_table_name(pre.seq, ms);
        assert(post.l0 =~= Seq::<SSTableReader>::empty());
        assert(table_views(post.l0) =~= Seq::<TableView>::empty());
        match write_outcome(kept, expected) {
            Ok(image) => {
                assert(image == image_of(kept, expected));
                let meta = SstMetaView { filename: name, level: 1 };
                let manifest = seq![meta];
                let w = DiskOpView::WriteTable { name, image };
                let s = DiskOpView::SaveManifest { text: saved(manifest) };
                let r = DiskOpView::RetainTables { keep: Some(name) };
                assert(post.pending == pre.pending + compaction_ops(name, image));
                assert(added(pre, post) =~= seq![w, s, r]);
                assert(post.pending.take(pre.pending.len() as int) =~= pre.pending);
                lemma_apply_three(d, w, s, r);
                let d1 = d.apply(w);
                let d2 = d1.apply(s);
                let d3 = d2.apply(r);
                lemma_write_table(d, name, image, name);
                assert(d2.files == d1.files);
                lemma_retain_tables(d2, Some(name));
                assert(d3.file(name) == Some(image));
                assert(clean_entries(manifest));
                lemma_save_then_load(manifest);
                // The names of the levels.
                assert(manifest.drop_last() =~= Seq::<SstMetaView>::empty());
                assert(names_at(manifest.drop_last(), 0) =~= Seq::<Seq<char>>::empty());
                assert(names_at(manifest.drop_last(), 1) =~= Seq::<Seq<char>>::empty());
                assert(names_at(manifest, 0) =~= Seq::<Seq<char>>::empty());
                assert(names_at(manifest, 1) =~= seq![name]);
                let none = Seq::<Seq<char>>::empty();
                lemma_images_cons(name, none, d3, 0);
                assert(seq![name] + none =~= seq![name]);
                assert(images_of(none, d3, 0) =~= Seq::<Seq<u8>>::empty());
                assert(images_of(seq![name], d3, 1) =~= seq![image]);
                lemma_parse_all_cons(image, Seq::<Seq<u8>>::empty(), 0);
                assert(seq![image] + Seq::<Seq<u8>>::empty() =~= seq![image]);
                let table = post.l1[0]@;
                assert(table_views(post.l1) =~= seq![table] + Seq::<TableView>::empty());
                // The sequence number of the table.
                lemma_written_footer(kept, expected);
                let views = table_views(post.l0) + table_views(post.l1);
                assert(views =~= seq![table] + Seq::<TableView>::empty());
                lemma_tables_max_cons(table, Seq::<TableView>::empty(), 0);
                assert(post.manifest == manifest);
                assert(d3.wal == d.wal);
                assert(logged(d3, post, records));
                assert(listed(d3, post));
            },
            Err(e) => {
                let a = DiskOpView::RemoveFile { name: crate::engine::naming::temp_name(name) };
                let s = DiskOpView::SaveManifest { text: saved(Seq::empty()) };
                let r = DiskOpView::RetainTables { keep: None };
                assert(post.pending == pre.pending + clearing_ops(name));
                assert(added(pre, post) =~= seq![a, s, r]);
                assert(post.pending.take(pre.pending.len() as int) =~= pre.pending);
                lemma_apply_three(d, a, s, r);
                let d2 = d.apply(a).apply(s);
                let d3 = d2.apply(r);
                lemma_retain_tables(d2, None);
                assert(clean_entries(Seq::<SstMetaView>::empty()));
                lemma_save_then_load(Seq::<SstMetaView>::empty());
                assert(post.l1 =~= Seq::<SSTableReader>::empty());
                assert(table_views(post.l1) =~= Seq::<TableView>::empty());
                let none = Seq::<Seq<char>>::empty();
                assert(names_at(post.manifest, 0) =~= none);
                assert(names_at(post.manifest, 1) =~= none);
                assert(images_of(none, d3, 0) =~= Seq::<Seq<u8>>::empty());
                assert(table_views(post.l0) + table_views(post.l1) =~= Seq::<TableView>::empty());
                assert(d3.wal == d.wal);
                assert(logged(d3, post, records));
                assert(listed(d3, post));
            },
        }
    }
}

/// Asking tables with the same views finds the same.
pub proof fn lemma_first_hit_views(a: Seq<SSTableReader>, b: Seq<SSTableReader>, key: Seq<u8>, from: int)
    requires
        table_views(a) == table_views(b),
        0 <= from,
    ensures
        first_hit(a, key, from) == first_hit(b, key, from),
    decreases a.len() - from,
{
    assert(a.len() == table_views(a).len());
    assert(b.len() == table_views(b).len());
    if from < a.len() {
        assert(a[from]@ == table_views(a)[from]);
        assert(b[from]@ == table_views(b)[from]);
        lemma_first_hit_views(a, b, key, from + 1);
    }
}

/// Two engines with the same memtable and tables of the same views return
/// the same for every read.
pub proof fn lemma_same_reads(a: EngineView, b: EngineView, key: Seq<u8>)
    requires
        a.mem_map() == b.mem_map(),
        table_views(a.l0) == table_views(b.l0),
        table_views(a.l1) == table_views(b.l1),
    ensures
        a.get(key) == b.get(key),
{
    lemma_first_hit_views(a.l0, b.l0, key, 0);
    lemma_first_hit_views(a.l1, b.l1, key, 0);
}

/// The names of the tables that a mutation may write when the clock says
/// `now` are new to the manifest.
pub open spec fn fresh_names(pre: EngineView, now: Option<u128>) -> bool {
    now is Some ==> forall|i: int|
        0 <= i < pre.manifest.len() ==> (#[trigger] pre.manifest[i]).filename != table_name(
            (pre.seq + 1) as u64,
            now->Some_0,
        )
}

/// Durability: once the disk operations of a mutation that succeeded were
/// performed, the disk holds the state after the mutation, whether or not
/// the mutation flushed the memtable and compacted the tables.
#[verifier::rlimit(50)]
pub proof fn lemma_held_mutated(
    d: DiskView,
    pre: EngineView,
    post: EngineView,
    records: Seq<WalRecordView>,
    key: Seq<u8>,
    value: Option<Seq<u8>>,
    now: Option<u128>,
)
    requires
        held(d, pre, records),
        mutated(pre, post, key, value, now, Ok(())),
        fresh_names(pre, now),
    ensures
        exists|after: Seq<WalRecordView>| #[trigger]
            held(d.apply_all(added(pre, post)), post, after),
        extends(pre, post),
{
    let mid = choose|mid: EngineView| #[trigger]
        applied(pre, mid, key, value) && (if mid.mem_size >= mid.flush_threshold {
            flush_cycle_now(mid, post, now, Ok(()))
        } else {
            post == mid
        });
    lemma_held_applied(d, pre, mid, records, key, value);
    let logged_records = records.push(record_of(mid.seq, key, value));
    let d1 = d.apply_all(added(pre, mid));
    if mid.mem_size >= mid.flush_threshold {
        let ms = now->Some_0;
        let (flushed_state, first) = choose|m: EngineView, first: Result<(), EngineError>| #[trigger]
            flushed(mid, m, ms, first) && (if first is Ok && compaction_due(m) {
                compacted(m, post, after_flush(ms), Ok(()))
            } else {
                post == m && Ok::<(), EngineError>(()) == first
            });
        assert(mid.manifest == pre.manifest);
        lemma_held_flushed(d1, mid, flushed_state, logged_records, ms);
        let d2 = d1.apply_all(added(mid, flushed_state));
        lemma_added_chain(pre, mid, flushed_state);
        lemma_apply_concat(d, added(pre, mid), added(mid, flushed_state));
        if first is Ok && compaction_due(flushed_state) {
            lemma_held_compacted(d2, flushed_state, post, Seq::empty(), after_flush(ms));
            lemma_added_chain(pre, flushed_state, post);
            lemma_apply_concat(d, added(pre, flushed_state), added(flushed_state, post));
            assert(held(d.apply_all(added(pre, post)), post, Seq::empty()));
        } else {
            assert(held(d.apply_all(added(pre, post)), post, Seq::empty()));
        }
    } else {
        assert(held(d.apply_all(added(pre, post)), post, logged_records));
    }
}

/// Durability and manifest fidelity: after a mutation that succeeded, an
/// engine that is opened on the disk, with the disk operations of the
/// mutation performed, has the memtable, the tables of each level and the
/// manifest of the engine that made the mutation, and returns the same for
/// every read; so it returns for the key of the mutation what the mutation
/// wrote.
#[verifier::rlimit(50)]
pub proof fn lemma_reopen(
    d: DiskView,
    pre: EngineView,
    post: EngineView,
    records: Seq<WalRecordView>,
    key: Seq<u8>,
    value: Option<Seq<u8>>,
    now: Option<u128>,
    again: EngineView,
)
    requires
        held(d, pre, records),
        pre.inv(),
        mutated(pre, post, key, value, now, Ok(())),
        fresh_names(pre, now),
        recovery(d.apply_all(added(pre, post))) is Ok ==> crate::engine::recovery::recovered(
            again,
            recovery(d.apply_all(added(pre, post)))->Ok_0,
            again.flush_threshold,
            again.wal_sync,
        ),
    ensures
        recovery(d.apply_all(added(pre, post))) is Ok,
        again.mem_map() == post.mem_map(),
        table_views(again.l0) == table_views(post.l0),
        table_views(again.l1) == table_views(post.l1),
        again.manifest == post.manifest,
        forall|k: Seq<u8>| #[trigger] again.get(k) == post.get(k),
        again.get(key) == Ok::<Option<(u64, Seq<u8>)>, SstError>(
            match value {
                Some(v) => Some((post.seq, v)),
                None => None,
            },
        ),
{
    lemma_held_mutated(d, pre, post, records, key, value, now);
    let after = choose|after: Seq<WalRecordView>| #[trigger]
        held(d.apply_all(added(pre, post)), post, after);
    lemma_recovery(d.apply_all(added(pre, post)), post, after);
    assert forall|k: Seq<u8>| #[trigger] again.get(k) == post.get(k) by {
        lemma_same_reads(again, post, k);
    }
    crate::engine::laws::lemma_mutated(pre, post, key, value, now);
}

} // verus!
