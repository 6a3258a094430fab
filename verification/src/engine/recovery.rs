//! Recovery: an engine is opened from what the disk holds.
//!
//! The log is replayed into a fresh memtable. The tables are opened into the
//! levels that the manifest gives them; without a manifest every table file
//! of the directory goes to level 0, the newest name first, and a manifest
//! is written that says so. The sequence number goes on from the highest
//! that the log or any table knows.

use crate::bytes::{copy_bytes, lex_lt, Rank, rank};
use crate::engine::{
    DEFAULT_L0_COMPACTION_TRIGGER, DiskOp, DiskOpView, Engine, EngineError, EngineView, op_views,
    tables_wf,
};
use crate::engine::disk::{Disk, DiskView, FileView};
use crate::engine::naming::{is_table_name, is_temp_name, table_name_check, temp_name_check};
use crate::manifest::{Manifest, names_at, parse_manifest, saved, SstMeta, SstMetaView, str_views};
use crate::memtable::{Memtable, MemView};
use crate::sstable::format::SstError;
use crate::sstable::reader::{parse_table, SSTableReader, TableView};
use crate::wal::{
    IoKind, record_views, replay_from, WalError, WalReader, WalRecord, WalRecordView, WalWriter,
};
use vstd::prelude::*;
use vstd::string::StringExecFns;

verus! {

/// The memtable after the records were applied to it in order.
pub open spec fn replayed(records: Seq<WalRecordView>, mem: MemView) -> MemView
    decreases records.len(),
{
    if records.len() == 0 {
        mem
    } else {
        let before = replayed(records.drop_last(), mem);
        match records.last() {
            WalRecordView::Put { seq, key, value } => before.put(key, value, seq),
            WalRecordView::Del { seq, key } => before.delete(key, seq),
        }
    }
}

/// The sequence number of a record.
pub open spec fn record_seq(r: WalRecordView) -> u64 {
    match r {
        WalRecordView::Put { seq, key, value } => seq,
        WalRecordView::Del { seq, key } => seq,
    }
}

/// The highest sequence number among the records, or 0 where there is none.
pub open spec fn max_record_seq(records: Seq<WalRecordView>) -> u64
    decreases records.len(),
{
    if records.len() == 0 {
        0
    } else {
        let before = max_record_seq(records.drop_last());
        if record_seq(records.last()) > before {
            record_seq(records.last())
        } else {
            before
        }
    }
}

/// What replaying a log that was opened, or could not be, gives: the
/// highest sequence number in it, or 0 for a log that does not exist.
pub open spec fn wal_outcome(wal: Result<Seq<u8>, WalError>) -> Result<u64, WalError> {
    match wal {
        Err(WalError::Io(IoKind::NotFound)) => Ok(0),
        Err(e) => Err(e),
        Ok(bytes) => if replay_from(bytes, 0).corrupt {
            Err(WalError::Corrupt)
        } else {
            Ok(max_record_seq(replay_from(bytes, 0).records))
        },
    }
}

/// The memtable after a log that was opened, or could not be, was replayed
/// into it. The records before a corrupt frame are applied.
pub open spec fn wal_memtable(wal: Result<Seq<u8>, WalError>, mem: MemView) -> MemView {
    match wal {
        Err(e) => mem,
        Ok(bytes) => replayed(replay_from(bytes, 0).records, mem),
    }
}

/// The view of a log that was opened, or could not be.
pub open spec fn wal_view(wal: Result<&[u8], WalError>) -> Result<Seq<u8>, WalError> {
    match wal {
        Ok(bytes) => Ok(bytes@),
        Err(e) => Err(e),
    }
}

/// Replays a log into `mem` and returns the highest sequence number in it.
/// `wal` is the log's content, or the error of opening it. A log that does
/// not exist counts as empty; any other error is returned.
pub fn replay_wal_and_build(wal: Result<&[u8], WalError>, mem: &mut Memtable) -> (r: Result<
    u64,
    WalError,
>)
    requires
        old(mem).wf(),
    ensures
        final(mem).wf(),
        r == wal_outcome(wal_view(wal)),
        final(mem)@ == wal_memtable(wal_view(wal), old(mem)@),
{
    let bytes: &[u8] = match wal {
        Err(WalError::Io(IoKind::NotFound)) => {
            return Ok(0);
        },
        Err(e) => {
            return Err(e);
        },
        Ok(b) => b,
    };
    let mut reader: WalReader = WalReader::from_reader(copy_bytes(bytes));
    let mut records: Vec<WalRecord> = Vec::new();
    let outcome: Result<(), WalError> = reader.replay(&mut records);
    let ghost views = record_views(records@);
    assert(views =~= replay_from(bytes@, 0).records) by {
        assert(record_views(Seq::<WalRecord>::empty()) =~= Seq::<WalRecordView>::empty());
        assert(Seq::<WalRecordView>::empty() + replay_from(bytes@, 0).records =~= replay_from(
            bytes@,
            0,
        ).records);
    }
    let mut max_seq: u64 = 0;
    let mut i: usize = 0;
    assert(views.take(0) =~= Seq::<WalRecordView>::empty());
    while i < records.len()
        invariant
            0 <= i <= records@.len(),
            views == record_views(records@),
            mem.wf(),
            mem@ == replayed(views.take(i as int), old(mem)@),
            max_seq == max_record_seq(views.take(i as int)),
        decreases records@.len() - i,
    {
        proof {
            assert(views.take(i + 1).drop_last() =~= views.take(i as int));
            assert(views.take(i + 1).last() == records@[i as int]@);
        }
        match &records[i] {
            WalRecord::Put { seq, key, value } => {
                mem.put(copy_bytes(key.as_slice()), copy_bytes(value.as_slice()), *seq);
                if *seq > max_seq {
                    max_seq = *seq;
                }
            },
            WalRecord::Del { seq, key } => {
                mem.delete(copy_bytes(key.as_slice()), *seq);
                if *seq > max_seq {
                    max_seq = *seq;
                }
            },
        }
        i += 1;
    }
    assert(views.take(i as int) =~= views);
    match outcome {
        Err(e) => Err(e),
        Ok(()) => Ok(max_seq),
    }
}

/// The highest sequence number among the first `n` keys of a table, found
/// by reading each, or the error of the first read that fails. A key that
/// the table does not return is passed over.
pub open spec fn scanned_max_seq(table: TableView, n: int) -> Result<u64, SstError>
    decreases n,
{
    if n <= 0 {
        Ok(0)
    } else {
        match scanned_max_seq(table, n - 1) {
            Err(e) => Err(e),
            Ok(before) => match table.get(table.sorted_index()[n - 1].0) {
                Err(e) => Err(e),
                Ok(None) => Ok(before),
                Ok(Some(e)) => Ok(
                    if e.seq > before {
                        e.seq
                    } else {
                        before
                    },
                ),
            },
        }
    }
}

/// The highest sequence number of a table: the one that its footer records,
/// or, for a table of an older version, the one found by reading every key.
pub open spec fn table_max_seq(table: TableView) -> Result<u64, SstError> {
    match table.footer.spec_max_seq() {
        Some(seq) => Ok(seq),
        None => scanned_max_seq(table, table.sorted_index().len() as int),
    }
}

/// The highest sequence number among the first `n` tables, or the error of
/// the first table that cannot be read.
pub open spec fn tables_max_seq(tables: Seq<TableView>, n: int) -> Result<u64, SstError>
    decreases n,
{
    if n <= 0 {
        Ok(0)
    } else {
        match tables_max_seq(tables, n - 1) {
            Err(e) => Err(e),
            Ok(before) => match table_max_seq(tables[n - 1]) {
                Err(e) => Err(e),
                Ok(seq) => Ok(
                    if seq > before {
                        seq
                    } else {
                        before
                    },
                ),
            },
        }
    }
}

/// The views of a sequence of tables.
pub open spec fn table_views(tables: Seq<SSTableReader>) -> Seq<TableView> {
    Seq::new(tables.len(), |i: int| tables[i]@)
}

/// The contents of the files named by the first `n` names that the
/// directory holds, in the order of the names. A name without a file is
/// passed over.
pub open spec fn images_of(names: Seq<Seq<char>>, disk: DiskView, n: int) -> Seq<Seq<u8>>
    decreases n,
{
    if n <= 0 {
        Seq::empty()
    } else {
        match disk.file(names[n - 1]) {
            Some(image) => images_of(names, disk, n - 1).push(image),
            None => images_of(names, disk, n - 1),
        }
    }
}

/// The tables that the first `n` images hold, or the error of the first
/// image that cannot be opened.
pub open spec fn parse_all(images: Seq<Seq<u8>>, n: int) -> Result<Seq<TableView>, SstError>
    decreases n,
{
    if n <= 0 {
        Ok(Seq::empty())
    } else {
        match parse_all(images, n - 1) {
            Err(e) => Err(e),
            Ok(before) => match parse_table(images[n - 1]) {
                Err(e) => Err(e),
                Ok(table) => Ok(before.push(table)),
            },
        }
    }
}

/// Whether name `a` sorts before name `b`: by the bytes of their UTF-8
/// encoding.
pub open spec fn name_lt(a: Seq<char>, b: Seq<char>) -> bool {
    lex_lt(vstd::utf8::encode_utf8(a), vstd::utf8::encode_utf8(b))
}

/// The position at which `name` goes into names in descending order: after
/// the names that are not below it.
pub open spec fn slot(sorted: Seq<Seq<char>>, name: Seq<char>, from: int) -> int
    decreases sorted.len() - from,
{
    if from < 0 || from >= sorted.len() || name_lt(sorted[from], name) {
        from
    } else {
        slot(sorted, name, from + 1)
    }
}

/// The names of the table files among the first `n` files, in descending
/// order: the newest first.
pub open spec fn table_names_desc(files: Seq<FileView>, n: int) -> Seq<Seq<char>>
    decreases n,
{
    if n <= 0 {
        Seq::empty()
    } else {
        let before = table_names_desc(files, n - 1);
        if is_table_name(files[n - 1].0) {
            before.insert(slot(before, files[n - 1].0, 0), files[n - 1].0)
        } else {
            before
        }
    }
}

/// The operations that remove the temporary table files among the first
/// `n` files.
pub open spec fn cleanup_ops(files: Seq<FileView>, n: int) -> Seq<DiskOpView>
    decreases n,
{
    if n <= 0 {
        Seq::empty()
    } else if is_temp_name(files[n - 1].0) {
        cleanup_ops(files, n - 1).push(DiskOpView::RemoveFile { name: files[n - 1].0 })
    } else {
        cleanup_ops(files, n - 1)
    }
}

/// The manifest entries for tables of level 0, in the order of the names.
pub open spec fn level0_entries(names: Seq<Seq<char>>) -> Seq<SstMetaView> {
    Seq::new(names.len(), |i: int| SstMetaView { filename: names[i], level: 0 })
}

/// What recovery finds on a disk.
pub struct Recovered {
    /// The memtable that the log replays to.
    pub mem: MemView,
    /// The tables of level 0, newest first.
    pub l0: Seq<TableView>,
    /// The tables of level 1, newest first.
    pub l1: Seq<TableView>,
    /// The manifest.
    pub manifest: Seq<SstMetaView>,
    /// The sequence number to go on from.
    pub seq: u64,
    /// The disk operations that recovery asks for.
    pub pending: Seq<DiskOpView>,
}

/// The log of a disk as recovery opens it.
pub open spec fn disk_wal(disk: DiskView) -> Result<Seq<u8>, WalError> {
    match disk.wal {
        Some(bytes) => Ok(bytes),
        None => Err(WalError::Io(IoKind::NotFound)),
    }
}

/// The larger of two sequence numbers.
pub open spec fn later(a: u64, b: u64) -> u64 {
    if a > b {
        a
    } else {
        b
    }
}

/// What recovery makes of a disk, or the error that it ends with.
///
/// Temporary table files are removed. A corrupt log is an error. The log
/// file is created if there is none. A manifest that cannot be read is an
/// error. With entries in the manifest, the files that it names are opened
/// into their levels; a name without a file is passed over. Without
/// entries, the table files of the directory are opened into level 0, the
/// newest name first, and if there are any, a manifest that lists them is
/// saved. A table that cannot be opened or read is an error. The sequence
/// number is the highest that the log or any table knows.
pub open spec fn recovery(disk: DiskView) -> Result<Recovered, EngineError> {
    let ops = cleanup_ops(disk.files, disk.files.len() as int).push(DiskOpView::CreateWal);
    match wal_outcome(disk_wal(disk)) {
        Err(e) => Err(EngineError::Wal(e)),
        Ok(wal_seq) => match parse_manifest(disk.manifest) {
            Err(e) => Err(EngineError::Manifest(e)),
            Ok(entries) => {
                let mem = wal_memtable(
                    disk_wal(disk),
                    MemView { map: Map::empty(), approx_size: 0 },
                );
                if entries.len() > 0 {
                    let first = names_at(entries, 0);
                    let second = names_at(entries, 1);
                    let images0 = images_of(first, disk, first.len() as int);
                    let images1 = images_of(second, disk, second.len() as int);
                    match parse_all(images0, images0.len() as int) {
                        Err(e) => Err(EngineError::Sst(e)),
                        Ok(l0) => match parse_all(images1, images1.len() as int) {
                            Err(e) => Err(EngineError::Sst(e)),
                            Ok(l1) => match tables_max_seq(l0 + l1, (l0 + l1).len() as int) {
                                Err(e) => Err(EngineError::Sst(e)),
                                Ok(sst_seq) => Ok(
                                    Recovered {
                                        mem,
                                        l0,
                                        l1,
                                        manifest: entries,
                                        seq: later(wal_seq, sst_seq),
                                        pending: ops,
                                    },
                                ),
                            },
                        },
                    }
                } else {
                    let names = table_names_desc(disk.files, disk.files.len() as int);
                    let images = images_of(names, disk, names.len() as int);
                    match parse_all(images, images.len() as int) {
                        Err(e) => Err(EngineError::Sst(e)),
                        Ok(l0) => match tables_max_seq(l0, l0.len() as int) {
                            Err(e) => Err(EngineError::Sst(e)),
                            Ok(sst_seq) => Ok(
                                Recovered {
                                    mem,
                                    l0,
                                    l1: Seq::empty(),
                                    manifest: level0_entries(names),
                                    seq: later(wal_seq, sst_seq),
                                    pending: if names.len() > 0 {
                                        ops.push(
                                            DiskOpView::SaveManifest {
                                                text: saved(level0_entries(names)),
                                            },
                                        )
                                    } else {
                                        ops
                                    },
                                },
                            ),
                        },
                    }
                }
            },
        },
    }
}

/// Whether an engine is the one that recovery finds.
pub open spec fn recovered(e: EngineView, found: Recovered, flush_threshold: usize, wal_sync: bool) -> bool {
    &&& e.mem_map() == found.mem.map
    &&& e.mem_size == found.mem.approx_size
    &&& table_views(e.l0) == found.l0
    &&& table_views(e.l1) == found.l1
    &&& e.manifest == found.manifest
    &&& e.seq == found.seq
    &&& e.flush_threshold == flush_threshold
    &&& e.l0_compaction_trigger == DEFAULT_L0_COMPACTION_TRIGGER
    &&& e.wal_sync == wal_sync
    &&& e.pending == found.pending
}

/// Opens the files that the names name and the directory holds.
fn open_tables(names: &Vec<&str>, disk: &Disk) -> (r: Result<Vec<SSTableReader>, SstError>)
    ensures
        match parse_all(
            images_of(str_views(names@), disk@, names@.len() as int),
            images_of(str_views(names@), disk@, names@.len() as int).len() as int,
        ) {
            Ok(tables) => r is Ok && table_views(r->Ok_0@) == tables && tables_wf(r->Ok_0@),
            Err(e) => r is Err && r->Err_0 == e,
        },
{
    let ghost views = str_views(names@);
    let mut tables: Vec<SSTableReader> = Vec::new();
    let mut i: usize = 0;
    assert(table_views(tables@) =~= Seq::<TableView>::empty());
    while i < names.len()
        invariant
            0 <= i <= names@.len(),
            views == str_views(names@),
            tables_wf(tables@),
            parse_all(
                images_of(views, disk@, i as int),
                images_of(views, disk@, i as int).len() as int,
            ) == Ok::<Seq<TableView>, SstError>(table_views(tables@)),
        decreases names@.len() - i,
    {
        let ghost before_images = images_of(views, disk@, i as int);
        assert(views[i as int] == names@[i as int]@);
        match disk.file(names[i]) {
            None => {},
            Some(image) => {
                let ghost images = before_images.push(image@);
                proof {
                    assert(images.len() == before_images.len() + 1);
                    lemma_parse_all_prefix(images, before_images, before_images.len() as int);
                }
                match SSTableReader::open(copy_bytes(image.as_slice())) {
                    Err(e) => {
                        proof {
                            lemma_parse_all_fails(
                                views,
                                disk@,
                                i + 1,
                                names@.len() as int,
                            );
                        }
                        return Err(e);
                    },
                    Ok(reader) => {
                        let ghost before = table_views(tables@);
                        let ghost view = reader@;
                        tables.push(reader);
                        assert(table_views(tables@) =~= before.push(view));
                    },
                }
            },
        }
        i += 1;
    }
    Ok(tables)
}

/// The tables of a sequence of images are those of a longer sequence, as
/// far as they go.
pub proof fn lemma_parse_all_prefix(long: Seq<Seq<u8>>, short: Seq<Seq<u8>>, n: int)
    requires
        0 <= n <= short.len() <= long.len(),
        forall|i: int| 0 <= i < n ==> long[i] == short[i],
    ensures
        parse_all(long, n) == parse_all(short, n),
    decreases n,
{
    if n > 0 {
        lemma_parse_all_prefix(long, short, n - 1);
    }
}

/// The images of more names start with the images of fewer.
pub proof fn lemma_images_prefix(names: Seq<Seq<char>>, disk: DiskView, k: int, n: int)
    requires
        0 <= k <= n <= names.len(),
    ensures
        images_of(names, disk, k).len() <= images_of(names, disk, n).len(),
        forall|i: int|
            0 <= i < images_of(names, disk, k).len() ==> images_of(names, disk, n)[i]
                == images_of(names, disk, k)[i],
    decreases n - k,
{
    if k < n {
        lemma_images_prefix(names, disk, k, n - 1);
    }
}

/// Once an image has failed to open, opening more gives the same error.
pub proof fn lemma_parse_all_more(images: Seq<Seq<u8>>, k: int, n: int)
    requires
        0 <= k <= n <= images.len(),
        parse_all(images, k) is Err,
    ensures
        parse_all(images, n) == parse_all(images, k),
    decreases n - k,
{
    if k < n {
        lemma_parse_all_more(images, k, n - 1);
    }
}

/// Once the image of a name has failed to open, the images of more names
/// give the same error.
pub proof fn lemma_parse_all_fails(names: Seq<Seq<char>>, disk: DiskView, k: int, n: int)
    requires
        0 <= k <= n <= names.len(),
        parse_all(images_of(names, disk, k), images_of(names, disk, k).len() as int) is Err,
    ensures
        parse_all(images_of(names, disk, n), images_of(names, disk, n).len() as int) == parse_all(
            images_of(names, disk, k),
            images_of(names, disk, k).len() as int,
        ),
{
    let short = images_of(names, disk, k);
    let long = images_of(names, disk, n);
    lemma_images_prefix(names, disk, k, n);
    lemma_parse_all_prefix(long, short, short.len() as int);
    lemma_parse_all_more(long, short.len() as int, long.len() as int);
}

/// Once a read has failed, reading more keys gives the same error.
pub proof fn lemma_scanned_fails(table: TableView, k: int, n: int)
    requires
        0 <= k <= n,
        scanned_max_seq(table, k) is Err,
    ensures
        scanned_max_seq(table, n) == scanned_max_seq(table, k),
    decreases n - k,
{
    if k < n {
        lemma_scanned_fails(table, k, n - 1);
    }
}

/// Once a table has failed, reading more tables gives the same error.
pub proof fn lemma_tables_max_fails(tables: Seq<TableView>, k: int, n: int)
    requires
        0 <= k <= n,
        tables_max_seq(tables, k) is Err,
    ensures
        tables_max_seq(tables, n) == tables_max_seq(tables, k),
    decreases n - k,
{
    if k < n {
        lemma_tables_max_fails(tables, k, n - 1);
    }
}

/// The highest sequence number among the first `n` tables of a sequence is
/// that among the first `n` of a longer one.
pub proof fn lemma_tables_max_prefix(long: Seq<TableView>, short: Seq<TableView>, n: int)
    requires
        0 <= n <= short.len() <= long.len(),
        forall|i: int| 0 <= i < n ==> long[i] == short[i],
    ensures
        tables_max_seq(long, n) == tables_max_seq(short, n),
    decreases n,
{
    if n > 0 {
        lemma_tables_max_prefix(long, short, n - 1);
    }
}

impl Engine {
    /// The highest sequence number of a table: the one in its footer, or,
    /// for a table of an older version, the one found by reading every key.
    pub fn reader_max_seq(reader: &SSTableReader) -> (r: Result<u64, SstError>)
        requires
            reader.wf(),
        ensures
            r == table_max_seq(reader@),
    {
        match reader.max_seq() {
            Some(seq) => {
                return Ok(seq);
            },
            None => {},
        }
        proof {
            reader.lemma_sorted_index();
        }
        let n: usize = reader.len();
        let mut max: u64 = 0;
        let mut i: usize = 0;
        while i < n
            invariant
                0 <= i <= n,
                reader.wf(),
                n == reader.index_pairs().len(),
                reader@.footer.spec_max_seq() is None,
                reader.index_pairs() == reader@.sorted_index(),
                scanned_max_seq(reader@, i as int) == Ok::<u64, SstError>(max),
            decreases n - i,
        {
            match reader.get(reader.key_at(i)) {
                Err(e) => {
                    proof {
                        lemma_scanned_fails(reader@, i + 1, n as int);
                    }
                    return Err(e);
                },
                Ok(None) => {},
                Ok(Some(entry)) => {
                    if entry.seq > max {
                        max = entry.seq;
                    }
                },
            }
            i += 1;
        }
        Ok(max)
    }

    /// The operations that remove the temporary table files which an
    /// interrupted flush or compaction left behind.
    pub fn cleanup_tmp_files(disk: &Disk) -> (r: Vec<DiskOp>)
        ensures
            op_views(r@) == cleanup_ops(disk@.files, disk@.files.len() as int),
    {
        let mut ops: Vec<DiskOp> = Vec::new();
        let mut i: usize = 0;
        assert(op_views(ops@) =~= cleanup_ops(disk@.files, 0));
        while i < disk.files.len()
            invariant
                0 <= i <= disk.files@.len(),
                op_views(ops@) == cleanup_ops(disk@.files, i as int),
            decreases disk.files@.len() - i,
        {
            let name: &String = &disk.files[i].0;
            assert(disk@.files[i as int].0 == name@);
            if temp_name_check(name.as_str()) {
                let ghost before = op_views(ops@);
                ops.push(DiskOp::RemoveFile { name: name.clone() });
                assert(op_views(ops@) =~= before.push(DiskOpView::RemoveFile { name: name@ }));
            }
            i += 1;
        }
        ops
    }

    /// Opens an engine on what the disk holds.
    ///
    /// The log is replayed into a fresh memtable, the tables are opened
    /// into their levels, and the sequence number goes on from the highest
    /// that the log or any table knows. The disk operations that recovery
    /// asks for are pending in the engine that is returned.
    #[verifier::rlimit(50)]
    pub fn new(disk: &Disk, flush_threshold: usize, wal_sync: bool) -> (r: Result<Engine, EngineError>)
        ensures
            match recovery(disk@) {
                Ok(found) => r is Ok && r->Ok_0.wf() && recovered(
                    r->Ok_0@,
                    found,
                    flush_threshold,
                    wal_sync,
                ),
                Err(e) => r is Err && r->Err_0 == e,
            },
    {
        let mut pending: Vec<DiskOp> = Self::cleanup_tmp_files(disk);
        let mut mem: Memtable = Memtable::new();
        let opened: Result<&[u8], WalError> = match &disk.wal {
            Some(bytes) => Ok(bytes.as_slice()),
            None => Err(WalError::Io(IoKind::NotFound)),
        };
        assert(wal_view(opened) == disk_wal(disk@));
        let wal_seq: u64 = match replay_wal_and_build(opened, &mut mem) {
            Err(e) => {
                return Err(EngineError::Wal(e));
            },
            Ok(seq) => seq,
        };
        let ghost before = op_views(pending@);
        pending.push(DiskOp::CreateWal);
        assert(op_views(pending@) =~= before.push(DiskOpView::CreateWal));
        let wal_writer: WalWriter = WalWriter::create(wal_sync);
        let contents: Option<&str> = match &disk.manifest {
            Some(text) => Some(text.as_str()),
            None => None,
        };
        let mut manifest: Manifest = match Manifest::load_or_create(contents) {
            Err(e) => {
                return Err(EngineError::Manifest(e));
            },
            Ok(m) => m,
        };
        let l0_sstables: Vec<SSTableReader>;
        let l1_sstables: Vec<SSTableReader>;
        if manifest.entries.len() > 0 {
            assert(manifest@.len() > 0);
            let first: Vec<&str> = manifest.l0_filenames();
            l0_sstables = match open_tables(&first, disk) {
                Err(e) => {
                    return Err(EngineError::Sst(e));
                },
                Ok(t) => t,
            };
            let second: Vec<&str> = manifest.l1_filenames();
            l1_sstables = match open_tables(&second, disk) {
                Err(e) => {
                    return Err(EngineError::Sst(e));
                },
                Ok(t) => t,
            };
        } else {
            assert(manifest@ =~= Seq::<SstMetaView>::empty());
            let names: Vec<&str> = table_names(disk);
            l0_sstables = match open_tables(&names, disk) {
                Err(e) => {
                    return Err(EngineError::Sst(e));
                },
                Ok(t) => t,
            };
            l1_sstables = Vec::new();
            assert(table_views(l1_sstables@) =~= Seq::<TableView>::empty());
            if names.len() > 0 {
                manifest = level0_manifest(&names);
                let ghost before = op_views(pending@);
                let text: String = manifest.save();
                pending.push(DiskOp::SaveManifest { text });
                assert(op_views(pending@) =~= before.push(
                    DiskOpView::SaveManifest { text: saved(level0_entries(str_views(names@))) },
                ));
            } else {
                assert(manifest@ =~= level0_entries(str_views(names@)));
            }
        }
        let ghost all = table_views(l0_sstables@) + table_views(l1_sstables@);
        let first_seq: u64 = match max_seq_of(&l0_sstables) {
            Err(e) => {
                proof {
                    lemma_tables_max_prefix(
                        all,
                        table_views(l0_sstables@),
                        l0_sstables@.len() as int,
                    );
                    lemma_tables_max_fails(all, l0_sstables@.len() as int, all.len() as int);
                    assert(table_views(l0_sstables@) + Seq::<TableView>::empty() =~= table_views(
                        l0_sstables@,
                    ));
                }
                return Err(EngineError::Sst(e));
            },
            Ok(seq) => seq,
        };
        let sst_seq: u64 = match max_seq_from(&l1_sstables, first_seq, Ghost(table_views(l0_sstables@))) {
            Err(e) => {
                return Err(EngineError::Sst(e));
            },
            Ok(seq) => seq,
        };
        proof {
            assert(table_views(l0_sstables@) + Seq::<TableView>::empty() =~= table_views(
                l0_sstables@,
            ));
            if l1_sstables@.len() == 0 {
                assert(table_views(l1_sstables@) =~= Seq::<TableView>::empty());
            }
        }
        let seq: u64 = if wal_seq > sst_seq {
            wal_seq
        } else {
            sst_seq
        };
        Ok(
            Engine {
                mem,
                l0_sstables,
                l1_sstables,
                wal_writer,
                manifest,
                seq,
                flush_threshold,
                l0_compaction_trigger: DEFAULT_L0_COMPACTION_TRIGGER,
                wal_sync,
                pending,
            },
        )
    }
}

/// The highest sequence number among the tables.
fn max_seq_of(tables: &Vec<SSTableReader>) -> (r: Result<u64, SstError>)
    requires
        tables_wf(tables@),
    ensures
        r == tables_max_seq(table_views(tables@), tables@.len() as int),
{
    max_seq_from(tables, 0, Ghost(Seq::empty()))
}

/// The highest sequence number among the tables and `start`, which is the
/// highest among the tables `before` them.
fn max_seq_from(tables: &Vec<SSTableReader>, start: u64, Ghost(before): Ghost<Seq<TableView>>) -> (r:
    Result<u64, SstError>)
    requires
        tables_wf(tables@),
        tables_max_seq(before, before.len() as int) == Ok::<u64, SstError>(start),
    ensures
        r == tables_max_seq(
            before + table_views(tables@),
            (before + table_views(tables@)).len() as int,
        ),
{
    let ghost all = before + table_views(tables@);
    let mut max: u64 = start;
    let mut i: usize = 0;
    proof {
        lemma_tables_max_prefix(all, before, before.len() as int);
    }
    while i < tables.len()
        invariant
            0 <= i <= tables@.len(),
            tables_wf(tables@),
            all == before + table_views(tables@),
            tables_max_seq(all, before.len() + i) == Ok::<u64, SstError>(max),
        decreases tables@.len() - i,
    {
        assert(all[before.len() + i] == tables@[i as int]@);
        match Engine::reader_max_seq(&tables[i]) {
            Err(e) => {
                proof {
                    lemma_tables_max_fails(all, before.len() + i + 1, all.len() as int);
                }
                return Err(e);
            },
            Ok(seq) => {
                if seq > max {
                    max = seq;
                }
            },
        }
        i += 1;
    }
    Ok(max)
}

/// Whether name `a` sorts before name `b`.
fn name_below(a: &str, b: &str) -> (r: bool)
    ensures
        r == name_lt(a@, b@),
{
    match rank(a.as_bytes(), b.as_bytes()) {
        Rank::Below => true,
        _ => false,
    }
}

/// The names of the table files of the directory, the newest first.
fn table_names(disk: &Disk) -> (r: Vec<&str>)
    ensures
        str_views(r@) == table_names_desc(disk@.files, disk@.files.len() as int),
{
    let mut names: Vec<&str> = Vec::new();
    let mut i: usize = 0;
    assert(str_views(names@) =~= table_names_desc(disk@.files, 0));
    while i < disk.files.len()
        invariant
            0 <= i <= disk.files@.len(),
            str_views(names@) == table_names_desc(disk@.files, i as int),
        decreases disk.files@.len() - i,
    {
        let name: &str = disk.files[i].0.as_str();
        assert(disk@.files[i as int].0 == name@);
        if table_name_check(name) {
            let ghost sorted = str_views(names@);
            let mut at: usize = 0;
            while at < names.len() && !name_below(names[at], name)
                invariant
                    0 <= at <= names@.len(),
                    sorted == str_views(names@),
                    slot(sorted, name@, 0) == slot(sorted, name@, at as int),
                decreases names@.len() - at,
            {
                assert(sorted[at as int] == names@[at as int]@);
                at += 1;
            }
            proof {
                if at < names@.len() {
                    assert(sorted[at as int] == names@[at as int]@);
                }
            }
            names.insert(at, name);
            assert(str_views(names@) =~= sorted.insert(at as int, name@));
        }
        i += 1;
    }
    names
}

/// A manifest that lists the names at level 0, in their order.
fn level0_manifest(names: &Vec<&str>) -> (m: Manifest)
    ensures
        m@ == level0_entries(str_views(names@)),
        m.levels_known(),
{
    let mut entries: Vec<SstMeta> = Vec::new();
    let mut i: usize = 0;
    while i < names.len()
        invariant
            0 <= i <= names@.len(),
            entries@.len() == i,
            forall|j: int|
                0 <= j < i ==> (#[trigger] entries@[j])@ == (SstMetaView {
                    filename: names@[j]@,
                    level: 0,
                }),
        decreases names@.len() - i,
    {
        entries.push(SstMeta { filename: String::from_str(names[i]), level: 0 });
        i += 1;
    }
    let m = Manifest { entries };
    assert(m@ =~= level0_entries(str_views(names@)));
    m
}

} // verus!
