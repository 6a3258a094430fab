use riptidekv::engine::disk::Disk;
use riptidekv::engine::{DiskOp, EngineError, MAX_KEY_SIZE, MAX_VALUE_SIZE};
use std::cell::RefCell;
use riptidekv::engine::recovery::replay_wal_and_build;
use riptidekv::memtable::Memtable;
use riptidekv::wal::{IoKind, WalError};
use std::rc::Rc;

type Result<T> = std::result::Result<T, EngineError>;

// --------------------- A disk in memory ---------------------

/// A directory of a test: a disk in memory, shared by the engines that are
/// opened on it one after the other.
#[derive(Clone)]
struct TestDir {
    disk: Rc<RefCell<Disk>>,
}

fn tempdir() -> Result<TestDir> {
    Ok(TestDir {
        disk: Rc::new(RefCell::new(Disk::new())),
    })
}

impl TestDir {
    fn path(&self) -> &TestDir {
        self
    }

    fn join(&self, _name: &str) -> TestDir {
        self.clone()
    }

    fn apply(&self, ops: Vec<DiskOp>) {
        self.disk.borrow_mut().apply_all(&ops);
    }

    fn wal_len(&self) -> usize {
        self.disk.borrow().wal.as_ref().map(|w| w.len()).unwrap_or(0)
    }

    fn file_names(&self) -> Vec<String> {
        self.disk.borrow().files.iter().map(|f| f.0.clone()).collect()
    }

    fn has_file(&self, name: &str) -> bool {
        self.disk.borrow().file(name).is_some()
    }

    fn write_file(&self, name: &str, content: &[u8]) {
        self.disk.borrow_mut().files.push((name.to_string(), content.to_vec()));
    }
}

fn count_sst_files(dir: &TestDir) -> usize {
    dir.file_names().iter().filter(|n| n.len() > 4 && n.ends_with(".sst")).count()
}

/// An engine on a test directory. After every call it performs the disk
/// operations that the call left pending; when it goes out of scope it
/// closes the engine, which flushes the memtable.
struct Engine {
    dir: TestDir,
    inner: Option<riptidekv::engine::Engine>,
}

impl Engine {
    fn new<A: std::borrow::Borrow<TestDir>, B: std::borrow::Borrow<TestDir>>(
        wal: A,
        _sst: B,
        flush_threshold: usize,
        wal_sync: bool,
    ) -> Result<Engine> {
        let dir = wal.borrow().clone();
        let snapshot = dir.disk.borrow().clone();
        let mut inner = riptidekv::engine::Engine::new(&snapshot, flush_threshold, wal_sync)?;
        dir.apply(inner.take_ops());
        Ok(Engine {
            dir,
            inner: Some(inner),
        })
    }

    fn engine(&self) -> &riptidekv::engine::Engine {
        self.inner.as_ref().unwrap()
    }

    fn run<T>(&mut self, call: impl FnOnce(&mut riptidekv::engine::Engine) -> T) -> T {
        let inner = self.inner.as_mut().unwrap();
        let out = call(inner);
        let ops = inner.take_ops();
        self.dir.apply(ops);
        out
    }

    fn set(&mut self, key: Vec<u8>, value: Vec<u8>) -> Result<()> {
        self.run(|e| e.set(key, value))
    }

    fn del(&mut self, key: Vec<u8>) -> Result<()> {
        self.run(|e| e.del(key))
    }

    fn force_flush(&mut self) -> Result<()> {
        self.run(|e| e.force_flush())
    }

    fn compact(&mut self) -> Result<()> {
        self.run(|e| e.compact())
    }

    fn get(&self, key: &[u8]) -> Result<Option<(u64, Vec<u8>)>> {
        self.engine().get(key)
    }

    fn scan(&self, start: &[u8], end: &[u8]) -> Result<Vec<(Vec<u8>, Vec<u8>)>> {
        self.engine().scan(start, end)
    }

    fn seq(&self) -> u64 {
        self.engine().seq()
    }

    fn set_flush_threshold(&mut self, threshold: usize) {
        self.inner.as_mut().unwrap().set_flush_threshold(threshold)
    }

    fn set_l0_compaction_trigger(&mut self, trigger: usize) {
        self.inner.as_mut().unwrap().set_l0_compaction_trigger(trigger)
    }

    fn sstable_count(&self) -> usize {
        self.engine().sstable_count()
    }

    fn l0_sstable_count(&self) -> usize {
        self.engine().l0_sstable_count()
    }

    fn l1_sstable_count(&self) -> usize {
        self.engine().l1_sstable_count()
    }

    /// Ends the engine without closing it, as a crash does: what the
    /// memtable holds is not flushed.
    fn crash(mut self) {
        self.inner = None;
    }
}

impl Drop for Engine {
    fn drop(&mut self) {
        if let Some(inner) = self.inner.take() {
            self.dir.apply(inner.close());
        }
    }
}

// ===================== write =====================

// --------------------- Basic set / get / del ---------------------

#[test]
fn set_and_get() -> Result<()> {
    let dir = tempdir()?;
    let mut engine = Engine::new(
        dir.path().join("wal.log"),
        dir.path().join("sst"),
        1024 * 1024,
        false,
    )?;

    engine.set(b"name".to_vec(), b"alice".to_vec())?;
    let (seq, val) = engine.get(b"name")?.unwrap();
    assert_eq!(seq, 1);
    assert_eq!(val, b"alice");
    Ok(())
}

#[test]
fn get_missing_key() -> Result<()> {
    let dir = tempdir()?;
    let engine = Engine::new(
        dir.path().join("wal.log"),
        dir.path().join("sst"),
        1024 * 1024,
        false,
    )?;

    assert!(engine.get(b"nope")?.is_none());
    Ok(())
}

#[test]
fn del_removes_key() -> Result<()> {
    let dir = tempdir()?;
    let mut engine = Engine::new(
        dir.path().join("wal.log"),
        dir.path().join("sst"),
        1024 * 1024,
        false,
    )?;

    engine.set(b"k".to_vec(), b"v".to_vec())?;
    assert!(engine.get(b"k")?.is_some());

    engine.del(b"k".to_vec())?;
    assert!(engine.get(b"k")?.is_none());
    Ok(())
}

#[test]
fn overwrite_key() -> Result<()> {
    let dir = tempdir()?;
    let mut engine = Engine::new(
        dir.path().join("wal.log"),
        dir.path().join("sst"),
        1024 * 1024,
        false,
    )?;

    engine.set(b"k".to_vec(), b"v1".to_vec())?;
    engine.set(b"k".to_vec(), b"v2".to_vec())?;
    assert_eq!(engine.get(b"k")?.unwrap().1, b"v2".to_vec());
    Ok(())
}

#[test]
fn set_after_del_resurrects() -> Result<()> {
    let dir = tempdir()?;
    let mut engine = Engine::new(
        dir.path().join("wal.log"),
        dir.path().join("sst"),
        1024 * 1024,
        false,
    )?;

    engine.set(b"k".to_vec(), b"v1".to_vec())?;
    engine.del(b"k".to_vec())?;
    engine.set(b"k".to_vec(), b"v2".to_vec())?;
    assert_eq!(engine.get(b"k")?.unwrap().1, b"v2".to_vec());
    Ok(())
}

#[test]
fn newest_sstable_wins_on_read() -> Result<()> {
    let dir = tempdir()?;
    let wal_path = dir.path().join("wal.log");
    let sst_dir = dir.path().join("sst");

    let mut engine = Engine::new(&wal_path, &sst_dir, 1, false)?;

    // Write k=v1, flush
    engine.set(b"k".to_vec(), b"v1".to_vec())?;

    // Write k=v2, flush (newer SSTable)
    engine.set(b"k".to_vec(), b"v2".to_vec())?;

    // Should read v2 from the newest SSTable
    assert_eq!(engine.get(b"k")?.unwrap().1, b"v2".to_vec());
    Ok(())
}

// --------------------- force_flush ---------------------

#[test]
fn force_flush_empty_memtable_is_noop() -> Result<()> {
    let dir = tempdir()?;
    let mut engine = Engine::new(
        dir.path().join("wal.log"),
        dir.path().join("sst"),
        1024 * 1024,
        false,
    )?;

    let count_before = engine.sstable_count();
    engine.force_flush()?;
    assert_eq!(
        engine.sstable_count(),
        count_before,
        "empty flush should be noop"
    );
    Ok(())
}

#[test]
fn force_flush_persists_memtable_data() -> Result<()> {
    let dir = tempdir()?;
    let wal = dir.path().join("wal.log");
    let sst = dir.path().join("sst");

    {
        let mut engine = Engine::new(&wal, &sst, 1024 * 1024, false)?;
        engine.set(b"key".to_vec(), b"value".to_vec())?;
        engine.force_flush()?;
        assert_eq!(engine.l0_sstable_count(), 1);
    }

    // Reopen - data should be in SSTable, not WAL
    let engine = Engine::new(&wal, &sst, 1024 * 1024, false)?;
    let (_, val) = engine.get(b"key")?.expect("key should survive");
    assert_eq!(val, b"value");
    Ok(())
}

// --------------------- Drop flushes memtable ---------------------

#[test]
fn drop_flushes_memtable_to_sstable() -> Result<()> {
    let dir = tempdir()?;
    let wal = dir.path().join("wal.log");
    let sst = dir.path().join("sst");

    {
        let mut engine = Engine::new(&wal, &sst, 1024 * 1024, false)?;
        engine.set(b"drop_key".to_vec(), b"drop_val".to_vec())?;
        // Engine drops here - should flush memtable
    }

    // Reopen - data should be in SSTable from the Drop flush
    let engine = Engine::new(&wal, &sst, 1024 * 1024, false)?;
    let (_, val) = engine.get(b"drop_key")?.expect("key should survive drop");
    assert_eq!(val, b"drop_val");
    assert!(engine.sstable_count() >= 1);
    Ok(())
}

#[test]
fn set_rejects_oversized_value() -> Result<()> {
    let dir = tempdir()?;
    let mut engine = Engine::new(
        dir.path().join("wal.log"),
        dir.path().join("sst"),
        1024 * 1024,
        false,
    )?;

    let big_val = vec![b'v'; MAX_VALUE_SIZE + 1];
    let result = engine.set(b"k".to_vec(), big_val);
    assert!(result.is_err());
    assert!(result.unwrap_err().to_string().contains("value too large"));
    assert_eq!(engine.seq(), 0);
    Ok(())
}

#[test]
fn set_accepts_max_key_size() -> Result<()> {
    let dir = tempdir()?;
    let mut engine = Engine::new(
        dir.path().join("wal.log"),
        dir.path().join("sst"),
        1024 * 1024 * 1024, // huge threshold to avoid flush
        false,
    )?;

    let max_key = vec![b'k'; MAX_KEY_SIZE];
    engine.set(max_key.clone(), b"v".to_vec())?;
    let (_, val) = engine
        .get(&max_key)?
        .expect("max-size key should be readable");
    assert_eq!(val, b"v");
    Ok(())
}

#[test]
fn del_rejects_oversized_key() -> Result<()> {
    let dir = tempdir()?;
    let mut engine = Engine::new(
        dir.path().join("wal.log"),
        dir.path().join("sst"),
        1024 * 1024,
        false,
    )?;

    let big_key = vec![b'k'; MAX_KEY_SIZE + 1];
    let result = engine.del(big_key);
    assert!(result.is_err());
    assert!(result.unwrap_err().to_string().contains("key too large"));
    assert_eq!(engine.seq(), 0);
    Ok(())
}

// --------------------- Multiple flushes ---------------------

#[test]
fn multiple_flushes_create_multiple_sstables() -> Result<()> {
    let dir = tempdir()?;
    let wal_path = dir.path().join("wal.log");
    let sst_dir = dir.path().join("sst");

    let mut engine = Engine::new(&wal_path, &sst_dir, 1, false)?;
    // Disable auto-compaction so all L0 SSTables remain on disk.
    engine.set_l0_compaction_trigger(0);

    for i in 0..5u64 {
        engine.set(format!("k{}", i).into_bytes(), b"v".to_vec())?;
        // Each set triggers a flush due to threshold=1
    }

    let sst_count = count_sst_files(&sst_dir);
    assert!(
        sst_count >= 5,
        "expected multiple SSTable files, got {}",
        sst_count
    );

    // All keys should be readable
    for i in 0..5u64 {
        let key = format!("k{}", i).into_bytes();
        assert!(engine.get(&key)?.is_some(), "key {} should be readable", i);
    }
    Ok(())
}

// --------------------- Sequence number ---------------------

#[test]
fn seq_increments_on_every_operation() -> Result<()> {
    let dir = tempdir()?;
    let mut engine = Engine::new(
        dir.path().join("wal.log"),
        dir.path().join("sst"),
        1024 * 1024,
        false,
    )?;

    assert_eq!(engine.seq(), 0);
    engine.set(b"a".to_vec(), b"1".to_vec())?;
    assert_eq!(engine.seq(), 1);
    engine.set(b"b".to_vec(), b"2".to_vec())?;
    assert_eq!(engine.seq(), 2);
    engine.del(b"a".to_vec())?;
    assert_eq!(engine.seq(), 3);
    Ok(())
}

// --------------------- Key/value size limits ---------------------

#[test]
fn set_rejects_empty_key() -> Result<()> {
    let dir = tempdir()?;
    let mut engine = Engine::new(
        dir.path().join("wal.log"),
        dir.path().join("sst"),
        1024 * 1024,
        false,
    )?;

    let result = engine.set(vec![], b"value".to_vec());
    assert!(result.is_err());
    assert!(result.unwrap_err().to_string().contains("empty"));
    // seq should not have incremented
    assert_eq!(engine.seq(), 0);
    Ok(())
}

#[test]
fn del_rejects_empty_key() -> Result<()> {
    let dir = tempdir()?;
    let mut engine = Engine::new(
        dir.path().join("wal.log"),
        dir.path().join("sst"),
        1024 * 1024,
        false,
    )?;

    let result = engine.del(vec![]);
    assert!(result.is_err());
    assert!(result.unwrap_err().to_string().contains("empty"));
    assert_eq!(engine.seq(), 0);
    Ok(())
}

#[test]
fn set_rejects_oversized_key() -> Result<()> {
    let dir = tempdir()?;
    let mut engine = Engine::new(
        dir.path().join("wal.log"),
        dir.path().join("sst"),
        1024 * 1024,
        false,
    )?;

    let big_key = vec![b'k'; MAX_KEY_SIZE + 1];
    let result = engine.set(big_key, b"v".to_vec());
    assert!(result.is_err());
    assert!(result.unwrap_err().to_string().contains("key too large"));
    assert_eq!(engine.seq(), 0);
    Ok(())
}

// --------------------- Flush mechanics ---------------------

#[test]
fn write_tests_flush_writes_sstable_and_truncates_wal() -> Result<()> {
    let dir = tempdir()?;
    let wal_path = dir.path().join("wal.log");
    let sst_dir = dir.path().join("sst");

    let mut engine = Engine::new(&wal_path, &sst_dir, 1, true)?;
    engine.set(b"key1".to_vec(), b"value1".to_vec())?;

    assert!(
        count_sst_files(&sst_dir) >= 1,
        "expected at least one .sst file"
    );

    assert_eq!(wal_path.wal_len(), 0, "expected wal to be truncated to 0 bytes");
    Ok(())
}

#[test]
fn flush_triggers_at_threshold() -> Result<()> {
    let dir = tempdir()?;
    let wal_path = dir.path().join("wal.log");
    let sst_dir = dir.path().join("sst");
    let threshold = 4 * 1024; // 4 KB for fast test

    let mut engine = Engine::new(&wal_path, &sst_dir, threshold, false)?;
    let value = vec![b'x'; 512];
    let writes = (threshold / value.len()) + 5;
    for i in 0..writes {
        engine.set(format!("key{}", i).into_bytes(), value.clone())?;
    }

    assert!(
        count_sst_files(&sst_dir) >= 1,
        "expected at least one SSTable after crossing threshold"
    );
    Ok(())
}

// --------------------- Read from SSTables after flush ---------------------

#[test]
fn get_reads_from_sstable_after_flush() -> Result<()> {
    let dir = tempdir()?;
    let mut engine = Engine::new(
        dir.path().join("wal.log"),
        dir.path().join("sst"),
        1, // tiny threshold - every set triggers flush
        false,
    )?;

    engine.set(b"k1".to_vec(), b"v1".to_vec())?;
    // After flush, memtable is empty; k1 is only in SSTable
    assert_eq!(engine.get(b"k1")?.unwrap().1, b"v1".to_vec());
    Ok(())
}

#[test]
fn tombstone_in_sstable_shadows_older_value() -> Result<()> {
    let dir = tempdir()?;
    let wal_path = dir.path().join("wal.log");
    let sst_dir = dir.path().join("sst");

    // Large threshold so we control flushes manually
    let mut engine = Engine::new(&wal_path, &sst_dir, 1024 * 1024, false)?;

    // Write k=v, then force flush by lowering threshold temporarily
    engine.set(b"k".to_vec(), b"old_value".to_vec())?;
    engine.set_flush_threshold(1);
    // Trigger flush with a dummy write
    engine.set(b"dummy".to_vec(), b"x".to_vec())?;

    // Now SSTable #1 has {k: old_value, dummy: x}
    // Reset threshold high
    engine.set_flush_threshold(1024 * 1024);

    // Delete k (goes into memtable as tombstone)
    engine.del(b"k".to_vec())?;

    // Memtable tombstone should shadow SSTable value
    assert!(engine.get(b"k")?.is_none());
    Ok(())
}

// ===================== read =====================

// --------------------- Scan (range query) ---------------------

#[test]
fn scan_full_range() -> Result<()> {
    let dir = tempdir()?;
    let mut engine = Engine::new(
        dir.path().join("wal.log"),
        dir.path().join("sst"),
        1024 * 1024,
        false,
    )?;

    engine.set(b"a".to_vec(), b"1".to_vec())?;
    engine.set(b"b".to_vec(), b"2".to_vec())?;
    engine.set(b"c".to_vec(), b"3".to_vec())?;

    let results = engine.scan(b"", b"")?;
    assert_eq!(results.len(), 3);
    assert_eq!(results[0], (b"a".to_vec(), b"1".to_vec()));
    assert_eq!(results[1], (b"b".to_vec(), b"2".to_vec()));
    assert_eq!(results[2], (b"c".to_vec(), b"3".to_vec()));
    Ok(())
}

#[test]
fn scan_bounded_range() -> Result<()> {
    let dir = tempdir()?;
    let mut engine = Engine::new(
        dir.path().join("wal.log"),
        dir.path().join("sst"),
        1024 * 1024,
        false,
    )?;

    for c in b'a'..=b'z' {
        engine.set(vec![c], vec![c])?;
    }

    // Scan [b, e) - should return b, c, d
    let results = engine.scan(b"b", b"e")?;
    assert_eq!(results.len(), 3);
    assert_eq!(results[0].0, b"b".to_vec());
    assert_eq!(results[2].0, b"d".to_vec());
    Ok(())
}

#[test]
fn scan_across_memtable_and_sstables() -> Result<()> {
    let dir = tempdir()?;
    let mut engine = Engine::new(
        dir.path().join("wal.log"),
        dir.path().join("sst"),
        64,
        false,
    )?;
    engine.set_l0_compaction_trigger(0);

    // Write enough to trigger flushes
    for i in 0..20u64 {
        engine.set(format!("k{:04}", i).into_bytes(), b"val".to_vec())?;
    }

    // Some data in SSTables, some in memtable - scan should merge all
    let results = engine.scan(b"", b"")?;
    assert_eq!(results.len(), 20);
    // Should be sorted
    for i in 0..19 {
        assert!(results[i].0 < results[i + 1].0);
    }
    Ok(())
}

#[test]
fn scan_respects_tombstones() -> Result<()> {
    let dir = tempdir()?;
    let mut engine = Engine::new(
        dir.path().join("wal.log"),
        dir.path().join("sst"),
        1024 * 1024,
        false,
    )?;

    engine.set(b"a".to_vec(), b"1".to_vec())?;
    engine.set(b"b".to_vec(), b"2".to_vec())?;
    engine.set(b"c".to_vec(), b"3".to_vec())?;
    engine.del(b"b".to_vec())?;

    let results = engine.scan(b"", b"")?;
    assert_eq!(results.len(), 2);
    assert_eq!(results[0].0, b"a".to_vec());
    assert_eq!(results[1].0, b"c".to_vec());
    Ok(())
}

#[test]
fn scan_empty_range() -> Result<()> {
    let dir = tempdir()?;
    let mut engine = Engine::new(
        dir.path().join("wal.log"),
        dir.path().join("sst"),
        1024 * 1024,
        false,
    )?;

    engine.set(b"a".to_vec(), b"1".to_vec())?;

    // Range [x, z) - no keys in this range
    let results = engine.scan(b"x", b"z")?;
    assert!(results.is_empty());
    Ok(())
}

// --------------------- Read path priority ---------------------

#[test]
fn read_path_prefers_l0_over_l1() -> Result<()> {
    let dir = tempdir()?;
    let mut engine = Engine::new(
        dir.path().join("wal.log"),
        dir.path().join("sst"),
        64,
        false,
    )?;
    engine.set_l0_compaction_trigger(0);

    // Write initial data and force multiple flushes so compact has work
    engine.set(b"key".to_vec(), b"old".to_vec())?;
    for i in 0..30u64 {
        engine.set(format!("pad{:04}", i).into_bytes(), b"x".to_vec())?;
    }

    assert!(
        engine.l0_sstable_count() > 1,
        "need multiple L0 SSTables for compact"
    );
    engine.compact()?;
    assert_eq!(engine.l1_sstable_count(), 1);
    assert_eq!(engine.l0_sstable_count(), 0);

    // Write newer value - will be in memtable or L0 after flush
    engine.set(b"key".to_vec(), b"new".to_vec())?;

    // key "new" is in memtable (or L0 if flushed), "old" is in L1
    let (_, val) = engine.get(b"key")?.expect("key should exist");
    assert_eq!(val, b"new", "memtable/L0 should shadow L1");
    Ok(())
}

// ===================== compaction =====================

// --------------------- Compaction & Levels ---------------------

#[test]
fn flush_goes_to_l0() -> Result<()> {
    let dir = tempdir()?;
    let mut engine = Engine::new(
        dir.path().join("wal.log"),
        dir.path().join("sst"),
        64,
        false,
    )?;
    engine.set_l0_compaction_trigger(0);

    for i in 0..20u64 {
        engine.set(format!("k{:04}", i).into_bytes(), b"val".to_vec())?;
    }

    assert!(engine.l0_sstable_count() > 0, "flushes should go to L0");
    assert_eq!(engine.l1_sstable_count(), 0, "L1 should be empty before compact");
    Ok(())
}

#[test]
fn compact_moves_l0_to_l1() -> Result<()> {
    let dir = tempdir()?;
    let mut engine = Engine::new(
        dir.path().join("wal.log"),
        dir.path().join("sst"),
        64,
        false,
    )?;
    engine.set_l0_compaction_trigger(0);

    for i in 0..50u64 {
        engine.set(format!("k{:04}", i).into_bytes(), b"val".to_vec())?;
    }

    assert!(engine.l0_sstable_count() > 1, "should have multiple L0 SSTables");

    engine.compact()?;
    assert_eq!(engine.l0_sstable_count(), 0, "L0 should be empty after compact");
    assert_eq!(engine.l1_sstable_count(), 1, "L1 should have exactly 1 SSTable after compact");
    assert_eq!(engine.sstable_count(), 1, "total should be 1");

    // All keys still readable
    for i in 0..50u64 {
        let key = format!("k{:04}", i).into_bytes();
        let (_, val) = engine.get(&key)?.expect("key should exist after compact");
        assert_eq!(val, b"val");
    }
    Ok(())
}

#[test]
fn compact_preserves_newest_value() -> Result<()> {
    let dir = tempdir()?;
    let mut engine = Engine::new(
        dir.path().join("wal.log"),
        dir.path().join("sst"),
        32,
        false,
    )?;

    engine.set(b"key".to_vec(), b"v1".to_vec())?;
    engine.set(b"key".to_vec(), b"v2".to_vec())?;
    engine.set(b"key".to_vec(), b"v3".to_vec())?;

    engine.compact()?;

    let (_, val) = engine.get(b"key")?.expect("key should exist");
    assert_eq!(val, b"v3", "newest value should survive compaction");
    Ok(())
}

// --------------------- Stress ---------------------

#[test]
fn many_keys_with_flushes() -> Result<()> {
    let dir = tempdir()?;
    let mut engine = Engine::new(
        dir.path().join("wal.log"),
        dir.path().join("sst"),
        4096, // 4 KB threshold
        false,
    )?;

    for i in 0..500u64 {
        let key = format!("key{:04}", i).into_bytes();
        let val = vec![b'v'; 64];
        engine.set(key, val)?;
    }

    // Verify all keys readable
    for i in 0..500u64 {
        let key = format!("key{:04}", i).into_bytes();
        assert!(
            engine.get(&key)?.is_some(),
            "key{:04} should be readable",
            i
        );
    }

    // Delete half
    for i in (0..500u64).step_by(2) {
        let key = format!("key{:04}", i).into_bytes();
        engine.del(key)?;
    }

    // Verify deletes
    for i in 0..500u64 {
        let key = format!("key{:04}", i).into_bytes();
        if i % 2 == 0 {
            assert!(engine.get(&key)?.is_none(), "key{:04} should be deleted", i);
        } else {
            assert!(
                engine.get(&key)?.is_some(),
                "key{:04} should still exist",
                i
            );
        }
    }

    Ok(())
}

// --------------------- Auto-compaction ---------------------

#[test]
fn auto_compaction_triggers_at_l0_threshold() -> Result<()> {
    let dir = tempdir()?;
    let mut engine = Engine::new(
        dir.path().join("wal.log"),
        dir.path().join("sst"),
        1, // threshold=1 -> every set triggers a flush
        false,
    )?;
    engine.set_l0_compaction_trigger(3);

    // Write 3 keys -> 3 flushes -> triggers auto-compaction at L0=3
    for i in 0..3u64 {
        engine.set(format!("k{}", i).into_bytes(), b"v".to_vec())?;
    }

    // After auto-compaction: L0 should be 0, L1 should be 1
    assert_eq!(engine.l0_sstable_count(), 0);
    assert_eq!(engine.l1_sstable_count(), 1);

    // All keys still readable
    for i in 0..3u64 {
        assert!(engine.get(format!("k{}", i).as_bytes())?.is_some());
    }
    Ok(())
}

#[test]
fn auto_compaction_disabled_when_trigger_is_zero() -> Result<()> {
    let dir = tempdir()?;
    let mut engine = Engine::new(
        dir.path().join("wal.log"),
        dir.path().join("sst"),
        1,
        false,
    )?;
    engine.set_l0_compaction_trigger(0);

    for i in 0..5u64 {
        engine.set(format!("k{}", i).into_bytes(), b"v".to_vec())?;
    }

    // No auto-compaction -> all in L0
    assert!(engine.l0_sstable_count() >= 5);
    assert_eq!(engine.l1_sstable_count(), 0);
    Ok(())
}

// --------------------- Tombstone GC ---------------------

#[test]
fn tombstone_gc_removes_dead_keys_during_compaction() -> Result<()> {
    let dir = tempdir()?;
    let mut engine = Engine::new(
        dir.path().join("wal.log"),
        dir.path().join("sst"),
        32,
        false,
    )?;
    engine.set_l0_compaction_trigger(0);

    // Write and delete a key, then flush so it's in SSTables
    engine.set(b"alive".to_vec(), b"yes".to_vec())?;
    engine.set(b"dead".to_vec(), b"soon".to_vec())?;
    engine.del(b"dead".to_vec())?;
    engine.force_flush()?;

    // Before compaction: "dead" tombstone exists in SSTable
    assert!(engine.get(b"dead")?.is_none());

    // Compact – tombstone GC should remove "dead" entirely
    engine.compact()?;

    // After compaction: "dead" should still return None (GC’d)
    assert!(engine.get(b"dead")?.is_none());
    // "alive" should still be present
    assert!(engine.get(b"alive")?.is_some());
    Ok(())
}

#[test]
fn compact_reduces_sst_file_count() -> Result<()> {
    let dir = tempdir()?;
    let sst_dir = dir.path().join("sst");
    let mut engine = Engine::new(
        dir.path().join("wal.log"),
        &sst_dir,
        64,
        false,
    )?;
    engine.set_l0_compaction_trigger(0);

    for i in 0..50u64 {
        engine.set(format!("k{:04}", i).into_bytes(), b"val".to_vec())?;
    }

    let files_before = count_sst_files(&sst_dir);
    assert!(files_before > 1, "should have multiple .sst files");

    engine.compact()?;

    let files_after = count_sst_files(&sst_dir);
    assert_eq!(files_after, 1, "should have exactly 1 .sst file after compact");
    Ok(())
}

#[test]
fn l0_flush_then_compact_then_more_flushes() -> Result<()> {
    let dir = tempdir()?;
    let mut engine = Engine::new(
        dir.path().join("wal.log"),
        dir.path().join("sst"),
        64,
        false,
    )?;
    engine.set_l0_compaction_trigger(0);

    // Phase 1: flush some data into L0
    for i in 0..20u64 {
        engine.set(format!("k{:04}", i).into_bytes(), b"v1".to_vec())?;
    }
    let l0_before = engine.l0_sstable_count();
    assert!(l0_before > 0);

    // Phase 2: compact L0 -> L1
    engine.compact()?;
    assert_eq!(engine.l0_sstable_count(), 0);
    assert_eq!(engine.l1_sstable_count(), 1);

    // Phase 3: more flushes go to L0 again
    for i in 20..40u64 {
        engine.set(format!("k{:04}", i).into_bytes(), b"v2".to_vec())?;
    }
    assert!(engine.l0_sstable_count() > 0, "new flushes should go to L0");
    assert_eq!(engine.l1_sstable_count(), 1, "L1 should still have 1");

    // All keys readable (from L0 + L1 + memtable)
    for i in 0..40u64 {
        let key = format!("k{:04}", i).into_bytes();
        assert!(engine.get(&key)?.is_some(), "key {} should exist", i);
    }

    // Phase 4: compact again (L0 + L1 -> new L1)
    engine.compact()?;
    assert_eq!(engine.l0_sstable_count(), 0);
    assert_eq!(engine.l1_sstable_count(), 1);

    // All keys still readable
    for i in 0..40u64 {
        let key = format!("k{:04}", i).into_bytes();
        assert!(
            engine.get(&key)?.is_some(),
            "key {} should exist after second compact",
            i
        );
    }
    Ok(())
}

#[test]
fn compact_preserves_tombstones() -> Result<()> {
    let dir = tempdir()?;
    let mut engine = Engine::new(
        dir.path().join("wal.log"),
        dir.path().join("sst"),
        32,
        false,
    )?;

    engine.set(b"alive".to_vec(), b"yes".to_vec())?;
    engine.set(b"dead".to_vec(), b"soon".to_vec())?;
    engine.del(b"dead".to_vec())?;

    engine.compact()?;

    assert!(engine.get(b"alive")?.is_some(), "alive key should survive");
    assert!(engine.get(b"dead")?.is_none(), "deleted key should stay deleted after compact");
    Ok(())
}

#[test]
fn compact_single_sstable_is_noop() -> Result<()> {
    let dir = tempdir()?;
    let mut engine = Engine::new(
        dir.path().join("wal.log"),
        dir.path().join("sst"),
        64,
        false,
    )?;

    for i in 0..5u64 {
        engine.set(format!("k{}", i).into_bytes(), b"v".to_vec())?;
    }
    engine.set(format!("k{}", 5).into_bytes(), b"v".to_vec())?;

    let count_before = engine.sstable_count();
    engine.compact()?;
    let count_after = engine.sstable_count();

    if count_before <= 1 {
        assert_eq!(count_after, count_before);
    } else {
        assert_eq!(count_after, 1);
    }
    Ok(())
}

#[test]
fn compact_then_recovery_works() -> Result<()> {
    let dir = tempdir()?;
    let wal = dir.path().join("wal.log");
    let sst = dir.path().join("sst");

    {
        let mut engine = Engine::new(&wal, &sst, 64, false)?;
        engine.set_l0_compaction_trigger(0);
        for i in 0..30u64 {
            engine.set(format!("k{:04}", i).into_bytes(), b"val".to_vec())?;
        }
        // Flush any remaining memtable data so compact sees everything.
        engine.force_flush()?;
        assert!(engine.sstable_count() > 1);
        engine.compact()?;
        assert_eq!(engine.sstable_count(), 1);
    }

    // Reopen engine – should recover from the single compacted SSTable
    let engine = Engine::new(&wal, &sst, 64, false)?;
    assert_eq!(engine.sstable_count(), 1);

    for i in 0..30u64 {
        let key = format!("k{:04}", i).into_bytes();
        let (_, val) = engine.get(&key)?.expect("key should survive recovery after compact");
        assert_eq!(val, b"val");
    }
    Ok(())
}

// ===================== recovery =====================

// --------------------- Recovery ---------------------

#[test]
fn recovery_from_wal() -> Result<()> {
    let dir = tempdir()?;
    let wal_path = dir.path().join("wal.log");
    let sst_dir = dir.path().join("sst");

    // Write some data, then drop engine (simulates crash)
    {
        let mut engine = Engine::new(&wal_path, &sst_dir, 1024 * 1024, true)?;
        engine.set(b"a".to_vec(), b"1".to_vec())?;
        engine.set(b"b".to_vec(), b"2".to_vec())?;
        engine.del(b"a".to_vec())?;
    }

    // Reopen engine - should replay WAL
    let engine = Engine::new(&wal_path, &sst_dir, 1024 * 1024, true)?;
    assert!(engine.get(b"a")?.is_none()); // deleted
    assert_eq!(engine.get(b"b")?.unwrap().1, b"2".to_vec());
    assert_eq!(engine.seq(), 3); // 3 operations
    Ok(())
}

#[test]
fn recovery_from_sstables() -> Result<()> {
    let dir = tempdir()?;
    let wal_path = dir.path().join("wal.log");
    let sst_dir = dir.path().join("sst");

    // Write data and force flush
    {
        let mut engine = Engine::new(&wal_path, &sst_dir, 1, true)?;
        engine.set(b"k".to_vec(), b"v".to_vec())?;
        // Flush happened due to threshold=1
    }

    // Reopen - WAL is empty but SSTable has the data
    let engine = Engine::new(&wal_path, &sst_dir, 1024 * 1024, true)?;
    assert_eq!(engine.get(b"k")?.unwrap().1, b"v".to_vec());
    Ok(())
}

#[test]
fn recovery_combines_wal_and_sstables() -> Result<()> {
    let dir = tempdir()?;
    let wal_path = dir.path().join("wal.log");
    let sst_dir = dir.path().join("sst");

    // Create an engine that flushes immediately
    {
        let mut engine = Engine::new(&wal_path, &sst_dir, 1, true)?;
        // This triggers flush (threshold=1)
        engine.set(b"flushed".to_vec(), b"in_sst".to_vec())?;
    }

    {
        // Reopen with high threshold so next writes stay in WAL
        let mut engine = Engine::new(&wal_path, &sst_dir, 1024 * 1024, true)?;
        engine.set(b"in_wal".to_vec(), b"pending".to_vec())?;
    }

    // Final reopen - should have both
    let engine = Engine::new(&wal_path, &sst_dir, 1024 * 1024, true)?;
    assert_eq!(engine.get(b"flushed")?.unwrap().1, b"in_sst".to_vec());
    assert_eq!(engine.get(b"in_wal")?.unwrap().1, b"pending".to_vec());
    Ok(())
}

// --------------------- Manifest recovery ---------------------

#[test]
fn manifest_preserves_l0_l1_across_restart() -> Result<()> {
    let dir = tempdir()?;
    let wal = dir.path().join("wal.log");
    let sst = dir.path().join("sst");

    {
        let mut engine = Engine::new(&wal, &sst, 64, false)?;
        engine.set_l0_compaction_trigger(0);

        // Create some L0 SSTables
        for i in 0..20u64 {
            engine.set(format!("k{:04}", i).into_bytes(), b"val".to_vec())?;
        }
        engine.force_flush()?;
        let l0_before = engine.l0_sstable_count();
        assert!(l0_before > 0);

        // Compact to L1
        engine.compact()?;
        assert_eq!(engine.l0_sstable_count(), 0);
        assert_eq!(engine.l1_sstable_count(), 1);

        // Add more L0 data
        for i in 20..25u64 {
            engine.set(format!("k{:04}", i).into_bytes(), b"val2".to_vec())?;
        }
        engine.force_flush()?;
        assert!(engine.l0_sstable_count() > 0);
        assert_eq!(engine.l1_sstable_count(), 1);
    }

    // Reopen - manifest should preserve L0/L1 assignments
    let engine = Engine::new(&wal, &sst, 64, false)?;
    assert!(engine.l0_sstable_count() > 0, "L0 should be preserved");
    assert_eq!(engine.l1_sstable_count(), 1, "L1 should be preserved");

    // All keys readable
    for i in 0..25u64 {
        assert!(engine.get(format!("k{:04}", i).as_bytes())?.is_some());
    }
    Ok(())
}

// --------------------- SST filename sort correctness ---------------------

#[test]
fn sst_sort_order_is_correct_across_many_flushes() -> Result<()> {
    // Regression: if seq is not zero-padded, sst-9 sorts after sst-85
    // lexicographically, breaking newest-first ordering.
    let dir = tempdir()?;
    let sst_dir = dir.path().join("sst");

    // Use threshold=1 so every set triggers a flush
    let mut engine = Engine::new(dir.path().join("wal.log"), &sst_dir, 1, false)?;

    // Write 15 keys - produces seq 1..15, so filenames span single and
    // double digits. Without zero-padding this breaks.
    for i in 0..15u64 {
        engine.set(
            format!("k{:02}", i).into_bytes(),
            format!("v{}", i).into_bytes(),
        )?;
    }

    // Drop and reopen - recovery must load SSTables in correct order
    drop(engine);
    let engine = Engine::new(dir.path().join("wal.log"), &sst_dir, 1024 * 1024, false)?;

    // All keys must be readable with correct values
    for i in 0..15u64 {
        let key = format!("k{:02}", i).into_bytes();
        let expected = format!("v{}", i).into_bytes();
        let (_, val) = engine.get(&key)?.expect(&format!("k{:02} missing", i));
        assert_eq!(val, expected, "k{:02} has wrong value", i);
    }

    Ok(())
}

#[test]
fn sst_overwrite_across_flushes_returns_newest() -> Result<()> {
    // Write same key across multiple flushes; newest SSTable must win.
    let dir = tempdir()?;
    let mut engine = Engine::new(
        dir.path().join("wal.log"),
        dir.path().join("sst"),
        1, // Flush every write
        false,
    )?;

    for i in 0..12u64 {
        engine.set(b"shared".to_vec(), format!("v{}", i).into_bytes())?;
    }

    // Drop and reopen
    drop(engine);
    let engine = Engine::new(
        dir.path().join("wal.log"),
        dir.path().join("sst"),
        1024 * 1024,
        false,
    )?;

    // Must read the latest value
    let (_, val) = engine.get(b"shared")?.expect("shared key missing");
    assert_eq!(val, b"v11", "should read newest value after recovery");
    Ok(())
}

// --------------------- Tmp file cleanup on recovery ---------------------

#[test]
fn recovery_cleans_up_tmp_files() -> Result<()> {
    let dir = tempdir()?;
    let sst_dir = dir.path().join("sst");

    // Simulate a leftover .sst.tmp from an interrupted flush
    let tmp_file = "sst-0000000000000001-12345.sst.tmp";
    sst_dir.write_file(tmp_file, b"garbage");
    assert!(sst_dir.has_file(tmp_file));

    // Opening the engine should clean it up
    let _engine = Engine::new(dir.path().join("wal.log"), &sst_dir, 1024 * 1024, false)?;

    assert!(
        !sst_dir.has_file(tmp_file),
        ".sst.tmp should be cleaned up on recovery"
    );
    Ok(())
}

// --------------------- Seq recovery from SSTables ---------------------

#[test]
fn seq_recovered_from_sstables_after_wal_truncation() -> Result<()> {
    let dir = tempdir()?;
    let wal_path = dir.path().join("wal.log");
    let sst_dir = dir.path().join("sst");

    // Write data and flush (WAL gets truncated)
    {
        let mut engine = Engine::new(&wal_path, &sst_dir, 1, false)?;
        engine.set(b"a".to_vec(), b"1".to_vec())?;
        engine.set(b"b".to_vec(), b"2".to_vec())?;
        engine.set(b"c".to_vec(), b"3".to_vec())?;
        // seq is now 3, WAL is truncated, data is in SSTables
    }

    // Reopen - WAL is empty, seq must be recovered from SSTables
    let mut engine = Engine::new(&wal_path, &sst_dir, 1024 * 1024, false)?;
    assert!(
        engine.seq() >= 3,
        "seq should be >= 3 from SSTable scan, got {}",
        engine.seq()
    );

    // New writes must get seq > 3
    engine.set(b"d".to_vec(), b"4".to_vec())?;
    assert!(
        engine.seq() > 3,
        "new write seq should be > 3, got {}",
        engine.seq()
    );
    Ok(())
}

// --------------------- WAL open error propagation ---------------------

#[test]
fn replay_wal_propagates_non_notfound_errors() {
    // replay_wal_and_build should return Ok(0) for missing file
    let mut mem = Memtable::new();
    let missing: std::result::Result<&[u8], WalError> = Err(WalError::Io(IoKind::NotFound));
    let result = replay_wal_and_build(missing, &mut mem);
    assert!(result.is_ok());
    assert_eq!(result.unwrap(), 0);
}

// ===================== scenarios =====================

fn pair(k: &str, v: &str) -> (Vec<u8>, Vec<u8>) {
    (k.as_bytes().to_vec(), v.as_bytes().to_vec())
}

#[test]
fn basic_write_read_delete() -> Result<()> {
    let dir = tempdir()?;
    let mut engine = Engine::new(&dir, &dir, 1024 * 1024, true)?;
    engine.set(b"name".to_vec(), b"Alice".to_vec())?;
    assert_eq!(engine.seq(), 1);
    assert_eq!(engine.get(b"name")?, Some((1, b"Alice".to_vec())));
    engine.del(b"name".to_vec())?;
    assert_eq!(engine.seq(), 2);
    assert_eq!(engine.get(b"name")?, None);
    Ok(())
}

#[test]
fn flush_then_read() -> Result<()> {
    let dir = tempdir()?;
    let mut engine = Engine::new(&dir, &dir, 1, true)?;
    engine.set(b"a".to_vec(), b"1".to_vec())?;
    engine.set(b"b".to_vec(), b"2".to_vec())?;
    assert!(count_sst_files(&dir) >= 1);
    assert_eq!(dir.wal_len(), 0);
    assert_eq!(engine.get(b"a")?.unwrap().1, b"1");
    assert_eq!(engine.get(b"b")?.unwrap().1, b"2");
    Ok(())
}

#[test]
fn recovery_after_crash_with_a_full_memtable() -> Result<()> {
    let dir = tempdir()?;
    let mut engine = Engine::new(&dir, &dir, 1_048_576, true)?;
    engine.set(b"k".to_vec(), b"v".to_vec())?;
    engine.crash();
    assert_eq!(count_sst_files(&dir), 0);
    assert!(dir.wal_len() > 0);

    let engine = Engine::new(&dir, &dir, 1_048_576, true)?;
    assert_eq!(engine.get(b"k")?.unwrap().1, b"v");
    assert!(engine.seq() >= 1);
    assert_eq!(engine.seq(), 1);
    Ok(())
}

#[test]
fn auto_compaction_at_the_trigger() -> Result<()> {
    let dir = tempdir()?;
    let mut engine = Engine::new(&dir, &dir, 1, false)?;
    engine.set_l0_compaction_trigger(3);
    engine.set(b"k0".to_vec(), b"v".to_vec())?;
    engine.set(b"k1".to_vec(), b"v".to_vec())?;
    assert_eq!(engine.l0_sstable_count(), 2);
    engine.set(b"k2".to_vec(), b"v".to_vec())?;
    assert_eq!(engine.l0_sstable_count(), 0);
    assert_eq!(engine.l1_sstable_count(), 1);
    for k in [b"k0", b"k1", b"k2"] {
        assert_eq!(engine.get(k)?.unwrap().1, b"v");
    }
    assert_eq!(count_sst_files(&dir), 1);
    Ok(())
}

#[test]
fn tombstone_collection_during_compaction() -> Result<()> {
    let dir = tempdir()?;
    let mut engine = Engine::new(&dir, &dir, 32, false)?;
    engine.set_l0_compaction_trigger(0);
    engine.set(b"alive".to_vec(), b"yes".to_vec())?;
    engine.set(b"dead".to_vec(), b"soon".to_vec())?;
    engine.del(b"dead".to_vec())?;
    engine.force_flush()?;
    engine.compact()?;
    assert_eq!(engine.get(b"dead")?, None);
    assert_eq!(engine.get(b"alive")?.unwrap().1, b"yes");
    assert_eq!(count_sst_files(&dir), 1);
    Ok(())
}

#[test]
fn range_scan_with_overwrite_and_delete() -> Result<()> {
    let dir = tempdir()?;
    let mut engine = Engine::new(&dir, &dir, 1024 * 1024, false)?;
    engine.set(b"a".to_vec(), b"1".to_vec())?;
    engine.set(b"b".to_vec(), b"2".to_vec())?;
    engine.set(b"c".to_vec(), b"3".to_vec())?;
    engine.set(b"b".to_vec(), b"X".to_vec())?;
    engine.del(b"c".to_vec())?;
    assert_eq!(engine.scan(b"", b"")?, vec![pair("a", "1"), pair("b", "X")]);
    Ok(())
}

// ===================== the engine and its disk operations =====================

use riptidekv::sstable::SSTableReader;
use riptidekv::wal::{WalRecord, WalWriter};

fn frame_of(record: &WalRecord) -> Vec<u8> {
    let mut w = WalWriter::create(true);
    w.append(record).unwrap();
    w.last_frame().to_vec()
}

fn fresh(flush_threshold: usize, wal_sync: bool) -> riptidekv::engine::Engine {
    let mut e = riptidekv::engine::Engine::new(&Disk::new(), flush_threshold, wal_sync).unwrap();
    assert_eq!(e.take_ops(), vec![DiskOp::CreateWal]);
    e
}

#[test]
fn opening_on_an_empty_disk_asks_for_the_log_file_only() {
    let mut e = riptidekv::engine::Engine::new(&Disk::new(), 7, true).unwrap();
    assert_eq!(e.pending_ops(), &[DiskOp::CreateWal]);
    assert_eq!(e.seq(), 0);
    assert_eq!(e.flush_threshold(), 7);
    assert!(e.wal_sync());
    assert_eq!(e.l0_compaction_trigger(), 4);
    assert_eq!(e.sstable_count(), 0);
    assert_eq!(e.memtable_entries(), 0);
    assert_eq!(e.memtable_size(), 0);
    assert_eq!(e.take_ops().len(), 1);
    assert!(e.pending_ops().is_empty());
}

#[test]
fn a_mutation_asks_for_its_frame_to_be_appended() {
    let mut e = fresh(1024, true);
    e.set(b"k".to_vec(), b"v".to_vec()).unwrap();
    e.del(b"k".to_vec()).unwrap();
    assert_eq!(
        e.take_ops(),
        vec![
            DiskOp::AppendWal {
                frame: frame_of(&WalRecord::Put { seq: 1, key: b"k".to_vec(), value: b"v".to_vec() }),
                sync: true,
            },
            DiskOp::AppendWal {
                frame: frame_of(&WalRecord::Del { seq: 2, key: b"k".to_vec() }),
                sync: true,
            },
        ]
    );
    assert_eq!(e.memtable_entries(), 1);
    assert_eq!(e.memtable_size(), 1);
}

#[test]
fn a_flush_writes_the_table_then_the_manifest_then_truncates_the_log() {
    let mut e = fresh(1024 * 1024, false);
    e.set_l0_compaction_trigger(0);
    e.set(b"b".to_vec(), b"2".to_vec()).unwrap();
    e.set(b"a".to_vec(), b"1".to_vec()).unwrap();
    e.take_ops();
    e.force_flush_at(Some(1_700_000_000_123)).unwrap();
    let ops = e.take_ops();
    assert_eq!(ops.len(), 3);
    let name = "sst-00000000000000000002-1700000000123.sst";
    match &ops[0] {
        DiskOp::WriteTable { name: n, image } => {
            assert_eq!(n, name);
            let reader = SSTableReader::open(image.clone()).unwrap();
            assert_eq!(reader.keys(), vec![b"a".to_vec(), b"b".to_vec()]);
            assert_eq!(reader.max_seq(), Some(2));
            assert_eq!(reader.get(b"a").unwrap().unwrap().seq, 2);
        }
        other => panic!("expected the table first, got {:?}", other),
    }
    assert_eq!(
        ops[1],
        DiskOp::SaveManifest {
            text: format!(
                "# RiptideKV SSTable Manifest\n# Format: <level>:<filename>\nL0:{}\n",
                name
            ),
        }
    );
    assert_eq!(ops[2], DiskOp::TruncateWal);
    assert_eq!(e.memtable_entries(), 0);
    assert_eq!(e.l0_sstable_count(), 1);
    assert_eq!(e.seq(), 2);
    // An empty memtable is not flushed.
    e.force_flush_at(None).unwrap();
    assert!(e.pending_ops().is_empty());
}

#[test]
fn a_flush_needs_the_clock() {
    let mut e = fresh(1, false);
    assert_eq!(
        e.set_at(b"k".to_vec(), b"v".to_vec(), None),
        Err(EngineError::Clock)
    );
    // The mutation is logged and applied; only the flush is missing.
    assert_eq!(e.seq(), 1);
    assert_eq!(e.take_ops().len(), 1);
    assert_eq!(e.get(b"k").unwrap(), Some((1, b"v".to_vec())));
    assert_eq!(e.force_flush_at(None), Err(EngineError::Clock));
    assert_eq!(e.force_flush_at(Some(0)), Ok(()));
    assert_eq!(e.l0_sstable_count(), 1);
    assert_eq!(EngineError::Clock.to_string(), "the system clock stands before the epoch");
}

#[test]
fn a_compaction_writes_one_table_and_removes_the_others() {
    let mut e = fresh(1, false);
    e.set_l0_compaction_trigger(0);
    e.set_at(b"a".to_vec(), b"old".to_vec(), Some(10)).unwrap();
    e.set_at(b"a".to_vec(), b"new".to_vec(), Some(11)).unwrap();
    e.del_at(b"gone".to_vec(), Some(12)).unwrap();
    assert_eq!(e.l0_sstable_count(), 3);
    e.take_ops();
    // With a single table or none there is nothing to do, and no clock is needed.
    let mut idle = fresh(1, false);
    assert_eq!(idle.compact_now(None), Ok(()));
    assert!(idle.pending_ops().is_empty());

    assert_eq!(e.compact_now(None), Err(EngineError::Clock));
    assert_eq!(e.l0_sstable_count(), 3);
    e.compact_at(99).unwrap();
    let name = "sst-00000000000000000003-99.sst";
    let ops = e.take_ops();
    assert_eq!(ops.len(), 3);
    match &ops[0] {
        DiskOp::WriteTable { name: n, image } => {
            assert_eq!(n, name);
            let reader = SSTableReader::open(image.clone()).unwrap();
            // The tombstone is dropped: the memtable does not hold its key.
            assert_eq!(reader.keys(), vec![b"a".to_vec()]);
            let entry = reader.get(b"a").unwrap().unwrap();
            assert_eq!((entry.seq, entry.value), (2, Some(b"new".to_vec())));
            assert_eq!(reader.max_seq(), Some(2));
        }
        other => panic!("expected the table first, got {:?}", other),
    }
    assert_eq!(
        ops[1],
        DiskOp::SaveManifest {
            text: format!(
                "# RiptideKV SSTable Manifest\n# Format: <level>:<filename>\nL1:{}\n",
                name
            ),
        }
    );
    assert_eq!(ops[2], DiskOp::RetainTables { keep: Some(name.to_string()) });
    assert_eq!((e.l0_sstable_count(), e.l1_sstable_count()), (0, 1));
    assert_eq!(e.get(b"a").unwrap(), Some((2, b"new".to_vec())));
    assert_eq!(e.get(b"gone").unwrap(), None);
}

#[test]
fn a_compaction_keeps_a_tombstone_whose_key_the_memtable_holds() {
    let mut e = fresh(1, false);
    e.set_l0_compaction_trigger(0);
    e.set_at(b"k".to_vec(), b"v".to_vec(), Some(1)).unwrap();
    e.del_at(b"k".to_vec(), Some(2)).unwrap();
    e.set_flush_threshold(1024);
    e.set_at(b"k".to_vec(), b"again".to_vec(), Some(3)).unwrap();
    e.take_ops();
    e.compact_at(4).unwrap();
    let ops = e.take_ops();
    match &ops[0] {
        DiskOp::WriteTable { image, .. } => {
            let reader = SSTableReader::open(image.clone()).unwrap();
            let entry = reader.get(b"k").unwrap().unwrap();
            assert_eq!((entry.seq, entry.value), (2, None));
        }
        other => panic!("expected the table first, got {:?}", other),
    }
    assert_eq!(e.get(b"k").unwrap(), Some((3, b"again".to_vec())));
}

#[test]
fn a_compaction_that_leaves_nothing_clears_the_manifest_and_the_directory() {
    let dir = tempdir().unwrap();
    let mut engine = Engine::new(&dir, &dir, 1, false).unwrap();
    engine.set_l0_compaction_trigger(0);
    engine.del(b"a".to_vec()).unwrap();
    engine.del(b"b".to_vec()).unwrap();
    assert_eq!(count_sst_files(&dir), 2);
    engine.compact().unwrap();
    assert_eq!(engine.sstable_count(), 0);
    assert_eq!(count_sst_files(&dir), 0);
    assert_eq!(
        dir.disk.borrow().manifest.as_deref(),
        Some("# RiptideKV SSTable Manifest\n# Format: <level>:<filename>\n")
    );
    drop(engine);
    let engine = Engine::new(&dir, &dir, 1, false).unwrap();
    assert_eq!(engine.sstable_count(), 0);
    // The tombstones were the only trace of the two sequence numbers.
    assert_eq!(engine.seq(), 0);
}

#[test]
fn the_sequence_number_does_not_overflow() {
    let mut disk = Disk::new();
    disk.wal = Some(frame_of(&WalRecord::Put {
        seq: u64::MAX,
        key: b"last".to_vec(),
        value: b"v".to_vec(),
    }));
    let mut e = riptidekv::engine::Engine::new(&disk, 1024, false).unwrap();
    assert_eq!(e.seq(), u64::MAX);
    e.take_ops();
    assert_eq!(e.set(b"k".to_vec(), b"v".to_vec()), Err(EngineError::SeqOverflow));
    assert_eq!(e.del(b"k".to_vec()), Err(EngineError::SeqOverflow));
    assert_eq!(e.seq(), u64::MAX);
    assert!(e.pending_ops().is_empty());
    assert_eq!(e.get(b"k").unwrap(), None);
    assert_eq!(
        EngineError::SeqOverflow.to_string(),
        "sequence number overflow (u64::MAX reached)"
    );
}

#[test]
fn refused_mutations_change_nothing() {
    let mut e = fresh(1024, false);
    assert_eq!(e.set(vec![], b"v".to_vec()), Err(EngineError::EmptyKey));
    assert_eq!(e.del(vec![]), Err(EngineError::EmptyKey));
    assert_eq!(
        e.set(vec![b'k'; MAX_KEY_SIZE + 1], vec![]),
        Err(EngineError::KeyTooLarge)
    );
    assert_eq!(
        e.del(vec![b'k'; MAX_KEY_SIZE + 1]),
        Err(EngineError::KeyTooLarge)
    );
    assert_eq!(
        e.set(b"k".to_vec(), vec![0; MAX_VALUE_SIZE + 1]),
        Err(EngineError::ValueTooLarge)
    );
    // The key is looked at first.
    assert_eq!(
        e.set(vec![], vec![0; MAX_VALUE_SIZE + 1]),
        Err(EngineError::EmptyKey)
    );
    assert_eq!(e.seq(), 0);
    assert!(e.pending_ops().is_empty());
    assert_eq!(e.memtable_entries(), 0);
    // At the limits a mutation is accepted.
    assert_eq!(e.set(vec![b'k'; MAX_KEY_SIZE], vec![0; MAX_VALUE_SIZE]), Ok(()));
    assert_eq!(e.set(b"empty".to_vec(), vec![]), Ok(()));
    assert_eq!(e.get(b"empty").unwrap(), Some((2, vec![])));
}

#[test]
fn scan_bounds_are_half_open_and_empty_means_unbounded() -> Result<()> {
    let dir = tempdir()?;
    let mut engine = Engine::new(&dir, &dir, 1024 * 1024, false)?;
    for k in ["a", "b", "c", "d"] {
        engine.set(k.as_bytes().to_vec(), k.to_uppercase().into_bytes())?;
    }
    assert_eq!(engine.scan(b"b", b"d")?, vec![pair("b", "B"), pair("c", "C")]);
    assert_eq!(engine.scan(b"", b"b")?, vec![pair("a", "A")]);
    assert_eq!(engine.scan(b"c", b"")?, vec![pair("c", "C"), pair("d", "D")]);
    assert_eq!(engine.scan(b"bb", b"c")?, vec![]);
    assert_eq!(engine.scan(b"d", b"a")?, vec![]);
    assert_eq!(engine.scan(b"a", b"a")?, vec![]);
    assert_eq!(engine.scan(b"", b"")?.len(), 4);
    Ok(())
}

#[test]
fn scan_merges_the_memtable_and_both_levels_by_sequence_number() -> Result<()> {
    let dir = tempdir()?;
    let mut engine = Engine::new(&dir, &dir, 1, false)?;
    engine.set_l0_compaction_trigger(0);
    engine.set(b"a".to_vec(), b"1".to_vec())?;
    engine.set(b"b".to_vec(), b"1".to_vec())?;
    engine.compact()?;
    engine.set(b"b".to_vec(), b"2".to_vec())?;
    engine.del(b"a".to_vec())?;
    engine.set_flush_threshold(1024);
    engine.set(b"c".to_vec(), b"3".to_vec())?;
    engine.set(b"b".to_vec(), b"3".to_vec())?;
    assert_eq!((engine.l0_sstable_count(), engine.l1_sstable_count()), (2, 1));
    assert_eq!(engine.scan(b"", b"")?, vec![pair("b", "3"), pair("c", "3")]);
    for k in [b"a", b"b", b"c", b"z"] {
        let by_scan = engine
            .scan(k, &[k[0], 0])?
            .into_iter()
            .map(|(_, v)| v)
            .next();
        assert_eq!(engine.get(k)?.map(|(_, v)| v), by_scan);
    }
    Ok(())
}

#[test]
fn what_was_written_survives_a_crash_at_any_point() -> Result<()> {
    let dir = tempdir()?;
    let mut expect: Vec<(Vec<u8>, Option<Vec<u8>>)> = Vec::new();
    for round in 0..12u32 {
        let mut engine = Engine::new(&dir, &dir, 40, round % 2 == 0)?;
        engine.set_l0_compaction_trigger(3);
        for (k, v) in &expect {
            assert_eq!(&engine.get(k)?.map(|(_, v)| v), v, "round {}", round);
        }
        for i in 0..5u32 {
            let key = format!("key{}", (round * 7 + i * 3) % 11).into_bytes();
            let value = if (round + i) % 4 == 0 {
                engine.del(key.clone())?;
                None
            } else {
                let v = format!("value-{}-{}", round, i).into_bytes();
                engine.set(key.clone(), v.clone())?;
                Some(v)
            };
            expect.retain(|(k, _)| k != &key);
            expect.push((key, value));
        }
        if round % 3 == 0 {
            engine.crash();
        }
    }
    Ok(())
}

#[test]
fn levels_and_manifest_survive_a_reopen() -> Result<()> {
    let dir = tempdir()?;
    let mut engine = Engine::new(&dir, &dir, 1, true)?;
    engine.set_l0_compaction_trigger(0);
    for i in 0..4u8 {
        engine.set(vec![b'k', i], vec![i])?;
    }
    engine.compact()?;
    engine.set(b"x".to_vec(), b"1".to_vec())?;
    engine.set(b"y".to_vec(), b"2".to_vec())?;
    let manifest = dir.disk.borrow().manifest.clone();
    engine.crash();

    let engine = Engine::new(&dir, &dir, 1, true)?;
    assert_eq!((engine.l0_sstable_count(), engine.l1_sstable_count()), (2, 1));
    assert_eq!(dir.disk.borrow().manifest, manifest);
    assert_eq!(engine.seq(), 6);
    let text = manifest.unwrap();
    let lines: Vec<&str> = text.lines().skip(2).collect();
    assert_eq!(lines.len(), 3);
    // Level 0 had no entry when its first table was added, so it comes last.
    assert!(lines[0].starts_with("L1:sst-00000000000000000004-"));
    assert!(lines[1].starts_with("L0:sst-00000000000000000006-"));
    assert!(lines[2].starts_with("L0:sst-00000000000000000005-"));
    Ok(())
}

#[test]
fn without_a_manifest_the_tables_of_the_directory_go_to_level_0_newest_first() -> Result<()> {
    let dir = tempdir()?;
    let mut engine = Engine::new(&dir, &dir, 1, false)?;
    engine.set_l0_compaction_trigger(0);
    for i in 1..=12u8 {
        engine.set(b"k".to_vec(), vec![i])?;
    }
    engine.crash();
    dir.disk.borrow_mut().manifest = None;
    dir.disk.borrow_mut().files.reverse();
    dir.write_file("notes.txt", b"no table");

    let engine = Engine::new(&dir, &dir, 1024, false)?;
    assert_eq!((engine.l0_sstable_count(), engine.l1_sstable_count()), (12, 0));
    assert_eq!(engine.get(b"k")?, Some((12, vec![12])));
    assert_eq!(engine.seq(), 12);
    let text = dir.disk.borrow().manifest.clone().unwrap();
    let lines: Vec<&str> = text.lines().skip(2).collect();
    assert_eq!(lines.len(), 12);
    for (i, line) in lines.iter().enumerate() {
        assert!(line.starts_with(&format!("L0:sst-{:020}-", 12 - i)), "{}", line);
    }
    assert!(dir.has_file("notes.txt"));
    Ok(())
}

#[test]
fn a_table_that_the_manifest_names_and_the_disk_lacks_is_passed_over() -> Result<()> {
    let dir = tempdir()?;
    let mut engine = Engine::new(&dir, &dir, 1, false)?;
    engine.set_l0_compaction_trigger(0);
    engine.set(b"a".to_vec(), b"1".to_vec())?;
    engine.set(b"b".to_vec(), b"2".to_vec())?;
    engine.crash();
    let lost = dir.file_names()[0].clone();
    dir.disk.borrow_mut().files.retain(|f| f.0 != lost);

    let engine = Engine::new(&dir, &dir, 1, false)?;
    assert_eq!(engine.l0_sstable_count(), 1);
    assert_eq!(engine.get(b"a")?, None);
    assert_eq!(engine.get(b"b")?, Some((2, b"2".to_vec())));
    Ok(())
}

#[test]
fn recovery_is_strict_about_what_it_cannot_read() {
    // A corrupt log.
    let mut disk = Disk::new();
    let mut log = frame_of(&WalRecord::Del { seq: 1, key: b"k".to_vec() });
    let last = log.len() - 1;
    log[last] ^= 1;
    disk.wal = Some(log);
    assert_eq!(
        riptidekv::engine::Engine::new(&disk, 1, false).err(),
        Some(EngineError::Wal(WalError::Corrupt))
    );
    // A manifest that cannot be read.
    let mut disk = Disk::new();
    disk.manifest = Some("L0:a.sst\nL2:b.sst\n".to_string());
    assert_eq!(
        riptidekv::engine::Engine::new(&disk, 1, false).err(),
        Some(EngineError::Manifest(riptidekv::manifest::ManifestError::UnknownLevel { line: 2 }))
    );
    // A table with an unknown magic.
    let mut disk = Disk::new();
    disk.files.push(("a.sst".to_string(), vec![0; 12]));
    assert_eq!(
        riptidekv::engine::Engine::new(&disk, 1, false).err(),
        Some(EngineError::Sst(riptidekv::sstable::format::SstError::UnknownMagic(0)))
    );
    disk.manifest = Some("L1:a.sst\n".to_string());
    assert_eq!(
        riptidekv::engine::Engine::new(&disk, 1, false).err(),
        Some(EngineError::Sst(riptidekv::sstable::format::SstError::UnknownMagic(0)))
    );
}

#[test]
fn temporary_files_are_removed_whatever_else_the_directory_holds() {
    let mut disk = Disk::new();
    disk.files.push((".sst.tmp".to_string(), vec![1]));
    disk.files.push(("x.sst.tmp.bak".to_string(), vec![2]));
    disk.files.push(("sst-1-2.sst.tmp".to_string(), vec![3]));
    let mut e = riptidekv::engine::Engine::new(&disk, 1, false).unwrap();
    let ops = e.take_ops();
    assert_eq!(
        ops,
        vec![
            DiskOp::RemoveFile { name: ".sst.tmp".to_string() },
            DiskOp::RemoveFile { name: "sst-1-2.sst.tmp".to_string() },
            DiskOp::CreateWal,
        ]
    );
    assert_eq!(
        riptidekv::engine::Engine::cleanup_tmp_files(&disk),
        ops[..2].to_vec()
    );
    disk.apply_all(&ops);
    assert_eq!(disk.files, vec![("x.sst.tmp.bak".to_string(), vec![2])]);
    assert_eq!(disk.wal, Some(vec![]));
}

#[test]
fn disk_operations_do_what_they_say() {
    let mut disk = Disk::new();
    assert_eq!(disk.file("a.sst"), None);
    disk.apply(&DiskOp::AppendWal { frame: vec![1, 2], sync: false });
    disk.apply(&DiskOp::AppendWal { frame: vec![3], sync: true });
    assert_eq!(disk.wal, Some(vec![1, 2, 3]));
    disk.apply(&DiskOp::CreateWal);
    assert_eq!(disk.wal, Some(vec![1, 2, 3]));
    disk.apply(&DiskOp::TruncateWal);
    assert_eq!(disk.wal, Some(vec![]));
    for (name, byte) in [("a.sst", 1u8), ("b.sst", 2), ("c.txt", 3), ("a.sst", 4), (".sst", 5)] {
        disk.apply(&DiskOp::WriteTable { name: name.to_string(), image: vec![byte] });
    }
    assert_eq!(
        disk.files,
        vec![
            ("b.sst".to_string(), vec![2]),
            ("c.txt".to_string(), vec![3]),
            ("a.sst".to_string(), vec![4]),
            (".sst".to_string(), vec![5]),
        ]
    );
    assert_eq!(disk.file("a.sst"), Some(&vec![4]));
    disk.apply(&DiskOp::SaveManifest { text: "L0:a.sst\n".to_string() });
    assert_eq!(disk.manifest.as_deref(), Some("L0:a.sst\n"));
    disk.apply(&DiskOp::RetainTables { keep: Some("a.sst".to_string()) });
    assert_eq!(disk.file_names_for_test(), vec!["c.txt", "a.sst", ".sst"]);
    disk.apply(&DiskOp::RemoveFile { name: "c.txt".to_string() });
    disk.apply(&DiskOp::RemoveFile { name: "nothing".to_string() });
    disk.apply(&DiskOp::RetainTables { keep: None });
    assert_eq!(disk.file_names_for_test(), vec![".sst"]);
}

trait FileNames {
    fn file_names_for_test(&self) -> Vec<&str>;
}

impl FileNames for Disk {
    fn file_names_for_test(&self) -> Vec<&str> {
        self.files.iter().map(|f| f.0.as_str()).collect()
    }
}

#[test]
fn a_flush_and_the_compaction_that_it_starts_write_tables_of_different_names() {
    let mut e = fresh(1, true);
    e.set_l0_compaction_trigger(2);
    e.set_at(b"a".to_vec(), b"1".to_vec(), Some(50)).unwrap();
    e.take_ops();
    e.set_at(b"b".to_vec(), b"2".to_vec(), Some(50)).unwrap();
    let ops = e.take_ops();
    let kinds: Vec<String> = ops
        .iter()
        .map(|op| match op {
            DiskOp::AppendWal { sync, .. } => format!("append sync={}", sync),
            DiskOp::WriteTable { name, .. } => format!("write {}", name),
            DiskOp::SaveManifest { text } => format!("manifest {:?}", text.lines().skip(2).collect::<Vec<_>>()),
            DiskOp::TruncateWal => "truncate".to_string(),
            DiskOp::RetainTables { keep } => format!("retain {:?}", keep),
            other => format!("{:?}", other),
        })
        .collect();
    assert_eq!(
        kinds,
        vec![
            "append sync=true".to_string(),
            "write sst-00000000000000000002-50.sst".to_string(),
            "manifest [\"L0:sst-00000000000000000002-50.sst\", \"L0:sst-00000000000000000001-50.sst\"]".to_string(),
            "truncate".to_string(),
            "write sst-00000000000000000002-51.sst".to_string(),
            "manifest [\"L1:sst-00000000000000000002-51.sst\"]".to_string(),
            "retain Some(\"sst-00000000000000000002-51.sst\")".to_string(),
        ]
    );
    assert_eq!((e.l0_sstable_count(), e.l1_sstable_count()), (0, 1));
    assert_eq!(e.get(b"a").unwrap(), Some((1, b"1".to_vec())));
    assert_eq!(e.get(b"b").unwrap(), Some((2, b"2".to_vec())));
}

// ===================== flush thresholds =====================

#[test]
fn engine_flush_writes_sstable_and_truncates_wal() -> Result<()> {
    let dir = tempdir()?;
    let wal_path = dir.path().join("wal.log");
    let sst_dir = dir.path().join("sst");

    // Build engine with tiny flush threshold (1 byte) and force wal sync = true
    let mut engine = Engine::new(&wal_path, &sst_dir, 1, true)?;

    // SET a key; since threshold is 1, this should trigger flush inline
    engine.set(b"key1".to_vec(), b"value1".to_vec())?;

    // There must be at least one .sst file in the directory
    let found_sst = sst_dir.file_names().iter().any(|n| n.ends_with(".sst"));
    assert!(found_sst, "expected at least one .sst file");

    // WAL should be truncated to zero bytes after successful flush
    assert_eq!(wal_path.wal_len(), 0, "expected wal to be truncated to 0 bytes");

    Ok(())
}

#[test]
fn flush_triggers_at_4mb_threshold() -> Result<()> {
    // Arrange
    let dir = tempdir()?;
    let wal_path = dir.path().join("wal.log");
    let sst_dir = dir.path().join("sst");

    // 4 MB threshold
    let threshold = 4 * 1024 * 1024;

    let mut engine = Engine::new(&wal_path, &sst_dir, threshold, false)?;

    // Each value is 1 KB
    let value = vec![b'x'; 1024];

    // Act
    // Write slightly more than 4 MB
    let writes = (threshold / value.len()) + 10;
    for i in 0..writes {
        let key = format!("key{}", i).into_bytes();
        engine.set(key, value.clone())?;
    }

    // Exactly one SSTable should exist
    assert_eq!(
        count_sst_files(&sst_dir),
        1,
        "expected exactly one SSTable after crossing threshold"
    );

    // WAL should be truncated after flush
    assert!(
        (wal_path.wal_len() as u64) < threshold as u64,
        "WAL should only contain post-flush entries"
    );

    Ok(())
}
