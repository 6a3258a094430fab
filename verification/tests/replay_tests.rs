use riptidekv::engine::recovery::replay_wal_and_build;
use riptidekv::memtable::Memtable;
use riptidekv::wal::{IoKind, WalError, WalRecord, WalWriter};

/// The log file that a writer leaves after it appended `records`.
fn log_of(records: &[WalRecord]) -> Vec<u8> {
    let mut log = Vec::new();
    let mut w = WalWriter::create(true);
    for r in records {
        w.append(r).unwrap();
        log.extend_from_slice(w.last_frame());
    }
    log
}

fn three_records() -> Vec<WalRecord> {
    vec![
        WalRecord::Put {
            seq: 1,
            key: b"a".to_vec(),
            value: b"1".to_vec(),
        },
        WalRecord::Del {
            seq: 2,
            key: b"a".to_vec(),
        },
        WalRecord::Put {
            seq: 3,
            key: b"b".to_vec(),
            value: b"2".to_vec(),
        },
    ]
}

fn bogus_crc_log() -> Vec<u8> {
    // Build a complete body: seq=1, op=Put(0), key_len=1, key='k', val_len=1, val='v'
    let mut body = Vec::new();
    body.extend_from_slice(&1u64.to_le_bytes());
    body.push(0); // op = Put
    body.extend_from_slice(&1u32.to_le_bytes()); // key_len
    body.extend_from_slice(b"k");
    body.extend_from_slice(&1u32.to_le_bytes()); // val_len
    body.extend_from_slice(b"v");

    let record_len = (body.len() + 4) as u32; // body + crc

    // Intentionally write a bogus CRC (0) so verify will fail
    let mut file_bytes = Vec::new();
    file_bytes.extend_from_slice(&record_len.to_le_bytes());
    file_bytes.extend_from_slice(&0u32.to_le_bytes()); // bogus CRC
    file_bytes.extend_from_slice(&body);
    file_bytes
}

#[test]
fn tests_wal_replay_rebuilds_memtable() {
    let log = log_of(&three_records());

    let mut mem = Memtable::new();
    let max_seq = replay_wal_and_build(Ok(&log), &mut mem).unwrap();

    assert_eq!(max_seq, 3);
    assert!(mem.get(b"a").is_none());
    assert_eq!(mem.get(b"b").unwrap().1, b"2");
}

#[test]
fn main_wal_replay_rebuilds_memtable() {
    let log = log_of(&three_records());

    let mut mem = Memtable::new();
    let max_seq = replay_wal_and_build(Ok(&log), &mut mem).unwrap();

    assert_eq!(max_seq, 3);
    assert!(mem.get(b"a").is_none());
    assert_eq!(mem.get(b"b").unwrap().1, b"2");
}

#[test]
fn tests_wal_durability_without_memtable_update() {
    let log = log_of(&[WalRecord::Put {
        seq: 1,
        key: b"k".to_vec(),
        value: b"v".to_vec(),
    }]);
    // crash here: memtable never updated

    let mut mem = Memtable::new();
    replay_wal_and_build(Ok(&log), &mut mem).unwrap();

    assert_eq!(mem.get(b"k").unwrap().1, b"v");
}

#[test]
fn main_wal_durability_without_memtable_update() {
    let log = log_of(&[WalRecord::Put {
        seq: 1,
        key: b"k".to_vec(),
        value: b"v".to_vec(),
    }]);

    let mut mem = Memtable::new();
    replay_wal_and_build(Ok(&log), &mut mem).unwrap();

    assert_eq!(mem.get(b"k").unwrap().1, b"v");
}

#[test]
fn tests_wal_crc_detects_corruption() {
    let file_bytes = bogus_crc_log();

    let mut mem = Memtable::new();
    let res = replay_wal_and_build(Ok(&file_bytes), &mut mem);

    assert!(res.is_err());
}

#[test]
fn main_wal_crc_detects_corruption() {
    let file_bytes = bogus_crc_log();

    let mut mem = Memtable::new();
    let res = replay_wal_and_build(Ok(&file_bytes), &mut mem);

    assert!(res.is_err());
    assert_eq!(res, Err(WalError::Corrupt));
}

#[test]
fn a_log_that_does_not_exist_counts_as_empty() {
    let mut mem = Memtable::new();
    mem.put(b"kept".to_vec(), b"v".to_vec(), 9);
    assert_eq!(
        replay_wal_and_build(Err(WalError::Io(IoKind::NotFound)), &mut mem),
        Ok(0)
    );
    assert_eq!(mem.len(), 1);
}

#[test]
fn another_error_of_opening_the_log_is_returned() {
    let mut mem = Memtable::new();
    assert_eq!(
        replay_wal_and_build(Err(WalError::Io(IoKind::Other)), &mut mem),
        Err(WalError::Io(IoKind::Other))
    );
    assert_eq!(
        replay_wal_and_build(Err(WalError::Corrupt), &mut mem),
        Err(WalError::Corrupt)
    );
    assert!(mem.is_empty());
}

#[test]
fn records_before_a_corrupt_frame_reach_the_memtable() {
    let mut log = log_of(&three_records());
    log.extend_from_slice(&bogus_crc_log());

    let mut mem = Memtable::new();
    assert_eq!(replay_wal_and_build(Ok(&log), &mut mem), Err(WalError::Corrupt));
    assert_eq!(mem.len(), 2);
    assert_eq!(mem.get(b"b").unwrap(), (3, b"2".as_slice()));
}

#[test]
fn replaying_twice_changes_nothing() {
    let log = log_of(&three_records());
    let mut mem = Memtable::new();
    assert_eq!(replay_wal_and_build(Ok(&log), &mut mem), Ok(3));
    let size = mem.approx_size();
    let entries: Vec<_> = mem.iter().to_vec();
    assert_eq!(replay_wal_and_build(Ok(&log), &mut mem), Ok(3));
    assert_eq!(mem.approx_size(), size);
    assert_eq!(mem.iter(), &entries[..]);
}

#[test]
fn the_highest_sequence_number_need_not_be_the_last() {
    let log = log_of(&[
        WalRecord::Put { seq: 7, key: b"x".to_vec(), value: b"1".to_vec() },
        WalRecord::Del { seq: 4, key: b"y".to_vec() },
    ]);
    let mut mem = Memtable::new();
    assert_eq!(replay_wal_and_build(Ok(&log), &mut mem), Ok(7));
}
