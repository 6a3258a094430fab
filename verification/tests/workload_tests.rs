use riptidekv::memtable::Memtable;
use riptidekv::wal::{WalReader, WalRecord, WalWriter};

#[test]
fn main_write_load_test() {
    let mut mem = Memtable::new();
    let mut seq = 0;

    for i in 0..1_000_000 {
        seq += 1;
        let key = format!("key{}", i % 10_000).into_bytes();
        let val = vec![b'x'; 100];
        mem.put(key, val, seq);
    }

    assert!(mem.len() <= 10_000);
}

#[test]
fn tests_write_load_test() {
    let mut mem = Memtable::new();
    let mut seq = 0;

    for i in 0..1_000_000 {
        seq += 1;
        let key = format!("key{}", i % 10_000).into_bytes();
        let val = vec![b'x'; 100];
        mem.put(key, val, seq);
    }

    assert!(mem.len() <= 10_000);
    assert_eq!(mem.len(), 10_000);
    assert_eq!(mem.approx_size(), 1_068_890);
}

#[test]
fn main_delete_heavy_workload() {
    let mut mem = Memtable::new();
    let mut seq = 0;

    for _i in 0..100_000 {
        seq += 1;
        mem.put(b"k".to_vec(), b"v".to_vec(), seq);
        seq += 1;
        mem.delete(b"k".to_vec(), seq);
    }

    assert!(mem.get(b"k").is_none());
    assert_eq!(mem.len(), 1);
}

#[test]
fn tests_delete_heavy_workload() {
    let mut mem = Memtable::new();
    let mut seq = 0;

    for _i in 0..100_000 {
        seq += 1;
        mem.put(b"k".to_vec(), b"v".to_vec(), seq);
        seq += 1;
        mem.delete(b"k".to_vec(), seq);
    }

    assert!(mem.get(b"k").is_none());
    assert_eq!(mem.len(), 1);
}

#[test]
fn delete_heavy_workload() {
    let mut m = Memtable::new();
    let mut seq = 0u64;
    for _ in 0..10_000 {
        seq += 1;
        m.put(b"k".to_vec(), b"v".to_vec(), seq);
        seq += 1;
        m.delete(b"k".to_vec(), seq);
    }
    assert!(m.get(b"k").is_none());
    assert_eq!(m.len(), 1);
}

#[test]
fn tests_empty_key() {
    let mut m = Memtable::new();
    m.put(b"".to_vec(), b"val".to_vec(), 1);
    assert_eq!(m.get(b"").unwrap().1, b"val");
}

#[test]
fn tests_binary_key_and_value() {
    let mut m = Memtable::new();
    let key = vec![0x00, 0xFF, 0x80, 0x01];
    let val = vec![0xDE, 0xAD, 0xBE, 0xEF];
    m.put(key.clone(), val.clone(), 1);
    assert_eq!(m.get(&key).unwrap().1, val);
}

#[test]
fn binary_key_and_value() {
    let key = vec![0x00u8, 0xFF, 0x80];
    let val = vec![0xDEu8, 0xAD, 0xBE, 0xEF];
    let mut log: Vec<u8> = Vec::new();
    let mut w = WalWriter::create(true);
    w.append(&WalRecord::Put { seq: 1, key: key.clone(), value: val.clone() }).unwrap();
    log.extend_from_slice(w.last_frame());

    let mut reader = WalReader::from_reader(log);
    let mut recs = Vec::new();
    reader.replay(&mut recs).unwrap();
    assert_eq!(recs.len(), 1);
    match &recs[0] {
        WalRecord::Put { seq, key: k, value: v } => {
            assert_eq!(*seq, 1);
            assert_eq!(k, &key);
            assert_eq!(v, &val);
        }
        _ => panic!("expected a put"),
    }
}
