use riptidekv::bloom::{BloomError, BloomFilter, MAX_BLOOM_BYTES};

/// A filter sized for `expected_items` keys and the target
/// `false_positive_rate`: `m = ceil(-n ln p / (ln 2)^2)` bits, at least 8,
/// and `k = ceil((m / n) ln 2)` hashes, at least 1.
fn new_filter(expected_items: usize, false_positive_rate: f64) -> BloomFilter {
    assert!(expected_items > 0, "expected_items must be > 0");
    assert!(
        false_positive_rate > 0.0 && false_positive_rate < 1.0,
        "false_positive_rate must be in (0, 1)"
    );
    let n = expected_items as f64;
    let m = (-n * false_positive_rate.ln() / (std::f64::consts::LN_2.powi(2))).ceil() as u64;
    let m = m.max(8);
    let k = ((m as f64 / n) * std::f64::consts::LN_2).ceil() as u32;
    let k = k.max(1);
    BloomFilter::with_dimensions(m, k)
}

// -------------------- Construction --------------------

#[test]
fn new_creates_valid_filter() {
    let bf = new_filter(100, 0.01);
    assert!(bf.num_bits() > 0);
    assert!(bf.num_hashes() > 0);
    assert!(!bf.bits().is_empty());
}

// -------------------- Insert / Contains --------------------

#[test]
fn inserted_key_is_found() {
    let mut bf = new_filter(100, 0.01);
    bf.insert(b"hello");
    assert!(bf.may_contain(b"hello"));
}

#[test]
fn missing_key_is_not_found() {
    let bf = new_filter(100, 0.01);
    assert!(!bf.may_contain(b"hello"));
}

#[test]
fn many_keys_all_found() {
    let mut bf = new_filter(1000, 0.01);
    for i in 0..1000u64 {
        bf.insert(&i.to_le_bytes());
    }
    for i in 0..1000u64 {
        assert!(
            bf.may_contain(&i.to_le_bytes()),
            "key {} should be found",
            i
        );
    }
}

#[test]
fn false_positive_rate_is_reasonable() {
    let n = 10_000;
    let fpr = 0.01;
    let mut bf = new_filter(n, fpr);

    // Insert n keys
    for i in 0..n as u64 {
        bf.insert(&i.to_le_bytes());
    }

    // Test n keys that were NOT inserted
    let mut false_positives = 0;
    let test_count = 10_000;
    for i in (n as u64)..(n as u64 + test_count) {
        if bf.may_contain(&i.to_le_bytes()) {
            false_positives += 1;
        }
    }

    let actual_fpr = false_positives as f64 / test_count as f64;
    // Allow up to 3x the target FPR (statistical variance)
    assert!(
        actual_fpr < fpr * 3.0,
        "FPR too high: {:.4} (target {:.4})",
        actual_fpr,
        fpr
    );
}

#[test]
fn empty_key() {
    let mut bf = new_filter(10, 0.01);
    bf.insert(b"");
    assert!(bf.may_contain(b""));
}

#[test]
fn binary_key() {
    let mut bf = new_filter(10, 0.01);
    let key = vec![0u8, 1, 2, 255, 254, 253];
    bf.insert(&key);
    assert!(bf.may_contain(&key));
}

// -------------------- Serialization --------------------

#[test]
fn roundtrip_serialize_deserialize() {
    let mut bf = new_filter(500, 0.01);
    for i in 0..500u64 {
        bf.insert(&i.to_le_bytes());
    }

    // Serialize
    let mut buf = Vec::new();
    bf.write_to(&mut buf);
    assert_eq!(buf.len(), bf.serialized_size());

    // Deserialize
    let bf2 = BloomFilter::read_from(&buf).unwrap();

    assert_eq!(bf2.num_bits(), bf.num_bits());
    assert_eq!(bf2.num_hashes(), bf.num_hashes());
    assert_eq!(bf2.bits(), bf.bits());

    // All inserted keys still found
    for i in 0..500u64 {
        assert!(
            bf2.may_contain(&i.to_le_bytes()),
            "key {} missing after roundtrip",
            i
        );
    }
}

#[test]
fn serialized_size_is_correct() {
    let bf = new_filter(100, 0.05);
    // 8 (num_bits) + 4 (num_hashes) + 4 (bits_len) + bits.len()
    assert_eq!(bf.serialized_size(), 16 + bf.bits().len());
}

#[test]
fn deserialize_rejects_oversized_bloom() {
    // Craft a bloom with bits_len = 256 MiB (exceeds 128 MiB cap)
    let mut buf = Vec::new();
    buf.extend_from_slice(&64u64.to_le_bytes()); // num_bits
    buf.extend_from_slice(&3u32.to_le_bytes()); // num_hashes
    buf.extend_from_slice(&(256 * 1024 * 1024u32).to_le_bytes()); // bits_len = 256 MiB

    let result = BloomFilter::read_from(&buf);
    assert!(result.is_err());
    assert_eq!(result.err(), Some(BloomError::TooLarge));
}

// -------------------- Debug --------------------

#[test]
fn debug_impl_works() {
    let bf = new_filter(100, 0.01);
    let debug = format!("{:?}", bf);
    assert!(debug.contains("BloomFilter"));
    assert!(debug.contains("num_bits"));
    assert!(debug.contains("num_hashes"));
}

// -------------------- Edge cases --------------------

#[test]
fn single_item_filter() {
    let mut bf = new_filter(1, 0.01);
    bf.insert(b"only");
    assert!(bf.may_contain(b"only"));
}

#[test]
fn very_low_fpr() {
    let bf = new_filter(100, 0.0001);
    // Should have many bits and hashes
    assert!(bf.num_bits() > 1000);
    assert!(bf.num_hashes() > 5);
}

#[test]
fn high_fpr_still_works() {
    let mut bf = new_filter(100, 0.5);
    bf.insert(b"test");
    assert!(bf.may_contain(b"test"));
}

// -------------------- Sizing, hashing and the wire format --------------------

#[test]
fn one_percent_sizing_has_exact_dimensions() {
    let bf = BloomFilter::sized_for(100).unwrap();
    assert_eq!(bf.num_bits(), 959);
    assert_eq!(bf.num_hashes(), 7);
    assert_eq!(bf.bits().len(), 120);
    assert!(bf.bits().iter().all(|b| *b == 0));

    let one = BloomFilter::sized_for(1).unwrap();
    assert_eq!(one.num_bits(), 10);
    assert_eq!(one.bits().len(), 2);

    let none = BloomFilter::sized_for(0).unwrap();
    assert_eq!(none.num_bits(), 8);
    assert_eq!(none.bits().len(), 1);

    let million = BloomFilter::sized_for(1_000_000).unwrap();
    assert_eq!(million.num_bits(), 9_585_059);
}

#[test]
fn one_percent_sizing_agrees_with_the_formula() {
    for n in [1usize, 2, 3, 10, 100, 500, 1000, 4096, 10_000] {
        let by_formula = new_filter(n, 0.01);
        let sized = BloomFilter::sized_for(n).unwrap();
        assert_eq!(sized.num_bits(), by_formula.num_bits(), "bits for {}", n);
        assert_eq!(sized.num_hashes(), by_formula.num_hashes(), "hashes for {}", n);
    }
}

#[test]
fn sizing_refuses_a_filter_that_the_format_cannot_hold() {
    if usize::MAX as u128 > 4_000_000_000 {
        assert!(BloomFilter::sized_for(3_585_000_000).is_none());
        assert!(BloomFilter::sized_for(usize::MAX).is_none());
    }
}

#[test]
fn insert_sets_exactly_the_probed_bits() {
    // One hash, eight bits: the only probe is fnv1a(key) mod 8.
    let mut bf = BloomFilter::with_dimensions(8, 1);
    bf.insert(b"");
    // The hash of the empty key is the basis itself.
    let bit = 0xcbf2_9ce4_8422_2325u64 % 8;
    assert_eq!(bf.bits(), &[1u8 << bit]);
    assert!(bf.may_contain(b""));

    // Two hashes: the second probe is (h1 + h2) mod 64.
    let mut bf = BloomFilter::with_dimensions(64, 2);
    bf.insert(b"");
    let h1 = 0xcbf2_9ce4_8422_2325u64;
    let h2 = 0x517c_c1b7_2722_0a95u64;
    let first = h1 % 64;
    let second = h1.wrapping_add(h2) % 64;
    let mut expect = [0u8; 8];
    expect[(first / 8) as usize] |= 1 << (first % 8);
    expect[(second / 8) as usize] |= 1 << (second % 8);
    assert_eq!(bf.bits(), &expect);
}

#[test]
fn hash_is_fnv1a() {
    // fnv1a("a") from the standard basis is 0xaf63dc4c8601ec8c.
    let mut bf = BloomFilter::with_dimensions(1 << 20, 1);
    bf.insert(b"a");
    let bit = 0xaf63_dc4c_8601_ec8cu64 % (1 << 20);
    assert_eq!(bf.bits()[(bit / 8) as usize], 1 << (bit % 8));
    assert_eq!(bf.bits().iter().filter(|b| **b != 0).count(), 1);
}

#[test]
fn wire_format_is_little_endian() {
    let mut bf = BloomFilter::from_raw(vec![0xAA, 0x55], 16, 3);
    assert!(bf.is_well_formed());
    let mut buf = vec![0xEE];
    bf.write_to(&mut buf);
    assert_eq!(
        buf,
        vec![0xEE, 16, 0, 0, 0, 0, 0, 0, 0, 3, 0, 0, 0, 2, 0, 0, 0, 0xAA, 0x55]
    );
    bf.insert(b"k");
    let back = BloomFilter::read_from(&buf[1..]).unwrap();
    assert_eq!(back.num_bits(), 16);
    assert_eq!(back.num_hashes(), 3);
    assert_eq!(back.bits(), &[0xAA, 0x55]);
}

#[test]
fn deserialize_reports_a_short_input() {
    assert_eq!(BloomFilter::read_from(&[]).err(), Some(BloomError::UnexpectedEof));
    assert_eq!(BloomFilter::read_from(&[0u8; 15]).err(), Some(BloomError::UnexpectedEof));
    let mut buf = Vec::new();
    buf.extend_from_slice(&64u64.to_le_bytes());
    buf.extend_from_slice(&3u32.to_le_bytes());
    buf.extend_from_slice(&8u32.to_le_bytes());
    buf.extend_from_slice(&[0u8; 7]);
    assert_eq!(BloomFilter::read_from(&buf).err(), Some(BloomError::UnexpectedEof));
    buf.push(0);
    assert!(BloomFilter::read_from(&buf).is_ok());
    // At the cap the length is accepted, and the input is then too short.
    let mut buf = Vec::new();
    buf.extend_from_slice(&64u64.to_le_bytes());
    buf.extend_from_slice(&3u32.to_le_bytes());
    buf.extend_from_slice(&(MAX_BLOOM_BYTES as u32).to_le_bytes());
    assert_eq!(BloomFilter::read_from(&buf).err(), Some(BloomError::UnexpectedEof));
}

#[test]
fn ill_formed_filter_is_recognised() {
    assert!(!BloomFilter::from_raw(vec![0], 9, 1).is_well_formed());
    assert!(!BloomFilter::from_raw(vec![], 0, 1).is_well_formed());
    assert!(BloomFilter::from_raw(vec![0], 8, 1).is_well_formed());
    // Without probes nothing is ever looked up.
    let bf = BloomFilter::from_raw(vec![], 0, 0);
    assert!(bf.is_well_formed());
    assert!(bf.may_contain(b"anything"));
}

#[test]
fn inserting_keeps_earlier_keys() {
    let mut bf = BloomFilter::sized_for(50).unwrap();
    for i in 0..50u32 {
        bf.insert(&i.to_be_bytes());
        for j in 0..=i {
            assert!(bf.may_contain(&j.to_be_bytes()));
        }
    }
}
