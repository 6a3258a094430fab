//! Writing a table: the image of a new v3 file, from entries in ascending
//! key order.

use crate::bloom::{BloomFilter, BloomView, one_percent_bits, one_percent_filter};
use crate::codec::{checksum, crc32, push_bytes, push_u32, push_u64};
use crate::memtable::{Memtable, Pair, pair_views, ValueEntry};
use crate::sstable::format::{Footer, SstError, write_footer_v3};
use vstd::bytes::{spec_u32_to_le_bytes, spec_u64_to_le_bytes};
use vstd::prelude::*;

verus! {

/// What the checksum of a data record covers:
/// `key_len | key | seq | present | [val_len | val]`.
pub open spec fn record_body(pair: Pair) -> Seq<u8> {
    spec_u32_to_le_bytes(pair.0.len() as u32) + pair.0 + spec_u64_to_le_bytes(pair.1.seq)
        + match pair.1.value {
        Some(v) => seq![1u8] + spec_u32_to_le_bytes(v.len() as u32) + v,
        None => seq![0u8],
    }
}

/// A data record: the checksum of its body, then the body.
pub open spec fn data_record(pair: Pair) -> Seq<u8> {
    spec_u32_to_le_bytes(crc32(record_body(pair))) + record_body(pair)
}

/// The data section: the records of all pairs, in order.
pub open spec fn data_section(pairs: Seq<Pair>) -> Seq<u8>
    decreases pairs.len(),
{
    if pairs.len() == 0 {
        Seq::empty()
    } else {
        data_section(pairs.drop_last()) + data_record(pairs.last())
    }
}

/// An index entry: `key_len | key | data_offset`.
pub open spec fn index_entry(key: Seq<u8>, offset: u64) -> Seq<u8> {
    spec_u32_to_le_bytes(key.len() as u32) + key + spec_u64_to_le_bytes(offset)
}

/// The index section: for each pair its key with the offset of its data
/// record, which starts where the records of the pairs before it end.
pub open spec fn index_section(pairs: Seq<Pair>) -> Seq<u8>
    decreases pairs.len(),
{
    if pairs.len() == 0 {
        Seq::empty()
    } else {
        index_section(pairs.drop_last()) + index_entry(
            pairs.last().0,
            data_section(pairs.drop_last()).len() as u64,
        )
    }
}

/// The filter after the keys of all pairs were inserted into `empty`.
pub open spec fn filter_of(pairs: Seq<Pair>, empty: BloomView) -> BloomView
    decreases pairs.len(),
{
    if pairs.len() == 0 {
        empty
    } else {
        filter_of(pairs.drop_last(), empty).insert(pairs.last().0)
    }
}

/// The largest sequence number among the pairs, or 0 where there is none.
pub open spec fn max_seq_of(pairs: Seq<Pair>) -> u64
    decreases pairs.len(),
{
    if pairs.len() == 0 {
        0
    } else {
        let before = max_seq_of(pairs.drop_last());
        if pairs.last().1.seq > before {
            pairs.last().1.seq
        } else {
            before
        }
    }
}

/// The length of a pair's key and of its value fit in a `u32`.
pub open spec fn fits(pair: Pair) -> bool {
    pair.0.len() <= u32::MAX && match pair.1.value {
        Some(v) => v.len() <= u32::MAX,
        None => true,
    }
}

/// The bloom filter's bit vector for `expected` keys has a length that fits
/// in a `u32`.
pub open spec fn filter_fits(expected: nat) -> bool {
    (one_percent_bits(expected) + 7) / 8 <= u32::MAX
}

/// The image of the v3 table that holds `pairs`, with a bloom filter sized
/// for `expected` keys.
pub open spec fn image_of(pairs: Seq<Pair>, expected: nat) -> Seq<u8> {
    let data = data_section(pairs);
    let bloom = filter_of(pairs, one_percent_filter(expected)).serialized();
    data + bloom + index_section(pairs) + (Footer::V3 {
        max_seq: max_seq_of(pairs),
        bloom_offset: data.len() as u64,
        index_offset: (data.len() + bloom.len()) as u64,
    }).encoded()
}

/// What writing `pairs` gives: the image, or the reason why none is written.
/// A filter or an entry too long for the format is refused, and so is a
/// table without entries.
pub open spec fn write_outcome(pairs: Seq<Pair>, expected: nat) -> Result<Seq<u8>, SstError> {
    if !filter_fits(expected) || exists|i: int| 0 <= i < pairs.len() && !fits(#[trigger] pairs[i]) {
        Err(SstError::TooLarge)
    } else if pairs.len() == 0 {
        Err(SstError::Empty)
    } else {
        Ok(image_of(pairs, expected))
    }
}

/// Whether an exec result is the one that the model gives.
pub open spec fn image_matches(r: Result<Vec<u8>, SstError>, expect: Result<Seq<u8>, SstError>) -> bool {
    match (r, expect) {
        (Ok(image), Ok(bytes)) => image@ == bytes,
        (Err(e), Err(f)) => e == f,
        _ => false,
    }
}

/// Appends what the checksum of the data record of `key` and `entry`
/// covers to `body`.
pub fn encode_entry(key: &[u8], entry: &ValueEntry, body: &mut Vec<u8>)
    requires
        fits((key@, entry@)),
    ensures
        final(body)@ == old(body)@ + record_body((key@, entry@)),
{
    push_u32(body, key.len() as u32);
    push_bytes(body, key);
    push_u64(body, entry.seq);
    match &entry.value {
        Some(v) => {
            body.push(1u8);
            push_u32(body, v.len() as u32);
            push_bytes(body, v.as_slice());
        },
        None => {
            body.push(0u8);
        },
    }
    assert(body@ =~= old(body)@ + record_body((key@, entry@)));
}

/// Appends a data record to `out`: the checksum `crc`, then the body that
/// it covers.
pub fn push_record(out: &mut Vec<u8>, body: &[u8], crc: u32)
    ensures
        final(out)@ == old(out)@ + spec_u32_to_le_bytes(crc) + body@,
{
    push_u32(out, crc);
    push_bytes(out, body);
}

/// Writes tables. It holds no state: each call produces one image.
pub struct SSTableWriter {}

impl SSTableWriter {
    /// The image of a new table with the entries of `mem`, its bloom filter
    /// sized for their number. An empty memtable is refused.
    pub fn write_from_memtable(mem: &Memtable) -> (r: Result<Vec<u8>, SstError>)
        ensures
            mem.pairs().len() == 0 ==> r == Err::<Vec<u8>, SstError>(SstError::Empty),
            mem.pairs().len() > 0 ==> image_matches(r, write_outcome(mem.pairs(), mem.pairs().len())),
    {
        if mem.is_empty() {
            return Err(SstError::Empty);
        }
        Self::write_internal(mem.len(), mem.iter())
    }

    /// The image of a new table with `entries`, which the caller supplies in
    /// ascending key order without duplicates. `expected_count` is an
    /// estimate of their number and sizes the bloom filter; an estimate of
    /// zero counts as one.
    pub fn write_from_iterator(expected_count: usize, entries: &[(Vec<u8>, ValueEntry)]) -> (r:
        Result<Vec<u8>, SstError>)
        ensures
            image_matches(
                r,
                write_outcome(
                    pair_views(entries@),
                    if expected_count == 0 {
                        1
                    } else {
                        expected_count as nat
                    },
                ),
            ),
    {
        let expected: usize = if expected_count == 0 {
            1
        } else {
            expected_count
        };
        Self::write_internal(expected, entries)
    }

    fn write_internal(expected_count: usize, entries: &[(Vec<u8>, ValueEntry)]) -> (r: Result<
        Vec<u8>,
        SstError,
    >)
        ensures
            image_matches(r, write_outcome(pair_views(entries@), expected_count as nat)),
    {
        let ghost pairs = pair_views(entries@);
        let ghost empty = one_percent_filter(expected_count as nat);
        let mut bloom: BloomFilter = match BloomFilter::sized_for(expected_count) {
            Some(b) => b,
            None => {
                return Err(SstError::TooLarge);
            },
        };
        let mut out: Vec<u8> = Vec::new();
        let mut offsets: Vec<u64> = Vec::new();
        let mut max_seq: u64 = 0;
        let mut body: Vec<u8> = Vec::with_capacity(256);
        let count: usize = entries.len();
        let mut i: usize = 0;
        assert(pairs.take(0) =~= Seq::<Pair>::empty());
        while i < count
            invariant
                0 <= i <= count,
                count == entries@.len(),
                pairs == pair_views(entries@),
                empty == one_percent_filter(expected_count as nat),
                filter_fits(expected_count as nat),
                forall|j: int| 0 <= j < i ==> fits(#[trigger] pairs[j]),
                out@ == data_section(pairs.take(i as int)),
                bloom@ == filter_of(pairs.take(i as int), empty),
                bloom@.wf(),
                bloom@.bits.len() <= u32::MAX,
                max_seq == max_seq_of(pairs.take(i as int)),
                offsets@.len() == i,
                forall|j: int|
                    0 <= j < i ==> #[trigger] offsets@[j] == data_section(pairs.take(j)).len(),
            decreases count - i,
        {
            let key: &Vec<u8> = &entries[i].0;
            let entry: &ValueEntry = &entries[i].1;
            let ghost pair = pairs[i as int];
            assert(pair == (key@, entry@));
            let value_fits: bool = match &entry.value {
                Some(v) => v.len() <= 0xffff_ffff,
                None => true,
            };
            if key.len() > 0xffff_ffff || !value_fits {
                assert(!fits(pairs[i as int]));
                return Err(SstError::TooLarge);
            }
            if entry.seq > max_seq {
                max_seq = entry.seq;
            }
            body.clear();
            encode_entry(key.as_slice(), entry, &mut body);
            assert(body@ =~= record_body(pair));
            let crc: u32 = checksum(body.as_slice());
            offsets.push(out.len() as u64);
            push_record(&mut out, body.as_slice(), crc);
            bloom.insert(key.as_slice());
            proof {
                assert(pairs.take(i + 1).drop_last() =~= pairs.take(i as int));
                assert(pairs.take(i + 1).last() == pair);
                assert(out@ =~= data_section(pairs.take(i as int)) + data_record(pair));
            }
            i += 1;
        }
        assert(pairs.take(count as int) =~= pairs);
        if count == 0 {
            return Err(SstError::Empty);
        }
        let ghost data = out@;
        let bloom_offset: u64 = out.len() as u64;
        bloom.write_to(&mut out);
        let index_offset: u64 = out.len() as u64;
        let ghost base = out@;
        let mut k: usize = 0;
        assert(pairs.take(0) =~= Seq::<Pair>::empty());
        assert(base + Seq::<u8>::empty() =~= base);
        while k < count
            invariant
                0 <= k <= count,
                count == entries@.len(),
                pairs == pair_views(entries@),
                forall|j: int| 0 <= j < count ==> fits(#[trigger] pairs[j]),
                offsets@.len() == count,
                forall|j: int|
                    0 <= j < count ==> #[trigger] offsets@[j] == data_section(pairs.take(j)).len(),
                out@ == base + index_section(pairs.take(k as int)),
            decreases count - k,
        {
            let key: &Vec<u8> = &entries[k].0;
            let ghost before = out@;
            push_u32(&mut out, key.len() as u32);
            push_bytes(&mut out, key.as_slice());
            push_u64(&mut out, offsets[k]);
            proof {
                assert(pairs.take(k + 1).drop_last() =~= pairs.take(k as int));
                assert(pairs.take(k + 1).last() == pairs[k as int]);
                assert(pairs[k as int].0 == key@);
                assert(out@ =~= base + (index_section(pairs.take(k as int)) + index_entry(
                    key@,
                    offsets@[k as int],
                )));
            }
            k += 1;
        }
        write_footer_v3(&mut out, max_seq, bloom_offset, index_offset);
        assert(out@ =~= image_of(pairs, expected_count as nat));
        Ok(out)
    }
}

} // verus!
