//! Write, then open: a table that was written from ascending entries is
//! opened without error and returns every entry as it was written.

use crate::bloom::{
    BloomView, lemma_insert_sound, lemma_serialize_then_parse, MAX_BLOOM_BYTES, one_percent_bits,
    one_percent_filter,
};
use crate::bytes::{lemma_lex_irreflexive, lex_lt};
use crate::chunks::{chunk_start, joined, lemma_chunk_starts, lemma_joined_chunk};
use crate::codec::{crc32, u32_at};
use crate::memtable::{EntryView, Pair};
use crate::ordered::{as_map, ascending, has_key, index_of, lemma_lookup_at, lookup};
use crate::sstable::format::{
    Footer, lemma_footer_round_trip, MAX_KEY_BYTES, MAX_VALUE_BYTES, SstError,
};
use crate::sstable::reader::{parse_bloom_at, parse_index, parse_table, read_record, TableView};
use crate::sstable::writer::{
    data_record, data_section, filter_of, image_of, index_entry, index_section, max_seq_of,
    record_body,
};
use vstd::bytes::{
    lemma_auto_spec_u32_to_from_le_bytes, lemma_auto_spec_u64_to_from_le_bytes,
    spec_u32_to_le_bytes, spec_u64_to_le_bytes,
};
use vstd::prelude::*;

verus! {

/// The data records of the pairs.
pub open spec fn data_chunks(pairs: Seq<Pair>) -> Seq<Seq<u8>> {
    Seq::new(pairs.len(), |i: int| data_record(pairs[i]))
}

/// The data section is its records one after the other.
pub proof fn lemma_data_joined(pairs: Seq<Pair>)
    ensures
        data_section(pairs) == joined(data_chunks(pairs)),
    decreases pairs.len(),
{
    if pairs.len() > 0 {
        lemma_data_joined(pairs.drop_last());
        assert(data_chunks(pairs).drop_last() =~= data_chunks(pairs.drop_last()));
    }
}

/// The offset of the data record of pair `k`.
pub open spec fn record_offset(pairs: Seq<Pair>, k: int) -> int {
    data_section(pairs.take(k)).len() as int
}

/// The offsets of the data records are the starts of the data chunks.
pub proof fn lemma_record_offset(pairs: Seq<Pair>, k: int)
    requires
        0 <= k <= pairs.len(),
    ensures
        record_offset(pairs, k) == chunk_start(data_chunks(pairs), k),
{
    lemma_data_joined(pairs.take(k));
    assert(data_chunks(pairs.take(k)) =~= data_chunks(pairs).take(k));
}

/// The index entries of the pairs.
pub open spec fn index_chunks(pairs: Seq<Pair>) -> Seq<Seq<u8>> {
    Seq::new(pairs.len(), |i: int| index_entry(pairs[i].0, record_offset(pairs, i) as u64))
}

/// The index section is its entries one after the other.
pub proof fn lemma_index_joined(pairs: Seq<Pair>)
    ensures
        index_section(pairs) == joined(index_chunks(pairs)),
    decreases pairs.len(),
{
    if pairs.len() > 0 {
        let init = pairs.drop_last();
        lemma_index_joined(init);
        assert forall|i: int| 0 <= i < init.len() implies index_chunks(pairs)[i] == index_chunks(
            init,
        )[i] by {
            assert(pairs.take(i) =~= init.take(i));
        }
        assert(index_chunks(pairs).drop_last() =~= index_chunks(init));
        assert(pairs.take(pairs.len() - 1) =~= init);
    }
}

/// The key and the value of a pair are no longer than a reader accepts.
pub open spec fn readable(pair: Pair) -> bool {
    pair.0.len() <= MAX_KEY_BYTES && match pair.1.value {
        Some(v) => v.len() <= MAX_VALUE_BYTES,
        None => true,
    }
}

/// The length of the body of a data record.
pub proof fn lemma_record_len(pair: Pair)
    ensures
        record_body(pair).len() == 13 + pair.0.len() + (match pair.1.value {
            Some(v) => 4 + v.len(),
            None => 0,
        }),
        data_record(pair).len() == record_body(pair).len() + 4,
{
    lemma_auto_spec_u32_to_from_le_bytes();
    lemma_auto_spec_u64_to_from_le_bytes();
}

/// A data record that was written is read back as the entry that it was
/// written for.
#[verifier::rlimit(50)]
pub proof fn lemma_read_written(data: Seq<u8>, off: int, pair: Pair)
    requires
        0 <= off <= u64::MAX,
        off + data_record(pair).len() <= data.len(),
        data.subrange(off, off + data_record(pair).len()) == data_record(pair),
        readable(pair),
    ensures
        read_record(data, off as u64, pair.0, true) == Ok::<EntryView, SstError>(pair.1),
{
    lemma_auto_spec_u32_to_from_le_bytes();
    lemma_auto_spec_u64_to_from_le_bytes();
    lemma_record_len(pair);
    let rec = data_record(pair);
    let body = record_body(pair);
    let key = pair.0;
    let kl = key.len() as int;
    let b = off + 4;
    let p = b + 4 + kl;
    assert(data.subrange(off, off + 4) =~= rec.subrange(0, 4));
    assert(rec.subrange(0, 4) =~= spec_u32_to_le_bytes(crc32(body)));
    assert(data.subrange(b, b + 4) =~= rec.subrange(4, 8));
    assert(rec.subrange(4, 8) =~= spec_u32_to_le_bytes(key.len() as u32));
    assert(data.subrange(b + 4, p) =~= rec.subrange(8, 8 + kl));
    assert(rec.subrange(8, 8 + kl) =~= key);
    assert(data.subrange(p, p + 8) =~= rec.subrange(8 + kl, 16 + kl));
    assert(rec.subrange(8 + kl, 16 + kl) =~= spec_u64_to_le_bytes(pair.1.seq));
    assert(data[p + 8] == rec[16 + kl]);
    match pair.1.value {
        Some(v) => {
            let vl = v.len() as int;
            assert(rec[16 + kl] == 1u8);
            assert(data.subrange(p + 9, p + 13) =~= rec.subrange(17 + kl, 21 + kl));
            assert(rec.subrange(17 + kl, 21 + kl) =~= spec_u32_to_le_bytes(v.len() as u32));
            assert(data.subrange(p + 13, p + 13 + vl) =~= rec.subrange(21 + kl, 21 + kl + vl));
            assert(rec.subrange(21 + kl, 21 + kl + vl) =~= v);
            assert(data.subrange(b, p + 13 + vl) =~= rec.subrange(4, rec.len() as int));
            assert(rec.subrange(4, rec.len() as int) =~= body);
        },
        None => {
            assert(rec[16 + kl] == 0u8);
            assert(data.subrange(b, p + 9) =~= rec.subrange(4, rec.len() as int));
            assert(rec.subrange(4, rec.len() as int) =~= body);
        },
    }
}

/// The mapping from the keys of the first `k` pairs to the offsets of
/// their data records.
pub open spec fn offsets_upto(pairs: Seq<Pair>, k: int) -> Map<Seq<u8>, u64>
    decreases k,
{
    if k <= 0 {
        Map::empty()
    } else {
        offsets_upto(pairs, k - 1).insert(pairs[k - 1].0, record_offset(pairs, k - 1) as u64)
    }
}

/// An index that was written is parsed back, entry by entry: from the start
/// of entry `k` on, with the offsets of the entries before it, the parse
/// ends with the offsets of all entries.
#[verifier::rlimit(50)]
pub proof fn lemma_parse_written_index(image: Seq<u8>, base: int, pairs: Seq<Pair>, k: int)
    requires
        0 <= k <= pairs.len(),
        0 <= base,
        base + joined(index_chunks(pairs)).len() <= image.len(),
        image.subrange(base, base + joined(index_chunks(pairs)).len()) == joined(
            index_chunks(pairs),
        ),
        forall|i: int| 0 <= i < pairs.len() ==> readable(#[trigger] pairs[i]),
    ensures
        parse_index(
            image,
            base + chunk_start(index_chunks(pairs), k),
            base + joined(index_chunks(pairs)).len(),
            offsets_upto(pairs, k),
        ) == Ok::<Map<Seq<u8>, u64>, SstError>(offsets_upto(pairs, pairs.len() as int)),
    decreases pairs.len() - k,
{
    lemma_auto_spec_u32_to_from_le_bytes();
    lemma_auto_spec_u64_to_from_le_bytes();
    let chunks = index_chunks(pairs);
    let all = joined(chunks);
    let end = base + all.len();
    lemma_chunk_starts(chunks, k);
    if k < pairs.len() {
        lemma_joined_chunk(chunks, k);
        let pos = base + chunk_start(chunks, k);
        let entry = chunks[k];
        let key = pairs[k].0;
        let kl = key.len() as int;
        let off = record_offset(pairs, k) as u64;
        assert(readable(pairs[k]));
        assert(entry == index_entry(key, off));
        assert(entry.len() == 12 + kl);
        assert(image.subrange(pos, pos + entry.len()) =~= all.subrange(
            chunk_start(chunks, k),
            chunk_start(chunks, k + 1),
        ));
        assert(image.subrange(pos, pos + 4) =~= entry.subrange(0, 4));
        assert(entry.subrange(0, 4) =~= spec_u32_to_le_bytes(key.len() as u32));
        assert(image.subrange(pos + 4, pos + 4 + kl) =~= entry.subrange(4, 4 + kl));
        assert(entry.subrange(4, 4 + kl) =~= key);
        assert(image.subrange(pos + 4 + kl, pos + 12 + kl) =~= entry.subrange(4 + kl, 12 + kl));
        assert(entry.subrange(4 + kl, 12 + kl) =~= spec_u64_to_le_bytes(off));
        lemma_parse_written_index(image, base, pairs, k + 1);
    }
}

/// The offsets of the first `k` pairs are those of exactly their keys, and
/// each key of an ascending sequence has the offset of its own record.
pub proof fn lemma_offsets(pairs: Seq<Pair>, k: int)
    requires
        ascending(pairs),
        0 <= k <= pairs.len(),
    ensures
        forall|key: Seq<u8>|
            offsets_upto(pairs, k).contains_key(key) <==> has_key(pairs.take(k), key),
        forall|i: int|
            0 <= i < k ==> offsets_upto(pairs, k)[(#[trigger] pairs[i]).0] == record_offset(
                pairs,
                i,
            ) as u64,
    decreases k,
{
    if k > 0 {
        lemma_offsets(pairs, k - 1);
        let before = pairs.take(k - 1);
        let upto = pairs.take(k);
        assert forall|key: Seq<u8>| offsets_upto(pairs, k).contains_key(key) <==> has_key(
            upto,
            key,
        ) by {
            if has_key(upto, key) {
                let j = index_of(upto, key);
                if j < k - 1 {
                    assert(before[j].0 == key);
                }
            }
            if has_key(before, key) {
                let j = index_of(before, key);
                assert(upto[j].0 == key);
            }
            assert(upto[k - 1].0 == pairs[k - 1].0);
        }
        assert forall|i: int| 0 <= i < k implies offsets_upto(pairs, k)[(#[trigger] pairs[i]).0]
            == record_offset(pairs, i) as u64 by {
            if i < k - 1 {
                assert(lex_lt(pairs[i].0, pairs[k - 1].0));
                lemma_lex_irreflexive(pairs[i].0);
            }
        }
    }
}

/// The filter of written pairs is well-formed, as long as the empty one,
/// and reports every key of the pairs as possibly present.
pub proof fn lemma_filter_of(pairs: Seq<Pair>, empty: BloomView)
    requires
        empty.wf(),
    ensures
        filter_of(pairs, empty).wf(),
        filter_of(pairs, empty).bits.len() == empty.bits.len(),
        forall|i: int|
            0 <= i < pairs.len() ==> filter_of(pairs, empty).may_contain((#[trigger] pairs[i]).0),
    decreases pairs.len(),
{
    if pairs.len() > 0 {
        let init = pairs.drop_last();
        lemma_filter_of(init, empty);
        lemma_insert_sound(filter_of(init, empty), pairs.last().0);
        assert forall|i: int| 0 <= i < pairs.len() implies filter_of(pairs, empty).may_contain(
            (#[trigger] pairs[i]).0,
        ) by {
            if i < init.len() {
                assert(init[i] == pairs[i]);
                assert(filter_of(init, empty).may_contain(init[i].0));
            }
        }
    }
}

/// The pairs can be written and read back: they ascend, each is within the
/// lengths that a reader accepts, the bloom filter is no larger than
/// deserialization accepts, and the file's offsets fit in a `u64`.
pub open spec fn round_trips(pairs: Seq<Pair>, expected: nat) -> bool {
    &&& ascending(pairs)
    &&& forall|i: int| 0 <= i < pairs.len() ==> readable(#[trigger] pairs[i])
    &&& (one_percent_bits(expected) + 7) / 8 <= MAX_BLOOM_BYTES
    &&& image_of(pairs, expected).len() <= u64::MAX
}

/// The table that an image written from `pairs` holds.
pub open spec fn written_table(pairs: Seq<Pair>, expected: nat) -> TableView {
    let data = data_section(pairs);
    let filter = filter_of(pairs, one_percent_filter(expected));
    TableView {
        index: offsets_upto(pairs, pairs.len() as int),
        bloom: Some(filter),
        footer: Footer::V3 {
            max_seq: max_seq_of(pairs),
            bloom_offset: data.len() as u64,
            index_offset: (data.len() + filter.serialized().len()) as u64,
        },
        data: image_of(pairs, expected),
    }
}

/// Write, then open: the image of a table opens as the table that was
/// written.
#[verifier::rlimit(50)]
pub proof fn lemma_write_then_open(pairs: Seq<Pair>, expected: nat)
    requires
        round_trips(pairs, expected),
    ensures
        parse_table(image_of(pairs, expected)) == Ok::<TableView, SstError>(
            written_table(pairs, expected),
        ),
{
    lemma_auto_spec_u32_to_from_le_bytes();
    lemma_auto_spec_u64_to_from_le_bytes();
    let n = pairs.len() as int;
    let data = data_section(pairs);
    let empty = one_percent_filter(expected);
    let filter = filter_of(pairs, empty);
    let bloom = filter.serialized();
    let index = index_section(pairs);
    let footer = Footer::V3 {
        max_seq: max_seq_of(pairs),
        bloom_offset: data.len() as u64,
        index_offset: (data.len() + bloom.len()) as u64,
    };
    let image = image_of(pairs, expected);
    let head = data + bloom + index;
    assert(image == head + footer.encoded());
    assert(footer.encoded().len() == 28);
    lemma_footer_round_trip(head, footer);
    // The bloom filter.
    assert(empty.wf());
    lemma_filter_of(pairs, empty);
    let base = (data.len() + bloom.len()) as int;
    assert(image.subrange(data.len() as int, image.len() as int) =~= bloom + (index
        + footer.encoded()));
    lemma_serialize_then_parse(filter, index + footer.encoded());
    assert(parse_bloom_at(image, data.len() as u64) == Ok::<BloomView, crate::bloom::BloomError>(
        filter,
    ));
    // The index.
    lemma_index_joined(pairs);
    let chunks = index_chunks(pairs);
    assert(image.subrange(base, base + index.len()) =~= index);
    assert(chunks.take(0) =~= Seq::<Seq<u8>>::empty());
    lemma_parse_written_index(image, base, pairs, 0);
    assert(image.len() - 28 == base + index.len());
}

/// Write, then read: every key that was written is returned with its
/// entry, and no other key is returned.
#[verifier::rlimit(50)]
pub proof fn lemma_write_then_get(pairs: Seq<Pair>, expected: nat, key: Seq<u8>)
    requires
        round_trips(pairs, expected),
    ensures
        written_table(pairs, expected).get(key) == Ok::<Option<EntryView>, SstError>(
            lookup(pairs, key),
        ),
{
    let n = pairs.len() as int;
    let table = written_table(pairs, expected);
    let image = image_of(pairs, expected);
    let data = data_section(pairs);
    let empty = one_percent_filter(expected);
    lemma_filter_of(pairs, empty);
    lemma_offsets(pairs, n);
    assert(pairs.take(n) =~= pairs);
    if has_key(pairs, key) {
        let i = index_of(pairs, key);
        lemma_lookup_at(pairs, i);
        assert(table.bloom->Some_0.may_contain(pairs[i].0));
        assert(table.index[pairs[i].0] == record_offset(pairs, i) as u64);
        let chunks = data_chunks(pairs);
        lemma_data_joined(pairs);
        lemma_record_offset(pairs, i);
        lemma_joined_chunk(chunks, i);
        let off = record_offset(pairs, i);
        assert(readable(pairs[i]));
        assert(image.subrange(off, off + chunks[i].len()) =~= data.subrange(
            chunk_start(chunks, i),
            chunk_start(chunks, i + 1),
        ));
        lemma_read_written(image, off, pairs[i]);
    }
}

/// An entry that a read returns is within the lengths that a reader
/// accepts.
pub proof fn lemma_read_readable(data: Seq<u8>, offset: u64, key: Seq<u8>, checked: bool)
    requires
        read_record(data, offset, key, checked) is Ok,
    ensures
        readable((key, read_record(data, offset, key, checked)->Ok_0)),
{
    let body = if checked {
        offset + 4
    } else {
        offset as int
    };
    let key_len = u32_at(data, body) as int;
    assert(data.subrange(body + 4, body + 4 + key_len).len() == key_len);
}

/// An entry that a table returns is within the lengths that a reader
/// accepts.
pub proof fn lemma_get_readable(table: TableView, key: Seq<u8>)
    requires
        table.get(key) is Ok,
        table.get(key)->Ok_0 is Some,
    ensures
        readable((key, table.get(key)->Ok_0->Some_0)),
{
    lemma_read_readable(table.data, table.index[key], key, table.footer is V3);
}

/// A written table that opens has a bloom filter no larger than
/// deserialization accepts.
pub proof fn lemma_open_bloom_bound(pairs: Seq<Pair>, expected: nat)
    requires
        crate::sstable::writer::filter_fits(expected),
        image_of(pairs, expected).len() <= u64::MAX,
        parse_table(image_of(pairs, expected)) is Ok,
    ensures
        (one_percent_bits(expected) + 7) / 8 <= MAX_BLOOM_BYTES,
{
    lemma_auto_spec_u32_to_from_le_bytes();
    lemma_auto_spec_u64_to_from_le_bytes();
    let data = data_section(pairs);
    let empty = one_percent_filter(expected);
    let filter = filter_of(pairs, empty);
    let bloom = filter.serialized();
    let index = index_section(pairs);
    let footer = Footer::V3 {
        max_seq: max_seq_of(pairs),
        bloom_offset: data.len() as u64,
        index_offset: (data.len() + bloom.len()) as u64,
    };
    let image = image_of(pairs, expected);
    let head = data + bloom + index;
    assert(image == head + footer.encoded());
    assert(footer.encoded().len() == 28);
    lemma_footer_round_trip(head, footer);
    assert(empty.wf());
    lemma_filter_of(pairs, empty);
    let rest = image.subrange(data.len() as int, image.len() as int);
    assert(rest =~= bloom + (index + footer.encoded()));
    assert(rest.subrange(12, 16) =~= spec_u32_to_le_bytes(filter.bits.len() as u32));
}

/// Write, then open, then read: a table that was written from ascending
/// entries within the lengths that a reader accepts, and that opens,
/// answers every read, and returns for every key the entry that was
/// written for it.
pub proof fn lemma_written_table(pairs: Seq<Pair>, expected: nat, table: crate::sstable::reader::SSTableReader)
    requires
        ascending(pairs),
        forall|i: int| 0 <= i < pairs.len() ==> readable(#[trigger] pairs[i]),
        crate::sstable::writer::write_outcome(pairs, expected) is Ok,
        image_of(pairs, expected).len() <= usize::MAX,
        parse_table(image_of(pairs, expected)) == Ok::<TableView, SstError>(table@),
        table.wf(),
    ensures
        forall|key: Seq<u8>|
            #[trigger] table@.get(key) == Ok::<Option<EntryView>, SstError>(lookup(pairs, key)),
        forall|key: Seq<u8>|
            has_key(table.index_pairs(), key) <==> #[trigger] has_key(pairs, key),
{
    lemma_open_bloom_bound(pairs, expected);
    lemma_write_then_open(pairs, expected);
    let n = pairs.len() as int;
    assert forall|key: Seq<u8>| #[trigger] table@.get(key) == Ok::<Option<EntryView>, SstError>(
        lookup(pairs, key),
    ) by {
        lemma_write_then_get(pairs, expected, key);
    }
    lemma_offsets(pairs, n);
    assert(pairs.take(n) =~= pairs);
    assert forall|key: Seq<u8>| has_key(table.index_pairs(), key) <==> #[trigger] has_key(
        pairs,
        key,
    ) by {
        assert(as_map(table.index_pairs()).contains_key(key) == has_key(table.index_pairs(), key));
        assert(table@.index.contains_key(key) == has_key(pairs, key));
    }
}

} // verus!
