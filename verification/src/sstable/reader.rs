//! Reading a table: the index and the bloom filter are loaded when the
//! table is opened, and a point lookup parses one data record.

use crate::bloom::{BloomError, BloomFilter, BloomView, parse_bloom};
use crate::bytes::{copy_bytes, same_bytes};
use crate::codec::{checksum_range, crc32, read_u32_at, read_u64_at, u32_at, u64_at};
use crate::memtable::{EntryView, ValueEntry};
use crate::ordered::{
    as_map, ascending, keyed, lemma_insert_entry, lemma_lookup_at, lemma_replace_entry, locate,
};
use crate::sstable::format::{
    Footer, MAX_KEY_BYTES, MAX_VALUE_BYTES, parse_footer, read_footer_versioned, SstError,
};
use vstd::prelude::*;
use vstd::slice::slice_subrange;

verus! {

/// The index section from `pos` up to `end`, where the footer starts, added
/// to `acc`. An entry that occurs again replaces the earlier one. Fields are
/// read up to the end of the file, not of the section.
pub open spec fn parse_index(data: Seq<u8>, pos: int, end: int, acc: Map<Seq<u8>, u64>) -> Result<
    Map<Seq<u8>, u64>,
    SstError,
>
    decreases data.len() - pos,
{
    if pos < 0 || pos >= end {
        Ok(acc)
    } else if pos + 4 > data.len() {
        Err(SstError::UnexpectedEof)
    } else {
        let key_len = u32_at(data, pos) as int;
        if key_len > MAX_KEY_BYTES {
            Err(SstError::CorruptIndex)
        } else if pos + 12 + key_len > data.len() {
            Err(SstError::UnexpectedEof)
        } else {
            parse_index(
                data,
                pos + 12 + key_len,
                end,
                acc.insert(data.subrange(pos + 4, pos + 4 + key_len), u64_at(data, pos + 4 + key_len)),
            )
        }
    }
}

/// The bloom filter that lies at `offset`, which may be past the end.
pub open spec fn parse_bloom_at(data: Seq<u8>, offset: u64) -> Result<BloomView, BloomError> {
    if offset <= data.len() {
        parse_bloom(data.subrange(offset as int, data.len() as int))
    } else {
        Err(BloomError::UnexpectedEof)
    }
}

/// What an open table holds.
pub struct TableView {
    /// The offset of each key's data record.
    pub index: Map<Seq<u8>, u64>,
    /// The bloom filter, from v2 on.
    pub bloom: Option<BloomView>,
    /// The footer.
    pub footer: Footer,
    /// The whole file.
    pub data: Seq<u8>,
}

/// The table that a file holds, or why it cannot be opened.
pub open spec fn parse_table(data: Seq<u8>) -> Result<TableView, SstError> {
    match parse_footer(data) {
        Err(e) => Err(e),
        Ok(footer) => {
            if footer.spec_index_offset() >= data.len() {
                Err(SstError::InvalidIndexOffset)
            } else {
                let bloom = match footer.spec_bloom_offset() {
                    None => Ok(None),
                    Some(offset) => match parse_bloom_at(data, offset) {
                        Ok(b) => Ok(Some(b)),
                        Err(e) => Err(SstError::Bloom(e)),
                    },
                };
                match bloom {
                    Err(e) => Err(e),
                    Ok(bloom) => match parse_index(
                        data,
                        footer.spec_index_offset() as int,
                        data.len() - footer.spec_footer_size(),
                        Map::empty(),
                    ) {
                        Err(e) => Err(e),
                        Ok(index) => Ok(TableView { index, bloom, footer, data }),
                    },
                }
            }
        },
    }
}

/// A data record as it was parsed, before its checksum is looked at.
pub struct RecordView {
    /// The entry that the record holds.
    pub entry: EntryView,
    /// Where the bytes that the checksum covers start.
    pub body: int,
    /// Where they end.
    pub end: int,
}

/// The data record at `offset`, which must hold `key`. With `checked`, the
/// record starts with a checksum, which is skipped here.
pub open spec fn parse_record_at(data: Seq<u8>, offset: u64, key: Seq<u8>, checked: bool) -> Result<
    RecordView,
    SstError,
> {
    let len = data.len() as int;
    let body = if checked {
        offset + 4
    } else {
        offset as int
    };
    if body + 4 > len {
        Err(SstError::UnexpectedEof)
    } else {
        let key_len = u32_at(data, body) as int;
        let p = body + 4 + key_len;
        if key_len > MAX_KEY_BYTES {
            Err(SstError::CorruptData)
        } else if p > len {
            Err(SstError::UnexpectedEof)
        } else if data.subrange(body + 4, p) != key {
            Err(SstError::KeyMismatch)
        } else if p + 9 > len {
            Err(SstError::UnexpectedEof)
        } else {
            let seq = u64_at(data, p);
            if data[p + 8] == 1 {
                if p + 13 > len {
                    Err(SstError::UnexpectedEof)
                } else {
                    let val_len = u32_at(data, p + 9) as int;
                    if val_len > MAX_VALUE_BYTES {
                        Err(SstError::CorruptData)
                    } else if p + 13 + val_len > len {
                        Err(SstError::UnexpectedEof)
                    } else {
                        Ok(
                            RecordView {
                                entry: EntryView {
                                    seq,
                                    value: Some(data.subrange(p + 13, p + 13 + val_len)),
                                },
                                body,
                                end: p + 13 + val_len,
                            },
                        )
                    }
                }
            } else {
                Ok(RecordView { entry: EntryView { seq, value: None }, body, end: p + 9 })
            }
        }
    }
}

/// The entry of the data record at `offset`, which must hold `key`. With
/// `checked`, the record starts with the checksum of the rest of it, and a
/// record that does not match its checksum is an error.
pub open spec fn read_record(data: Seq<u8>, offset: u64, key: Seq<u8>, checked: bool) -> Result<
    EntryView,
    SstError,
> {
    match parse_record_at(data, offset, key, checked) {
        Err(e) => Err(e),
        Ok(record) => if checked && crc32(data.subrange(record.body, record.end)) != u32_at(
            data,
            offset as int,
        ) {
            Err(SstError::ChecksumMismatch)
        } else {
            Ok(record.entry)
        },
    }
}

impl TableView {
    /// The index in ascending key order.
    pub open spec fn sorted_index(self) -> Seq<(Seq<u8>, u64)> {
        choose|p: Seq<(Seq<u8>, u64)>| ascending(p) && as_map(p) == self.index
    }

    /// The point lookup. The bloom filter answers first; a key that it
    /// excludes is absent whatever the index says. A filter whose probes
    /// fall outside its bit vector cannot be asked, and is an error.
    pub open spec fn get(self, key: Seq<u8>) -> Result<Option<EntryView>, SstError> {
        if self.bloom is Some && !self.bloom->Some_0.wf() {
            Err(SstError::CorruptBloom)
        } else if self.bloom is Some && !self.bloom->Some_0.may_contain(key) {
            Ok(None)
        } else if !self.index.contains_key(key) {
            Ok(None)
        } else {
            match read_record(self.data, self.index[key], key, self.footer is V3) {
                Ok(e) => Ok(Some(e)),
                Err(e) => Err(e),
            }
        }
    }
}

/// Whether the result of a lookup is the one that the model gives.
pub open spec fn lookup_matches(
    r: Result<Option<ValueEntry>, SstError>,
    expect: Result<Option<EntryView>, SstError>,
) -> bool {
    match (r, expect) {
        (Ok(Some(e)), Ok(Some(v))) => e@ == v,
        (Ok(None), Ok(None)) => true,
        (Err(e), Err(f)) => e == f,
        _ => false,
    }
}

/// An open table.
pub struct SSTableReader {
    index: Vec<(Vec<u8>, u64)>,
    bloom: Option<BloomFilter>,
    footer: Footer,
    data: Vec<u8>,
}

impl View for SSTableReader {
    type V = TableView;

    open spec fn view(&self) -> TableView {
        TableView {
            index: as_map(self.index_pairs()),
            bloom: self.filter(),
            footer: self.trailer(),
            data: self.image(),
        }
    }
}

impl SSTableReader {
    /// The index in ascending key order.
    pub closed spec fn index_pairs(&self) -> Seq<(Seq<u8>, u64)> {
        keyed(self.index@)
    }

    /// The bloom filter, if the table has one.
    pub closed spec fn filter(&self) -> Option<BloomView> {
        match self.bloom {
            Some(b) => Some(b@),
            None => None,
        }
    }

    /// The footer.
    pub closed spec fn trailer(&self) -> Footer {
        self.footer
    }

    /// The whole file.
    pub closed spec fn image(&self) -> Seq<u8> {
        self.data@
    }

    /// The keys of the index ascend strictly.
    pub open spec fn wf(&self) -> bool {
        ascending(self.index_pairs())
    }

    /// The reader's index is the table's index in ascending key order.
    pub proof fn lemma_sorted_index(&self)
        requires
            self.wf(),
        ensures
            self.index_pairs() == self@.sorted_index(),
    {
        let p = self.index_pairs();
        let q = self@.sorted_index();
        assert(ascending(p) && as_map(p) == self@.index);
        crate::ordered::lemma_ascending_unique(p, q);
    }

    /// The index is a vector, so its length is a `usize`.
    pub proof fn lemma_index_len(&self)
        ensures
            self.index_pairs().len() <= usize::MAX,
    {
        vstd::std_specs::vec::axiom_spec_len(&self.index);
        assert(self.index@.len() == self.index.len());
    }

    /// Opens the table that `data` holds: parses the footer, and loads the
    /// bloom filter, if there is one, and the index.
    pub fn open(data: Vec<u8>) -> (r: Result<Self, SstError>)
        ensures
            match parse_table(data@) {
                Ok(v) => r is Ok && r->Ok_0@ == v && r->Ok_0.wf(),
                Err(e) => r is Err && r->Err_0 == e,
            },
    {
        let filesize: usize = data.len();
        let footer: Footer = match read_footer_versioned(data.as_slice()) {
            Ok(f) => f,
            Err(e) => {
                return Err(e);
            },
        };
        let index_offset: u64 = footer.index_offset();
        if index_offset >= filesize as u64 {
            return Err(SstError::InvalidIndexOffset);
        }
        let bloom: Option<BloomFilter> = match footer.bloom_offset() {
            None => None,
            Some(offset) => {
                if offset > filesize as u64 {
                    return Err(SstError::Bloom(BloomError::UnexpectedEof));
                }
                match BloomFilter::read_from(
                    slice_subrange(data.as_slice(), offset as usize, filesize),
                ) {
                    Ok(b) => Some(b),
                    Err(e) => {
                        return Err(SstError::Bloom(e));
                    },
                }
            },
        };
        let end: usize = filesize - footer.footer_size() as usize;
        let mut index: Vec<(Vec<u8>, u64)> = Vec::new();
        let mut pos: usize = index_offset as usize;
        let ghost whole = parse_index(data@, index_offset as int, end as int, Map::empty());
        let ghost loaded = if bloom is Some {
            Some(bloom->Some_0@)
        } else {
            None
        };
        assert(as_map(keyed(index@)) =~= Map::<Seq<u8>, u64>::empty());
        while pos < end
            invariant
                filesize == data@.len(),
                parse_table(data@) == (match whole {
                    Err(e) => Err::<TableView, SstError>(e),
                    Ok(index) => Ok::<TableView, SstError>(
                        TableView { index, bloom: loaded, footer, data: data@ },
                    ),
                }),
                end <= filesize,
                0 <= pos <= filesize,
                ascending(keyed(index@)),
                whole == parse_index(data@, pos as int, end as int, as_map(keyed(index@))),
            decreases filesize - pos,
        {
            if filesize - pos < 4 {
                return Err(SstError::UnexpectedEof);
            }
            let key_len: u32 = read_u32_at(data.as_slice(), pos);
            if key_len as usize > MAX_KEY_BYTES {
                return Err(SstError::CorruptIndex);
            }
            if filesize - pos - 4 < key_len as usize || filesize - pos - 4 - (key_len as usize)
                < 8 {
                return Err(SstError::UnexpectedEof);
            }
            let key_end: usize = pos + 4 + key_len as usize;
            let key: Vec<u8> = copy_bytes(slice_subrange(data.as_slice(), pos + 4, key_end));
            let offset: u64 = read_u64_at(data.as_slice(), key_end);
            let ghost before = keyed(index@);
            let (i, found) = locate(&index, key.as_slice());
            let ghost pair = (key@, offset);
            if found {
                index.set(i, (key, offset));
                proof {
                    assert(keyed(index@) =~= before.update(i as int, pair));
                    lemma_replace_entry(before, i as int, offset);
                }
            } else {
                index.insert(i, (key, offset));
                proof {
                    assert(keyed(index@) =~= before.insert(i as int, pair));
                    lemma_insert_entry(before, i as int, pair);
                }
            }
            pos = key_end + 8;
        }
        Ok(SSTableReader { index, bloom, footer, data })
    }

    /// The entry of `key` in this table, which may be a tombstone, or `None`
    /// where the table does not hold the key.
    pub fn get(&self, key: &[u8]) -> (r: Result<Option<ValueEntry>, SstError>)
        requires
            self.wf(),
        ensures
            lookup_matches(r, self@.get(key@)),
    {
        match &self.bloom {
            Some(bf) => {
                if !bf.is_well_formed() {
                    return Err(SstError::CorruptBloom);
                }
                if !bf.may_contain(key) {
                    return Ok(None);
                }
            },
            None => {},
        }
        let (i, found) = locate(&self.index, key);
        if !found {
            return Ok(None);
        }
        proof {
            lemma_lookup_at(self.index_pairs(), i as int);
        }
        let offset: u64 = self.index[i].1;
        match read_entry(self.data.as_slice(), offset, key, self.footer.has_checksums()) {
            Ok(e) => Ok(Some(e)),
            Err(e) => Err(e),
        }
    }

    /// Whether the table has a bloom filter.
    pub fn has_bloom(&self) -> (r: bool)
        ensures
            r == (self@.bloom is Some),
    {
        self.bloom.is_some()
    }

    /// The largest sequence number in the table as its footer records it,
    /// which only v3 does.
    pub fn max_seq(&self) -> (r: Option<u64>)
        ensures
            r == self@.footer.spec_max_seq(),
    {
        self.footer.max_seq()
    }

    /// Whether the data records carry checksums.
    pub fn has_checksums(&self) -> (r: bool)
        ensures
            r == (self@.footer is V3),
    {
        self.footer.has_checksums()
    }

    /// The number of keys in the index.
    pub fn len(&self) -> (r: usize)
        ensures
            r == self.index_pairs().len(),
    {
        self.index.len()
    }

    /// Whether the index holds no key.
    pub fn is_empty(&self) -> (r: bool)
        ensures
            r == (self.index_pairs().len() == 0),
    {
        self.index.len() == 0
    }

    /// The `i`-th key of the index, in ascending order.
    pub fn key_at(&self, i: usize) -> (r: &[u8])
        requires
            i < self.index_pairs().len(),
        ensures
            r@ == self.index_pairs()[i as int].0,
    {
        self.index[i].0.as_slice()
    }

    /// All keys of the index, in ascending order.
    pub fn keys(&self) -> (r: Vec<Vec<u8>>)
        ensures
            r@.len() == self.index_pairs().len(),
            forall|i: int| 0 <= i < r@.len() ==> (#[trigger] r@[i])@ == self.index_pairs()[i].0,
    {
        let mut out: Vec<Vec<u8>> = Vec::with_capacity(self.index.len());
        let mut i: usize = 0;
        while i < self.index.len()
            invariant
                0 <= i <= self.index@.len(),
                out@.len() == i,
                forall|j: int| 0 <= j < i ==> (#[trigger] out@[j])@ == self.index_pairs()[j].0,
            decreases self.index@.len() - i,
        {
            out.push(copy_bytes(self.index[i].0.as_slice()));
            i += 1;
        }
        out
    }
}

/// A data record as it was parsed, before its checksum is looked at.
pub struct ParsedRecord {
    /// The entry that the record holds.
    pub entry: ValueEntry,
    /// Where the bytes that the checksum covers start.
    pub body: usize,
    /// Where they end.
    pub end: usize,
}

/// Whether a parsed record is the one that the model gives.
pub open spec fn record_matches(r: Result<ParsedRecord, SstError>, expect: Result<RecordView, SstError>) -> bool {
    match (r, expect) {
        (Ok(p), Ok(v)) => p.entry@ == v.entry && p.body == v.body && p.end == v.end,
        (Err(e), Err(f)) => e == f,
        _ => false,
    }
}

/// Parses the data record at `offset`, which must hold `key`. The checksum
/// that a record starts with where `checked` is set is not looked at.
pub fn parse_entry(data: &[u8], offset: u64, key: &[u8], checked: bool) -> (r: Result<
    ParsedRecord,
    SstError,
>)
    ensures
        record_matches(r, parse_record_at(data@, offset, key@, checked)),
        r is Ok ==> r->Ok_0.body <= r->Ok_0.end <= data@.len() && (checked ==> offset + 4
            == r->Ok_0.body),
{
    let len: usize = data.len();
    let prefix: usize = if checked {
        4
    } else {
        0
    };
    if offset > len as u64 || len - (offset as usize) < prefix + 4 {
        return Err(SstError::UnexpectedEof);
    }
    let start: usize = offset as usize;
    let body: usize = start + prefix;
    let key_len: u32 = read_u32_at(data, body);
    if key_len as usize > MAX_KEY_BYTES {
        return Err(SstError::CorruptData);
    }
    if len - body - 4 < key_len as usize {
        return Err(SstError::UnexpectedEof);
    }
    let p: usize = body + 4 + key_len as usize;
    if !same_bytes(slice_subrange(data, body + 4, p), key) {
        return Err(SstError::KeyMismatch);
    }
    if len - p < 9 {
        return Err(SstError::UnexpectedEof);
    }
    let seq: u64 = read_u64_at(data, p);
    let present: u8 = data[p + 8];
    if present == 1 {
        if len - p < 13 {
            return Err(SstError::UnexpectedEof);
        }
        let val_len: u32 = read_u32_at(data, p + 9);
        if val_len as usize > MAX_VALUE_BYTES {
            return Err(SstError::CorruptData);
        }
        if len - p - 13 < val_len as usize {
            return Err(SstError::UnexpectedEof);
        }
        let end: usize = p + 13 + val_len as usize;
        let value: Vec<u8> = copy_bytes(slice_subrange(data, p + 13, end));
        Ok(ParsedRecord { entry: ValueEntry { seq, value: Some(value) }, body, end })
    } else {
        Ok(ParsedRecord { entry: ValueEntry { seq, value: None }, body, end: p + 9 })
    }
}

/// The entry of a record whose header holds the checksum `stored` and whose
/// body has the checksum `actual`, or the error that the two differ.
pub fn verify_entry(entry: ValueEntry, stored: u32, actual: u32) -> (r: Result<ValueEntry, SstError>)
    ensures
        stored == actual ==> r == Ok::<ValueEntry, SstError>(entry),
        stored != actual ==> r == Err::<ValueEntry, SstError>(SstError::ChecksumMismatch),
{
    if actual != stored {
        Err(SstError::ChecksumMismatch)
    } else {
        Ok(entry)
    }
}

/// Reads the data record at `offset`, and checks it against its checksum
/// where it has one.
fn read_entry(data: &[u8], offset: u64, key: &[u8], checked: bool) -> (r: Result<
    ValueEntry,
    SstError,
>)
    ensures
        match read_record(data@, offset, key@, checked) {
            Ok(v) => r is Ok && r->Ok_0@ == v,
            Err(e) => r is Err && r->Err_0 == e,
        },
{
    let record: ParsedRecord = match parse_entry(data, offset, key, checked) {
        Err(e) => {
            return Err(e);
        },
        Ok(record) => record,
    };
    if checked {
        let stored: u32 = read_u32_at(data, offset as usize);
        let actual: u32 = checksum_range(data, record.body, record.end);
        verify_entry(record.entry, stored, actual)
    } else {
        Ok(record.entry)
    }
}

} // verus!
