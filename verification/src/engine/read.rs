//! The read path: point lookups and range scans.
//!
//! A lookup asks the memtable, then the tables of level 0 from the newest
//! on, then those of level 1; the first entry found decides, and a tombstone
//! means that the key is absent. A scan merges all of them by sequence
//! number.

use crate::bytes::{copy_bytes, lex_lt, Rank, rank};
use crate::engine::{Engine, EngineError, EngineView, tables_wf};
use crate::memtable::{EntryView, Memtable, Pair, pair_views, ValueEntry};
use crate::ordered::{as_map, ascending};
use crate::sstable::format::SstError;
use crate::sstable::reader::SSTableReader;
use vstd::prelude::*;

verus! {

/// The entry of `key` in the first table from `from` on that holds the key,
/// or the error of the first read that fails before one is found.
pub open spec fn first_hit(tables: Seq<SSTableReader>, key: Seq<u8>, from: int) -> Result<
    Option<EntryView>,
    SstError,
>
    decreases tables.len() - from,
{
    if from < 0 || from >= tables.len() {
        Ok(None)
    } else {
        match tables[from]@.get(key) {
            Err(e) => Err(e),
            Ok(Some(e)) => Ok(Some(e)),
            Ok(None) => first_hit(tables, key, from + 1),
        }
    }
}

/// The sequence number and value of a live entry; nothing for a tombstone.
pub open spec fn live(e: EntryView) -> Option<(u64, Seq<u8>)> {
    match e.value {
        Some(v) => Some((e.seq, v)),
        None => None,
    }
}

/// Whether `key` lies in the half-open range from `start` to `end`. An
/// empty bound is no bound.
pub open spec fn in_range(key: Seq<u8>, start: Seq<u8>, end: Seq<u8>) -> bool {
    (start.len() == 0 || !lex_lt(key, start)) && (end.len() == 0 || lex_lt(key, end))
}

/// The mapping with `e` taken in for `key`, unless it holds an entry for the
/// key whose sequence number is at least that of `e`.
pub open spec fn absorb(acc: Map<Seq<u8>, EntryView>, key: Seq<u8>, e: EntryView) -> Map<
    Seq<u8>,
    EntryView,
> {
    if acc.contains_key(key) && acc[key].seq >= e.seq {
        acc
    } else {
        acc.insert(key, e)
    }
}

/// The mapping with the pairs that lie in the range taken in, in order.
pub open spec fn absorb_pairs(
    acc: Map<Seq<u8>, EntryView>,
    pairs: Seq<Pair>,
    start: Seq<u8>,
    end: Seq<u8>,
) -> Map<Seq<u8>, EntryView>
    decreases pairs.len(),
{
    if pairs.len() == 0 {
        acc
    } else {
        let before = absorb_pairs(acc, pairs.drop_last(), start, end);
        if in_range(pairs.last().0, start, end) {
            absorb(before, pairs.last().0, pairs.last().1)
        } else {
            before
        }
    }
}

/// The mapping with the entries of the first `n` keys of a table taken in,
/// as far as the keys lie in the range, or the error of the first read that
/// fails. A key that the table does not return is passed over.
pub open spec fn absorb_table(
    acc: Map<Seq<u8>, EntryView>,
    table: SSTableReader,
    n: int,
    start: Seq<u8>,
    end: Seq<u8>,
) -> Result<Map<Seq<u8>, EntryView>, SstError>
    decreases n,
{
    if n <= 0 {
        Ok(acc)
    } else {
        match absorb_table(acc, table, n - 1, start, end) {
            Err(e) => Err(e),
            Ok(before) => {
                let key = table.index_pairs()[n - 1].0;
                if !in_range(key, start, end) {
                    Ok(before)
                } else {
                    match table@.get(key) {
                        Err(e) => Err(e),
                        Ok(None) => Ok(before),
                        Ok(Some(e)) => Ok(absorb(before, key, e)),
                    }
                }
            },
        }
    }
}

/// The mapping with the first `n` tables taken in, one after the other.
pub open spec fn absorb_tables(
    acc: Map<Seq<u8>, EntryView>,
    tables: Seq<SSTableReader>,
    n: int,
    start: Seq<u8>,
    end: Seq<u8>,
) -> Result<Map<Seq<u8>, EntryView>, SstError>
    decreases n,
{
    if n <= 0 {
        Ok(acc)
    } else {
        match absorb_tables(acc, tables, n - 1, start, end) {
            Err(e) => Err(e),
            Ok(before) => absorb_table(
                before,
                tables[n - 1],
                tables[n - 1].index_pairs().len() as int,
                start,
                end,
            ),
        }
    }
}

/// The keys with their values of the pairs that are live, in order.
pub open spec fn live_pairs(pairs: Seq<Pair>) -> Seq<(Seq<u8>, Seq<u8>)>
    decreases pairs.len(),
{
    if pairs.len() == 0 {
        Seq::empty()
    } else {
        match pairs.last().1.value {
            Some(v) => live_pairs(pairs.drop_last()).push((pairs.last().0, v)),
            None => live_pairs(pairs.drop_last()),
        }
    }
}

/// The views of a vector of keys with their values.
pub open spec fn kv_views(v: Seq<(Vec<u8>, Vec<u8>)>) -> Seq<(Seq<u8>, Seq<u8>)> {
    Seq::new(v.len(), |i: int| (v[i].0@, v[i].1@))
}

impl EngineView {
    /// The point lookup.
    pub open spec fn get(self, key: Seq<u8>) -> Result<Option<(u64, Seq<u8>)>, SstError> {
        if self.mem_map().contains_key(key) {
            Ok(live(self.mem_map()[key]))
        } else {
            match first_hit(self.l0, key, 0) {
                Err(e) => Err(e),
                Ok(Some(e)) => Ok(live(e)),
                Ok(None) => match first_hit(self.l1, key, 0) {
                    Err(e) => Err(e),
                    Ok(Some(e)) => Ok(live(e)),
                    Ok(None) => Ok(None),
                },
            }
        }
    }

    /// For every key in the range its entry of the highest sequence number
    /// among the memtable and all tables, or the error of the first read
    /// that fails.
    pub open spec fn scan_map(self, start: Seq<u8>, end: Seq<u8>) -> Result<
        Map<Seq<u8>, EntryView>,
        SstError,
    > {
        match absorb_tables(
            absorb_pairs(Map::empty(), self.mem_pairs, start, end),
            self.l0,
            self.l0.len() as int,
            start,
            end,
        ) {
            Err(e) => Err(e),
            Ok(m) => absorb_tables(m, self.l1, self.l1.len() as int, start, end),
        }
    }
}

/// Whether the result of a lookup is the one that the model gives.
pub open spec fn get_matches(
    r: Result<Option<(u64, Vec<u8>)>, EngineError>,
    expect: Result<Option<(u64, Seq<u8>)>, SstError>,
) -> bool {
    match (r, expect) {
        (Ok(Some(p)), Ok(Some(q))) => p.0 == q.0 && p.1@ == q.1,
        (Ok(None), Ok(None)) => true,
        (Err(e), Err(f)) => e == EngineError::Sst(f),
        _ => false,
    }
}

/// Whether the result of a scan is the one that the model gives:
/// the live entries of the mapping, in ascending key order.
pub open spec fn scan_matches(
    r: Result<Vec<(Vec<u8>, Vec<u8>)>, EngineError>,
    expect: Result<Map<Seq<u8>, EntryView>, SstError>,
) -> bool {
    match (r, expect) {
        (Ok(v), Ok(m)) => exists|p: Seq<Pair>|
            ascending(p) && as_map(p) == m && kv_views(v@) == #[trigger] live_pairs(p),
        (Err(e), Err(f)) => e == EngineError::Sst(f),
        _ => false,
    }
}

/// Whether `key` lies in the range.
fn within(key: &[u8], start: &[u8], end: &[u8]) -> (r: bool)
    ensures
        r == in_range(key@, start@, end@),
{
    if start.len() != 0 {
        match rank(key, start) {
            Rank::Below => {
                return false;
            },
            _ => {},
        }
    }
    if end.len() != 0 {
        match rank(key, end) {
            Rank::Below => {},
            _ => {
                return false;
            },
        }
    }
    true
}

/// Asks the tables from the first on until one holds the key.
fn probe(tables: &Vec<SSTableReader>, key: &[u8]) -> (r: Result<Option<ValueEntry>, SstError>)
    requires
        tables_wf(tables@),
    ensures
        crate::sstable::reader::lookup_matches(r, first_hit(tables@, key@, 0)),
{
    let mut i: usize = 0;
    while i < tables.len()
        invariant
            0 <= i <= tables@.len(),
            tables_wf(tables@),
            first_hit(tables@, key@, 0) == first_hit(tables@, key@, i as int),
        decreases tables@.len() - i,
    {
        match tables[i].get(key) {
            Err(e) => {
                return Err(e);
            },
            Ok(Some(e)) => {
                return Ok(Some(e));
            },
            Ok(None) => {},
        }
        i += 1;
    }
    Ok(None)
}

/// Takes the entries of a table that lie in the range into `merged`.
fn absorb_reader(merged: &mut Memtable, table: &SSTableReader, start: &[u8], end: &[u8]) -> (r:
    Result<(), SstError>)
    requires
        old(merged).wf(),
        table.wf(),
    ensures
        final(merged).wf(),
        match absorb_table(
            old(merged)@.map,
            *table,
            table.index_pairs().len() as int,
            start@,
            end@,
        ) {
            Ok(m) => r is Ok && final(merged)@.map == m,
            Err(e) => r == Err::<(), SstError>(e),
        },
{
    let n: usize = table.len();
    let mut i: usize = 0;
    while i < n
        invariant
            0 <= i <= n,
            n == table.index_pairs().len(),
            merged.wf(),
            table.wf(),
            absorb_table(old(merged)@.map, *table, i as int, start@, end@) == Ok::<
                Map<Seq<u8>, EntryView>,
                SstError,
            >(merged@.map),
        decreases n - i,
    {
        let key: &[u8] = table.key_at(i);
        if within(key, start, end) {
            match table.get(key) {
                Err(e) => {
                    proof {
                        lemma_absorb_table_fails(
                            old(merged)@.map,
                            *table,
                            i + 1,
                            n as int,
                            start@,
                            end@,
                        );
                    }
                    return Err(e);
                },
                Ok(None) => {},
                Ok(Some(entry)) => {
                    merged.install(copy_bytes(key), entry);
                },
            }
        }
        i += 1;
    }
    Ok(())
}

/// Takes the entries of all tables that lie in the range into `merged`.
fn absorb_readers(
    merged: &mut Memtable,
    tables: &Vec<SSTableReader>,
    start: &[u8],
    end: &[u8],
) -> (r: Result<(), SstError>)
    requires
        old(merged).wf(),
        tables_wf(tables@),
    ensures
        final(merged).wf(),
        match absorb_tables(old(merged)@.map, tables@, tables@.len() as int, start@, end@) {
            Ok(m) => r is Ok && final(merged)@.map == m,
            Err(e) => r == Err::<(), SstError>(e),
        },
{
    let n: usize = tables.len();
    let mut i: usize = 0;
    while i < n
        invariant
            0 <= i <= n,
            n == tables@.len(),
            merged.wf(),
            tables_wf(tables@),
            absorb_tables(old(merged)@.map, tables@, i as int, start@, end@) == Ok::<
                Map<Seq<u8>, EntryView>,
                SstError,
            >(merged@.map),
        decreases n - i,
    {
        match absorb_reader(merged, &tables[i], start, end) {
            Err(e) => {
                proof {
                    lemma_absorb_tables_fails(
                        old(merged)@.map,
                        tables@,
                        i + 1,
                        n as int,
                        start@,
                        end@,
                    );
                }
                return Err(e);
            },
            Ok(()) => {},
        }
        i += 1;
    }
    Ok(())
}

/// Once a read has failed, taking in more keys gives the same error.
pub proof fn lemma_absorb_table_fails(
    acc: Map<Seq<u8>, EntryView>,
    table: SSTableReader,
    k: int,
    n: int,
    start: Seq<u8>,
    end: Seq<u8>,
)
    requires
        0 <= k <= n,
        absorb_table(acc, table, k, start, end) is Err,
    ensures
        absorb_table(acc, table, n, start, end) == absorb_table(acc, table, k, start, end),
    decreases n - k,
{
    if k < n {
        lemma_absorb_table_fails(acc, table, k, n - 1, start, end);
    }
}

/// Once a table has failed, taking in more tables gives the same error.
pub proof fn lemma_absorb_tables_fails(
    acc: Map<Seq<u8>, EntryView>,
    tables: Seq<SSTableReader>,
    k: int,
    n: int,
    start: Seq<u8>,
    end: Seq<u8>,
)
    requires
        0 <= k <= n,
        absorb_tables(acc, tables, k, start, end) is Err,
    ensures
        absorb_tables(acc, tables, n, start, end) == absorb_tables(acc, tables, k, start, end),
    decreases n - k,
{
    if k < n {
        lemma_absorb_tables_fails(acc, tables, k, n - 1, start, end);
    }
}

impl Engine {
    /// The sequence number and value of `key`, or `None` where the key is
    /// absent or deleted. A read that fails is an error.
    pub fn get(&self, key: &[u8]) -> (r: Result<Option<(u64, Vec<u8>)>, EngineError>)
        requires
            self.wf(),
        ensures
            get_matches(r, self@.get(key@)),
    {
        match self.mem.get_entry(key) {
            Some(entry) => {
                return Ok(
                    match &entry.value {
                        Some(v) => Some((entry.seq, copy_bytes(v.as_slice()))),
                        None => None,
                    },
                );
            },
            None => {},
        }
        match probe(&self.l0_sstables, key) {
            Err(e) => {
                return Err(EngineError::Sst(e));
            },
            Ok(Some(entry)) => {
                return Ok(
                    match entry.value {
                        Some(v) => Some((entry.seq, v)),
                        None => None,
                    },
                );
            },
            Ok(None) => {},
        }
        match probe(&self.l1_sstables, key) {
            Err(e) => Err(EngineError::Sst(e)),
            Ok(Some(entry)) => Ok(
                match entry.value {
                    Some(v) => Some((entry.seq, v)),
                    None => None,
                },
            ),
            Ok(None) => Ok(None),
        }
    }

    /// The live keys with their values in the half-open range from `start`
    /// to `end`, in ascending key order. An empty `start` means from the
    /// first key, an empty `end` to the last. Of several entries for a key
    /// the one with the highest sequence number counts, and a key whose
    /// entry is a tombstone is left out. A read that fails is an error.
    #[verifier::rlimit(50)]
    pub fn scan(&self, start: &[u8], end: &[u8]) -> (r: Result<Vec<(Vec<u8>, Vec<u8>)>, EngineError>)
        requires
            self.wf(),
        ensures
            scan_matches(r, self@.scan_map(start@, end@)),
    {
        let mut merged: Memtable = Memtable::new();
        let entries: &[(Vec<u8>, ValueEntry)] = self.mem.iter();
        let ghost pairs = self.mem.pairs();
        let mut i: usize = 0;
        assert(pairs.take(0) =~= Seq::<Pair>::empty());
        while i < entries.len()
            invariant
                0 <= i <= entries@.len(),
                pair_views(entries@) == pairs,
                merged.wf(),
                merged@.map == absorb_pairs(Map::empty(), pairs.take(i as int), start@, end@),
            decreases entries@.len() - i,
        {
            let key: &Vec<u8> = &entries[i].0;
            let entry: &ValueEntry = &entries[i].1;
            proof {
                assert(pairs.take(i + 1).drop_last() =~= pairs.take(i as int));
                assert(pairs.take(i + 1).last() == (key@, entry@));
            }
            if within(key.as_slice(), start, end) {
                merged.install(copy_bytes(key.as_slice()), entry.clone());
            }
            i += 1;
        }
        assert(pairs.take(i as int) =~= pairs);
        match absorb_readers(&mut merged, &self.l0_sstables, start, end) {
            Err(e) => {
                return Err(EngineError::Sst(e));
            },
            Ok(()) => {},
        }
        match absorb_readers(&mut merged, &self.l1_sstables, start, end) {
            Err(e) => {
                return Err(EngineError::Sst(e));
            },
            Ok(()) => {},
        }
        let all: &[(Vec<u8>, ValueEntry)] = merged.iter();
        let ghost found = merged.pairs();
        let mut out: Vec<(Vec<u8>, Vec<u8>)> = Vec::new();
        let mut j: usize = 0;
        assert(found.take(0) =~= Seq::<Pair>::empty());
        assert(kv_views(out@) =~= live_pairs(found.take(0)));
        while j < all.len()
            invariant
                0 <= j <= all@.len(),
                pair_views(all@) == found,
                kv_views(out@) == live_pairs(found.take(j as int)),
            decreases all@.len() - j,
        {
            let key: &Vec<u8> = &all[j].0;
            let entry: &ValueEntry = &all[j].1;
            proof {
                assert(found.take(j + 1).drop_last() =~= found.take(j as int));
                assert(found.take(j + 1).last() == (key@, entry@));
            }
            match &entry.value {
                Some(v) => {
                    let ghost before = kv_views(out@);
                    out.push((copy_bytes(key.as_slice()), copy_bytes(v.as_slice())));
                    assert(kv_views(out@) =~= before.push((key@, v@)));
                },
                None => {},
            }
            j += 1;
        }
        assert(found.take(j as int) =~= found);
        Ok(out)
    }
}

/// Every key of the mapping lies in the range.
pub open spec fn keys_in_range(m: Map<Seq<u8>, EntryView>, start: Seq<u8>, end: Seq<u8>) -> bool {
    forall|k: Seq<u8>| m.contains_key(k) ==> in_range(k, start, end)
}

/// Taking pairs in keeps the keys in the range.
pub proof fn lemma_absorb_pairs_range(
    acc: Map<Seq<u8>, EntryView>,
    pairs: Seq<Pair>,
    start: Seq<u8>,
    end: Seq<u8>,
)
    requires
        keys_in_range(acc, start, end),
    ensures
        keys_in_range(absorb_pairs(acc, pairs, start, end), start, end),
    decreases pairs.len(),
{
    if pairs.len() > 0 {
        lemma_absorb_pairs_range(acc, pairs.drop_last(), start, end);
    }
}

/// Taking the keys of a table in keeps the keys in the range.
pub proof fn lemma_absorb_table_range(
    acc: Map<Seq<u8>, EntryView>,
    table: SSTableReader,
    n: int,
    start: Seq<u8>,
    end: Seq<u8>,
)
    requires
        keys_in_range(acc, start, end),
    ensures
        absorb_table(acc, table, n, start, end) is Ok ==> keys_in_range(
            absorb_table(acc, table, n, start, end)->Ok_0,
            start,
            end,
        ),
    decreases n,
{
    if n > 0 {
        lemma_absorb_table_range(acc, table, n - 1, start, end);
    }
}

/// Taking tables in keeps the keys in the range.
pub proof fn lemma_absorb_tables_range(
    acc: Map<Seq<u8>, EntryView>,
    tables: Seq<SSTableReader>,
    n: int,
    start: Seq<u8>,
    end: Seq<u8>,
)
    requires
        keys_in_range(acc, start, end),
    ensures
        absorb_tables(acc, tables, n, start, end) is Ok ==> keys_in_range(
            absorb_tables(acc, tables, n, start, end)->Ok_0,
            start,
            end,
        ),
    decreases n,
{
    if n > 0 {
        lemma_absorb_tables_range(acc, tables, n - 1, start, end);
        let before = absorb_tables(acc, tables, n - 1, start, end);
        if before is Ok {
            lemma_absorb_table_range(
                before->Ok_0,
                tables[n - 1],
                tables[n - 1].index_pairs().len() as int,
                start,
                end,
            );
        }
    }
}

/// The live pairs of an ascending sequence are its pairs with a value, in
/// their order: each comes from a pair at a position that grows with its
/// own.
pub proof fn lemma_live_pairs(pairs: Seq<Pair>)
    ensures
        live_pairs(pairs).len() <= pairs.len(),
        forall|i: int|
            0 <= i < live_pairs(pairs).len() ==> exists|j: int|
                i <= j < pairs.len() && pairs[j].0 == (#[trigger] live_pairs(pairs)[i]).0
                    && pairs[j].1.value == Some(live_pairs(pairs)[i].1),
        forall|j: int|
            0 <= j < pairs.len() && (#[trigger] pairs[j]).1.value is Some ==> exists|i: int|
                0 <= i < live_pairs(pairs).len() && live_pairs(pairs)[i] == (
                    pairs[j].0,
                    pairs[j].1.value->Some_0,
                ),
    decreases pairs.len(),
{
    if pairs.len() > 0 {
        let init = pairs.drop_last();
        lemma_live_pairs(init);
        let out = live_pairs(pairs);
        let last = pairs.len() - 1;
        assert forall|i: int| 0 <= i < out.len() implies exists|j: int|
            i <= j < pairs.len() && pairs[j].0 == (#[trigger] out[i]).0 && pairs[j].1.value == Some(
                out[i].1,
            ) by {
            if i < live_pairs(init).len() {
                assert(out[i] == live_pairs(init)[i]);
                let j = choose|j: int|
                    i <= j < init.len() && init[j].0 == live_pairs(init)[i].0 && init[j].1.value
                        == Some(live_pairs(init)[i].1);
                assert(pairs[j] == init[j]);
            } else {
                assert(pairs[last].0 == out[i].0);
            }
        }
        assert forall|j: int| 0 <= j < pairs.len() && (#[trigger] pairs[j]).1.value is Some implies exists|
            i: int,
        |
            0 <= i < out.len() && out[i] == (pairs[j].0, pairs[j].1.value->Some_0) by {
            if j < last {
                assert(init[j] == pairs[j]);
                let i = choose|i: int|
                    0 <= i < live_pairs(init).len() && live_pairs(init)[i] == (
                        init[j].0,
                        init[j].1.value->Some_0,
                    );
                assert(out[i] == live_pairs(init)[i]);
            } else {
                assert(out[out.len() - 1] == (pairs[j].0, pairs[j].1.value->Some_0));
            }
        }
    }
}

/// The live pairs of an ascending sequence ascend.
pub proof fn lemma_live_pairs_ascend(pairs: Seq<Pair>)
    requires
        ascending(pairs),
    ensures
        ascending(live_pairs(pairs)),
    decreases pairs.len(),
{
    let out = live_pairs(pairs);
    if pairs.len() > 0 {
        let init = pairs.drop_last();
        assert forall|a: int, b: int| #![trigger init[a], init[b]] 0 <= a < b < init.len() implies lex_lt(
            init[a].0,
            init[b].0,
        ) by {
            assert(lex_lt(pairs[a].0, pairs[b].0));
        }
        lemma_live_pairs_ascend(init);
        lemma_live_pairs(init);
        let before = live_pairs(init);
        assert forall|a: int, b: int| #![trigger out[a], out[b]] 0 <= a < b < out.len() implies lex_lt(
            out[a].0,
            out[b].0,
        ) by {
            if b < before.len() {
                assert(lex_lt(before[a].0, before[b].0));
            } else {
                let j = choose|j: int|
                    a <= j < init.len() && init[j].0 == before[a].0 && init[j].1.value == Some(
                        before[a].1,
                    );
                assert(lex_lt(pairs[j].0, pairs[pairs.len() - 1].0));
            }
        }
    }
}

/// Scan ordering and range: what a scan returns ascends strictly by key,
/// every key of it lies in the range, and it holds exactly the keys whose
/// entry of the highest sequence number is live, each with the value of
/// that entry; so no deleted key appears.
#[verifier::rlimit(50)]
pub proof fn lemma_scan_ordered_in_range(
    e: EngineView,
    start: Seq<u8>,
    end: Seq<u8>,
    result: Seq<(Seq<u8>, Seq<u8>)>,
)
    requires
        e.scan_map(start, end) is Ok,
        exists|p: Seq<Pair>|
            ascending(p) && as_map(p) == e.scan_map(start, end)->Ok_0 && result == #[trigger] live_pairs(p),
    ensures
        ascending(result),
        forall|i: int| 0 <= i < result.len() ==> in_range((#[trigger] result[i]).0, start, end),
        forall|i: int|
            0 <= i < result.len() ==> e.scan_map(start, end)->Ok_0.contains_key(
                (#[trigger] result[i]).0,
            ) && e.scan_map(start, end)->Ok_0[result[i].0].value == Some(result[i].1),
        forall|k: Seq<u8>|
            e.scan_map(start, end)->Ok_0.contains_key(k) && e.scan_map(start, end)->Ok_0[k].value
                is Some ==> exists|i: int|
                0 <= i < result.len() && #[trigger] result[i] == (
                    k,
                    e.scan_map(start, end)->Ok_0[k].value->Some_0,
                ),
{
    let m = e.scan_map(start, end)->Ok_0;
    let p = choose|p: Seq<Pair>|
        ascending(p) && as_map(p) == m && result == #[trigger] live_pairs(p);
    lemma_live_pairs(p);
    lemma_live_pairs_ascend(p);
    // Every key of the mapping lies in the range.
    assert(keys_in_range(Map::<Seq<u8>, EntryView>::empty(), start, end));
    lemma_absorb_pairs_range(Map::empty(), e.mem_pairs, start, end);
    let first = absorb_pairs(Map::empty(), e.mem_pairs, start, end);
    lemma_absorb_tables_range(first, e.l0, e.l0.len() as int, start, end);
    let second = absorb_tables(first, e.l0, e.l0.len() as int, start, end);
    lemma_absorb_tables_range(second->Ok_0, e.l1, e.l1.len() as int, start, end);
    assert forall|i: int| 0 <= i < result.len() implies in_range(
        (#[trigger] result[i]).0,
        start,
        end,
    ) && m.contains_key(result[i].0) && m[result[i].0].value == Some(result[i].1) by {
        let j = choose|j: int|
            i <= j < p.len() && p[j].0 == result[i].0 && p[j].1.value == Some(result[i].1);
        crate::ordered::lemma_lookup_at(p, j);
    }
    assert forall|k: Seq<u8>| m.contains_key(k) && m[k].value is Some implies exists|i: int|
        0 <= i < result.len() && #[trigger] result[i] == (k, m[k].value->Some_0) by {
        let j = crate::ordered::index_of(p, k);
        crate::ordered::lemma_lookup_at(p, j);
        assert(p[j].1.value is Some);
    }
}

} // verus!
