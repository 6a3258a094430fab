//! What a scan returns: in a state that meets the invariant, the keys of
//! the range whose newest entry is live, each with the value of that entry.

use crate::bytes::{lemma_lex_irreflexive, lex_lt};
use crate::engine::EngineView;
use crate::engine::laws::{lemma_best_is_first, lemma_first_hit};
use crate::engine::read::{absorb_pairs, absorb_table, absorb_tables, first_hit, in_range};
use crate::memtable::{EntryView, Pair};
use crate::ordered::{ascending, has_key, index_of, lemma_lookup_at, lemma_lookup_last, lookup};
use crate::sstable::format::SstError;
use crate::sstable::merge_laws::{all_sound, best_among, entry_of, lemma_best_among, sound};
use crate::sstable::reader::SSTableReader;
use vstd::prelude::*;

verus! {

/// The entry of `key` in the first of the first `n` tables that holds it.
pub open spec fn first_of(tables: Seq<SSTableReader>, key: Seq<u8>, n: int) -> Option<EntryView>
    decreases n,
{
    if n <= 0 {
        None
    } else {
        match first_of(tables, key, n - 1) {
            Some(e) => Some(e),
            None => entry_of(tables[n - 1], key),
        }
    }
}

/// Whether the mapping holds, for every key that it shares with the table,
/// an entry whose sequence number is no lower than the table's.
pub open spec fn dominates(acc: Map<Seq<u8>, EntryView>, table: SSTableReader) -> bool {
    forall|k: Seq<u8>|
        acc.contains_key(k) && (#[trigger] entry_of(table, k)) is Some ==> acc[k].seq >= entry_of(
            table,
            k,
        )->Some_0.seq
}

/// Taking in ascending pairs gives the pairs of the range.
pub proof fn lemma_absorb_pairs(pairs: Seq<Pair>, start: Seq<u8>, end: Seq<u8>, k: Seq<u8>)
    requires
        ascending(pairs),
    ensures
        absorb_pairs(Map::empty(), pairs, start, end).contains_key(k) <==> in_range(k, start, end)
            && has_key(pairs, k),
        absorb_pairs(Map::empty(), pairs, start, end).contains_key(k) ==> Some(
            absorb_pairs(Map::empty(), pairs, start, end)[k],
        ) == lookup(pairs, k),
    decreases pairs.len(),
{
    if pairs.len() > 0 {
        lemma_lookup_last(pairs, k);
        lemma_absorb_pairs(pairs.drop_last(), start, end, k);
        lemma_absorb_pairs(pairs.drop_last(), start, end, pairs.last().0);
        if has_key(pairs, k) {
            let i = index_of(pairs, k);
            if i < pairs.len() - 1 {
                assert(pairs.drop_last()[i].0 == k);
            }
        }
        if has_key(pairs.drop_last(), k) {
            let i = index_of(pairs.drop_last(), k);
            assert(pairs[i].0 == k);
        }
        assert(pairs[pairs.len() - 1].0 == pairs.last().0);
    }
}

/// Taking in the first `n` keys of a sound table that the mapping dominates
/// adds the entries of those keys of the range that the mapping does not
/// hold, and changes no entry.
pub proof fn lemma_absorb_table(
    acc: Map<Seq<u8>, EntryView>,
    table: SSTableReader,
    n: int,
    start: Seq<u8>,
    end: Seq<u8>,
    k: Seq<u8>,
)
    requires
        sound(table),
        dominates(acc, table),
        0 <= n <= table.index_pairs().len(),
    ensures
        absorb_table(acc, table, n, start, end) is Ok,
        absorb_table(acc, table, n, start, end)->Ok_0.contains_key(k) <==> acc.contains_key(k) || (
        in_range(k, start, end) && has_key(table.index_pairs().take(n), k)),
        absorb_table(acc, table, n, start, end)->Ok_0.contains_key(k) ==> absorb_table(
            acc,
            table,
            n,
            start,
            end,
        )->Ok_0[k] == (if acc.contains_key(k) {
            acc[k]
        } else {
            entry_of(table, k)->Some_0
        }),
    decreases n,
{
    let idx = table.index_pairs();
    if n > 0 {
        let key = idx[n - 1].0;
        lemma_absorb_table(acc, table, n - 1, start, end, k);
        lemma_absorb_table(acc, table, n - 1, start, end, key);
        let before = absorb_table(acc, table, n - 1, start, end)->Ok_0;
        assert(has_key(idx, key)) by {
            assert(idx[n - 1].0 == key);
        }
        assert(table@.get(key) is Ok && table@.get(key)->Ok_0 is Some);
        // The key is new among the keys of the table.
        assert(!has_key(idx.take(n - 1), key)) by {
            if has_key(idx.take(n - 1), key) {
                let j = index_of(idx.take(n - 1), key);
                assert(lex_lt(idx[j].0, idx[n - 1].0));
                lemma_lex_irreflexive(key);
            }
        }
        if has_key(idx.take(n), k) {
            let j = index_of(idx.take(n), k);
            if j < n - 1 {
                assert(idx.take(n - 1)[j].0 == k);
            }
        }
        if has_key(idx.take(n - 1), k) {
            let j = index_of(idx.take(n - 1), k);
            assert(idx.take(n)[j].0 == k);
        }
        assert(idx.take(n)[n - 1].0 == key);
    } else {
        assert(!has_key(idx.take(0), k));
    }
}

/// Taking in the first `n` of sound tables, each of which is dominated by
/// the mapping and by the tables before it, adds for each key of the range
/// that the mapping does not hold the entry of the first table that holds
/// it, and changes no entry.
pub proof fn lemma_absorb_tables(
    acc: Map<Seq<u8>, EntryView>,
    tables: Seq<SSTableReader>,
    n: int,
    start: Seq<u8>,
    end: Seq<u8>,
)
    requires
        all_sound(tables),
        0 <= n <= tables.len(),
        forall|j: int| 0 <= j < tables.len() ==> dominates(acc, #[trigger] tables[j]),
        forall|key: Seq<u8>, i: int, j: int|
            0 <= i < j < tables.len() && (#[trigger] entry_of(tables[i], key)) is Some && (
            #[trigger] entry_of(tables[j], key)) is Some ==> entry_of(tables[i], key)->Some_0.seq
                > entry_of(tables[j], key)->Some_0.seq,
    ensures
        absorb_tables(acc, tables, n, start, end) is Ok,
        forall|k: Seq<u8>|
            #[trigger] absorb_tables(acc, tables, n, start, end)->Ok_0.contains_key(k)
                <==> acc.contains_key(k) || (in_range(k, start, end) && first_of(tables, k, n)
                is Some),
        forall|k: Seq<u8>|
            absorb_tables(acc, tables, n, start, end)->Ok_0.contains_key(k) ==> #[trigger] absorb_tables(
                acc,
                tables,
                n,
                start,
                end,
            )->Ok_0[k] == (if acc.contains_key(k) {
                acc[k]
            } else {
                first_of(tables, k, n)->Some_0
            }),
    decreases n,
{
    if n > 0 {
        lemma_absorb_tables(acc, tables, n - 1, start, end);
        let before = absorb_tables(acc, tables, n - 1, start, end)->Ok_0;
        let t = tables[n - 1];
        let len = t.index_pairs().len() as int;
        assert(sound(t));
        assert(dominates(before, t)) by {
            assert forall|k: Seq<u8>|
                before.contains_key(k) && (#[trigger] entry_of(t, k)) is Some implies before[k].seq
                >= entry_of(t, k)->Some_0.seq by {
                if !acc.contains_key(k) {
                    lemma_first_of(tables, k, n - 1);
                    let i = choose|i: int|
                        0 <= i < n - 1 && #[trigger] entry_of(tables[i], k) == first_of(
                            tables,
                            k,
                            n - 1,
                        );
                    assert(entry_of(tables[i], k)->Some_0.seq > entry_of(tables[n - 1], k)->Some_0.seq);
                }
            }
        }
        assert(t.index_pairs().take(len) =~= t.index_pairs());
        let after = absorb_tables(acc, tables, n, start, end);
        assert forall|k: Seq<u8>|
            (#[trigger] after->Ok_0.contains_key(k) <==> acc.contains_key(k) || (in_range(
                k,
                start,
                end,
            ) && first_of(tables, k, n) is Some)) && after is Ok && (after->Ok_0.contains_key(k)
                ==> after->Ok_0[k] == (if acc.contains_key(k) {
                acc[k]
            } else {
                first_of(tables, k, n)->Some_0
            })) by {
            lemma_absorb_table(before, t, len, start, end, k);
            assert(t@.get(k) is Ok);
        }
        lemma_absorb_table(before, t, len, start, end, Seq::empty());
    }
}

/// The first of the first `n` tables that holds a key is one of them, and
/// no table before it holds the key.
pub proof fn lemma_first_of(tables: Seq<SSTableReader>, key: Seq<u8>, n: int)
    requires
        0 <= n <= tables.len(),
    ensures
        first_of(tables, key, n) is Some ==> exists|i: int|
            0 <= i < n && #[trigger] entry_of(tables[i], key) == first_of(tables, key, n)
                && forall|j: int| 0 <= j < i ==> (#[trigger] entry_of(tables[j], key)) is None,
        first_of(tables, key, n) is None ==> forall|j: int|
            0 <= j < n ==> (#[trigger] entry_of(tables[j], key)) is None,
    decreases n,
{
    if n > 0 {
        lemma_first_of(tables, key, n - 1);
        if first_of(tables, key, n) is Some {
            if first_of(tables, key, n - 1) is Some {
                let i = choose|i: int|
                    0 <= i < n - 1 && #[trigger] entry_of(tables[i], key) == first_of(
                        tables,
                        key,
                        n - 1,
                    ) && forall|j: int| 0 <= j < i ==> (#[trigger] entry_of(tables[j], key)) is None;
                assert(0 <= i < n && entry_of(tables[i], key) == first_of(tables, key, n)
                    && forall|j: int| 0 <= j < i ==> (#[trigger] entry_of(tables[j], key)) is None);
            } else {
                assert(entry_of(tables[n - 1], key) == first_of(tables, key, n));
            }
        }
    }
}

/// The first table that holds a key, among all tables, is the one that a
/// read finds.
pub proof fn lemma_first_of_is_hit(tables: Seq<SSTableReader>, key: Seq<u8>)
    requires
        all_sound(tables),
    ensures
        first_hit(tables, key, 0) == Ok::<Option<EntryView>, SstError>(
            first_of(tables, key, tables.len() as int),
        ),
{
    lemma_first_hit(tables, key, 0);
    lemma_first_of(tables, key, tables.len() as int);
    let hit = first_hit(tables, key, 0)->Ok_0;
    let first = first_of(tables, key, tables.len() as int);
    if hit is Some {
        let i = choose|i: int|
            0 <= i < tables.len() && #[trigger] entry_of(tables[i], key) == hit && forall|j: int|
                0 <= j < i ==> (#[trigger] entry_of(tables[j], key)) is None;
        assert(first is Some);
        let f = choose|f: int|
            0 <= f < tables.len() && #[trigger] entry_of(tables[f], key) == first && forall|j: int|
                0 <= j < f ==> (#[trigger] entry_of(tables[j], key)) is None;
        if f < i {
            assert(entry_of(tables[f], key) is None);
        } else if i < f {
            assert(entry_of(tables[i], key) is None);
        }
    } else if first is Some {
        let f = choose|f: int|
            0 <= f < tables.len() && #[trigger] entry_of(tables[f], key) == first;
        assert(entry_of(tables[f], key) is None);
    }
}

/// The first of the tables of both levels that holds a key.
pub proof fn lemma_first_of_levels(l0: Seq<SSTableReader>, l1: Seq<SSTableReader>, key: Seq<u8>, n: int)
    requires
        0 <= n <= l1.len(),
    ensures
        first_of(l0 + l1, key, l0.len() + n) == (match first_of(l0, key, l0.len() as int) {
            Some(e) => Some(e),
            None => first_of(l1, key, n),
        }),
    decreases n,
{
    let all = l0 + l1;
    if n > 0 {
        lemma_first_of_levels(l0, l1, key, n - 1);
        assert(all[l0.len() + n - 1] == l1[n - 1]);
    } else {
        lemma_first_of_prefix(all, l0, key, l0.len() as int);
    }
}

/// The first of the first `n` tables is the same in any sequence that
/// starts with those tables.
pub proof fn lemma_first_of_prefix(long: Seq<SSTableReader>, short: Seq<SSTableReader>, key: Seq<u8>, n: int)
    requires
        0 <= n <= short.len() <= long.len(),
        forall|i: int| 0 <= i < n ==> long[i] == short[i],
    ensures
        first_of(long, key, n) == first_of(short, key, n),
    decreases n,
{
    if n > 0 {
        lemma_first_of_prefix(long, short, key, n - 1);
    }
}

/// Scan completeness: in a state that meets the invariant a scan fails on
/// no read, and finds for exactly the keys of the range that the memtable
/// or a table holds the entry of the highest sequence number; so it returns
/// the keys of the range that a read finds, each with the value that the
/// read returns.
#[verifier::rlimit(50)]
pub proof fn lemma_scan_newest(e: EngineView, start: Seq<u8>, end: Seq<u8>)
    requires
        e.inv(),
    ensures
        e.scan_map(start, end) is Ok,
        forall|k: Seq<u8>|
            #[trigger] e.scan_map(start, end)->Ok_0.contains_key(k) <==> in_range(k, start, end)
                && e.newest(k) is Some,
        forall|k: Seq<u8>|
            e.scan_map(start, end)->Ok_0.contains_key(k) ==> Some(
                #[trigger] e.scan_map(start, end)->Ok_0[k],
            ) == e.newest(k),
{
    let tables = e.tables();
    let mem = absorb_pairs(Map::empty(), e.mem_pairs, start, end);
    assert forall|k: Seq<u8>|
        (#[trigger] mem.contains_key(k) <==> in_range(k, start, end) && e.mem_map().contains_key(k))
            && (mem.contains_key(k) ==> mem[k] == e.mem_map()[k]) by {
        lemma_absorb_pairs(e.mem_pairs, start, end, k);
        if has_key(e.mem_pairs, k) {
            lemma_lookup_at(e.mem_pairs, index_of(e.mem_pairs, k));
        }
    }
    // Level 0.
    assert(all_sound(e.l0)) by {
        assert forall|i: int| 0 <= i < e.l0.len() implies sound(#[trigger] e.l0[i]) by {
            assert(tables[i] == e.l0[i]);
        }
    }
    assert(all_sound(e.l1)) by {
        assert forall|i: int| 0 <= i < e.l1.len() implies sound(#[trigger] e.l1[i]) by {
            assert(tables[e.l0.len() + i] == e.l1[i]);
        }
    }
    assert forall|j: int| 0 <= j < e.l0.len() implies dominates(mem, #[trigger] e.l0[j]) by {
        assert(tables[j] == e.l0[j]);
        assert forall|k: Seq<u8>|
            mem.contains_key(k) && (#[trigger] entry_of(e.l0[j], k)) is Some implies mem[k].seq
            >= entry_of(e.l0[j], k)->Some_0.seq by {
            assert(entry_of(tables[j], k) is Some);
        }
    }
    assert forall|key: Seq<u8>, i: int, j: int|
        0 <= i < j < e.l0.len() && (#[trigger] entry_of(e.l0[i], key)) is Some && (
        #[trigger] entry_of(e.l0[j], key)) is Some implies entry_of(e.l0[i], key)->Some_0.seq
        > entry_of(e.l0[j], key)->Some_0.seq by {
        assert(tables[i] == e.l0[i]);
        assert(tables[j] == e.l0[j]);
        assert(entry_of(tables[i], key) is Some && entry_of(tables[j], key) is Some);
    }
    lemma_absorb_tables(mem, e.l0, e.l0.len() as int, start, end);
    let upper = absorb_tables(mem, e.l0, e.l0.len() as int, start, end)->Ok_0;
    // Level 1.
    assert forall|j: int| 0 <= j < e.l1.len() implies dominates(upper, #[trigger] e.l1[j]) by {
        assert(tables[e.l0.len() + j] == e.l1[j]);
        assert forall|k: Seq<u8>|
            upper.contains_key(k) && (#[trigger] entry_of(e.l1[j], k)) is Some implies upper[k].seq
            >= entry_of(e.l1[j], k)->Some_0.seq by {
            assert(entry_of(tables[e.l0.len() + j], k) is Some);
            if !mem.contains_key(k) {
                lemma_first_of(e.l0, k, e.l0.len() as int);
                let i = choose|i: int|
                    0 <= i < e.l0.len() && #[trigger] entry_of(e.l0[i], k) == first_of(
                        e.l0,
                        k,
                        e.l0.len() as int,
                    );
                assert(tables[i] == e.l0[i]);
                assert(entry_of(tables[i], k) is Some);
            }
        }
    }
    assert forall|key: Seq<u8>, i: int, j: int|
        0 <= i < j < e.l1.len() && (#[trigger] entry_of(e.l1[i], key)) is Some && (
        #[trigger] entry_of(e.l1[j], key)) is Some implies entry_of(e.l1[i], key)->Some_0.seq
        > entry_of(e.l1[j], key)->Some_0.seq by {
        assert(tables[e.l0.len() + i] == e.l1[i]);
        assert(tables[e.l0.len() + j] == e.l1[j]);
        assert(entry_of(tables[e.l0.len() + i], key) is Some && entry_of(
            tables[e.l0.len() + j],
            key,
        ) is Some);
    }
    lemma_absorb_tables(upper, e.l1, e.l1.len() as int, start, end);
    let all = e.scan_map(start, end)->Ok_0;
    assert forall|k: Seq<u8>|
        (#[trigger] all.contains_key(k) <==> in_range(k, start, end) && e.newest(k) is Some) && (
        all.contains_key(k) ==> Some(all[k]) == e.newest(k)) by {
        lemma_first_of_levels(e.l0, e.l1, k, e.l1.len() as int);
        lemma_first_of_is_hit(tables, k);
        lemma_best_is_first(e, k);
        lemma_best_among(tables, k, 0);
        assert(upper.contains_key(k) <==> mem.contains_key(k) || (in_range(k, start, end)
            && first_of(e.l0, k, e.l0.len() as int) is Some));
        assert(all.contains_key(k) <==> upper.contains_key(k) || (in_range(k, start, end)
            && first_of(e.l1, k, e.l1.len() as int) is Some));
        if e.mem_map().contains_key(k) {
            let stored = best_among(tables, k, 0);
            if stored is Some {
                let b = choose|b: int|
                    0 <= b < tables.len() && #[trigger] entry_of(tables[b], k) == stored;
                assert(e.mem_map()[k].seq > entry_of(tables[b], k)->Some_0.seq);
            }
        }
    }
}

} // verus!
