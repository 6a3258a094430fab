//! What the engine guarantees: a read returns what the newest mutation of
//! its key wrote, whatever flushes and compactions came in between.
//!
//! The guarantees rest on an invariant of the engine's state, which every
//! operation that succeeds preserves: the tables answer every read, and of
//! two entries for a key the one that is read first has the higher sequence
//! number.

use crate::bytes::lex_lt;
use crate::engine::{EngineError, EngineView, MAX_VALUE_SIZE};
use crate::engine::compaction::{collected, compacted, expected_entries};
use crate::engine::read::{first_hit, live};
use crate::engine::recovery::table_max_seq;
use crate::engine::write::{
    after_flush, applied, compaction_due, flush_cycle, flush_cycle_now, flushed, force_flushed,
    key_error, mutated,
};
use crate::memtable::{EntryView, Pair};
use crate::ordered::{as_map, ascending, has_key, index_of, lemma_lookup_at, lookup};
use crate::sstable::format::SstError;
use crate::sstable::merge::{at_start, merged};
use crate::sstable::merge_laws::{
    all_sound, best_among, entry_of, lemma_best_among, lemma_merge_all, sound,
};
use crate::sstable::reader::SSTableReader;
use crate::sstable::round_trip::{lemma_get_readable, lemma_written_table, readable};
use crate::sstable::writer::{image_of, max_seq_of, write_outcome};
use vstd::prelude::*;

verus! {

impl EngineView {
    /// The tables in the order in which a read asks them: level 0 from the
    /// newest on, then level 1.
    pub open spec fn tables(self) -> Seq<SSTableReader> {
        self.l0 + self.l1
    }

    /// The entry of the highest sequence number for `key` among the
    /// memtable and all tables, or `None` where none holds the key.
    pub open spec fn newest(self, key: Seq<u8>) -> Option<EntryView> {
        let stored = best_among(self.tables(), key, 0);
        if self.mem_map().contains_key(key) {
            let m = self.mem_map()[key];
            if stored is Some && stored->Some_0.seq > m.seq {
                stored
            } else {
                Some(m)
            }
        } else {
            stored
        }
    }

    /// What a read of `key` is to return: the value of the newest entry,
    /// unless that is a tombstone.
    pub open spec fn value_of(self, key: Seq<u8>) -> Option<(u64, Seq<u8>)> {
        match self.newest(key) {
            Some(e) => live(e),
            None => None,
        }
    }

    /// Of two tables that hold a key, the one that is asked first holds the
    /// entry with the higher sequence number; and the memtable's entry for
    /// a key has a higher sequence number than that of any table.
    pub open spec fn layered(self) -> bool {
        &&& forall|key: Seq<u8>, i: int, j: int|
            0 <= i < j < self.tables().len() && (#[trigger] entry_of(self.tables()[i], key))
                is Some && (#[trigger] entry_of(self.tables()[j], key)) is Some ==> entry_of(
                self.tables()[i],
                key,
            )->Some_0.seq > entry_of(self.tables()[j], key)->Some_0.seq
        &&& forall|key: Seq<u8>, j: int|
            0 <= j < self.tables().len() && self.mem_map().contains_key(key) && (
            #[trigger] entry_of(self.tables()[j], key)) is Some ==> self.mem_map()[key].seq
                > entry_of(self.tables()[j], key)->Some_0.seq
    }

    /// No entry has a sequence number above the engine's.
    pub open spec fn bounded(self) -> bool {
        &&& forall|i: int| 0 <= i < self.mem_pairs.len() ==> (#[trigger] self.mem_pairs[i]).1.seq
            <= self.seq
        &&& forall|key: Seq<u8>, j: int|
            0 <= j < self.tables().len() && (#[trigger] entry_of(self.tables()[j], key)) is Some
                ==> entry_of(self.tables()[j], key)->Some_0.seq <= self.seq
    }

    /// Every table knows its highest sequence number, and holds no entry
    /// with a higher one.
    pub open spec fn faithful(self) -> bool {
        forall|key: Seq<u8>, j: int|
            0 <= j < self.tables().len() ==> table_max_seq(self.tables()[j]@) is Ok && ((
            #[trigger] entry_of(self.tables()[j], key)) is Some ==> entry_of(
                self.tables()[j],
                key,
            )->Some_0.seq <= table_max_seq(self.tables()[j]@)->Ok_0)
    }

    /// The invariant of the engine's state: the memtable's keys ascend and
    /// its entries are within the lengths that a table can hold, the
    /// tables answer every read and know their highest sequence numbers,
    /// newer entries are read before older ones, and no sequence number is
    /// above the engine's.
    pub open spec fn inv(self) -> bool {
        &&& ascending(self.mem_pairs)
        &&& forall|i: int| 0 <= i < self.mem_pairs.len() ==> readable(#[trigger] self.mem_pairs[i])
        &&& all_sound(self.tables())
        &&& self.layered()
        &&& self.bounded()
        &&& self.faithful()
    }
}

/// Over sound tables, asking them one after the other from `from` on finds
/// the entry of the first that holds the key.
pub proof fn lemma_first_hit(tables: Seq<SSTableReader>, key: Seq<u8>, from: int)
    requires
        all_sound(tables),
        0 <= from,
    ensures
        first_hit(tables, key, from) is Ok,
        first_hit(tables, key, from)->Ok_0 is None <==> forall|i: int|
            from <= i < tables.len() ==> (#[trigger] entry_of(tables[i], key)) is None,
        first_hit(tables, key, from)->Ok_0 is Some ==> exists|i: int|
            from <= i < tables.len() && #[trigger] entry_of(tables[i], key) == first_hit(
                tables,
                key,
                from,
            )->Ok_0 && forall|j: int|
                from <= j < i ==> (#[trigger] entry_of(tables[j], key)) is None,
    decreases tables.len() - from,
{
    if from < tables.len() {
        assert(sound(tables[from]));
        lemma_first_hit(tables, key, from + 1);
        match tables[from]@.get(key) {
            Ok(Some(e)) => {
                assert(entry_of(tables[from], key) == Some(e));
            },
            _ => {
                assert(entry_of(tables[from], key) is None);
                if first_hit(tables, key, from)->Ok_0 is Some {
                    let i = choose|i: int|
                        from + 1 <= i < tables.len() && #[trigger] entry_of(tables[i], key)
                            == first_hit(tables, key, from + 1)->Ok_0 && forall|j: int|
                            from + 1 <= j < i ==> (#[trigger] entry_of(tables[j], key)) is None;
                    assert(from <= i < tables.len() && entry_of(tables[i], key) == first_hit(
                        tables,
                        key,
                        from,
                    )->Ok_0 && forall|j: int|
                        from <= j < i ==> (#[trigger] entry_of(tables[j], key)) is None);
                }
            },
        }
    }
}

/// Asking level 0 and then level 1 is asking all tables in their order.
pub proof fn lemma_first_hit_levels(l0: Seq<SSTableReader>, l1: Seq<SSTableReader>, key: Seq<u8>, from: int)
    requires
        0 <= from <= l0.len(),
    ensures
        first_hit(l0 + l1, key, from) == (match first_hit(l0, key, from) {
            Err(e) => Err(e),
            Ok(Some(e)) => Ok(Some(e)),
            Ok(None) => first_hit(l1, key, 0),
        }),
    decreases l0.len() - from,
{
    let all = l0 + l1;
    if from < l0.len() {
        assert(all[from] == l0[from]);
        lemma_first_hit_levels(l0, l1, key, from + 1);
    } else {
        lemma_first_hit_shift(l0, l1, key, 0);
    }
}

/// Asking the tables after a prefix is asking them alone.
pub proof fn lemma_first_hit_shift(head: Seq<SSTableReader>, tail: Seq<SSTableReader>, key: Seq<u8>, from: int)
    requires
        0 <= from <= tail.len(),
    ensures
        first_hit(head + tail, key, head.len() + from) == first_hit(tail, key, from),
    decreases tail.len() - from,
{
    let all = head + tail;
    if from < tail.len() {
        assert(all[head.len() + from] == tail[from]);
        lemma_first_hit_shift(head, tail, key, from + 1);
    }
}

/// Where the tables are layered, the best entry among them is that of the
/// first table that holds the key.
pub proof fn lemma_best_is_first(e: EngineView, key: Seq<u8>)
    requires
        all_sound(e.tables()),
        e.layered(),
    ensures
        first_hit(e.tables(), key, 0) == Ok::<Option<EntryView>, SstError>(
            best_among(e.tables(), key, 0),
        ),
{
    let tables = e.tables();
    lemma_first_hit(tables, key, 0);
    lemma_best_among(tables, key, 0);
    let hit = first_hit(tables, key, 0)->Ok_0;
    if hit is Some {
        let i = choose|i: int|
            0 <= i < tables.len() && #[trigger] entry_of(tables[i], key) == hit && forall|j: int|
                0 <= j < i ==> (#[trigger] entry_of(tables[j], key)) is None;
        let best = best_among(tables, key, 0);
        assert(best is Some);
        let b = choose|b: int|
            0 <= b < tables.len() && #[trigger] entry_of(tables[b], key) == best;
        // The best entry is no lower than the first; being layered, it is the first.
        assert(entry_of(tables[i], key)->Some_0.seq <= best->Some_0.seq);
        if b < i {
            assert(entry_of(tables[b], key) is None);
        } else if b > i {
            assert(entry_of(tables[i], key)->Some_0.seq > entry_of(tables[b], key)->Some_0.seq);
        }
    }
}

/// Tombstone shadowing, and more: in a state that meets the invariant a
/// read fails on no key, and returns the value of the entry of the highest
/// sequence number for the key among the memtable and all tables; where
/// that entry is a tombstone, or there is none, it returns nothing.
pub proof fn lemma_get_newest(e: EngineView, key: Seq<u8>)
    requires
        e.inv(),
    ensures
        e.get(key) == Ok::<Option<(u64, Seq<u8>)>, SstError>(e.value_of(key)),
        e.newest(key) is Some && e.newest(key)->Some_0.value is None ==> e.get(key) == Ok::<
            Option<(u64, Seq<u8>)>,
            SstError,
        >(None),
{
    let tables = e.tables();
    lemma_best_is_first(e, key);
    lemma_first_hit_levels(e.l0, e.l1, key, 0);
    lemma_best_among(tables, key, 0);
    if e.mem_map().contains_key(key) {
        let stored = best_among(tables, key, 0);
        if stored is Some {
            let b = choose|b: int|
                0 <= b < tables.len() && #[trigger] entry_of(tables[b], key) == stored;
            assert(e.mem_map()[key].seq > entry_of(tables[b], key)->Some_0.seq);
        }
    }
}

/// The highest sequence number among pairs is no lower than that of any of
/// them, and it is that of one of them where there are any.
pub proof fn lemma_max_seq_of(pairs: Seq<Pair>)
    ensures
        forall|i: int| 0 <= i < pairs.len() ==> (#[trigger] pairs[i]).1.seq <= max_seq_of(pairs),
        pairs.len() > 0 ==> exists|i: int|
            0 <= i < pairs.len() && (#[trigger] pairs[i]).1.seq == max_seq_of(pairs),
        pairs.len() == 0 ==> max_seq_of(pairs) == 0,
    decreases pairs.len(),
{
    if pairs.len() > 0 {
        let init = pairs.drop_last();
        lemma_max_seq_of(init);
        assert forall|i: int| 0 <= i < pairs.len() implies (#[trigger] pairs[i]).1.seq
            <= max_seq_of(pairs) by {
            if i < init.len() {
                assert(init[i] == pairs[i]);
            }
        }
        if max_seq_of(pairs) == pairs.last().1.seq {
            assert(pairs[pairs.len() - 1].1.seq == max_seq_of(pairs));
        } else {
            let i = choose|i: int| 0 <= i < init.len() && (#[trigger] init[i]).1.seq == max_seq_of(
                init,
            );
            assert(pairs[i].1.seq == max_seq_of(pairs));
        }
    }
}

/// The pairs of an ascending sequence are the entries of the mapping that
/// it describes.
pub proof fn lemma_pairs_of_map(p: Seq<Pair>, i: int)
    requires
        ascending(p),
        0 <= i < p.len(),
    ensures
        as_map(p).contains_key(p[i].0),
        as_map(p)[p[i].0] == p[i].1,
{
    lemma_lookup_at(p, i);
}

/// A mutation that is logged and applied keeps the invariant; afterwards
/// its key reads as what it wrote, and every other key as before.
#[verifier::rlimit(50)]
pub proof fn lemma_applied(pre: EngineView, post: EngineView, key: Seq<u8>, value: Option<Seq<u8>>)
    requires
        pre.inv(),
        pre.seq < u64::MAX,
        key_error(key) is None,
        value is Some ==> value->Some_0.len() <= MAX_VALUE_SIZE,
        applied(pre, post, key, value),
    ensures
        post.inv(),
        post.seq == pre.seq + 1,
        post.value_of(key) == (match value {
            Some(v) => Some((post.seq, v)),
            None => None,
        }),
        forall|k: Seq<u8>| k != key ==> #[trigger] post.value_of(k) == pre.value_of(k),
        post.mem_map().contains_key(key),
        post.mem_map()[key] == (EntryView { seq: post.seq, value }),
{
    let seq = (pre.seq + 1) as u64;
    let entry = EntryView { seq, value };
    // The mutation is not stale: no entry has so high a sequence number.
    if pre.mem_map().contains_key(key) {
        let i = index_of(pre.mem_pairs, key);
        lemma_lookup_at(pre.mem_pairs, i);
        assert(pre.mem_pairs[i].1.seq <= pre.seq);
    }
    assert(post.mem_map() == pre.mem_map().insert(key, entry));
    assert(post.tables() == pre.tables());
    assert forall|i: int| 0 <= i < post.mem_pairs.len() implies readable(
        #[trigger] post.mem_pairs[i],
    ) && post.mem_pairs[i].1.seq <= post.seq by {
        lemma_pairs_of_map(post.mem_pairs, i);
        let k = post.mem_pairs[i].0;
        if k != key {
            assert(pre.mem_map().contains_key(k));
            let j = index_of(pre.mem_pairs, k);
            lemma_lookup_at(pre.mem_pairs, j);
            assert(readable(pre.mem_pairs[j]));
            assert(pre.mem_pairs[j].1.seq <= pre.seq);
        }
    }
    assert(post.layered()) by {
        assert forall|k: Seq<u8>, j: int|
            0 <= j < post.tables().len() && post.mem_map().contains_key(k) && (
            #[trigger] entry_of(post.tables()[j], k)) is Some implies post.mem_map()[k].seq
            > entry_of(post.tables()[j], k)->Some_0.seq by {
            if k == key {
                assert(entry_of(pre.tables()[j], k)->Some_0.seq <= pre.seq);
            }
        }
    }
    assert(post.bounded());
    assert(post.faithful());
    // The reads.
    let stored = best_among(post.tables(), key, 0);
    lemma_best_among(post.tables(), key, 0);
    if stored is Some {
        let b = choose|b: int|
            0 <= b < post.tables().len() && #[trigger] entry_of(post.tables()[b], key) == stored;
        assert(entry_of(pre.tables()[b], key)->Some_0.seq <= pre.seq);
    }
}

/// A flush that succeeds keeps the invariant and the result of every
/// read.
#[verifier::rlimit(50)]
pub proof fn lemma_flushed(pre: EngineView, post: EngineView, ms: u128)
    requires
        pre.inv(),
        flushed(pre, post, ms, Ok(())),
    ensures
        post.inv(),
        post.seq == pre.seq,
        forall|k: Seq<u8>| #[trigger] post.get(k) == pre.get(k),
{
    let pairs = pre.mem_pairs;
    let expected = pairs.len();
    let image = write_outcome(pairs, expected)->Ok_0;
    assert(image == image_of(pairs, expected));
    let t0 = post.l0[0];
    lemma_written_table(pairs, expected, t0);
    assert(post.mem_pairs.len() == 0);
    assert(post.l0 =~= seq![t0] + pre.l0);
    assert(post.tables() =~= seq![t0] + pre.tables());
    assert forall|k: Seq<u8>| #[trigger] entry_of(t0, k) == lookup(pairs, k) by {
        assert(t0@.get(k) == Ok::<Option<EntryView>, SstError>(lookup(pairs, k)));
    }
    assert(sound(t0)) by {
        assert forall|k: Seq<u8>|
            (#[trigger] t0@.get(k)) is Ok && (t0@.get(k)->Ok_0 is Some <==> has_key(
                t0.index_pairs(),
                k,
            )) by {
            assert(t0@.get(k) == Ok::<Option<EntryView>, SstError>(lookup(pairs, k)));
            assert(has_key(t0.index_pairs(), k) <==> has_key(pairs, k));
        }
    }
    assert(all_sound(post.tables())) by {
        assert forall|i: int| 0 <= i < post.tables().len() implies sound(
            #[trigger] post.tables()[i],
        ) by {
            if i > 0 {
                assert(post.tables()[i] == pre.tables()[i - 1]);
            }
        }
    }
    assert(post.layered()) by {
        assert forall|k: Seq<u8>, i: int, j: int|
            0 <= i < j < post.tables().len() && (#[trigger] entry_of(post.tables()[i], k)) is Some
                && (#[trigger] entry_of(post.tables()[j], k)) is Some implies entry_of(
            post.tables()[i],
            k,
        )->Some_0.seq > entry_of(post.tables()[j], k)->Some_0.seq by {
            assert(post.tables()[j] == pre.tables()[j - 1]);
            if i == 0 {
                assert(entry_of(t0, k) == lookup(pairs, k));
                assert(pre.mem_map().contains_key(k));
                assert(pre.mem_map()[k].seq > entry_of(pre.tables()[j - 1], k)->Some_0.seq);
            } else {
                assert(post.tables()[i] == pre.tables()[i - 1]);
            }
        }
    }
    assert(post.bounded()) by {
        assert forall|k: Seq<u8>, j: int|
            0 <= j < post.tables().len() && (#[trigger] entry_of(post.tables()[j], k)) is Some implies entry_of(
            post.tables()[j],
            k,
        )->Some_0.seq <= post.seq by {
            if j == 0 {
                assert(entry_of(t0, k) == lookup(pairs, k));
                let i = index_of(pairs, k);
                lemma_lookup_at(pairs, i);
                assert(pairs[i].1.seq <= pre.seq);
            } else {
                assert(post.tables()[j] == pre.tables()[j - 1]);
            }
        }
    }
    assert(post.faithful()) by {
        crate::engine::durability::lemma_written_footer(pairs, expected);
        lemma_max_seq_of(pairs);
        assert forall|k: Seq<u8>, j: int| 0 <= j < post.tables().len() implies table_max_seq(
            post.tables()[j]@,
        ) is Ok && ((#[trigger] entry_of(post.tables()[j], k)) is Some ==> entry_of(
            post.tables()[j],
            k,
        )->Some_0.seq <= table_max_seq(post.tables()[j]@)->Ok_0) by {
            if j == 0 {
                assert(entry_of(t0, k) == lookup(pairs, k));
                if lookup(pairs, k) is Some {
                    let i = index_of(pairs, k);
                    lemma_lookup_at(pairs, i);
                }
            } else {
                assert(post.tables()[j] == pre.tables()[j - 1]);
                assert(entry_of(pre.tables()[j - 1], k) == entry_of(post.tables()[j], k));
            }
        }
    }
    assert forall|k: Seq<u8>| #[trigger] post.get(k) == pre.get(k) by {
        assert(!post.mem_map().contains_key(k)) by {
            if has_key(post.mem_pairs, k) {
                let i = index_of(post.mem_pairs, k);
            }
        }
        assert(t0@.get(k) == Ok::<Option<EntryView>, SstError>(lookup(pairs, k)));
        if !pre.mem_map().contains_key(k) {
            lemma_first_hit_shift(seq![t0], pre.l0, k, 0);
        }
    }
}

/// What garbage collection leaves: the pairs ascend as before, and every
/// key has its entry as before, but for the tombstones whose key the
/// memtable does not hold.
#[verifier::rlimit(50)]
pub proof fn lemma_collected(all: Seq<Pair>, mem: Map<Seq<u8>, EntryView>)
    requires
        ascending(all),
    ensures
        ascending(collected(all, mem)),
        collected(all, mem).len() <= all.len(),
        forall|i: int|
            0 <= i < collected(all, mem).len() ==> exists|j: int|
                i <= j < all.len() && all[j] == #[trigger] collected(all, mem)[i],
        forall|k: Seq<u8>|
            #[trigger] lookup(collected(all, mem), k) == (match lookup(all, k) {
                Some(e) => if e.value is None && !mem.contains_key(k) {
                    None
                } else {
                    Some(e)
                },
                None => None,
            }),
    decreases all.len(),
{
    let out = collected(all, mem);
    if all.len() > 0 {
        let init = all.drop_last();
        let last = all.last();
        let n = all.len() - 1;
        assert forall|a: int, b: int| #![trigger init[a], init[b]] 0 <= a < b < init.len() implies lex_lt(
            init[a].0,
            init[b].0,
        ) by {
            assert(lex_lt(all[a].0, all[b].0));
        }
        lemma_collected(init, mem);
        let before = collected(init, mem);
        assert forall|i: int| 0 <= i < out.len() implies exists|j: int|
            i <= j < all.len() && all[j] == #[trigger] out[i] by {
            if i < before.len() {
                let j = choose|j: int| i <= j < init.len() && init[j] == before[i];
                assert(all[j] == out[i]);
            } else {
                assert(all[n] == out[i]);
            }
        }
        assert forall|a: int, b: int| #![trigger out[a], out[b]] 0 <= a < b < out.len() implies lex_lt(
            out[a].0,
            out[b].0,
        ) by {
            if b < before.len() {
                assert(lex_lt(before[a].0, before[b].0));
            } else {
                let j = choose|j: int| a <= j < init.len() && init[j] == before[a];
                assert(lex_lt(all[j].0, all[n].0));
            }
        }
        assert forall|k: Seq<u8>| #[trigger] lookup(out, k) == (match lookup(all, k) {
            Some(e) => if e.value is None && !mem.contains_key(k) {
                None
            } else {
                Some(e)
            },
            None => None,
        }) by {
            let dropped = last.1.value is None && !mem.contains_key(last.0);
            crate::ordered::lemma_lookup_last(all, k);
            if !dropped {
                assert(out.drop_last() =~= before);
                crate::ordered::lemma_lookup_last(out, k);
            } else if k == last.0 {
                // No pair that is left holds the key.
                if has_key(before, k) {
                    let a = index_of(before, k);
                    let j = choose|j: int| a <= j < init.len() && init[j] == before[a];
                    assert(init[j].0 == k);
                }
            }
        }
    }
}

/// A compaction that succeeds keeps the invariant and the result of every
/// read.
#[verifier::rlimit(50)]
pub proof fn lemma_compacted(pre: EngineView, post: EngineView, ms: u128)
    requires
        pre.inv(),
        compacted(pre, post, ms, Ok(())),
    ensures
        post.inv(),
        post.seq == pre.seq,
        forall|k: Seq<u8>| #[trigger] post.get(k) == pre.get(k),
{
    if pre.l0.len() + pre.l1.len() > 1 {
        let readers = pre.tables();
        let mem = pre.mem_map();
        lemma_merge_all(readers);
        let all = merged(readers, at_start(readers.len()))->Ok_0;
        let kept = collected(all, mem);
        let expected = expected_entries(readers);
        lemma_collected(all, mem);
        // What is kept comes from the tables, so a reader accepts its lengths.
        assert forall|i: int| 0 <= i < kept.len() implies readable(#[trigger] kept[i]) && kept[i].1.seq
            <= pre.seq by {
            let j = choose|j: int| i <= j < all.len() && all[j] == kept[i];
            lemma_lookup_at(all, j);
            let k = all[j].0;
            lemma_best_among(readers, k, 0);
            let b = choose|b: int|
                0 <= b < readers.len() && #[trigger] entry_of(readers[b], k) == best_among(
                    readers,
                    k,
                    0,
                );
            assert(sound(readers[b]));
            lemma_get_readable(readers[b]@, k);
            assert(entry_of(pre.tables()[b], k)->Some_0.seq <= pre.seq);
        }
        // Every read of the old tables finds the best entry.
        assert forall|k: Seq<u8>| #[trigger] pre.get(k) == (if mem.contains_key(k) {
            Ok::<Option<(u64, Seq<u8>)>, SstError>(live(mem[k]))
        } else {
            Ok::<Option<(u64, Seq<u8>)>, SstError>(
                match lookup(all, k) {
                    Some(e) => live(e),
                    None => None,
                },
            )
        }) by {
            lemma_best_is_first(pre, k);
            lemma_first_hit_levels(pre.l0, pre.l1, k, 0);
        }
        assert(post.l0.len() == 0);
        match write_outcome(kept, expected) {
            Ok(image) => {
                let t = post.l1[0];
                lemma_written_table(kept, expected, t);
                assert(post.tables() =~= seq![t]);
                assert forall|k: Seq<u8>| #[trigger] entry_of(t, k) == lookup(kept, k) by {
                    assert(t@.get(k) == Ok::<Option<EntryView>, SstError>(lookup(kept, k)));
                }
                assert(sound(t)) by {
                    assert forall|k: Seq<u8>|
                        (#[trigger] t@.get(k)) is Ok && (t@.get(k)->Ok_0 is Some <==> has_key(
                            t.index_pairs(),
                            k,
                        )) by {
                        assert(t@.get(k) == Ok::<Option<EntryView>, SstError>(lookup(kept, k)));
                        assert(has_key(t.index_pairs(), k) <==> has_key(kept, k));
                    }
                }
                assert(post.layered()) by {
                    assert forall|k: Seq<u8>, j: int|
                        0 <= j < post.tables().len() && post.mem_map().contains_key(k) && (
                        #[trigger] entry_of(post.tables()[j], k)) is Some implies post.mem_map()[k].seq
                        > entry_of(post.tables()[j], k)->Some_0.seq by {
                        assert(entry_of(t, k) == lookup(kept, k));
                        assert(lookup(all, k) == best_among(readers, k, 0));
                        lemma_best_among(readers, k, 0);
                        let b = choose|b: int|
                            0 <= b < readers.len() && #[trigger] entry_of(readers[b], k)
                                == best_among(readers, k, 0);
                        assert(mem[k].seq > entry_of(pre.tables()[b], k)->Some_0.seq);
                    }
                }
                assert(post.bounded()) by {
                    assert forall|k: Seq<u8>, j: int|
                        0 <= j < post.tables().len() && (#[trigger] entry_of(post.tables()[j], k))
                            is Some implies entry_of(post.tables()[j], k)->Some_0.seq
                        <= post.seq by {
                        assert(entry_of(t, k) == lookup(kept, k));
                        let i = index_of(kept, k);
                        lemma_lookup_at(kept, i);
                    }
                }
                assert(post.faithful()) by {
                    crate::engine::durability::lemma_written_footer(kept, expected);
                    lemma_max_seq_of(kept);
                    assert forall|k: Seq<u8>, j: int|
                        0 <= j < post.tables().len() implies table_max_seq(post.tables()[j]@)
                        is Ok && ((#[trigger] entry_of(post.tables()[j], k)) is Some ==> entry_of(
                        post.tables()[j],
                        k,
                    )->Some_0.seq <= table_max_seq(post.tables()[j]@)->Ok_0) by {
                        assert(entry_of(t, k) == lookup(kept, k));
                        if lookup(kept, k) is Some {
                            let i = index_of(kept, k);
                            lemma_lookup_at(kept, i);
                        }
                    }
                }
                assert forall|k: Seq<u8>| #[trigger] post.get(k) == pre.get(k) by {
                    assert(t@.get(k) == Ok::<Option<EntryView>, SstError>(lookup(kept, k)));
                    assert(first_hit(post.l0, k, 0) == Ok::<Option<EntryView>, SstError>(None));
                    assert(first_hit(post.l1, k, 1) == Ok::<Option<EntryView>, SstError>(None));
                }
            },
            Err(e) => {
                // Nothing is left to write.
                assert(e == SstError::Empty);
                assert(kept.len() == 0);
                assert(post.tables() =~= Seq::<SSTableReader>::empty());
                assert forall|k: Seq<u8>| #[trigger] post.get(k) == pre.get(k) by {
                    assert(!has_key(kept, k));
                    assert(lookup(kept, k) is None);
                    assert(first_hit(post.l0, k, 0) == Ok::<Option<EntryView>, SstError>(None));
                    assert(first_hit(post.l1, k, 0) == Ok::<Option<EntryView>, SstError>(None));
                }
            },
        }
    }
}

/// A flush with the compaction that it may start keeps the invariant and
/// the result of every read, if it succeeds.
pub proof fn lemma_flush_cycle(pre: EngineView, post: EngineView, ms: u128)
    requires
        pre.inv(),
        flush_cycle(pre, post, ms, Ok(())),
    ensures
        post.inv(),
        post.seq == pre.seq,
        forall|k: Seq<u8>| #[trigger] post.get(k) == pre.get(k),
{
    let (mid, first) = choose|mid: EngineView, first: Result<(), EngineError>| #[trigger]
        flushed(pre, mid, ms, first) && (if first is Ok && compaction_due(mid) {
            compacted(mid, post, after_flush(ms), Ok(()))
        } else {
            post == mid && Ok::<(), EngineError>(()) == first
        });
    if first is Ok && compaction_due(mid) {
        lemma_flushed(pre, mid, ms);
        lemma_compacted(mid, post, after_flush(ms));
        assert forall|k: Seq<u8>| #[trigger] post.get(k) == pre.get(k) by {
            assert(mid.get(k) == pre.get(k));
        }
    } else {
        lemma_flushed(pre, post, ms);
    }
}

/// Read your writes: a mutation that succeeds keeps the invariant and
/// takes the next sequence number. Afterwards a read of its key returns
/// the value that it wrote with that sequence number, or nothing after a
/// delete, and a read of any other key returns what it returned before,
/// whether or not the mutation flushed the memtable and compacted the
/// tables.
#[verifier::rlimit(50)]
pub proof fn lemma_mutated(
    pre: EngineView,
    post: EngineView,
    key: Seq<u8>,
    value: Option<Seq<u8>>,
    now: Option<u128>,
)
    requires
        pre.inv(),
        mutated(pre, post, key, value, now, Ok(())),
    ensures
        post.inv(),
        post.seq == pre.seq + 1,
        post.get(key) == Ok::<Option<(u64, Seq<u8>)>, SstError>(
            match value {
                Some(v) => Some((post.seq, v)),
                None => None,
            },
        ),
        forall|k: Seq<u8>| k != key ==> #[trigger] post.get(k) == pre.get(k),
{
    let mid = choose|mid: EngineView| #[trigger]
        applied(pre, mid, key, value) && (if mid.mem_size >= mid.flush_threshold {
            flush_cycle_now(mid, post, now, Ok(()))
        } else {
            post == mid
        });
    lemma_applied(pre, mid, key, value);
    lemma_get_newest(mid, key);
    assert forall|k: Seq<u8>| k != key implies #[trigger] mid.get(k) == pre.get(k) by {
        lemma_get_newest(mid, k);
        lemma_get_newest(pre, k);
    }
    if mid.mem_size >= mid.flush_threshold {
        lemma_flush_cycle(mid, post, now->Some_0);
        assert(post.get(key) == mid.get(key));
        assert forall|k: Seq<u8>| k != key implies #[trigger] post.get(k) == pre.get(k) by {
            assert(post.get(k) == mid.get(k));
        }
    }
}

/// A forced flush that succeeds keeps the invariant and the result of
/// every read.
pub proof fn lemma_force_flushed(pre: EngineView, post: EngineView, now: Option<u128>)
    requires
        pre.inv(),
        force_flushed(pre, post, now, Ok(())),
    ensures
        post.inv(),
        post.seq == pre.seq,
        forall|k: Seq<u8>| #[trigger] post.get(k) == pre.get(k),
{
    if pre.mem_pairs.len() > 0 {
        lemma_flush_cycle(pre, post, now->Some_0);
    }
}

/// A compaction that succeeds when the clock says `now` keeps the
/// invariant and the result of every read.
pub proof fn lemma_compacted_now(pre: EngineView, post: EngineView, now: Option<u128>)
    requires
        pre.inv(),
        crate::engine::compaction::compacted_now(pre, post, now, Ok(())),
    ensures
        post.inv(),
        post.seq == pre.seq,
        forall|k: Seq<u8>| #[trigger] post.get(k) == pre.get(k),
{
    if pre.l0.len() + pre.l1.len() > 1 {
        lemma_compacted(pre, post, now->Some_0);
    }
}

/// A compaction keeps the live entries: where a key that the memtable does
/// not hold reads as a value before a compaction that succeeds, the table
/// that the compaction writes knows a sequence number no lower than that of
/// the value.
pub proof fn lemma_compacted_keeps(pre: EngineView, post: EngineView, ms: u128, key: Seq<u8>)
    requires
        pre.inv(),
        compacted(pre, post, ms, Ok(())),
        pre.l0.len() + pre.l1.len() > 1,
        !pre.mem_map().contains_key(key),
        pre.get(key) is Ok,
        pre.get(key)->Ok_0 is Some,
    ensures
        post.l0.len() == 0,
        post.l1.len() == 1,
        table_max_seq(post.l1[0]@) is Ok,
        table_max_seq(post.l1[0]@)->Ok_0 >= pre.get(key)->Ok_0->Some_0.0,
{
    let readers = pre.tables();
    let mem = pre.mem_map();
    lemma_merge_all(readers);
    let all = merged(readers, at_start(readers.len()))->Ok_0;
    let kept = collected(all, mem);
    let expected = expected_entries(readers);
    lemma_collected(all, mem);
    lemma_best_is_first(pre, key);
    lemma_first_hit_levels(pre.l0, pre.l1, key, 0);
    let e = lookup(all, key)->Some_0;
    assert(lookup(all, key) == Some(e));
    assert(e.value is Some);
    assert(lookup(kept, key) == Some(e));
    let i = index_of(kept, key);
    lemma_lookup_at(kept, i);
    lemma_max_seq_of(kept);
    assert(kept.len() > 0);
    crate::engine::durability::lemma_written_footer(kept, expected);
}

} // verus!
