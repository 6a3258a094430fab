//! What a merge yields: over tables that answer every read, the merge holds
//! each key of any table once, in ascending order, with the entry of the
//! highest sequence number among the tables.

use crate::bytes::{lemma_lex_irreflexive, lemma_lex_total, lemma_lex_transitive, lex_lt};
use crate::memtable::{EntryView, Pair};
use crate::ordered::{ascending, has_key, index_of, lemma_lookup_at, lookup};
use crate::sstable::format::SstError;
use crate::sstable::merge::{
    advanced, at_start, cursors_fit, Drain, drain, head, least, lemma_least, lemma_next, merged,
    next, remaining, source_len, Step,
};
use crate::sstable::reader::SSTableReader;
use vstd::prelude::*;

verus! {

/// The key at position `p` of the index of source `i`.
pub open spec fn source_key(readers: Seq<SSTableReader>, i: int, p: int) -> Seq<u8> {
    readers[i].index_pairs()[p].0
}

/// The table answers every read, and returns an entry for exactly the keys
/// of its index.
pub open spec fn sound(r: SSTableReader) -> bool {
    &&& r.wf()
    &&& forall|k: Seq<u8>|
        (#[trigger] r@.get(k)) is Ok && (r@.get(k)->Ok_0 is Some <==> has_key(r.index_pairs(), k))
}

/// Every table is sound.
pub open spec fn all_sound(readers: Seq<SSTableReader>) -> bool {
    forall|i: int| 0 <= i < readers.len() ==> sound(#[trigger] readers[i])
}

/// The entry of `key` in a table.
pub open spec fn entry_of(r: SSTableReader, key: Seq<u8>) -> Option<EntryView> {
    match r@.get(key) {
        Ok(found) => found,
        Err(_) => None,
    }
}

/// The entry of the highest sequence number for `key` among `best` and the
/// entries of the sources from `from` on; of several with that number,
/// the first.
pub open spec fn best_from(readers: Seq<SSTableReader>, key: Seq<u8>, best: EntryView, from: int) -> EntryView
    decreases readers.len() - from,
{
    if from < 0 || from >= readers.len() {
        best
    } else {
        let e = entry_of(readers[from], key);
        best_from(
            readers,
            key,
            if e is Some && e->Some_0.seq > best.seq {
                e->Some_0
            } else {
                best
            },
            from + 1,
        )
    }
}

/// The entry of the highest sequence number for `key` among the sources
/// from `from` on, or `None` where none of them holds the key.
pub open spec fn best_among(readers: Seq<SSTableReader>, key: Seq<u8>, from: int) -> Option<EntryView>
    decreases readers.len() - from,
{
    if from < 0 || from >= readers.len() {
        None
    } else {
        match entry_of(readers[from], key) {
            Some(e) => Some(best_from(readers, key, e, from + 1)),
            None => best_among(readers, key, from + 1),
        }
    }
}

/// The cursors move in step: every key before a cursor is below every key
/// at or after any cursor.
pub open spec fn in_step(readers: Seq<SSTableReader>, cursors: Seq<usize>) -> bool {
    &&& cursors_fit(readers, cursors)
    &&& forall|i: int, p: int, j: int, q: int|
        0 <= i < readers.len() && 0 <= p < cursors[i] && 0 <= j < readers.len() && cursors[j] <= q
            < source_len(readers, j) ==> lex_lt(
            #[trigger] source_key(readers, i, p),
            #[trigger] source_key(readers, j, q),
        )
}

/// Whether `key` is still to come: it lies at or after the cursor of some
/// source.
pub open spec fn to_come(readers: Seq<SSTableReader>, cursors: Seq<usize>, key: Seq<u8>) -> bool {
    exists|i: int, p: int|
        0 <= i < readers.len() && cursors[i] <= p < source_len(readers, i) && #[trigger] source_key(
            readers,
            i,
            p,
        ) == key
}

/// The cursors after the step that yields `key`: those that stood on it
/// have moved on.
pub open spec fn stepped(readers: Seq<SSTableReader>, cursors: Seq<usize>, key: Seq<u8>) -> Seq<usize> {
    Seq::new(
        cursors.len(),
        |i: int|
            if head(readers, cursors, i) == Some(key) {
                (cursors[i] + 1) as usize
            } else {
                cursors[i]
            },
    )
}

/// The best entry is the entry of some source from `from` on or the one it
/// started from, and no entry of those has a higher sequence number.
pub proof fn lemma_best_from(readers: Seq<SSTableReader>, key: Seq<u8>, best: EntryView, from: int)
    requires
        0 <= from,
    ensures
        best_from(readers, key, best, from).seq >= best.seq,
        forall|i: int|
            from <= i < readers.len() && (#[trigger] entry_of(readers[i], key)) is Some
                ==> entry_of(readers[i], key)->Some_0.seq <= best_from(
                readers,
                key,
                best,
                from,
            ).seq,
        best_from(readers, key, best, from) == best || exists|i: int|
            from <= i < readers.len() && #[trigger] entry_of(readers[i], key) == Some(
                best_from(readers, key, best, from),
            ),
    decreases readers.len() - from,
{
    if from < readers.len() {
        let e = entry_of(readers[from], key);
        let b = if e is Some && e->Some_0.seq > best.seq {
            e->Some_0
        } else {
            best
        };
        lemma_best_from(readers, key, b, from + 1);
        let r = best_from(readers, key, best, from);
        if r != best {
            if r == b {
                assert(entry_of(readers[from], key) == Some(r));
            } else {
                let i = choose|i: int|
                    from + 1 <= i < readers.len() && #[trigger] entry_of(readers[i], key) == Some(
                        r,
                    );
                assert(from <= i < readers.len() && entry_of(readers[i], key) == Some(r));
            }
        }
    }
}

/// Merge dedup correctness: the entry that the merge keeps for a key is
/// the entry of one of the tables that hold the key, and its sequence
/// number is the highest among the entries of all of them.
pub proof fn lemma_best_among(readers: Seq<SSTableReader>, key: Seq<u8>, from: int)
    requires
        0 <= from,
    ensures
        best_among(readers, key, from) is None <==> forall|i: int|
            from <= i < readers.len() ==> (#[trigger] entry_of(readers[i], key)) is None,
        best_among(readers, key, from) is Some ==> {
            &&& forall|i: int|
                from <= i < readers.len() && (#[trigger] entry_of(readers[i], key)) is Some
                    ==> entry_of(readers[i], key)->Some_0.seq <= best_among(
                    readers,
                    key,
                    from,
                )->Some_0.seq
            &&& exists|i: int|
                from <= i < readers.len() && #[trigger] entry_of(readers[i], key) == best_among(
                    readers,
                    key,
                    from,
                )
        },
    decreases readers.len() - from,
{
    if from < readers.len() {
        match entry_of(readers[from], key) {
            Some(e) => {
                lemma_best_from(readers, key, e, from + 1);
                let r = best_from(readers, key, e, from + 1);
                if r == e {
                    assert(entry_of(readers[from], key) == Some(r));
                } else {
                    let i = choose|i: int|
                        from + 1 <= i < readers.len() && #[trigger] entry_of(readers[i], key)
                            == Some(r);
                    assert(from <= i < readers.len() && entry_of(readers[i], key) == Some(r));
                }
            },
            None => {
                lemma_best_among(readers, key, from + 1);
                if best_among(readers, key, from) is Some {
                    let i = choose|i: int|
                        from + 1 <= i < readers.len() && #[trigger] entry_of(readers[i], key)
                            == best_among(readers, key, from + 1);
                    assert(from <= i < readers.len() && entry_of(readers[i], key) == best_among(
                        readers,
                        key,
                        from,
                    ));
                }
            },
        }
    }
}

/// Under cursors that move in step, a source holds the least key under the
/// cursors exactly if its own cursor stands on it; and no source before the
/// least one does.
pub proof fn lemma_head_holds(readers: Seq<SSTableReader>, cursors: Seq<usize>, s: int, i: int)
    requires
        in_step(readers, cursors),
        least(readers, cursors, readers.len() as int) == Some(s),
        0 <= i < readers.len(),
    ensures
        head(readers, cursors, s) is Some,
        head(readers, cursors, i) == head(readers, cursors, s) <==> has_key(
            readers[i].index_pairs(),
            head(readers, cursors, s)->Some_0,
        ),
        i < s ==> head(readers, cursors, i) != head(readers, cursors, s),
{
    let n = readers.len() as int;
    lemma_least(readers, cursors, n);
    let key = head(readers, cursors, s)->Some_0;
    let idx = readers[i].index_pairs();
    assert(source_key(readers, s, cursors[s] as int) == key);
    if head(readers, cursors, i) == Some(key) {
        assert(idx[cursors[i] as int].0 == key);
    }
    if has_key(idx, key) {
        let p = index_of(idx, key);
        lemma_lex_irreflexive(key);
        if p < cursors[i] {
            assert(lex_lt(source_key(readers, i, p), source_key(readers, s, cursors[s] as int)));
        } else if p > cursors[i] {
            assert(readers[i].wf());
            assert(lex_lt(idx[cursors[i] as int].0, idx[p].0));
            assert(head(readers, cursors, i) is Some);
        }
    }
}

/// Over sound tables, the drain of a key reads no error, keeps the best
/// entry, and moves on exactly the cursors that stood on the key.
#[verifier::rlimit(50)]
pub proof fn lemma_drain_sound(
    readers: Seq<SSTableReader>,
    start: Seq<usize>,
    cursors: Seq<usize>,
    key: Seq<u8>,
    best: EntryView,
    from: int,
)
    requires
        cursors_fit(readers, start),
        all_sound(readers),
        0 <= from <= readers.len(),
        cursors.len() == readers.len(),
        forall|i: int| 0 <= i < from ==> cursors[i] == stepped(readers, start, key)[i],
        forall|i: int| from <= i < readers.len() ==> cursors[i] == start[i],
        forall|i: int|
            0 <= i < readers.len() ==> (head(readers, start, i) == Some(key) <==> has_key(
                (#[trigger] readers[i]).index_pairs(),
                key,
            )),
    ensures
        drain(readers, cursors, key, best, from) == (Drain {
            best: best_from(readers, key, best, from),
            cursors: stepped(readers, start, key),
            failed: None,
        }),
    decreases readers.len() - from,
{
    let n = readers.len() as int;
    if from == n {
        assert(cursors =~= stepped(readers, start, key));
    } else {
        assert(sound(readers[from]));
        readers[from].lemma_index_len();
        assert(head(readers, cursors, from) == head(readers, start, from));
        if head(readers, start, from) == Some(key) {
            let found = readers[from]@.get(key)->Ok_0;
            assert(found is Some);
            let next_cursors = advanced(cursors, from);
            let b = if found->Some_0.seq > best.seq {
                found->Some_0
            } else {
                best
            };
            assert forall|i: int| 0 <= i < from + 1 implies next_cursors[i] == stepped(
                readers,
                start,
                key,
            )[i] by {}
            lemma_drain_sound(readers, start, next_cursors, key, b, from + 1);
        } else {
            assert(!has_key(readers[from].index_pairs(), key));
            assert(readers[from]@.get(key)->Ok_0 is None);
            assert forall|i: int| 0 <= i < from + 1 implies cursors[i] == stepped(
                readers,
                start,
                key,
            )[i] by {}
            lemma_drain_sound(readers, start, cursors, key, best, from + 1);
        }
    }
}

/// Where the sources before `upto` do not hold the key, the best entry
/// among all sources is the best among those from `upto` on.
pub proof fn lemma_best_skips(readers: Seq<SSTableReader>, key: Seq<u8>, from: int, upto: int)
    requires
        0 <= from <= upto <= readers.len(),
        forall|i: int| from <= i < upto ==> (#[trigger] entry_of(readers[i], key)) is None,
    ensures
        best_among(readers, key, from) == best_among(readers, key, upto),
    decreases upto - from,
{
    if from < upto {
        lemma_best_skips(readers, key, from + 1, upto);
    }
}

/// What a step yields over sound tables whose cursors move in step.
pub open spec fn step_outcome(readers: Seq<SSTableReader>, cursors: Seq<usize>) -> Step {
    match least(readers, cursors, readers.len() as int) {
        None => Step { item: Ok(None), cursors },
        Some(s) => {
            let key = head(readers, cursors, s)->Some_0;
            Step {
                item: Ok(Some((key, best_among(readers, key, 0)->Some_0))),
                cursors: stepped(readers, cursors, key),
            }
        },
    }
}

/// Over sound tables whose cursors move in step, a step yields the least
/// key still to come with its best entry, and leaves the cursors in step,
/// with that key alone no longer to come.
#[verifier::rlimit(50)]
pub proof fn lemma_next_sound(readers: Seq<SSTableReader>, cursors: Seq<usize>)
    requires
        in_step(readers, cursors),
        all_sound(readers),
    ensures
        next(readers, cursors) == step_outcome(readers, cursors),
        in_step(readers, step_outcome(readers, cursors).cursors),
        match least(readers, cursors, readers.len() as int) {
            None => forall|k: Seq<u8>| !to_come(readers, cursors, k),
            Some(s) => {
                let key = head(readers, cursors, s)->Some_0;
                &&& best_among(readers, key, 0) is Some
                &&& to_come(readers, cursors, key)
                &&& forall|k: Seq<u8>|
                    to_come(readers, cursors, k) ==> k == key || lex_lt(key, k)
                &&& forall|k: Seq<u8>|
                    to_come(readers, stepped(readers, cursors, key), k) <==> (to_come(
                        readers,
                        cursors,
                        k,
                    ) && k != key)
            },
        },
{
    let n = readers.len() as int;
    lemma_least(readers, cursors, n);
    match least(readers, cursors, n) {
        None => {
            assert forall|k: Seq<u8>| !to_come(readers, cursors, k) by {
                if to_come(readers, cursors, k) {
                    let (i, p) = choose|i: int, p: int|
                        0 <= i < readers.len() && cursors[i] <= p < source_len(readers, i)
                            && #[trigger] source_key(readers, i, p) == k;
                    assert(head(readers, cursors, i) is Some);
                }
            }
        },
        Some(s) => {
            let key = head(readers, cursors, s)->Some_0;
            let after = stepped(readers, cursors, key);
            assert(sound(readers[s]));
            readers[s].lemma_index_len();
            assert forall|i: int| 0 <= i < n implies (head(readers, cursors, i) == Some(key)
                <==> has_key((#[trigger] readers[i]).index_pairs(), key)) by {
                lemma_head_holds(readers, cursors, s, i);
            }
            // The first read.
            assert(has_key(readers[s].index_pairs(), key));
            let first = readers[s]@.get(key)->Ok_0->Some_0;
            assert(readers[s]@.get(key) == Ok::<Option<EntryView>, SstError>(Some(first)));
            // The drain.
            let moved = advanced(cursors, s);
            assert forall|i: int| 0 <= i < s + 1 implies moved[i] == after[i] by {
                lemma_head_holds(readers, cursors, s, i);
            }
            lemma_drain_sound(readers, cursors, moved, key, first, s + 1);
            // The best entry among all sources.
            assert forall|i: int| 0 <= i < s implies (#[trigger] entry_of(readers[i], key))
                is None by {
                lemma_head_holds(readers, cursors, s, i);
                assert(sound(readers[i]));
            }
            lemma_best_skips(readers, key, 0, s);
            assert(best_among(readers, key, s) == Some(best_from(readers, key, first, s + 1)));
            // The cursors stay in step.
            assert(cursors_fit(readers, after)) by {
                assert forall|i: int| 0 <= i < readers.len() implies (#[trigger] readers[i]).wf()
                    && after[i] <= source_len(readers, i) by {
                    readers[i].lemma_index_len();
                }
            }
            assert(source_key(readers, s, cursors[s] as int) == key);
            assert forall|i: int, p: int, j: int, q: int|
                0 <= i < readers.len() && 0 <= p < after[i] && 0 <= j < readers.len() && after[j]
                    <= q < source_len(readers, j) implies lex_lt(
                #[trigger] source_key(readers, i, p),
                #[trigger] source_key(readers, j, q),
            ) by {
                readers[i].lemma_index_len();
                readers[j].lemma_index_len();
                lemma_key_below(readers, cursors, s, j, q);
                if p < cursors[i] {
                    assert(lex_lt(source_key(readers, i, p), source_key(readers, j, q)));
                } else {
                    // The cursor of `i` stood on the key.
                    assert(source_key(readers, i, p) == key);
                    if head(readers, cursors, j) == Some(key) {
                        assert(readers[j].wf());
                        assert(lex_lt(
                            readers[j].index_pairs()[cursors[j] as int].0,
                            readers[j].index_pairs()[q].0,
                        ));
                    }
                }
            }
            // What is still to come.
            assert(to_come(readers, cursors, key));
            assert forall|k: Seq<u8>| to_come(readers, cursors, k) implies k == key || lex_lt(
                key,
                k,
            ) by {
                let (i, p) = choose|i: int, p: int|
                    0 <= i < readers.len() && cursors[i] <= p < source_len(readers, i)
                        && #[trigger] source_key(readers, i, p) == k;
                lemma_key_below(readers, cursors, s, i, p);
            }
            assert forall|k: Seq<u8>| to_come(readers, after, k) <==> (to_come(readers, cursors, k)
                && k != key) by {
                if to_come(readers, after, k) {
                    let (i, p) = choose|i: int, p: int|
                        0 <= i < readers.len() && after[i] <= p < source_len(readers, i)
                            && #[trigger] source_key(readers, i, p) == k;
                    readers[i].lemma_index_len();
                    assert(cursors[i] <= p && source_key(readers, i, p) == k);
                    lemma_key_below(readers, cursors, s, i, p);
                    lemma_lex_irreflexive(key);
                    if k == key {
                        // Then the cursor of `i` stood on the key and has moved past it.
                        lemma_head_holds(readers, cursors, s, i);
                        assert(has_key(readers[i].index_pairs(), key)) by {
                            assert(readers[i].index_pairs()[p].0 == key);
                        }
                        assert(readers[i].wf());
                        assert(lex_lt(
                            readers[i].index_pairs()[cursors[i] as int].0,
                            readers[i].index_pairs()[p].0,
                        ));
                    }
                }
                if to_come(readers, cursors, k) && k != key {
                    let (i, p) = choose|i: int, p: int|
                        0 <= i < readers.len() && cursors[i] <= p < source_len(readers, i)
                            && #[trigger] source_key(readers, i, p) == k;
                    readers[i].lemma_index_len();
                    assert(after[i] <= p && source_key(readers, i, p) == k);
                }
            }
        },
    }
}

/// A key at or after a cursor is the least key under the cursors or above
/// it; it is above it if it lies after the cursor of a source that stands
/// on the least key, or in a source that does not.
pub proof fn lemma_key_below(readers: Seq<SSTableReader>, cursors: Seq<usize>, s: int, j: int, q: int)
    requires
        cursors_fit(readers, cursors),
        least(readers, cursors, readers.len() as int) == Some(s),
        0 <= j < readers.len(),
        cursors[j] <= q < source_len(readers, j),
    ensures
        head(readers, cursors, s) is Some,
        source_key(readers, j, q) == head(readers, cursors, s)->Some_0 || lex_lt(
            head(readers, cursors, s)->Some_0,
            source_key(readers, j, q),
        ),
        head(readers, cursors, j) != head(readers, cursors, s) ==> lex_lt(
            head(readers, cursors, s)->Some_0,
            source_key(readers, j, q),
        ),
        q > cursors[j] ==> lex_lt(head(readers, cursors, s)->Some_0, source_key(readers, j, q)),
{
    let n = readers.len() as int;
    lemma_least(readers, cursors, n);
    let key = head(readers, cursors, s)->Some_0;
    let idx = readers[j].index_pairs();
    let hj = idx[cursors[j] as int].0;
    assert(head(readers, cursors, j) == Some(hj));
    assert(!lex_lt(hj, key));
    lemma_lex_total(hj, key);
    if q > cursors[j] {
        assert(readers[j].wf());
        assert(lex_lt(idx[cursors[j] as int].0, idx[q].0));
        if hj != key {
            lemma_lex_transitive(key, hj, idx[q].0);
        }
    }
}

/// Putting a pair with a lesser key in front of an ascending sequence
/// keeps it ascending, and leaves the entries of the other keys as they
/// were.
pub proof fn lemma_cons(pair: Pair, rest: Seq<Pair>, k: Seq<u8>)
    requires
        ascending(rest),
        forall|j: int| 0 <= j < rest.len() ==> lex_lt(pair.0, (#[trigger] rest[j]).0),
    ensures
        ascending(seq![pair] + rest),
        lookup(seq![pair] + rest, pair.0) == Some(pair.1),
        k != pair.0 ==> lookup(seq![pair] + rest, k) == lookup(rest, k),
{
    let out = seq![pair] + rest;
    assert forall|a: int, b: int| #![trigger out[a], out[b]] 0 <= a < b < out.len() implies lex_lt(
        out[a].0,
        out[b].0,
    ) by {
        if a == 0 {
            assert(out[b] == rest[b - 1]);
        } else {
            assert(out[a] == rest[a - 1]);
            assert(out[b] == rest[b - 1]);
            assert(lex_lt(rest[a - 1].0, rest[b - 1].0));
        }
    }
    assert(out[0] == pair);
    lemma_lookup_at(out, 0);
    if k != pair.0 {
        if has_key(out, k) {
            let j = index_of(out, k);
            assert(out[j] == rest[j - 1]);
            assert(rest[j - 1].0 == k);
            lemma_lookup_at(out, j);
            lemma_lookup_at(rest, j - 1);
        }
        if has_key(rest, k) {
            let j = index_of(rest, k);
            assert(out[j + 1] == rest[j]);
            assert(out[j + 1].0 == k);
            lemma_lookup_at(out, j + 1);
            lemma_lookup_at(rest, j);
        }
    }
}

/// Over sound tables whose cursors move in step, the merge reads no error
/// and yields, in ascending order, every key still to come with its best
/// entry.
#[verifier::rlimit(50)]
pub proof fn lemma_merged_sound(readers: Seq<SSTableReader>, cursors: Seq<usize>)
    requires
        in_step(readers, cursors),
        all_sound(readers),
    ensures
        merged(readers, cursors) is Ok,
        ascending(merged(readers, cursors)->Ok_0),
        forall|j: int|
            0 <= j < merged(readers, cursors)->Ok_0.len() ==> to_come(
                readers,
                cursors,
                (#[trigger] merged(readers, cursors)->Ok_0[j]).0,
            ),
        forall|k: Seq<u8>|
            #[trigger] lookup(merged(readers, cursors)->Ok_0, k) == (if to_come(
                readers,
                cursors,
                k,
            ) {
                best_among(readers, k, 0)
            } else {
                None
            }),
    decreases remaining(readers, cursors, readers.len() as int),
{
    let n = readers.len() as int;
    lemma_next_sound(readers, cursors);
    lemma_next(readers, cursors, remaining(readers, cursors, n));
    match least(readers, cursors, n) {
        None => {
            let out = merged(readers, cursors)->Ok_0;
            assert(out =~= Seq::<Pair>::empty());
        },
        Some(s) => {
            let key = head(readers, cursors, s)->Some_0;
            let b = best_among(readers, key, 0)->Some_0;
            let after = stepped(readers, cursors, key);
            lemma_merged_sound(readers, after);
            let rest = merged(readers, after)->Ok_0;
            let out = seq![(key, b)] + rest;
            assert(merged(readers, cursors) == Ok::<Seq<Pair>, SstError>(out));
            assert forall|j: int| 0 <= j < rest.len() implies lex_lt(key, (#[trigger] rest[j]).0) by {
                assert(to_come(readers, after, rest[j].0));
            }
            assert forall|j: int| 0 <= j < out.len() implies to_come(
                readers,
                cursors,
                (#[trigger] out[j]).0,
            ) by {
                if j > 0 {
                    assert(out[j] == rest[j - 1]);
                    assert(to_come(readers, after, rest[j - 1].0));
                }
            }
            assert forall|k: Seq<u8>| #[trigger] lookup(out, k) == (if to_come(readers, cursors, k) {
                best_among(readers, k, 0)
            } else {
                None
            }) by {
                lemma_cons((key, b), rest, k);
                if k != key {
                    assert(lookup(rest, k) == (if to_come(readers, after, k) {
                        best_among(readers, k, 0)
                    } else {
                        None
                    }));
                }
            }
            lemma_cons((key, b), rest, key);
        },
    }
}

/// Merge dedup correctness: over tables that answer every read, the merge
/// of all of them reads no error and ascends strictly by key; it holds a
/// key exactly if some table does, and then with the entry of the highest
/// sequence number among the tables that hold it.
pub proof fn lemma_merge_all(readers: Seq<SSTableReader>)
    requires
        all_sound(readers),
    ensures
        merged(readers, at_start(readers.len())) is Ok,
        ascending(merged(readers, at_start(readers.len()))->Ok_0),
        forall|k: Seq<u8>|
            #[trigger] lookup(merged(readers, at_start(readers.len()))->Ok_0, k)
                == best_among(readers, k, 0),
{
    let cursors = at_start(readers.len());
    assert(in_step(readers, cursors));
    lemma_merged_sound(readers, cursors);
    let out = merged(readers, cursors)->Ok_0;
    assert forall|k: Seq<u8>| #[trigger] lookup(out, k) == best_among(readers, k, 0) by {
        lemma_best_among(readers, k, 0);
        if to_come(readers, cursors, k) {
        } else {
            assert forall|i: int| 0 <= i < readers.len() implies (#[trigger] entry_of(
                readers[i],
                k,
            )) is None by {
                assert(sound(readers[i]));
                if has_key(readers[i].index_pairs(), k) {
                    let p = index_of(readers[i].index_pairs(), k);
                    assert(source_key(readers, i, p) == k);
                }
            }
        }
    }
}

} // verus!
