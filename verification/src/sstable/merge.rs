//! Merging tables: one ascending stream of keys from several tables, each
//! key with its entry of the highest sequence number.
//!
//! Every source has a cursor into its index. A step takes the least key
//! under the cursors, reads it from every source whose cursor stands on it,
//! in source order, and moves those cursors on.

use crate::bytes::{copy_bytes, lemma_lex_irreflexive, lex_lt, Rank, rank};
use crate::memtable::{EntryView, Pair, ValueEntry};
use crate::sstable::format::SstError;
use crate::sstable::reader::SSTableReader;
use vstd::prelude::*;

verus! {

/// The number of keys in the index of source `i`.
pub open spec fn source_len(readers: Seq<SSTableReader>, i: int) -> nat {
    readers[i].index_pairs().len()
}

/// The key under the cursor of source `i`, or `None` where the source is
/// exhausted.
pub open spec fn head(readers: Seq<SSTableReader>, cursors: Seq<usize>, i: int) -> Option<Seq<u8>> {
    if cursors[i] < source_len(readers, i) {
        Some(readers[i].index_pairs()[cursors[i] as int].0)
    } else {
        None
    }
}

/// Among the first `n` sources, the one with the least key under its
/// cursor; of several with that key, the first.
pub open spec fn least(readers: Seq<SSTableReader>, cursors: Seq<usize>, n: int) -> Option<int>
    decreases n,
{
    if n <= 0 {
        None
    } else {
        match least(readers, cursors, n - 1) {
            Some(s) => if head(readers, cursors, n - 1) is Some && lex_lt(
                head(readers, cursors, n - 1)->Some_0,
                head(readers, cursors, s)->Some_0,
            ) {
                Some(n - 1)
            } else {
                Some(s)
            },
            None => if head(readers, cursors, n - 1) is Some {
                Some(n - 1)
            } else {
                None
            },
        }
    }
}

/// The number of keys that the first `n` sources still have at or after
/// their cursors.
pub open spec fn remaining(readers: Seq<SSTableReader>, cursors: Seq<usize>, n: int) -> nat
    decreases n,
{
    if n <= 0 {
        0
    } else {
        let here = source_len(readers, n - 1) - cursors[n - 1];
        remaining(readers, cursors, n - 1) + (if here > 0 {
            here as nat
        } else {
            0
        })
    }
}

/// One cursor per source, each at the start of its index.
pub open spec fn at_start(n: nat) -> Seq<usize> {
    Seq::new(n, |i: int| 0usize)
}

/// The cursors with source `i` moved on by one key.
pub open spec fn advanced(cursors: Seq<usize>, i: int) -> Seq<usize> {
    cursors.update(i, (cursors[i] + 1) as usize)
}

/// The cursors with source `i` taken out of the merge.
pub open spec fn dropped(readers: Seq<SSTableReader>, cursors: Seq<usize>, i: int) -> Seq<usize> {
    cursors.update(i, source_len(readers, i) as usize)
}

/// What reading the duplicates of a key gives.
pub struct Drain {
    /// The entry with the highest sequence number so far.
    pub best: EntryView,
    /// The cursors afterwards.
    pub cursors: Seq<usize>,
    /// The error of the read that failed, if one did.
    pub failed: Option<SstError>,
}

/// Reads `key` from each source from `from` on whose cursor stands on it,
/// and moves that cursor on. An entry replaces `best` if its sequence
/// number is higher. A read that fails ends the drain, and its source is
/// taken out of the merge.
pub open spec fn drain(
    readers: Seq<SSTableReader>,
    cursors: Seq<usize>,
    key: Seq<u8>,
    best: EntryView,
    from: int,
) -> Drain
    decreases readers.len() - from,
{
    if from < 0 || from >= readers.len() {
        Drain { best, cursors, failed: None }
    } else if head(readers, cursors, from) == Some(key) {
        match readers[from]@.get(key) {
            Err(e) => Drain { best, cursors: dropped(readers, cursors, from), failed: Some(e) },
            Ok(found) => drain(
                readers,
                advanced(cursors, from),
                key,
                if found is Some && found->Some_0.seq > best.seq {
                    found->Some_0
                } else {
                    best
                },
                from + 1,
            ),
        }
    } else {
        drain(readers, cursors, key, best, from + 1)
    }
}

/// What one call for the next entry gives.
pub struct Step {
    /// The merged entry, the end of the stream, or the error of a read.
    pub item: Result<Option<Pair>, SstError>,
    /// The cursors afterwards.
    pub cursors: Seq<usize>,
}

/// The next entry of the merge, by at most `budget` keys that no source can
/// read: a key under a cursor that its own table does not return is passed
/// over.
pub open spec fn next_within(readers: Seq<SSTableReader>, cursors: Seq<usize>, budget: nat) -> Step
    decreases budget,
{
    match least(readers, cursors, readers.len() as int) {
        None => Step { item: Ok(None), cursors },
        Some(s) => {
            let key = head(readers, cursors, s)->Some_0;
            match readers[s]@.get(key) {
                Err(e) => Step { item: Err(e), cursors: dropped(readers, cursors, s) },
                Ok(None) => if budget == 0 {
                    Step { item: Ok(None), cursors }
                } else {
                    next_within(readers, advanced(cursors, s), (budget - 1) as nat)
                },
                Ok(Some(first)) => {
                    let d = drain(readers, advanced(cursors, s), key, first, s + 1);
                    match d.failed {
                        Some(e) => Step { item: Err(e), cursors: d.cursors },
                        None => Step { item: Ok(Some((key, d.best))), cursors: d.cursors },
                    }
                },
            }
        },
    }
}

/// The next entry of the merge.
pub open spec fn next(readers: Seq<SSTableReader>, cursors: Seq<usize>) -> Step {
    next_within(readers, cursors, remaining(readers, cursors, readers.len() as int))
}

/// The cursors are one per source, inside or at the end of its index, and
/// every source is well-formed.
pub open spec fn cursors_fit(readers: Seq<SSTableReader>, cursors: Seq<usize>) -> bool {
    &&& cursors.len() == readers.len()
    &&& forall|i: int|
        0 <= i < readers.len() ==> (#[trigger] readers[i]).wf() && cursors[i] <= source_len(
            readers,
            i,
        )
}

/// Whether the result of a step is the one that the model gives.
pub open spec fn item_matches(
    r: Result<Option<(Vec<u8>, ValueEntry)>, SstError>,
    expect: Result<Option<Pair>, SstError>,
) -> bool {
    match (r, expect) {
        (Ok(Some(p)), Ok(Some(q))) => p.0@ == q.0 && p.1@ == q.1,
        (Ok(None), Ok(None)) => true,
        (Err(e), Err(f)) => e == f,
        _ => false,
    }
}

/// The least source is a live one, and no live source has a key below its
/// key, nor the same key at a lower position.
pub proof fn lemma_least(readers: Seq<SSTableReader>, cursors: Seq<usize>, n: int)
    requires
        0 <= n <= readers.len(),
        cursors.len() == readers.len(),
    ensures
        match least(readers, cursors, n) {
            None => forall|i: int| 0 <= i < n ==> head(readers, cursors, i) is None,
            Some(s) => 0 <= s < n && head(readers, cursors, s) is Some && forall|i: int|
                0 <= i < n && head(readers, cursors, i) is Some ==> !lex_lt(
                    #[trigger] head(readers, cursors, i)->Some_0,
                    head(readers, cursors, s)->Some_0,
                ) && (i < s ==> head(readers, cursors, i) != head(readers, cursors, s)),
        },
    decreases n,
{
    if n > 0 {
        lemma_least(readers, cursors, n - 1);
        let h = head(readers, cursors, n - 1);
        match least(readers, cursors, n - 1) {
            Some(s) => {
                let hs = head(readers, cursors, s)->Some_0;
                if h is Some && lex_lt(h->Some_0, hs) {
                    assert forall|i: int|
                        0 <= i < n && head(readers, cursors, i) is Some implies !lex_lt(
                        #[trigger] head(readers, cursors, i)->Some_0,
                        h->Some_0,
                    ) && (i < n - 1 ==> head(readers, cursors, i) != h) by {
                        let hi = head(readers, cursors, i)->Some_0;
                        lemma_lex_irreflexive(h->Some_0);
                        if i < n - 1 {
                            if lex_lt(hi, h->Some_0) {
                                crate::bytes::lemma_lex_transitive(hi, h->Some_0, hs);
                            }
                        }
                    }
                } else {
                    lemma_lex_irreflexive(hs);
                }
            },
            None => {
                if h is Some {
                    lemma_lex_irreflexive(h->Some_0);
                }
            },
        }
    }
}

/// Moving a live cursor on leaves one key less.
pub proof fn lemma_advance(readers: Seq<SSTableReader>, cursors: Seq<usize>, s: int, n: int)
    requires
        cursors_fit(readers, cursors),
        0 <= s < readers.len(),
        0 <= n <= readers.len(),
        cursors[s] < source_len(readers, s),
    ensures
        cursors_fit(readers, advanced(cursors, s)),
        remaining(readers, advanced(cursors, s), n) == remaining(readers, cursors, n) - (if s < n {
            1int
        } else {
            0int
        }),
    decreases n,
{
    readers[s].lemma_index_len();
    if n > 0 {
        lemma_advance(readers, cursors, s, n - 1);
    }
}

/// Taking a source out leaves no more keys than before.
pub proof fn lemma_drop(readers: Seq<SSTableReader>, cursors: Seq<usize>, s: int, n: int)
    requires
        cursors_fit(readers, cursors),
        0 <= s < readers.len(),
        0 <= n <= readers.len(),
    ensures
        cursors_fit(readers, dropped(readers, cursors, s)),
        remaining(readers, dropped(readers, cursors, s), n) <= remaining(readers, cursors, n),
    decreases n,
{
    readers[s].lemma_index_len();
    if n > 0 {
        lemma_drop(readers, cursors, s, n - 1);
    }
}

/// A drain keeps the cursors fitting and leaves no more keys than before.
pub proof fn lemma_drain(
    readers: Seq<SSTableReader>,
    cursors: Seq<usize>,
    key: Seq<u8>,
    best: EntryView,
    from: int,
)
    requires
        cursors_fit(readers, cursors),
        0 <= from,
    ensures
        cursors_fit(readers, drain(readers, cursors, key, best, from).cursors),
        remaining(
            readers,
            drain(readers, cursors, key, best, from).cursors,
            readers.len() as int,
        ) <= remaining(readers, cursors, readers.len() as int),
    decreases readers.len() - from,
{
    let n = readers.len() as int;
    if from < n {
        if head(readers, cursors, from) == Some(key) {
            match readers[from]@.get(key) {
                Err(e) => {
                    lemma_drop(readers, cursors, from, n);
                },
                Ok(found) => {
                    lemma_advance(readers, cursors, from, n);
                    let b = if found is Some && found->Some_0.seq > best.seq {
                        found->Some_0
                    } else {
                        best
                    };
                    lemma_drain(readers, advanced(cursors, from), key, b, from + 1);
                },
            }
        } else {
            lemma_drain(readers, cursors, key, best, from + 1);
        }
    }
}

/// A step keeps the cursors fitting; one that yields an entry leaves fewer
/// keys than before.
pub proof fn lemma_next(readers: Seq<SSTableReader>, cursors: Seq<usize>, budget: nat)
    requires
        cursors_fit(readers, cursors),
    ensures
        cursors_fit(readers, next_within(readers, cursors, budget).cursors),
        remaining(readers, next_within(readers, cursors, budget).cursors, readers.len() as int)
            <= remaining(readers, cursors, readers.len() as int),
        next_within(readers, cursors, budget).item is Ok && next_within(
            readers,
            cursors,
            budget,
        ).item->Ok_0 is Some ==> remaining(
            readers,
            next_within(readers, cursors, budget).cursors,
            readers.len() as int,
        ) < remaining(readers, cursors, readers.len() as int),
    decreases budget,
{
    let n = readers.len() as int;
    lemma_least(readers, cursors, n);
    match least(readers, cursors, n) {
        None => {},
        Some(s) => {
            let key = head(readers, cursors, s)->Some_0;
            lemma_advance(readers, cursors, s, n);
            lemma_drop(readers, cursors, s, n);
            match readers[s]@.get(key) {
                Err(e) => {},
                Ok(None) => {
                    if budget > 0 {
                        lemma_next(readers, advanced(cursors, s), (budget - 1) as nat);
                    }
                },
                Ok(Some(first)) => {
                    lemma_drain(readers, advanced(cursors, s), key, first, s + 1);
                },
            }
        },
    }
}

/// All entries of the merge from the cursors on, or the error of the first
/// read that fails.
pub open spec fn merged(readers: Seq<SSTableReader>, cursors: Seq<usize>) -> Result<
    Seq<Pair>,
    SstError,
>
    decreases remaining(readers, cursors, readers.len() as int),
    when cursors_fit(readers, cursors)
{
    let step = next(readers, cursors);
    match step.item {
        Err(e) => Err(e),
        Ok(None) => Ok(Seq::empty()),
        Ok(Some(pair)) => {
            proof {
                lemma_next(readers, cursors, remaining(readers, cursors, readers.len() as int));
            }
            match merged(readers, step.cursors) {
                Err(e) => Err(e),
                Ok(rest) => Ok(seq![pair] + rest),
            }
        },
    }
}

/// Whether the result of collecting is the one that the model
/// gives.
pub open spec fn items_match(
    r: Result<Vec<(Vec<u8>, ValueEntry)>, SstError>,
    expect: Result<Seq<Pair>, SstError>,
) -> bool {
    match (r, expect) {
        (Ok(v), Ok(p)) => crate::memtable::pair_views(v@) == p,
        (Err(e), Err(f)) => e == f,
        _ => false,
    }
}

/// Merges several tables into one ascending stream.
pub struct MergeIterator<'a> {
    readers: &'a [SSTableReader],
    cursors: Vec<usize>,
}

impl<'a> MergeIterator<'a> {
    /// The tables that are merged.
    pub closed spec fn sources(&self) -> Seq<SSTableReader> {
        self.readers@
    }

    /// The cursor of each source.
    pub closed spec fn positions(&self) -> Seq<usize> {
        self.cursors@
    }

    /// The cursors fit the sources.
    pub open spec fn wf(&self) -> bool {
        cursors_fit(self.sources(), self.positions())
    }

    /// A merge over `readers`, every cursor at the start of its index.
    pub fn new(readers: &'a [SSTableReader]) -> (it: Self)
        requires
            forall|i: int| 0 <= i < readers@.len() ==> (#[trigger] readers@[i]).wf(),
        ensures
            it.wf(),
            it.sources() == readers@,
            forall|i: int| 0 <= i < readers@.len() ==> #[trigger] it.positions()[i] == 0,
    {
        let mut cursors: Vec<usize> = Vec::with_capacity(readers.len());
        let mut i: usize = 0;
        while i < readers.len()
            invariant
                0 <= i <= readers@.len(),
                cursors@.len() == i,
                forall|j: int| 0 <= j < i ==> #[trigger] cursors@[j] == 0,
            decreases readers@.len() - i,
        {
            cursors.push(0);
            i += 1;
        }
        MergeIterator { readers, cursors }
    }

    /// The source with the least key under its cursor.
    fn least_source(&self) -> (r: Option<usize>)
        requires
            self.wf(),
        ensures
            match least(self.sources(), self.positions(), self.sources().len() as int) {
                None => r is None,
                Some(s) => r == Some(s as usize) && s < self.sources().len(),
            },
    {
        let n: usize = self.readers.len();
        let mut best: Option<usize> = None;
        let mut i: usize = 0;
        while i < n
            invariant
                0 <= i <= n,
                n == self.readers@.len(),
                self.wf(),
                match least(self.sources(), self.positions(), i as int) {
                    None => best is None,
                    Some(s) => best == Some(s as usize) && 0 <= s < i,
                },
            decreases n - i,
        {
            proof {
                lemma_least(self.sources(), self.positions(), i as int);
            }
            if self.cursors[i] < self.readers[i].len() {
                match best {
                    None => {
                        best = Some(i);
                    },
                    Some(s) => {
                        let here: &[u8] = self.readers[i].key_at(self.cursors[i]);
                        let there: &[u8] = self.readers[s].key_at(self.cursors[s]);
                        match rank(here, there) {
                            Rank::Below => {
                                best = Some(i);
                            },
                            _ => {},
                        }
                    },
                }
            }
            i += 1;
        }
        best
    }

    /// The next key of the merge with its entry of the highest sequence
    /// number, or `None` when every source is exhausted. A read that fails
    /// is returned as the error, and its source takes no further part.
    #[verifier::rlimit(50)]
    pub fn next_entry(&mut self) -> (r: Result<Option<(Vec<u8>, ValueEntry)>, SstError>)
        requires
            old(self).wf(),
        ensures
            final(self).wf(),
            final(self).sources() == old(self).sources(),
            item_matches(r, next(old(self).sources(), old(self).positions()).item),
            final(self).positions() == next(old(self).sources(), old(self).positions()).cursors,
    {
        let ghost readers = self.sources();
        let ghost n = readers.len() as int;
        let ghost goal = next(readers, self.positions());
        let count: usize = self.readers.len();
        loop
            invariant
                self.wf(),
                self.sources() == readers,
                readers == old(self).sources(),
                n == readers.len(),
                count == n,
                goal == next(readers, old(self).positions()),
                goal == next(readers, self.positions()),
            decreases remaining(readers, self.positions(), n),
        {
            let ghost cursors = self.positions();
            proof {
                lemma_least(readers, cursors, n);
            }
            let s: usize = match self.least_source() {
                None => {
                    return Ok(None);
                },
                Some(s) => s,
            };
            let key: Vec<u8> = copy_bytes(self.readers[s].key_at(self.cursors[s]));
            proof {
                lemma_advance(readers, cursors, s as int, n);
                lemma_drop(readers, cursors, s as int, n);
            }
            let first: ValueEntry = match self.readers[s].get(key.as_slice()) {
                Err(e) => {
                    let end: usize = self.readers[s].len();
                    self.cursors.set(s, end);
                    return Err(e);
                },
                Ok(None) => {
                    let end: usize = self.readers[s].len();
                    let at: usize = self.cursors[s];
                    self.cursors.set(s, at + 1);
                    continue ;
                },
                Ok(Some(e)) => e,
            };
            let end: usize = self.readers[s].len();
            let at: usize = self.cursors[s];
            self.cursors.set(s, at + 1);
            let mut best: ValueEntry = first;
            let mut t: usize = s + 1;
            let ghost whole = drain(readers, advanced(cursors, s as int), key@, first@, s + 1);
            while t < count
                invariant
                    s < t <= count,
                    count == n,
                    n == readers.len(),
                    self.wf(),
                    self.sources() == readers,
                    readers == old(self).sources(),
                    goal == next(readers, old(self).positions()),
                    goal.item == (match whole.failed {
                        Some(e) => Err::<Option<Pair>, SstError>(e),
                        None => Ok::<Option<Pair>, SstError>(Some((key@, whole.best))),
                    }),
                    goal.cursors == whole.cursors,
                    whole == drain(readers, self.positions(), key@, best@, t as int),
                decreases count - t,
            {
                let ghost now = self.positions();
                if self.cursors[t] < self.readers[t].len() && crate::bytes::same_bytes(
                    self.readers[t].key_at(self.cursors[t]),
                    key.as_slice(),
                ) {
                    proof {
                        lemma_advance(readers, now, t as int, n);
                        lemma_drop(readers, now, t as int, n);
                    }
                    match self.readers[t].get(key.as_slice()) {
                        Err(e) => {
                            let end: usize = self.readers[t].len();
                            self.cursors.set(t, end);
                            return Err(e);
                        },
                        Ok(found) => {
                            let at: usize = self.cursors[t];
                            self.cursors.set(t, at + 1);
                            match found {
                                Some(d) => {
                                    if d.seq > best.seq {
                                        best = d;
                                    }
                                },
                                None => {},
                            }
                        },
                    }
                }
                t += 1;
            }
            return Ok(Some((key, best)));
        }
    }

    /// Collects all remaining entries of the merge.
    #[verifier::rlimit(50)]
    pub fn collect_all(&mut self) -> (r: Result<Vec<(Vec<u8>, ValueEntry)>, SstError>)
        requires
            old(self).wf(),
        ensures
            final(self).wf(),
            final(self).sources() == old(self).sources(),
            items_match(r, merged(old(self).sources(), old(self).positions())),
    {
        let ghost readers = self.sources();
        let ghost n = readers.len() as int;
        let ghost goal = merged(readers, self.positions());
        let mut result: Vec<(Vec<u8>, ValueEntry)> = Vec::new();
        loop
            invariant
                self.wf(),
                self.sources() == readers,
                readers == old(self).sources(),
                n == readers.len(),
                goal == merged(readers, old(self).positions()),
                goal == (match merged(readers, self.positions()) {
                    Err(e) => Err::<Seq<Pair>, SstError>(e),
                    Ok(rest) => Ok::<Seq<Pair>, SstError>(crate::memtable::pair_views(result@) + rest),
                }),
            decreases remaining(readers, self.positions(), n),
        {
            let ghost cursors = self.positions();
            proof {
                lemma_next(readers, cursors, remaining(readers, cursors, n));
            }
            match self.next_entry() {
                Err(e) => {
                    return Err(e);
                },
                Ok(None) => {
                    assert(crate::memtable::pair_views(result@) + Seq::<Pair>::empty()
                        =~= crate::memtable::pair_views(result@));
                    return Ok(result);
                },
                Ok(Some(pair)) => {
                    let ghost before = crate::memtable::pair_views(result@);
                    let ghost p = (pair.0@, pair.1@);
                    result.push(pair);
                    proof {
                        assert(crate::memtable::pair_views(result@) =~= before.push(p));
                        let rest = merged(readers, self.positions());
                        if rest is Ok {
                            assert(before + (seq![p] + rest->Ok_0) =~= before.push(p) + rest->Ok_0);
                        }
                    }
                },
            }
        }
    }
}

} // verus!
