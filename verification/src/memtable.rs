//! The memtable: the sorted in-memory buffer of recent mutations.
//!
//! Every mutation carries a sequence number. One that is not newer than the
//! entry it would replace is ignored, so replaying a log twice changes
//! nothing. A delete is kept as a tombstone: an entry without a value.

use crate::bytes::{copy_bytes, lex_lt};
use crate::ordered::{
    as_map, ascending, has_key, index_of, keyed, lemma_insert_entry, lemma_lookup_at,
    lemma_replace_entry, locate,
};
use vstd::prelude::*;

verus! {

/// A sequence number with the value it wrote, or with no value for a delete.
#[derive(Debug, PartialEq, Eq)]
pub struct ValueEntry {
    /// The sequence number of the mutation.
    pub seq: u64,
    /// The value, or `None` for a tombstone.
    pub value: Option<Vec<u8>>,
}

/// What a [`ValueEntry`] holds, as mathematical values.
pub struct EntryView {
    pub seq: u64,
    pub value: Option<Seq<u8>>,
}

impl View for ValueEntry {
    type V = EntryView;

    open spec fn view(&self) -> EntryView {
        EntryView {
            seq: self.seq,
            value: match self.value {
                Some(v) => Some(v@),
                None => None,
            },
        }
    }
}

impl Clone for ValueEntry {
    fn clone(&self) -> (r: Self)
        ensures
            r@ == self@,
    {
        ValueEntry {
            seq: self.seq,
            value: match &self.value {
                Some(v) => Some(copy_bytes(v.as_slice())),
                None => None,
            },
        }
    }
}

/// A key with its entry.
pub type Pair = (Seq<u8>, EntryView);

/// The views of a vector of keys with their entries.
pub open spec fn pair_views(v: Seq<(Vec<u8>, ValueEntry)>) -> Seq<Pair> {
    Seq::new(v.len(), |i: int| (v[i].0@, v[i].1@))
}

/// A saturating sum, as the size accounting uses it.
pub open spec fn sat_add(a: usize, b: nat) -> usize {
    if a + b > usize::MAX {
        usize::MAX
    } else {
        (a + b) as usize
    }
}

/// A saturating difference, as the size accounting uses it.
pub open spec fn sat_sub(a: usize, b: nat) -> usize {
    if a < b {
        0
    } else {
        (a - b) as usize
    }
}

/// The number of value bytes of an entry: none for a tombstone.
pub open spec fn live_len(e: EntryView) -> nat {
    match e.value {
        Some(v) => v.len(),
        None => 0,
    }
}

/// The bytes of a pair that count for the size: its key and, if it is live,
/// its value.
pub open spec fn pair_bytes(pair: Pair) -> nat {
    pair.0.len() + live_len(pair.1)
}

/// The bytes of the keys and live values of the pairs.
pub open spec fn payload(pairs: Seq<Pair>) -> nat
    decreases pairs.len(),
{
    if pairs.len() == 0 {
        0
    } else {
        payload(pairs.drop_last()) + pair_bytes(pairs.last())
    }
}

/// The payload of pairs of which one was replaced.
pub proof fn lemma_payload_update(pairs: Seq<Pair>, i: int, pair: Pair)
    requires
        0 <= i < pairs.len(),
    ensures
        payload(pairs.update(i, pair)) + pair_bytes(pairs[i]) == payload(pairs) + pair_bytes(pair),
    decreases pairs.len(),
{
    let after = pairs.update(i, pair);
    if i == pairs.len() - 1 {
        assert(after.drop_last() =~= pairs.drop_last());
    } else {
        lemma_payload_update(pairs.drop_last(), i, pair);
        assert(after.drop_last() =~= pairs.drop_last().update(i, pair));
    }
}

/// The payload of pairs among which one was inserted.
pub proof fn lemma_payload_insert(pairs: Seq<Pair>, i: int, pair: Pair)
    requires
        0 <= i <= pairs.len(),
    ensures
        payload(pairs.insert(i, pair)) == payload(pairs) + pair_bytes(pair),
    decreases pairs.len(),
{
    let after = pairs.insert(i, pair);
    if i == pairs.len() {
        assert(after.drop_last() =~= pairs);
    } else {
        lemma_payload_insert(pairs.drop_last(), i, pair);
        assert(after.drop_last() =~= pairs.drop_last().insert(i, pair));
        assert(after.last() == pairs.last());
    }
}

/// What a memtable holds.
pub struct MemView {
    /// The entries by key.
    pub map: Map<Seq<u8>, EntryView>,
    /// The approximate number of bytes of keys and live values.
    pub approx_size: usize,
}

impl MemView {
    /// Whether a mutation of `key` with `seq` is stale: an entry for the key
    /// exists whose sequence number is at least `seq`.
    pub open spec fn stale(self, key: Seq<u8>, seq: u64) -> bool {
        self.map.contains_key(key) && self.map[key].seq >= seq
    }

    /// The size after a mutation of `key` that is not stale and brings
    /// `new_len` value bytes: the bytes of a value that it replaces leave,
    /// the bytes of a key that is new are added.
    pub open spec fn size_after(self, key: Seq<u8>, new_len: nat) -> usize {
        if self.map.contains_key(key) {
            sat_add(sat_sub(self.approx_size, live_len(self.map[key])), new_len)
        } else {
            sat_add(sat_add(self.approx_size, key.len()), new_len)
        }
    }

    /// The memtable after `put(key, value, seq)`.
    pub open spec fn put(self, key: Seq<u8>, value: Seq<u8>, seq: u64) -> MemView {
        if self.stale(key, seq) {
            self
        } else {
            MemView {
                map: self.map.insert(key, EntryView { seq, value: Some(value) }),
                approx_size: self.size_after(key, value.len()),
            }
        }
    }

    /// The memtable after `delete(key, seq)`.
    pub open spec fn delete(self, key: Seq<u8>, seq: u64) -> MemView {
        if self.stale(key, seq) {
            self
        } else {
            MemView {
                map: self.map.insert(key, EntryView { seq, value: None }),
                approx_size: self.size_after(key, 0),
            }
        }
    }
}

/// The sorted in-memory write buffer.
#[derive(Debug)]
pub struct Memtable {
    entries: Vec<(Vec<u8>, ValueEntry)>,
    approx_size: usize,
}

impl View for Memtable {
    type V = MemView;

    open spec fn view(&self) -> MemView {
        MemView { map: as_map(self.pairs()), approx_size: self.size() }
    }
}

impl Memtable {
    /// The entries in ascending key order, tombstones included.
    pub closed spec fn pairs(&self) -> Seq<Pair> {
        pair_views(self.entries@)
    }

    /// The tracked size.
    pub closed spec fn size(&self) -> usize {
        self.approx_size
    }

    /// The keys ascend strictly.
    pub open spec fn wf(&self) -> bool {
        ascending(self.pairs())
    }

    /// The tracked size is the number of bytes of all keys and live values.
    /// It is so as long as that number fits in a `usize`: the accounting
    /// saturates.
    pub open spec fn exact(&self) -> bool {
        self.size() == payload(self.pairs())
    }

    /// An empty memtable.
    pub fn new() -> (m: Self)
        ensures
            m.wf(),
            m.exact(),
            m.pairs().len() == 0,
            m@.map == Map::<Seq<u8>, EntryView>::empty(),
            m@.approx_size == 0,
    {
        let m = Memtable { entries: Vec::new(), approx_size: 0 };
        assert(m@.map =~= Map::<Seq<u8>, EntryView>::empty());
        m
    }

    /// The position of `key` among the entries, or the position at which it
    /// would have to be inserted.
    fn find(&self, key: &[u8]) -> (r: (usize, bool))
        requires
            self.wf(),
        ensures
            r.0 <= self.pairs().len(),
            r.1 ==> r.0 < self.pairs().len() && self.pairs()[r.0 as int].0 == key@,
            r.1 == has_key(self.pairs(), key@),
            forall|i: int| 0 <= i < r.0 ==> lex_lt((#[trigger] self.pairs()[i]).0, key@),
            forall|i: int|
                r.0 + (if r.1 { 1int } else { 0int }) <= i < self.pairs().len() ==> lex_lt(
                    key@,
                    (#[trigger] self.pairs()[i]).0,
                ),
    {
        let ghost p = self.pairs();
        let ghost q = keyed(self.entries@);
        proof {
            assert forall|i: int, j: int| #![trigger q[i], q[j]] 0 <= i < j < q.len() implies lex_lt(
                q[i].0,
                q[j].0,
            ) by {
                assert(lex_lt(p[i].0, p[j].0));
            }
        }
        let r = locate(&self.entries, key);
        proof {
            if has_key(q, key@) {
                assert(p[index_of(q, key@)].0 == key@);
            }
            if has_key(p, key@) {
                assert(q[index_of(p, key@)].0 == key@);
            }
            assert forall|i: int| 0 <= i < r.0 implies lex_lt((#[trigger] p[i]).0, key@) by {
                assert(lex_lt(q[i].0, key@));
            }
            assert forall|i: int|
                r.0 + (if r.1 { 1int } else { 0int }) <= i < p.len() implies lex_lt(
                key@,
                (#[trigger] p[i]).0,
            ) by {
                assert(lex_lt(key@, q[i].0));
            }
        }
        r
    }

    /// Installs `entry` for `key` unless an entry for the key exists whose
    /// sequence number is at least that of `entry`, and accounts for the
    /// bytes that come and go.
    pub fn install(&mut self, key: Vec<u8>, entry: ValueEntry)
        requires
            old(self).wf(),
        ensures
            final(self).wf(),
            old(self)@.stale(key@, entry.seq) ==> final(self)@ == old(self)@ && final(self).pairs()
                == old(self).pairs(),
            !old(self)@.stale(key@, entry.seq) ==> final(self)@ == (MemView {
                map: old(self)@.map.insert(key@, entry@),
                approx_size: old(self)@.size_after(key@, live_len(entry@)),
            }),
            old(self).exact() && payload(final(self).pairs()) <= usize::MAX ==> final(self).exact(),
    {
        let ghost p = self.pairs();
        let new_len: usize = match &entry.value {
            Some(v) => v.len(),
            None => 0,
        };
        let (i, found) = self.find(key.as_slice());
        if found {
            proof {
                lemma_lookup_at(p, i as int);
            }
            if self.entries[i].1.seq >= entry.seq {
                return ;
            }
            let old_len: usize = match &self.entries[i].1.value {
                Some(v) => v.len(),
                None => 0,
            };
            self.approx_size = self.approx_size.saturating_sub(old_len).saturating_add(new_len);
            let ghost pair = (key@, entry@);
            self.entries.set(i, (key, entry));
            proof {
                assert(self.pairs() =~= p.update(i as int, pair));
                lemma_replace_entry(p, i as int, pair.1);
                lemma_payload_update(p, i as int, pair);
                let nothing = (Seq::<u8>::empty(), EntryView { seq: 0, value: None });
                lemma_payload_update(p, i as int, nothing);
                assert(payload(p) >= pair_bytes(p[i as int]));
            }
        } else {
            self.approx_size = self.approx_size.saturating_add(key.len()).saturating_add(new_len);
            let ghost pair = (key@, entry@);
            self.entries.insert(i, (key, entry));
            proof {
                assert(self.pairs() =~= p.insert(i as int, pair));
                lemma_insert_entry(p, i as int, pair);
                lemma_payload_insert(p, i as int, pair);
            }
        }
    }

    /// Inserts a value for `key` with sequence number `seq`. The write is
    /// ignored if the key already has an entry whose sequence number is at
    /// least `seq`.
    pub fn put(&mut self, key: Vec<u8>, value: Vec<u8>, seq: u64)
        requires
            old(self).wf(),
        ensures
            final(self).wf(),
            final(self)@ == old(self)@.put(key@, value@, seq),
            old(self).exact() && payload(final(self).pairs()) <= usize::MAX ==> final(self).exact(),
    {
        self.install(key, ValueEntry { seq, value: Some(value) });
    }

    /// Records a tombstone for `key` with sequence number `seq`. The delete
    /// is ignored if the key already has an entry whose sequence number is
    /// at least `seq`.
    pub fn delete(&mut self, key: Vec<u8>, seq: u64)
        requires
            old(self).wf(),
        ensures
            final(self).wf(),
            final(self)@ == old(self)@.delete(key@, seq),
            old(self).exact() && payload(final(self).pairs()) <= usize::MAX ==> final(self).exact(),
    {
        self.install(key, ValueEntry { seq, value: None });
    }

    /// The raw entry of `key`, a tombstone included.
    pub fn get_entry(&self, key: &[u8]) -> (r: Option<&ValueEntry>)
        requires
            self.wf(),
        ensures
            match r {
                Some(e) => self@.map.contains_key(key@) && self@.map[key@] == e@,
                None => !self@.map.contains_key(key@),
            },
    {
        let (i, found) = self.find(key);
        if found {
            proof {
                lemma_lookup_at(self.pairs(), i as int);
            }
            Some(&self.entries[i].1)
        } else {
            None
        }
    }

    /// The sequence number and value of `key`, if it has a live value.
    pub fn get(&self, key: &[u8]) -> (r: Option<(u64, &[u8])>)
        requires
            self.wf(),
        ensures
            match r {
                Some((seq, value)) => self@.map.contains_key(key@) && self@.map[key@]
                    == (EntryView { seq, value: Some(value@) }),
                None => !self@.map.contains_key(key@) || self@.map[key@].value is None,
            },
    {
        match self.get_entry(key) {
            Some(e) => match &e.value {
                Some(v) => Some((e.seq, v.as_slice())),
                None => None,
            },
            None => None,
        }
    }

    /// Whether the memtable holds an entry for `key`, live or tombstone.
    pub fn contains_key(&self, key: &[u8]) -> (r: bool)
        requires
            self.wf(),
        ensures
            r == self@.map.contains_key(key@),
    {
        let (i, found) = self.find(key);
        found
    }

    /// The number of entries, tombstones included.
    pub fn len(&self) -> (r: usize)
        ensures
            r == self.pairs().len(),
    {
        self.entries.len()
    }

    /// Whether the memtable holds no entry.
    pub fn is_empty(&self) -> (r: bool)
        ensures
            r == (self.pairs().len() == 0),
    {
        self.entries.len() == 0
    }

    /// The approximate number of bytes of keys and live values.
    pub fn approx_size(&self) -> (r: usize)
        ensures
            r == self@.approx_size,
    {
        self.approx_size
    }

    /// All entries in ascending key order, tombstones included.
    pub fn iter(&self) -> (r: &[(Vec<u8>, ValueEntry)])
        ensures
            pair_views(r@) == self.pairs(),
    {
        self.entries.as_slice()
    }

    /// Removes all entries and resets the size to zero.
    pub fn clear(&mut self)
        ensures
            final(self).wf(),
            final(self).exact(),
            final(self).pairs().len() == 0,
            final(self)@.map == Map::<Seq<u8>, EntryView>::empty(),
            final(self)@.approx_size == 0,
    {
        self.entries.clear();
        self.approx_size = 0;
        assert(self@.map =~= Map::<Seq<u8>, EntryView>::empty());
    }
}


impl Default for Memtable {
    fn default() -> (m: Self)
        ensures
            m.wf(),
            m.exact(),
            m.pairs().len() == 0,
            m@.map == Map::<Seq<u8>, EntryView>::empty(),
            m@.approx_size == 0,
    {
        Memtable::new()
    }
}

} // verus!
