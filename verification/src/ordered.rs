//! Vectors of byte-string keys in strictly ascending order, read as
//! mappings: the ordered map that the memtable and the table index rest on.

use crate::bytes::{lemma_lex_irreflexive, lemma_lex_transitive, lex_lt, Rank, rank};
use vstd::prelude::*;

verus! {

/// The keys of a vector as byte strings, each with its value.
pub open spec fn keyed<V>(v: Seq<(Vec<u8>, V)>) -> Seq<(Seq<u8>, V)> {
    Seq::new(v.len(), |i: int| (v[i].0@, v[i].1))
}

/// The keys ascend strictly, so no key occurs twice.
pub open spec fn ascending<V>(p: Seq<(Seq<u8>, V)>) -> bool {
    forall|i: int, j: int| #![trigger p[i], p[j]] 0 <= i < j < p.len() ==> lex_lt(p[i].0, p[j].0)
}

/// Whether some pair holds `key`.
pub open spec fn has_key<V>(p: Seq<(Seq<u8>, V)>, key: Seq<u8>) -> bool {
    exists|i: int| 0 <= i < p.len() && (#[trigger] p[i]).0 == key
}

/// The position of a pair that holds `key`.
pub open spec fn index_of<V>(p: Seq<(Seq<u8>, V)>, key: Seq<u8>) -> int {
    choose|i: int| 0 <= i < p.len() && (#[trigger] p[i]).0 == key
}

/// The entry of `key`, if a pair holds it.
pub open spec fn lookup<V>(p: Seq<(Seq<u8>, V)>, key: Seq<u8>) -> Option<V> {
    if has_key(p, key) {
        Some(p[index_of(p, key)].1)
    } else {
        None
    }
}

/// The mapping that the pairs describe.
pub open spec fn as_map<V>(p: Seq<(Seq<u8>, V)>) -> Map<Seq<u8>, V> {
    Map::new(|k: Seq<u8>| has_key(p, k), |k: Seq<u8>| p[index_of(p, k)].1)
}

/// In an ascending sequence the pair at `i` is the one that `lookup` finds
/// for its key.
pub proof fn lemma_lookup_at<V>(p: Seq<(Seq<u8>, V)>, i: int)
    requires
        ascending(p),
        0 <= i < p.len(),
    ensures
        has_key(p, p[i].0),
        index_of(p, p[i].0) == i,
        lookup(p, p[i].0) == Some(p[i].1),
{
    let key = p[i].0;
    assert(p[i].0 == key);
    let j = index_of(p, key);
    lemma_lex_irreflexive(key);
    if j < i {
        assert(lex_lt(p[j].0, p[i].0));
    } else if i < j {
        assert(lex_lt(p[i].0, p[j].0));
    }
}

/// Replacing the entry at `i` keeps the order and changes the mapping at
/// that key alone.
pub proof fn lemma_replace_entry<V>(p: Seq<(Seq<u8>, V)>, i: int, e: V)
    requires
        ascending(p),
        0 <= i < p.len(),
    ensures
        ascending(p.update(i, (p[i].0, e))),
        as_map(p.update(i, (p[i].0, e))) == as_map(p).insert(p[i].0, e),
{
    let q = p.update(i, (p[i].0, e));
    assert forall|a: int, b: int| #![trigger q[a], q[b]] 0 <= a < b < q.len() implies lex_lt(
        q[a].0,
        q[b].0,
    ) by {
        assert(lex_lt(p[a].0, p[b].0));
    }
    assert forall|k: Seq<u8>| has_key(q, k) == has_key(p, k) by {
        if has_key(q, k) {
            let j = index_of(q, k);
            assert(p[j].0 == k);
        }
        if has_key(p, k) {
            let j = index_of(p, k);
            assert(q[j].0 == k);
        }
    }
    assert forall|k: Seq<u8>| has_key(q, k) implies #[trigger] as_map(q)[k] == as_map(p).insert(
        p[i].0,
        e,
    )[k] by {
        let j = index_of(q, k);
        lemma_lookup_at(q, j);
        lemma_lookup_at(p, j);
    }
    assert(as_map(q) =~= as_map(p).insert(p[i].0, e));
}

/// Inserting a new key at its place keeps the order and adds the key to the
/// mapping.
pub proof fn lemma_insert_entry<V>(p: Seq<(Seq<u8>, V)>, i: int, pair: (Seq<u8>, V))
    requires
        ascending(p),
        0 <= i <= p.len(),
        forall|j: int| 0 <= j < i ==> lex_lt((#[trigger] p[j]).0, pair.0),
        forall|j: int| i <= j < p.len() ==> lex_lt(pair.0, (#[trigger] p[j]).0),
    ensures
        ascending(p.insert(i, pair)),
        as_map(p.insert(i, pair)) == as_map(p).insert(pair.0, pair.1),
{
    let q = p.insert(i, pair);
    assert forall|a: int, b: int| #![trigger q[a], q[b]] 0 <= a < b < q.len() implies lex_lt(
        q[a].0,
        q[b].0,
    ) by {
        if b < i {
            assert(lex_lt(p[a].0, p[b].0));
        } else if b == i {
            assert(lex_lt(p[a].0, pair.0));
        } else if a < i {
            assert(lex_lt(p[a].0, p[b - 1].0));
        } else if a == i {
            assert(lex_lt(pair.0, p[b - 1].0));
        } else {
            assert(lex_lt(p[a - 1].0, p[b - 1].0));
        }
    }
    assert(q[i] == pair);
    assert forall|k: Seq<u8>| has_key(q, k) == (has_key(p, k) || k == pair.0) by {
        if has_key(q, k) {
            let j = index_of(q, k);
            if j < i {
                assert(p[j].0 == k);
            } else if j > i {
                assert(p[j - 1].0 == k);
            }
        }
        if has_key(p, k) {
            let j = index_of(p, k);
            if j < i {
                assert(q[j].0 == k);
            } else {
                assert(q[j + 1].0 == k);
            }
        }
        if k == pair.0 {
            assert(q[i].0 == k);
        }
    }
    assert forall|k: Seq<u8>| has_key(q, k) implies #[trigger] as_map(q)[k] == as_map(p).insert(
        pair.0,
        pair.1,
    )[k] by {
        let j = index_of(q, k);
        lemma_lookup_at(q, j);
        if j < i {
            lemma_lookup_at(p, j);
            lemma_lex_irreflexive(k);
        } else if j > i {
            lemma_lookup_at(p, j - 1);
            lemma_lex_irreflexive(k);
        }
    }
    assert(as_map(q) =~= as_map(p).insert(pair.0, pair.1));
}

/// Binary search: whether an entry holds `key`, and its position, or else
/// the position at which the key would have to be inserted.
pub fn locate<V>(entries: &Vec<(Vec<u8>, V)>, key: &[u8]) -> (r: (usize, bool))
    requires
        ascending(keyed(entries@)),
    ensures
        r.0 <= keyed(entries@).len(),
        r.1 ==> r.0 < keyed(entries@).len() && keyed(entries@)[r.0 as int].0 == key@,
        r.1 == has_key(keyed(entries@), key@),
        forall|i: int| 0 <= i < r.0 ==> lex_lt((#[trigger] keyed(entries@)[i]).0, key@),
        forall|i: int|
            r.0 + (if r.1 { 1int } else { 0int }) <= i < keyed(entries@).len() ==> lex_lt(
                key@,
                (#[trigger] keyed(entries@)[i]).0,
            ),
{
    let ghost p = keyed(entries@);
    let mut lo: usize = 0;
    let mut hi: usize = entries.len();
    while lo < hi
        invariant
            0 <= lo <= hi <= p.len(),
            p == keyed(entries@),
            p.len() == entries@.len(),
            ascending(p),
            forall|i: int| 0 <= i < lo ==> lex_lt((#[trigger] p[i]).0, key@),
            forall|i: int| hi <= i < p.len() ==> lex_lt(key@, (#[trigger] p[i]).0),
        decreases hi - lo,
    {
        let mid: usize = lo + (hi - lo) / 2;
        let ghost mid_key = p[mid as int].0;
        match rank(entries[mid].0.as_slice(), key) {
            Rank::Below => {
                assert forall|i: int| 0 <= i < mid + 1 implies lex_lt(
                    (#[trigger] p[i]).0,
                    key@,
                ) by {
                    if i < mid {
                        assert(lex_lt(p[i].0, p[mid as int].0));
                        lemma_lex_transitive(p[i].0, mid_key, key@);
                    }
                }
                lo = mid + 1;
            },
            Rank::Above => {
                assert forall|i: int| mid <= i < p.len() implies lex_lt(
                    key@,
                    (#[trigger] p[i]).0,
                ) by {
                    if mid < i {
                        assert(lex_lt(p[mid as int].0, p[i].0));
                        lemma_lex_transitive(key@, mid_key, p[i].0);
                    }
                }
                hi = mid;
            },
            Rank::Same => {
                assert forall|i: int| 0 <= i < mid implies lex_lt(
                    (#[trigger] p[i]).0,
                    key@,
                ) by {
                    assert(lex_lt(p[i].0, p[mid as int].0));
                }
                assert forall|i: int| mid + 1 <= i < p.len() implies lex_lt(
                    key@,
                    (#[trigger] p[i]).0,
                ) by {
                    assert(lex_lt(p[mid as int].0, p[i].0));
                }
                assert(p[mid as int].0 == key@);
                return (mid, true);
            },
        }
    }
    proof {
        if has_key(p, key@) {
            let i = index_of(p, key@);
            lemma_lex_irreflexive(key@);
            if i < lo {
                assert(lex_lt(p[i].0, key@));
            } else {
                assert(lex_lt(key@, p[i].0));
            }
        }
    }
    (lo, false)
}



/// The least key of an ascending sequence is below every other key of it.
proof fn lemma_first_is_least<V>(p: Seq<(Seq<u8>, V)>, key: Seq<u8>)
    requires
        ascending(p),
        has_key(p, key),
    ensures
        p.len() > 0,
        key == p[0].0 || lex_lt(p[0].0, key),
{
    let i = index_of(p, key);
    if i > 0 {
        assert(lex_lt(p[0].0, p[i].0));
    }
}

/// Without its first pair, an ascending sequence describes the mapping
/// without the first key.
proof fn lemma_skip_first<V>(p: Seq<(Seq<u8>, V)>)
    requires
        ascending(p),
        p.len() > 0,
    ensures
        ascending(p.skip(1)),
        as_map(p.skip(1)) == as_map(p).remove(p[0].0),
{
    let q = p.skip(1);
    assert forall|a: int, b: int| #![trigger q[a], q[b]] 0 <= a < b < q.len() implies lex_lt(
        q[a].0,
        q[b].0,
    ) by {
        assert(lex_lt(p[a + 1].0, p[b + 1].0));
    }
    assert forall|k: Seq<u8>| has_key(q, k) == (has_key(p, k) && k != p[0].0) by {
        if has_key(q, k) {
            let j = index_of(q, k);
            assert(p[j + 1].0 == k);
            assert(lex_lt(p[0].0, p[j + 1].0));
            lemma_lex_irreflexive(k);
        }
        if has_key(p, k) && k != p[0].0 {
            let j = index_of(p, k);
            assert(q[j - 1].0 == k);
        }
    }
    assert forall|k: Seq<u8>| has_key(q, k) implies #[trigger] as_map(q)[k] == as_map(p).remove(
        p[0].0,
    )[k] by {
        let j = index_of(q, k);
        lemma_lookup_at(q, j);
        lemma_lookup_at(p, j + 1);
    }
    assert(as_map(q) =~= as_map(p).remove(p[0].0));
}

/// An ascending sequence is determined by the mapping that it describes.
pub proof fn lemma_ascending_unique<V>(p: Seq<(Seq<u8>, V)>, q: Seq<(Seq<u8>, V)>)
    requires
        ascending(p),
        ascending(q),
        as_map(p) == as_map(q),
    ensures
        p == q,
    decreases p.len(),
{
    if p.len() == 0 {
        if q.len() > 0 {
            assert(q[0].0 == q[0].0);
            assert(has_key(q, q[0].0));
            assert(as_map(q).contains_key(q[0].0));
            assert(has_key(p, q[0].0));
        }
        assert(p =~= q);
    } else {
        assert(has_key(p, p[0].0));
        assert(as_map(p).contains_key(p[0].0));
        assert(has_key(q, p[0].0));
        lemma_first_is_least(q, p[0].0);
        assert(has_key(q, q[0].0));
        assert(as_map(q).contains_key(q[0].0));
        assert(has_key(p, q[0].0));
        lemma_first_is_least(p, q[0].0);
        crate::bytes::lemma_lex_asymmetric(p[0].0, q[0].0);
        assert(p[0].0 == q[0].0);
        lemma_lookup_at(p, 0);
        lemma_lookup_at(q, 0);
        assert(as_map(p)[p[0].0] == p[0].1);
        assert(as_map(q)[q[0].0] == q[0].1);
        assert(p[0] == q[0]);
        lemma_skip_first(p);
        lemma_skip_first(q);
        lemma_ascending_unique(p.skip(1), q.skip(1));
        assert(p =~= seq![p[0]] + p.skip(1));
        assert(q =~= seq![q[0]] + q.skip(1));
    }
}

/// In an ascending sequence the entry of the last key is the last entry,
/// and the entries of the other keys are those of the sequence without its
/// last pair.
pub proof fn lemma_lookup_last<V>(p: Seq<(Seq<u8>, V)>, key: Seq<u8>)
    requires
        ascending(p),
        p.len() > 0,
    ensures
        ascending(p.drop_last()),
        !has_key(p.drop_last(), p.last().0),
        key == p.last().0 ==> lookup(p, key) == Some(p.last().1),
        key != p.last().0 ==> lookup(p, key) == lookup(p.drop_last(), key),
{
    let init = p.drop_last();
    let n = p.len() - 1;
    assert forall|a: int, b: int| #![trigger init[a], init[b]] 0 <= a < b < init.len() implies lex_lt(
        init[a].0,
        init[b].0,
    ) by {
        assert(lex_lt(p[a].0, p[b].0));
    }
    if has_key(init, p.last().0) {
        let j = index_of(init, p.last().0);
        assert(lex_lt(p[j].0, p[n].0));
        lemma_lex_irreflexive(p[n].0);
    }
    lemma_lookup_at(p, n);
    if key != p.last().0 {
        if has_key(p, key) {
            let j = index_of(p, key);
            assert(init[j].0 == key);
            lemma_lookup_at(p, j);
            lemma_lookup_at(init, j);
        }
        if has_key(init, key) {
            let j = index_of(init, key);
            assert(p[j].0 == key);
            lemma_lookup_at(p, j);
            lemma_lookup_at(init, j);
        }
    }
}

} // verus!
