//! Byte strings: lexicographic order and copying.

use vstd::prelude::*;

verus! {

/// `a` and `b` agree on their first `i` bytes, and at position `i` either `a`
/// ends while `b` goes on, or `a` holds the smaller byte.
pub open spec fn splits_below(a: Seq<u8>, b: Seq<u8>, i: int) -> bool {
    &&& 0 <= i <= a.len()
    &&& i <= b.len()
    &&& a.take(i) == b.take(i)
    &&& if i == a.len() {
        i < b.len()
    } else {
        i < b.len() && a[i] < b[i]
    }
}

/// Strict lexicographic order on byte strings, the order of keys everywhere
/// in the store.
pub open spec fn lex_lt(a: Seq<u8>, b: Seq<u8>) -> bool {
    exists|i: int| #[trigger] splits_below(a, b, i)
}

/// How two byte strings stand to each other.
#[derive(Clone, Copy, Debug, PartialEq, Eq, Structural)]
pub enum Rank {
    Below,
    Same,
    Above,
}

/// No byte string is below itself.
pub proof fn lemma_lex_irreflexive(a: Seq<u8>)
    ensures
        !lex_lt(a, a),
{
}

/// Two byte strings are never below each other.
pub proof fn lemma_lex_asymmetric(a: Seq<u8>, b: Seq<u8>)
    ensures
        !(lex_lt(a, b) && lex_lt(b, a)),
{
    if lex_lt(a, b) && lex_lt(b, a) {
        let i = choose|i: int| #[trigger] splits_below(a, b, i);
        let j = choose|j: int| #[trigger] splits_below(b, a, j);
        if i < j {
            assert(b.take(j)[i] == a.take(j)[i]);
        } else if j < i {
            assert(a.take(i)[j] == b.take(i)[j]);
        }
    }
}

/// The order is transitive.
pub proof fn lemma_lex_transitive(a: Seq<u8>, b: Seq<u8>, c: Seq<u8>)
    requires
        lex_lt(a, b),
        lex_lt(b, c),
    ensures
        lex_lt(a, c),
{
    let i = choose|i: int| #[trigger] splits_below(a, b, i);
    let j = choose|j: int| #[trigger] splits_below(b, c, j);
    let k = if i <= j { i } else { j };
    assert forall|n: int| 0 <= n < k implies a[n] == c[n] by {
        assert(a.take(i)[n] == b.take(i)[n]);
        assert(b.take(j)[n] == c.take(j)[n]);
    }
    assert(a.take(k) =~= c.take(k));
    if i < j {
        assert(b.take(j)[i] == c.take(j)[i]);
    } else if j < i {
        assert(a.take(i)[j] == b.take(i)[j]);
    }
    assert(splits_below(a, c, k));
}

/// Any two byte strings are equal or one is below the other.
pub proof fn lemma_lex_total(a: Seq<u8>, b: Seq<u8>)
    ensures
        a == b || lex_lt(a, b) || lex_lt(b, a),
{
    assert(a.take(0) =~= b.take(0));
    lemma_lex_total_from(a, b, 0);
}

proof fn lemma_lex_total_from(a: Seq<u8>, b: Seq<u8>, i: int)
    requires
        0 <= i <= a.len(),
        i <= b.len(),
        a.take(i) == b.take(i),
    ensures
        a == b || lex_lt(a, b) || lex_lt(b, a),
    decreases a.len() - i,
{
    if i == a.len() {
        if i == b.len() {
            assert(a.take(i) == a);
            assert(b.take(i) == b);
        } else {
            assert(splits_below(a, b, i));
        }
    } else if i == b.len() {
        assert(splits_below(b, a, i));
    } else if a[i] < b[i] {
        assert(splits_below(a, b, i));
    } else if b[i] < a[i] {
        assert(splits_below(b, a, i));
    } else {
        assert(a.take(i + 1) =~= a.take(i).push(a[i]));
        assert(b.take(i + 1) =~= b.take(i).push(b[i]));
        lemma_lex_total_from(a, b, i + 1);
    }
}

/// Compares two byte strings in lexicographic order.
pub fn rank(a: &[u8], b: &[u8]) -> (r: Rank)
    ensures
        r == Rank::Below <==> lex_lt(a@, b@),
        r == Rank::Same <==> a@ == b@,
        r == Rank::Above <==> lex_lt(b@, a@),
{
    proof {
        lemma_lex_asymmetric(a@, b@);
        lemma_lex_irreflexive(a@);
    }
    let mut i: usize = 0;
    assert(a@.take(0) =~= b@.take(0));
    while i < a.len() && i < b.len()
        invariant
            0 <= i <= a@.len(),
            i <= b@.len(),
            a@.take(i as int) == b@.take(i as int),
            !(lex_lt(a@, b@) && lex_lt(b@, a@)),
            !lex_lt(a@, a@),
        decreases a@.len() - i,
    {
        if a[i] < b[i] {
            assert(splits_below(a@, b@, i as int));
            return Rank::Below;
        }
        if a[i] > b[i] {
            assert(splits_below(b@, a@, i as int));
            return Rank::Above;
        }
        assert(a@.take(i + 1) =~= a@.take(i as int).push(a@[i as int]));
        assert(b@.take(i + 1) =~= b@.take(i as int).push(b@[i as int]));
        i += 1;
    }
    if i < b.len() {
        assert(splits_below(a@, b@, i as int));
        Rank::Below
    } else if i < a.len() {
        assert(splits_below(b@, a@, i as int));
        Rank::Above
    } else {
        assert(a@.take(i as int) == a@);
        assert(b@.take(i as int) == b@);
        Rank::Same
    }
}

/// Whether two byte strings hold the same bytes.
pub fn same_bytes(a: &[u8], b: &[u8]) -> (r: bool)
    ensures
        r == (a@ == b@),
{
    if a.len() != b.len() {
        return false;
    }
    let mut i: usize = 0;
    assert(a@.take(0) =~= b@.take(0));
    while i < a.len()
        invariant
            0 <= i <= a@.len(),
            a@.len() == b@.len(),
            a@.take(i as int) == b@.take(i as int),
        decreases a@.len() - i,
    {
        if a[i] != b[i] {
            return false;
        }
        assert(a@.take(i + 1) =~= a@.take(i as int).push(a@[i as int]));
        assert(b@.take(i + 1) =~= b@.take(i as int).push(b@[i as int]));
        i += 1;
    }
    assert(a@.take(i as int) == a@);
    assert(b@.take(i as int) == b@);
    true
}

/// An owned copy of a byte string.
pub fn copy_bytes(a: &[u8]) -> (r: Vec<u8>)
    ensures
        r@ == a@,
{
    let mut out: Vec<u8> = Vec::with_capacity(a.len());
    out.extend_from_slice(a);
    assert(out@ =~= a@);
    out
}

} // verus!
