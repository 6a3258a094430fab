//! Sequences that are made of chunks, one after the other: where each chunk
//! lies in the whole.

use vstd::prelude::*;

verus! {

/// The chunks one after the other.
pub open spec fn joined<T>(chunks: Seq<Seq<T>>) -> Seq<T>
    decreases chunks.len(),
{
    if chunks.len() == 0 {
        Seq::empty()
    } else {
        joined(chunks.drop_last()) + chunks.last()
    }
}

/// Where chunk `k` starts among the joined chunks.
pub open spec fn chunk_start<T>(chunks: Seq<Seq<T>>, k: int) -> int {
    joined(chunks.take(k)).len() as int
}

/// Chunk `k` lies among the joined chunks from its start on, and the chunks
/// before it lie before it.
pub proof fn lemma_joined_chunk<T>(chunks: Seq<Seq<T>>, k: int)
    requires
        0 <= k < chunks.len(),
    ensures
        chunk_start(chunks, k) + chunks[k].len() == chunk_start(chunks, k + 1),
        chunk_start(chunks, k + 1) <= joined(chunks).len(),
        joined(chunks).subrange(chunk_start(chunks, k), chunk_start(chunks, k + 1)) == chunks[k],
    decreases chunks.len(),
{
    let n = chunks.len() as int;
    let init = chunks.drop_last();
    assert(chunks.take(k + 1).drop_last() =~= chunks.take(k));
    assert(chunks.take(k + 1).last() == chunks[k]);
    if k == n - 1 {
        assert(chunks.take(k) =~= init);
        assert(chunks.take(k + 1) =~= chunks);
        assert(joined(chunks).subrange(chunk_start(chunks, k), chunk_start(chunks, k + 1))
            =~= chunks[k]);
    } else {
        lemma_joined_chunk(init, k);
        assert(init.take(k) =~= chunks.take(k));
        assert(init.take(k + 1) =~= chunks.take(k + 1));
        assert(joined(chunks).subrange(chunk_start(chunks, k), chunk_start(chunks, k + 1))
            =~= joined(init).subrange(chunk_start(init, k), chunk_start(init, k + 1)));
    }
}

/// The starts of the chunks grow, and the last chunk ends where the joined
/// chunks end.
pub proof fn lemma_chunk_starts<T>(chunks: Seq<Seq<T>>, k: int)
    requires
        0 <= k <= chunks.len(),
    ensures
        0 <= chunk_start(chunks, k) <= joined(chunks).len(),
        k == chunks.len() ==> chunk_start(chunks, k) == joined(chunks).len(),
    decreases chunks.len() - k,
{
    if k == chunks.len() {
        assert(chunks.take(k) =~= chunks);
    } else {
        lemma_joined_chunk(chunks, k);
    }
}

} // verus!
