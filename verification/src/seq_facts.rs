//! Small facts about sequences of vertex indices used across the library.
use vstd::prelude::*;
use vstd::set_lib::*;

verus! {

/// A sequence of distinct indices below `n` has at most `n` elements.
pub proof fn lemma_distinct_bounded(s: Seq<usize>, n: usize)
    requires
        s.no_duplicates(),
        forall|i: int| 0 <= i < s.len() ==> s[i] < n,
    ensures
        s.len() <= n,
{
    s.unique_seq_to_set();
    let r = Set::<usize>::range(0, n);
    range_set_properties::<usize>(0, n);
    assert(s.to_set().subset_of(r));
    lemma_len_subset(s.to_set(), r);
}

/// A sequence of distinct indices below `n` that misses one of them has fewer than `n` elements.
pub proof fn lemma_distinct_bounded_missing(s: Seq<usize>, n: usize, v: usize)
    requires
        s.no_duplicates(),
        forall|i: int| 0 <= i < s.len() ==> s[i] < n,
        v < n,
        !s.contains(v),
    ensures
        s.len() < n,
{
    s.unique_seq_to_set();
    let r = Set::<usize>::range(0, n);
    range_set_properties::<usize>(0, n);
    assert(r.contains(v));
    assert(s.to_set().subset_of(r.remove(v)));
    lemma_len_subset(s.to_set(), r.remove(v));
}

} // verus!
