//! Counting facts about sequences, and permutations of them.
use vstd::prelude::*;
use vstd::set_lib::*;

verus! {

/// A sequence of distinct integers in `[0, n)` has at most `n` elements.
pub proof fn lemma_distinct_bounded(s: Seq<int>, n: int)
    requires
        s.no_duplicates(),
        n >= 0,
        forall|i: int| 0 <= i < s.len() ==> 0 <= #[trigger] s[i] < n,
    ensures
        s.len() <= n,
{
    broadcast use vstd::set::group_set_axioms;
    broadcast use vstd::seq_lib::seq_to_set_is_finite;
    s.unique_seq_to_set();
    {
        lemma_int_range(0, n);
        assert forall|x: int| s.to_set().contains(x) implies set_int_range(0, n).contains(x) by {
            assert(s.contains(x));
            let i = choose|i: int| 0 <= i < s.len() && s[i] == x;
            assert(0 <= s[i] < n);
        }
        assert(s.to_set().subset_of(set_int_range(0, n)));
        lemma_len_subset(s.to_set(), set_int_range(0, n));
    }
}


/// `perm` maps the positions of a sequence of length `n` one to one onto
/// themselves.
pub open spec fn is_permutation(perm: Seq<int>, n: int) -> bool {
    &&& perm.len() == n
    &&& forall|i: int| 0 <= i < n ==> 0 <= #[trigger] perm[i] < n
    &&& forall|i: int, j: int| 0 <= i < n && 0 <= j < n && i != j ==> #[trigger] perm[i] != #[trigger] perm[j]
}

/// `b` holds the elements of `a` at the positions `perm` maps to.
pub open spec fn permuted<T>(b: Seq<T>, a: Seq<T>, perm: Seq<int>) -> bool {
    &&& is_permutation(perm, a.len() as int)
    &&& b.len() == a.len()
    &&& forall|i: int| 0 <= i < a.len() ==> b[i] == a[#[trigger] perm[i]]
}

} // verus!
