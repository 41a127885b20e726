//! Sums of integer-valued functions over sequences, and the fact that such
//! a sum only depends on the multiset of elements: the flocking forces are
//! sums over neighbour sets that a spatial query may hand out in any order.
use vstd::prelude::*;

verus! {

broadcast use
    vstd::multiset::group_multiset_axioms,
    vstd::seq_lib::group_to_multiset_ensures,
;

/// Sum of `f` over the elements of `s`, left to right.
pub open spec fn sum_of<A>(s: Seq<A>, f: spec_fn(A) -> int) -> int
    decreases s.len(),
{
    if s.len() == 0 {
        0
    } else {
        sum_of(s.drop_last(), f) + f(s.last())
    }
}

/// Appending one element adds exactly its contribution to the sum.
pub proof fn lemma_sum_of_push<A>(s: Seq<A>, f: spec_fn(A) -> int, x: A)
    ensures
        sum_of(s.push(x), f) == sum_of(s, f) + f(x),
{
    assert(s.push(x).drop_last() =~= s);
    assert(s.push(x).last() == x);
}

/// Extending a prefix by one element adds exactly that element's
/// contribution.
pub proof fn lemma_sum_of_take_step<A>(s: Seq<A>, f: spec_fn(A) -> int, k: int)
    requires
        0 <= k < s.len(),
    ensures
        sum_of(s.take(k + 1), f) == sum_of(s.take(k), f) + f(s[k]),
{
    assert(s.take(k + 1).drop_last() =~= s.take(k));
    assert(s.take(k + 1).last() == s[k]);
}

/// Removing one element removes exactly its contribution from the sum.
pub proof fn lemma_sum_of_remove<A>(s: Seq<A>, f: spec_fn(A) -> int, j: int)
    requires
        0 <= j < s.len(),
    ensures
        sum_of(s.remove(j), f) == sum_of(s, f) - f(s[j]),
    decreases s.len(),
{
    if j == s.len() - 1 {
        assert(s.remove(j) =~= s.drop_last());
    } else {
        assert(s.remove(j).drop_last() =~= s.drop_last().remove(j));
        assert(s.remove(j).last() == s.last());
        lemma_sum_of_remove(s.drop_last(), f, j);
    }
}

/// Sequences holding the same elements with the same multiplicities have the
/// same sum, whatever their order.
pub proof fn lemma_sum_of_permutation<A>(s1: Seq<A>, s2: Seq<A>, f: spec_fn(A) -> int)
    requires
        s1.to_multiset() == s2.to_multiset(),
    ensures
        sum_of(s1, f) == sum_of(s2, f),
    decreases s1.len(),
{
    assert(s1.to_multiset().len() == s1.len());
    assert(s2.to_multiset().len() == s2.len());
    if s1.len() > 0 {
        let x = s1.last();
        let d1 = s1.drop_last();
        assert(s1 =~= d1.push(x));
        assert(s1.to_multiset() == d1.to_multiset().insert(x));
        assert(s2.to_multiset().count(x) > 0);
        assert(s2.contains(x));
        let j = choose|j: int| 0 <= j < s2.len() && s2[j] == x;
        let d2 = s2.remove(j);
        assert(d2.to_multiset() == s2.to_multiset().remove(x));
        assert(d1.to_multiset() =~= d2.to_multiset());
        lemma_sum_of_permutation(d1, d2, f);
        lemma_sum_of_remove(s2, f, j);
        assert(sum_of(s1, f) == sum_of(d1, f) + f(x));
    }
}

} // verus!
