//! Sequences that hold the same elements equally often: what one can say
//! of two such sequences.

use vstd::prelude::*;
use vstd::multiset::Multiset;
use vstd::seq_lib::{
    lemma_multiset_commutative, to_multiset_build, to_multiset_contains, to_multiset_len,
    to_multiset_remove,
};

verus! {

/// The empty sequence holds nothing.
pub proof fn lemma_empty_to_multiset<A>()
    ensures
        Seq::<A>::empty().to_multiset() == Multiset::<A>::empty(),
{
    to_multiset_len(Seq::<A>::empty());
}

/// What stands in a sequence from `i` on is the element at `i` and what
/// stands from `i + 1` on.
pub proof fn lemma_skip_to_multiset<A>(s: Seq<A>, i: int)
    requires
        0 <= i < s.len(),
    ensures
        s.skip(i).to_multiset() =~= s.skip(i + 1).to_multiset().insert(s[i]),
{
    let head = Seq::<A>::empty().push(s[i]);
    assert(s.skip(i) =~= head + s.skip(i + 1));
    lemma_multiset_commutative(head, s.skip(i + 1));
    to_multiset_build(Seq::<A>::empty(), s[i]);
    lemma_empty_to_multiset::<A>();
}

/// Sequences that hold the same elements equally often hold the same elements.
pub proof fn lemma_same_members<A>(s1: Seq<A>, s2: Seq<A>, a: A)
    requires
        s1.to_multiset() == s2.to_multiset(),
    ensures
        s1.contains(a) == s2.contains(a),
{
    to_multiset_contains(s1, a);
    to_multiset_contains(s2, a);
}

/// Sequences that hold the same elements equally often still do so after
/// the same function has been applied to each element.
pub proof fn lemma_map_rearranged<A, B>(s1: Seq<A>, s2: Seq<A>, f: spec_fn(A) -> B)
    requires
        s1.to_multiset() == s2.to_multiset(),
    ensures
        s1.map_values(f).to_multiset() == s2.map_values(f).to_multiset(),
    decreases s1.len(),
{
    to_multiset_len(s1);
    to_multiset_len(s2);
    if s1.len() == 0 {
        assert(s1.map_values(f) =~= s2.map_values(f));
    } else {
        let x = s1.last();
        lemma_same_members(s1, s2, x);
        let i = choose|i: int| 0 <= i < s2.len() && s2[i] == x;
        let rest1 = s1.drop_last();
        let rest2 = s2.remove(i);
        to_multiset_remove(s1, s1.len() - 1);
        to_multiset_remove(s2, i);
        lemma_map_rearranged(rest1, rest2, f);
        let m1 = s1.map_values(f);
        let m2 = s2.map_values(f);
        assert(m1 =~= rest1.map_values(f).push(f(x)));
        to_multiset_build(rest1.map_values(f), f(x));
        assert(m2.remove(i) =~= rest2.map_values(f));
        to_multiset_remove(m2, i);
        to_multiset_contains(m2, f(x));
    }
}

} // verus!
