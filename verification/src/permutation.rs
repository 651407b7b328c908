//! Exchanging two elements of a sequence keeps its elements.

use vstd::prelude::*;

verus! {

broadcast use vstd::multiset::group_multiset_axioms;

/// `s` with the elements at `i` and `j` exchanged.
pub open spec fn swapped<A>(s: Seq<A>, i: int, j: int) -> Seq<A> {
    s.update(i, s[j]).update(j, s[i])
}

/// An exchange keeps every element, each as often, and the length.
pub proof fn lemma_swapped_multiset<A>(s: Seq<A>, i: int, j: int)
    requires
        0 <= i < s.len(),
        0 <= j < s.len(),
    ensures
        swapped(s, i, j).to_multiset() =~= s.to_multiset(),
        swapped(s, i, j).len() == s.len(),
{
    broadcast use vstd::seq_lib::to_multiset_update, vstd::seq_lib::to_multiset_contains, vstd::multiset::group_multiset_properties;

    let m = s.to_multiset();
    let s1 = s.update(i, s[j]);
    assert(s.contains(s[i]));
    assert(m.count(s[i]) > 0);
    assert(s1[j] == s[j]);
    let m1 = m.insert(s[j]).remove(s[i]);
    assert(s1.to_multiset() == m1);
    let m2 = m1.insert(s[i]).remove(s[j]);
    assert(s1.update(j, s[i]).to_multiset() == m2);
    assert forall|v: A| m2.count(v) == m.count(v) by {
        if v == s[i] && v == s[j] {
        } else if v == s[i] {
        } else if v == s[j] {
        } else {
        }
    }
    assert(m2 =~= m);
}

} // verus!
