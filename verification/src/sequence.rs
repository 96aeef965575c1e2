//! Facts about rearranged sequences.

use vstd::prelude::*;

verus! {

/// Exchanging two entries of a sequence keeps its entries.
pub proof fn lemma_swap_keeps_entries<A>(s: Seq<A>, i: int, j: int)
    requires
        0 <= i < s.len(),
        0 <= j < s.len(),
    ensures
        s.update(i, s[j]).update(j, s[i]).to_multiset() == s.to_multiset(),
{
    broadcast use vstd::multiset::group_multiset_axioms;

    let t = s.update(i, s[j]);
    let u = t.update(j, s[i]);
    assert(t.len() == s.len());
    assert(t[j] == s[j]);
    vstd::seq_lib::to_multiset_update(s, i, s[j]);
    vstd::seq_lib::to_multiset_update(t, j, s[i]);
    vstd::seq_lib::to_multiset_contains(s, s[i]);
    vstd::seq_lib::to_multiset_contains(s, s[j]);
    assert(s.contains(s[i]));
    assert(s.contains(s[j]));
    assert(u.to_multiset() =~= s.to_multiset());
}

/// An entry of a sequence occurs in every sequence with the same entries.
pub proof fn lemma_entry_of_permutation<A>(s: Seq<A>, t: Seq<A>, i: int)
    requires
        s.to_multiset() == t.to_multiset(),
        0 <= i < s.len(),
    ensures
        exists|j: int| 0 <= j < t.len() && t[j] == s[i],
        t.contains(s[i]),
{
    broadcast use vstd::seq_lib::to_multiset_contains;

    assert(s.contains(s[i]));
    assert(s.to_multiset().count(s[i]) > 0);
    assert(t.to_multiset().count(s[i]) > 0);
    assert(t.contains(s[i]));
}

} // verus!
