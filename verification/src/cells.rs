//! Sets of numbers handed out as lists.

use std::collections::{BTreeSet, HashSet};
use vstd::prelude::*;
use vstd::std_specs::cmp::OrdSpec;
use vstd::std_specs::iter::IteratorSpec;

verus! {

broadcast use {
    vstd::std_specs::btree::group_btree_axioms,
    vstd::std_specs::hash::group_hash_axioms,
    vstd::laws_cmp::group_laws_cmp,
};

/// Whether each number of `list` is less than the next.
pub open spec fn ascending(list: Seq<usize>) -> bool {
    forall|i: int, j: int| 0 <= i < j < list.len() ==> list[i] < list[j]
}

/// The numbers of `set`, each once, the least first.
pub fn sorted_items(set: &BTreeSet<usize>) -> (list: Vec<usize>)
    ensures
        list@.to_set() == set@,
        ascending(list@),
{
    let mut list: Vec<usize> = Vec::new();
    let iter = set.iter();
    let ghost all = iter.remaining();
    for x in it: iter
        invariant
            it.seq() == all,
            list@.len() == it.index(),
            forall|k: int| 0 <= k < list@.len() ==> list@[k] == *all[k],
    {
        list.push(*x);
    }
    assert(list@ =~= all.unref());
    proof {
        assert(vstd::laws_cmp::obeys_cmp::<usize>());
        assert(vstd::laws_cmp::obeys_cmp::<&usize>());
        vstd::std_specs::btree::axiom_increasing_seq_meaning::<&usize>(all);
        assert forall|i: int, j: int| 0 <= i < j < list@.len() implies list@[i] < list@[j] by {
            assert(OrdSpec::cmp_spec(&all[i], &all[j]) is Less);
        }
    }
    list
}

/// The numbers of `set`, each once, in no particular order.
pub fn unordered_items(set: &HashSet<usize>) -> (list: Vec<usize>)
    ensures
        list@.to_set() == set@,
        list@.no_duplicates(),
{
    let mut list: Vec<usize> = Vec::new();
    let iter = set.iter();
    let ghost all = iter.remaining();
    for x in it: iter
        invariant
            it.seq() == all,
            list@.len() == it.index(),
            forall|k: int| 0 <= k < list@.len() ==> list@[k] == *all[k],
    {
        list.push(*x);
    }
    assert(list@ =~= all.unref());
    proof {
        assert forall|i: int, j: int| 0 <= i < list@.len() && 0 <= j < list@.len() && i != j
            implies list@[i] != list@[j] by {
            assert(all[i] != all[j]);
        }
    }
    list
}

} // verus!
