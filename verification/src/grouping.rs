//! Sorting and grouping numbers.

use itertools::Itertools;
use vstd::prelude::*;

verus! {

/// Whether no number of `list` is greater than a later one.
pub open spec fn non_descending(list: Seq<usize>) -> bool {
    forall|i: int, j: int| 0 <= i < j < list.len() ==> list[i] <= list[j]
}

/// Whether `groups` cuts a list into its runs of equal numbers: no group is empty,
/// the numbers of a group are equal, and two neighbouring groups hold different
/// numbers.
pub open spec fn are_runs(groups: Seq<Seq<usize>>) -> bool {
    &&& forall|g: int| 0 <= g < groups.len() ==> (#[trigger] groups[g]).len() > 0
    &&& forall|g: int, i: int|
        0 <= g < groups.len() && 0 <= i < groups[g].len() ==> (#[trigger] groups[g][i])
            == groups[g][0]
    &&& forall|g: int| 0 <= g < groups.len() - 1 ==> (#[trigger] groups[g])[0] != groups[g + 1][0]
}

/// The numbers of the groups, group after group.
pub open spec fn joined(groups: Seq<Seq<usize>>) -> Seq<usize>
    decreases groups.len(),
{
    if groups.len() == 0 {
        Seq::empty()
    } else {
        joined(groups.drop_last()) + groups.last()
    }
}

/// `Itertools::sorted` on the numbers of `items`: the same numbers, each as often as
/// in `items`, in ascending order.
#[verifier::external_body]
pub(crate) fn sorted(items: Vec<usize>) -> (list: Vec<usize>)
    ensures
        list@.to_multiset() == items@.to_multiset(),
        non_descending(list@),
{
    items.into_iter().sorted().collect()
}

/// `Itertools::chunk_by` on the numbers of `keys`, each number being its own key:
/// the runs of equal numbers that follow each other, in their order.
#[verifier::external_body]
pub(crate) fn chunk_by(keys: &Vec<usize>) -> (groups: Vec<Vec<usize>>)
    ensures
        joined(groups.deep_view()) == keys@,
        are_runs(groups.deep_view()),
{
    keys.iter().chunk_by(|key| **key).into_iter().map(|(_, group)| group.copied().collect()).collect()
}

/// The groups before a group make up the beginning of the joined list, and the group
/// follows them.
pub proof fn lemma_joined_prefix(groups: Seq<Seq<usize>>, g: int)
    requires
        0 <= g < groups.len(),
    ensures
        joined(groups.take(g)).len() + groups[g].len() <= joined(groups).len(),
        joined(groups.take(g + 1)) == joined(groups.take(g)) + groups[g],
        forall|k: int|
            0 <= k < groups[g].len() ==> joined(groups)[joined(groups.take(g)).len() + k]
                == #[trigger] groups[g][k],
        forall|i: int|
            0 <= i < joined(groups.take(g)).len() ==> joined(groups)[i] == #[trigger] joined(
                groups.take(g),
            )[i],
    decreases groups.len() - g,
{
    assert(groups.take(g + 1).drop_last() =~= groups.take(g));
    assert(groups.take(g + 1).last() == groups[g]);
    if g == groups.len() - 1 {
        assert(groups.take(g + 1) =~= groups);
    } else {
        lemma_joined_prefix(groups, g + 1);
        let longer = joined(groups.take(g + 1));
        assert forall|k: int| 0 <= k < groups[g].len() implies joined(groups)[joined(
            groups.take(g),
        ).len() + k] == #[trigger] groups[g][k] by {
            assert(longer[joined(groups.take(g)).len() + k] == groups[g][k]);
        }
        assert forall|i: int| 0 <= i < joined(groups.take(g)).len() implies joined(groups)[i]
            == #[trigger] joined(groups.take(g))[i] by {
            assert(longer[i] == joined(groups.take(g))[i]);
        }
    }
}

/// In a list cut into runs, a number that begins a run differs from the number before
/// it, and a number inside a run equals the number before it.
pub proof fn lemma_run_boundaries(groups: Seq<Seq<usize>>, g: int, k: int)
    requires
        are_runs(groups),
        0 <= g < groups.len(),
        0 <= k < groups[g].len(),
    ensures
        joined(groups.take(g)).len() + k < joined(groups).len(),
        joined(groups)[joined(groups.take(g)).len() + k] == groups[g][0],
        k > 0 ==> joined(groups)[joined(groups.take(g)).len() + k - 1] == groups[g][0],
        k == 0 && g > 0 ==> joined(groups.take(g)).len() > 0 && joined(groups)[joined(
            groups.take(g),
        ).len() - 1] != groups[g][0],
{
    lemma_joined_prefix(groups, g);
    assert(groups[g][k] == groups[g][0]);
    if k > 0 {
        assert(groups[g][k - 1] == groups[g][0]);
    }
    if k == 0 && g > 0 {
        lemma_joined_prefix(groups, g - 1);
        let before = groups[g - 1];
        assert(before.len() > 0);
        assert(before[before.len() - 1] == before[0]);
        assert(joined(groups.take(g)) == joined(groups.take(g - 1)) + before);
        let at = joined(groups.take(g - 1)).len() + before.len() - 1;
        assert(joined(groups)[at] == before[before.len() - 1]);
    }
}

/// A list that holds the numbers of a list without duplicates, in ascending order,
/// holds each once, and each is less than the next.
pub proof fn lemma_sorted_distinct(items: Seq<usize>, list: Seq<usize>)
    requires
        items.no_duplicates(),
        list.to_multiset() == items.to_multiset(),
        non_descending(list),
    ensures
        list.len() == items.len(),
        forall|x: usize| list.contains(x) <==> items.contains(x),
        forall|i: int, j: int| 0 <= i < j < list.len() ==> list[i] < list[j],
{
    broadcast use vstd::multiset::group_multiset_axioms;

    items.to_multiset_ensures();
    list.to_multiset_ensures();
    items.lemma_multiset_has_no_duplicates();
    list.lemma_multiset_has_no_duplicates_conv();
    assert forall|x: usize| list.contains(x) <==> items.contains(x) by {
        assert(list.contains(x) <==> list.to_multiset().count(x) > 0);
        assert(items.contains(x) <==> items.to_multiset().count(x) > 0);
    }
}

} // verus!
