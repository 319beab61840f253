//! Sequences with some of their items left out.

use vstd::prelude::*;

verus! {

/// The items of `items` whose place in `keep` holds `true`, in their order.
pub open spec fn retained<T>(items: Seq<T>, keep: Seq<bool>) -> Seq<T>
    recommends
        items.len() == keep.len(),
    decreases items.len(),
{
    if items.len() == 0 {
        Seq::empty()
    } else if keep.last() {
        retained(items.drop_last(), keep.drop_last()).push(items.last())
    } else {
        retained(items.drop_last(), keep.drop_last())
    }
}

/// Keeping some items leaves no more than there were, and each one left was there.
pub proof fn lemma_retained_within<T>(items: Seq<T>, keep: Seq<bool>)
    requires
        items.len() == keep.len(),
    ensures
        retained(items, keep).len() <= items.len(),
        forall|i: int|
            0 <= i < retained(items, keep).len() ==> items.contains(
                #[trigger] retained(items, keep)[i],
            ),
        !keep.contains(false) ==> retained(items, keep) == items,
    decreases items.len(),
{
    if items.len() > 0 {
        let head = items.drop_last();
        lemma_retained_within(head, keep.drop_last());
        let rest = retained(head, keep.drop_last());
        assert forall|i: int| 0 <= i < retained(items, keep).len() implies items.contains(
            #[trigger] retained(items, keep)[i],
        ) by {
            if i < rest.len() {
                assert(head.contains(rest[i]));
                let k = choose|k: int| 0 <= k < head.len() && head[k] == rest[i];
                assert(items[k] == rest[i]);
            } else {
                assert(items[items.len() - 1] == items.last());
            }
        }
        if !keep.contains(false) {
            assert(keep[keep.len() - 1]);
            assert forall|k: int| 0 <= k < keep.drop_last().len() implies keep.drop_last()[k] by {
                assert(keep[k]);
            }
            if keep.drop_last().contains(false) {
                let k = choose|k: int|
                    0 <= k < keep.drop_last().len() && keep.drop_last()[k] == false;
                assert(keep.drop_last()[k]);
            }
            assert(retained(items, keep) =~= items);
        }
    } else {
        assert(retained(items, keep) =~= items);
    }
}

} // verus!
