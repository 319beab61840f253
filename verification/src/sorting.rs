//! Ordering the displayed rows by the sort keys.
//!
//! The rows are sorted once for each key, from the least significant key to the most
//! significant one. Each pass is an insertion sort: a row moves ahead of another only
//! when it compares as less, so rows that do not are left in the order they had.

use vstd::prelude::*;
use crate::index::{ColumnIdx, IsAscending, RowIdx};
use crate::viewer::{CellOrder, RowViewer};

verus! {

/// A sort key: the column, and whether the rows ascend.
pub type SortKey = (ColumnIdx, IsAscending);

/// How the rows `a` and `b` of `rows` compare by `key`: as the viewer compares them by
/// the key's column, the other way round for a descending key.
pub open spec fn key_order<R, V: RowViewer<R>>(
    vwr: &V,
    rows: Seq<R>,
    key: SortKey,
    a: RowIdx,
    b: RowIdx,
) -> CellOrder {
    let order = vwr.cell_order(rows[a.0 as int], rows[b.0 as int], key.0.0);
    if key.1.0 {
        order
    } else {
        order.reversed()
    }
}

/// Whether `key` orders the rows listed in `list` as a total preorder does: comparing
/// two rows the other way round gives the reversed outcome, and "not greater" carries
/// over from `a`, `b` and `b`, `c` to `a`, `c`.
pub open spec fn orders_consistently<R, V: RowViewer<R>>(
    vwr: &V,
    rows: Seq<R>,
    key: SortKey,
    list: Seq<RowIdx>,
) -> bool {
    &&& forall|a: RowIdx, b: RowIdx|
        list.contains(a) && list.contains(b) ==> #[trigger] key_order(vwr, rows, key, b, a)
            == key_order(vwr, rows, key, a, b).reversed()
    &&& forall|a: RowIdx, b: RowIdx, c: RowIdx|
        list.contains(a) && list.contains(b) && list.contains(c) && #[trigger] key_order(
            vwr,
            rows,
            key,
            a,
            b,
        ) != CellOrder::Greater && #[trigger] key_order(vwr, rows, key, b, c) != CellOrder::Greater
            ==> key_order(vwr, rows, key, a, c) != CellOrder::Greater
}

/// Whether `after` holds the rows of `before`, each once.
pub open spec fn rearranged(before: Seq<RowIdx>, after: Seq<RowIdx>) -> bool {
    &&& after.len() == before.len()
    &&& after.no_duplicates()
    &&& forall|row: RowIdx| after.contains(row) <==> before.contains(row)
}

/// Whether `after` is `before` sorted by `key` without a row passing another that it
/// is not less than: of two rows of `after`, the earlier one is less than the later
/// one, or it came before it in `before` too.
pub open spec fn stably_moved<R, V: RowViewer<R>>(
    vwr: &V,
    rows: Seq<R>,
    key: SortKey,
    before: Seq<RowIdx>,
    after: Seq<RowIdx>,
) -> bool {
    forall|i: int, j: int|
        0 <= i < j < after.len() && key_order(vwr, rows, key, #[trigger] after[i], #[trigger] after[j])
            != CellOrder::Less ==> before.index_of(after[i]) < before.index_of(after[j])
}

/// Whether no row of `list` is greater by `key` than a row after it.
pub open spec fn sorted_by<R, V: RowViewer<R>>(
    vwr: &V,
    rows: Seq<R>,
    key: SortKey,
    list: Seq<RowIdx>,
) -> bool {
    forall|i: int, j: int|
        0 <= i < j < list.len() ==> key_order(vwr, rows, key, #[trigger] list[i], #[trigger] list[j])
            != CellOrder::Greater
}

/// Compares two rows by a sort key.
pub fn compare_rows<R, V: RowViewer<R>>(vwr: &V, rows: &[R], key: SortKey, a: RowIdx, b: RowIdx) -> (order:
    CellOrder)
    requires
        a.0 < rows@.len(),
        b.0 < rows@.len(),
    ensures
        order == key_order(vwr, rows@, key, a, b),
{
    let order = vwr.compare_cell(&rows[a.0], &rows[b.0], key.0.0);
    if key.1.0 {
        order
    } else {
        order.reverse()
    }
}

/// Sorts `list` by `key`, keeping the order of rows of which neither is less than
/// the other.
pub fn sort_rows_by_key<R, V: RowViewer<R>>(list: &mut Vec<RowIdx>, vwr: &V, rows: &[R], key: SortKey)
    requires
        old(list)@.no_duplicates(),
        forall|i: int| 0 <= i < old(list)@.len() ==> (#[trigger] old(list)@[i]).0 < rows@.len(),
    ensures
        rearranged(old(list)@, final(list)@),
        stably_moved(vwr, rows@, key, old(list)@, final(list)@),
        orders_consistently(vwr, rows@, key, old(list)@) ==> sorted_by(
            vwr,
            rows@,
            key,
            final(list)@,
        ),
{
    let ghost before = list@;
    let n = list.len();
    let mut t: usize = 0;
    while t < n
        invariant
            n == before.len(),
            t <= n,
            before.no_duplicates(),
            forall|i: int| 0 <= i < before.len() ==> (#[trigger] before[i]).0 < rows@.len(),
            rearranged(before, list@),
            forall|i: int| 0 <= i < n ==> (#[trigger] list@[i]).0 < rows@.len(),
            forall|i: int| t <= i < n ==> list@[i] == before[i],
            forall|i: int| 0 <= i < t ==> before.index_of(#[trigger] list@[i]) < t,
            forall|i: int, j: int|
                0 <= i < j < t && key_order(vwr, rows@, key, #[trigger] list@[i], #[trigger] list@[j])
                    != CellOrder::Less ==> before.index_of(list@[i]) < before.index_of(list@[j]),
            orders_consistently(vwr, rows@, key, before) ==> forall|i: int, j: int|
                0 <= i < j < t ==> key_order(vwr, rows@, key, #[trigger] list@[i], #[trigger] list@[j])
                    != CellOrder::Greater,
        decreases n - t,
    {
        let ghost prefix = list@;
        let ghost moving = list@[t as int];
        proof {
            assert(before[t as int] == moving);
            assert(before.contains(moving));
            assert(before.index_of(moving) == t);
        }
        let mut j: usize = t;
        while j > 0 && matches!(compare_rows(vwr, rows, key, list[j], list[j - 1]), CellOrder::Less)
            invariant
                n == before.len() == prefix.len(),
                t < n,
                j <= t,
                before.no_duplicates(),
                prefix.no_duplicates(),
                forall|i: int| 0 <= i < before.len() ==> (#[trigger] before[i]).0 < rows@.len(),
                rearranged(before, prefix),
                rearranged(before, list@),
                forall|i: int| 0 <= i < n ==> (#[trigger] prefix[i]).0 < rows@.len(),
                forall|i: int| 0 <= i < n ==> (#[trigger] list@[i]).0 < rows@.len(),
                before.contains(moving),
                before.index_of(moving) == t,
                prefix[t as int] == moving,
                list@[j as int] == moving,
                forall|i: int| 0 <= i < j ==> list@[i] == prefix[i],
                forall|i: int| j < i <= t ==> list@[i] == prefix[i - 1],
                forall|i: int| t < i < n ==> list@[i] == prefix[i],
                forall|i: int|
                    j < i <= t ==> key_order(vwr, rows@, key, moving, #[trigger] list@[i])
                        == CellOrder::Less,
            decreases j,
        {
            let ahead = list[j - 1];
            let behind = list[j];
            list.set(j - 1, behind);
            list.set(j, ahead);
            proof {
                let now = list@;
                assert forall|a: int, b: int| 0 <= a < now.len() && 0 <= b < now.len() && a != b
                    implies now[a] != now[b] by {
                    let a0 = if a == j - 1 {
                        t as int
                    } else if a < j - 1 || a > t {
                        a
                    } else {
                        a - 1
                    };
                    let b0 = if b == j - 1 {
                        t as int
                    } else if b < j - 1 || b > t {
                        b
                    } else {
                        b - 1
                    };
                    assert(now[a] == prefix[a0]);
                    assert(now[b] == prefix[b0]);
                }
                assert forall|row: RowIdx| now.contains(row) <==> before.contains(row) by {
                    if now.contains(row) {
                        let a = choose|a: int| 0 <= a < now.len() && now[a] == row;
                        let a0 = if a == j - 1 {
                            t as int
                        } else if a < j - 1 || a > t {
                            a
                        } else {
                            a - 1
                        };
                        assert(now[a] == prefix[a0]);
                        assert(prefix.contains(row));
                    }
                    if before.contains(row) {
                        assert(prefix.contains(row));
                        let a0 = choose|a0: int| 0 <= a0 < prefix.len() && prefix[a0] == row;
                        let a = if a0 == t {
                            j as int - 1
                        } else if a0 < j - 1 || a0 > t {
                            a0
                        } else {
                            a0 + 1
                        };
                        assert(now[a] == row);
                    }
                }
            }
            j -= 1;
        }
        proof {
            let now = list@;
            assert forall|i: int| 0 <= i < t + 1 implies before.index_of(#[trigger] now[i]) < t
                + 1 by {
                if i < j {
                    assert(now[i] == prefix[i]);
                } else if i > j {
                    assert(now[i] == prefix[i - 1]);
                }
            }
            assert forall|a: int, b: int|
                0 <= a < b < t + 1 && key_order(vwr, rows@, key, #[trigger] now[a], #[trigger] now[b])
                    != CellOrder::Less implies before.index_of(now[a]) < before.index_of(
                now[b],
            ) by {
                if b == j {
                    assert(now[a] == prefix[a]);
                    assert(before.index_of(prefix[a]) < t);
                } else if a == j {
                    assert(false);
                } else {
                    let a0 = if a < j {
                        a
                    } else {
                        a - 1
                    };
                    let b0 = if b < j {
                        b
                    } else {
                        b - 1
                    };
                    assert(now[a] == prefix[a0]);
                    assert(now[b] == prefix[b0]);
                }
            }
            if orders_consistently(vwr, rows@, key, before) {
                assert forall|a: int, b: int| 0 <= a < b < t + 1 implies key_order(
                    vwr,
                    rows@,
                    key,
                    #[trigger] now[a],
                    #[trigger] now[b],
                ) != CellOrder::Greater by {
                    assert(now.contains(now[a]));
                    assert(now.contains(now[b]));
                    if a == j {
                    } else if b == j {
                        // The row moved no further: it is not less than the row ahead.
                        assert(now[a] == prefix[a]);
                        assert(now.contains(now[j - 1]));
                        assert(key_order(vwr, rows@, key, moving, now[j - 1]) != CellOrder::Less);
                        assert(key_order(vwr, rows@, key, now[j - 1], moving) == key_order(
                            vwr,
                            rows@,
                            key,
                            moving,
                            now[j - 1],
                        ).reversed());
                        if a < j - 1 {
                            assert(now[j - 1] == prefix[j - 1]);
                            assert(key_order(vwr, rows@, key, prefix[a], prefix[j - 1])
                                != CellOrder::Greater);
                        }
                    } else {
                        let a0 = if a < j {
                            a
                        } else {
                            a - 1
                        };
                        let b0 = if b < j {
                            b
                        } else {
                            b - 1
                        };
                        assert(now[a] == prefix[a0]);
                        assert(now[b] == prefix[b0]);
                    }
                }
            }
        }
        t += 1;
    }
}

/// Whether `a` is less than `b` by none of the keys.
pub open spec fn never_less<R, V: RowViewer<R>>(
    vwr: &V,
    rows: Seq<R>,
    keys: Seq<SortKey>,
    a: RowIdx,
    b: RowIdx,
) -> bool {
    forall|k: int| 0 <= k < keys.len() ==> key_order(vwr, rows, #[trigger] keys[k], a, b) != CellOrder::Less
}

/// Whether sorting `before` into `after` was stable: two rows of which the earlier
/// one in `after` is less than the later one by none of the keys, as when all their
/// keys are equal, stand in the order that they had in `before`.
pub open spec fn keeps_ties<R, V: RowViewer<R>>(
    vwr: &V,
    rows: Seq<R>,
    keys: Seq<SortKey>,
    before: Seq<RowIdx>,
    after: Seq<RowIdx>,
) -> bool {
    forall|i: int, j: int|
        0 <= i < j < after.len() && never_less(vwr, rows, keys, #[trigger] after[i], #[trigger] after[j])
            ==> before.index_of(after[i]) < before.index_of(after[j])
}

/// How two rows compare by a list of keys: as the first key says by which they are
/// not equal.
pub open spec fn lex_order<R, V: RowViewer<R>>(
    vwr: &V,
    rows: Seq<R>,
    keys: Seq<SortKey>,
    a: RowIdx,
    b: RowIdx,
) -> CellOrder
    decreases keys.len(),
{
    if keys.len() == 0 {
        CellOrder::Equal
    } else if key_order(vwr, rows, keys[0], a, b) != CellOrder::Equal {
        key_order(vwr, rows, keys[0], a, b)
    } else {
        lex_order(vwr, rows, keys.drop_first(), a, b)
    }
}

/// Whether no row of `list` is greater by the keys than a row after it.
pub open spec fn sorted_by_keys<R, V: RowViewer<R>>(
    vwr: &V,
    rows: Seq<R>,
    keys: Seq<SortKey>,
    list: Seq<RowIdx>,
) -> bool {
    forall|i: int, j: int|
        0 <= i < j < list.len() ==> lex_order(vwr, rows, keys, #[trigger] list[i], #[trigger] list[j])
            != CellOrder::Greater
}

/// Whether every key orders the rows of `list` as a total preorder does.
pub open spec fn keys_order_consistently<R, V: RowViewer<R>>(
    vwr: &V,
    rows: Seq<R>,
    keys: Seq<SortKey>,
    list: Seq<RowIdx>,
) -> bool {
    forall|k: int| 0 <= k < keys.len() ==> orders_consistently(vwr, rows, #[trigger] keys[k], list)
}

/// Sorts `list` by `keys`, the first key being the most significant. The sort is
/// stable, whatever the viewer's comparison is like; the rows come out in order if
/// every key orders them consistently.
pub fn sort_rows<R, V: RowViewer<R>>(list: &mut Vec<RowIdx>, vwr: &V, rows: &[R], keys: &[SortKey])
    requires
        old(list)@.no_duplicates(),
        forall|i: int| 0 <= i < old(list)@.len() ==> (#[trigger] old(list)@[i]).0 < rows@.len(),
    ensures
        rearranged(old(list)@, final(list)@),
        keeps_ties(vwr, rows@, keys@, old(list)@, final(list)@),
        keys_order_consistently(vwr, rows@, keys@, old(list)@) ==> sorted_by_keys(
            vwr,
            rows@,
            keys@,
            final(list)@,
        ),
{
    let ghost before = list@;
    let mut p: usize = keys.len();
    proof {
        assert forall|i: int, j: int| 0 <= i < j < list@.len() implies before.index_of(list@[i])
            < before.index_of(list@[j]) by {
            assert(before.index_of(before[i]) == i);
            assert(before.index_of(before[j]) == j);
        }
    }
    while p > 0
        invariant
            p <= keys@.len(),
            before.no_duplicates(),
            forall|i: int| 0 <= i < list@.len() ==> (#[trigger] list@[i]).0 < rows@.len(),
            rearranged(before, list@),
            keeps_ties(vwr, rows@, keys@.subrange(p as int, keys@.len() as int), before, list@),
            keys_order_consistently(vwr, rows@, keys@, before) ==> sorted_by_keys(
                vwr,
                rows@,
                keys@.subrange(p as int, keys@.len() as int),
                list@,
            ),
        decreases p,
    {
        let ghost cur = list@;
        let ghost done = keys@.subrange(p as int, keys@.len() as int);
        p -= 1;
        let key = keys[p];
        sort_rows_by_key(list, vwr, rows, key);
        proof {
            let next = list@;
            let now = keys@.subrange(p as int, keys@.len() as int);
            assert(now.drop_first() =~= done);
            assert(now[0] == key);
            assert forall|i: int| 0 <= i < next.len() implies (#[trigger] next[i]).0 < rows@.len() by {
                assert(next.contains(next[i]));
                assert(cur.contains(next[i]));
            }
            assert forall|i: int, j: int|
                0 <= i < j < next.len() && never_less(
                    vwr,
                    rows@,
                    now,
                    #[trigger] next[i],
                    #[trigger] next[j],
                ) implies before.index_of(next[i]) < before.index_of(next[j]) by {
                assert(next.contains(next[i]));
                assert(next.contains(next[j]));
                assert(key_order(vwr, rows@, now[0], next[i], next[j]) != CellOrder::Less);
                let ci = cur.index_of(next[i]);
                let cj = cur.index_of(next[j]);
                assert(ci < cj);
                assert forall|k: int| 0 <= k < done.len() implies key_order(
                    vwr,
                    rows@,
                    #[trigger] done[k],
                    cur[ci],
                    cur[cj],
                ) != CellOrder::Less by {
                    assert(done[k] == now[k + 1]);
                }
            }
            if keys_order_consistently(vwr, rows@, keys@, before) {
                assert(orders_consistently(vwr, rows@, keys@[p as int], before));
                assert(orders_consistently(vwr, rows@, key, cur));
                assert forall|i: int, j: int| 0 <= i < j < next.len() implies lex_order(
                    vwr,
                    rows@,
                    now,
                    #[trigger] next[i],
                    #[trigger] next[j],
                ) != CellOrder::Greater by {
                    assert(next.contains(next[i]));
                    assert(next.contains(next[j]));
                    assert(key_order(vwr, rows@, key, next[i], next[j]) != CellOrder::Greater);
                    if key_order(vwr, rows@, key, next[i], next[j]) == CellOrder::Equal {
                        let ci = cur.index_of(next[i]);
                        let cj = cur.index_of(next[j]);
                        assert(ci < cj);
                        assert(lex_order(vwr, rows@, done, cur[ci], cur[cj]) != CellOrder::Greater);
                    }
                }
            }
        }
    }
    proof {
        assert(keys@.subrange(0, keys@.len() as int) =~= keys@);
    }
}

} // verus!
