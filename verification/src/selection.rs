//! Building the selection from pointer gestures and key presses, and listing what is
//! selected.

use std::collections::{BTreeSet, HashSet};
use vstd::prelude::*;
use crate::cells::{ascending, sorted_items, unordered_items};
use crate::grouping::{lemma_sorted_distinct, sorted};
use crate::index::{
    lemma_linear_monotonic,
    lemma_linear_row_col,
    lemma_row_col_linear,
    linear,
    VisColumnPos,
    VisLinearIdx,
    VisRowPos,
    VisSelection,
};
use crate::input::Modifiers;
use crate::state::{lemma_grid_fits, lemma_in_grid_fits, rects_within, CursorState, UiModel, UiState};
use crate::table::DataTable;
use crate::viewer::MoveDirection;

verus! {

broadcast use {
    vstd::std_specs::btree::group_btree_axioms,
    vstd::std_specs::hash::group_hash_axioms,
    vstd::laws_cmp::group_laws_cmp,
};

/// Whether some rectangle of `sels` holds the cell.
pub open spec fn covered(sels: Seq<VisSelection>, ncol: usize, row: int, col: int) -> bool {
    exists|i: int| 0 <= i < sels.len() && (#[trigger] sels[i]).covers(ncol, row, col)
}

/// Whether some rectangle of `sels` reaches over the row.
pub open spec fn row_covered(sels: Seq<VisSelection>, ncol: usize, row: int) -> bool {
    exists|i: int|
        0 <= i < sels.len() && (#[trigger] sels[i]).top(ncol) <= row <= sels[i].bottom(ncol)
}

/// Whether `cells` lists the selected cells, each once, row after row and from left to
/// right in a row.
pub open spec fn lists_cells(cells: Seq<(VisRowPos, VisColumnPos)>, sels: Seq<VisSelection>, ncol: usize) -> bool {
    &&& forall|i: int| 0 <= i < cells.len() ==> (#[trigger] cells[i]).1.0 < ncol
    &&& forall|i: int, j: int|
        0 <= i < j < cells.len() ==> (#[trigger] cells[i]).0.0 < (#[trigger] cells[j]).0.0 || (
        cells[i].0 == cells[j].0 && cells[i].1.0 < cells[j].1.0)
    &&& forall|row: usize, col: usize|
        col < ncol ==> (cells.contains((VisRowPos(row), VisColumnPos(col))) <==> #[trigger] covered(
            sels,
            ncol,
            row as int,
            col as int,
        ))
}

/// Whether `rows` lists the rows that a selected rectangle reaches over, each once,
/// from the top.
pub open spec fn lists_selected_rows(rows: Seq<VisRowPos>, sels: Seq<VisSelection>, ncol: usize) -> bool {
    &&& forall|i: int, j: int| 0 <= i < j < rows.len() ==> rows[i].0 < rows[j].0
    &&& forall|row: usize| rows.contains(VisRowPos(row)) <==> #[trigger] row_covered(sels, ncol, row as int)
}

/// The index of the first rectangle of `sels` that `rect` lies inside.
pub open spec fn first_covering(sels: Seq<VisSelection>, ncol: usize, rect: VisSelection) -> Option<int>
    decreases sels.len(),
{
    if sels.len() == 0 {
        None
    } else if sels[0].covers_rect(ncol, rect) {
        Some(0)
    } else {
        match first_covering(sels.drop_first(), ncol, rect) {
            Some(i) => Some(i + 1),
            None => None,
        }
    }
}

/// The shift key alone, the pattern that extending a selection is told by.
pub open spec fn shift_pattern() -> Modifiers {
    Modifiers { shift: true, ..Modifiers::none_spec() }
}

/// The selection that a finished gesture leads to. Without a modifier key the
/// gesture's rectangle replaces the selection, as it does when nothing is selected.
/// With the command key alone it is toggled: the first selected rectangle that it
/// lies inside is removed, or it is added if there is none. With neither control
/// nor command down, as with shift, it extends the selection: if it is one cell and
/// the last selected rectangle is one cell, the two are joined, else it is added
/// as one more rectangle.
pub open spec fn gesture_merged(
    sels: Seq<VisSelection>,
    rect: VisSelection,
    mods: Modifiers,
    ncol: usize,
) -> Seq<VisSelection> {
    if mods.none_down() || sels.len() == 0 {
        seq![rect]
    } else if mods.only_command_down() {
        match first_covering(sels, ncol, rect) {
            Some(i) => sels.remove(i),
            None => sels.push(rect),
        }
    } else if mods.ctrl_keys_match(shift_pattern()) {
        if rect.0 == rect.1 && sels.last().0 == sels.last().1 {
            sels.update(sels.len() - 1, sels.last().joined(ncol, rect))
        } else {
            sels.push(rect)
        }
    } else {
        sels
    }
}

/// Where a step in a direction leads from `pos` in a grid of `nrows` rows and `ncol`
/// columns. A step stops at the top and at the bottom. A step to the left from the
/// first column leads to the last column of the row above, a step to the right from
/// the last column to the first column of the row below; the first and the last
/// cell of the grid are not left this way.
pub open spec fn moved(pos: VisLinearIdx, dir: MoveDirection, ncol: usize, nrows: int) -> VisLinearIdx {
    let r = pos.row(ncol);
    let c = pos.col(ncol);
    let rmax = vstd::math::max(nrows - 1, 0);
    let cmax = ncol - 1;
    let (nr, nc) = match dir {
        MoveDirection::Up => if r == 0 {
            (0, c)
        } else {
            (r - 1, c)
        },
        MoveDirection::Down => if r == rmax {
            (r, c)
        } else {
            (r + 1, c)
        },
        MoveDirection::Left => if r == 0 && c == 0 {
            (0, 0)
        } else if c == 0 {
            (r - 1, cmax)
        } else {
            (r, c - 1)
        },
        MoveDirection::Right => if r == rmax && c == cmax {
            (r, c)
        } else if c == cmax {
            (r + 1, 0)
        } else {
            (r, c + 1)
        },
    };
    VisLinearIdx(linear(ncol as int, nr, nc) as usize)
}

/// The rows of `rows` that the displayed rows at `positions` are.
pub open spec fn picked_rows<R>(rows: Seq<R>, shown: Seq<crate::index::RowIdx>, positions: Seq<usize>) -> Seq<R> {
    Seq::new(positions.len(), |i: int| rows[shown[positions[i] as int].0 as int])
}

/// Whether `positions` lists in ascending order the rows that `sels` reaches over but
/// `except` does not.
pub open spec fn lists_rows(
    positions: Seq<usize>,
    sels: Seq<VisSelection>,
    except: Seq<VisSelection>,
    ncol: usize,
) -> bool {
    &&& ascending(positions)
    &&& forall|row: usize|
        positions.contains(row) <==> row_covered(sels, ncol, row as int) && !row_covered(
            except,
            ncol,
            row as int,
        )
}

/// The first rectangle that `rect` lies inside is found at the same place in a list
/// and in what is left of it after a rectangle that `rect` does not lie inside.
proof fn lemma_first_covering_skip(sels: Seq<VisSelection>, ncol: usize, rect: VisSelection, i: int)
    requires
        0 <= i <= sels.len(),
        forall|k: int| 0 <= k < i ==> !(#[trigger] sels[k]).covers_rect(ncol, rect),
    ensures
        first_covering(sels, ncol, rect) == match first_covering(sels.skip(i), ncol, rect) {
            Some(k) => Some(k + i),
            None => None,
        },
    decreases i,
{
    if i == 0 {
        assert(sels.skip(0) =~= sels);
    } else {
        assert(!sels[0].covers_rect(ncol, rect));
        let rest = sels.drop_first();
        assert forall|k: int| 0 <= k < i - 1 implies !(#[trigger] rest[k]).covers_rect(ncol, rect) by {
            assert(rest[k] == sels[k + 1]);
        }
        lemma_first_covering_skip(rest, ncol, rect, i - 1);
        assert(rest.skip(i - 1) =~= sels.skip(i));
    }
}

impl<R> UiState<R> {
    /// Ends the gesture and returns the selection that it leads to, given the
    /// modifier keys that are down; `None` if no gesture was going on.
    pub fn cci_take_selection(&mut self, mods: Modifiers) -> (taken: Option<Vec<VisSelection>>)
        requires
            old(self)@.wf(),
            old(self)@.gesture_in_grid(),
            old(self)@.selection_in_grid(),
        ensures
            final(self)@ == (UiModel { gesture: None, ..old(self)@ }),
            taken is Some == old(self)@.gesture is Some,
            taken is Some ==> taken->0@ == gesture_merged(
                old(self)@.cursor.selections(),
                old(self)@.gesture_rect(),
                mods,
                old(self)@.ncol(),
            ),
            // Without a modifier key the gesture's rectangle is the whole selection.
            taken is Some && mods.none_down() ==> taken->0@ == seq![old(self)@.gesture_rect()],
            taken is Some ==> rects_within(taken->0@, old(self)@.cells()),
    {
        let ncol = self.p.vis_cols.len();
        let ghost cells = self@.cells();
        let ghost nrows = self@.rows.len() as int;
        proof {
            lemma_grid_fits(self@);
        }
        let (pivot, current) = match self.cci_selection.take() {
            Some(points) => points,
            None => {
                return None;
            },
        };
        proof {
            lemma_in_grid_fits(pivot, nrows, ncol);
            lemma_in_grid_fits(current, nrows, ncol);
        }
        let cci_sel = VisSelection::from_points(ncol, pivot, current);
        proof {
            lemma_rect_within(cci_sel, nrows, ncol);
        }

        if mods.is_none() {
            let mut only: Vec<VisSelection> = Vec::new();
            only.push(cci_sel);
            assert(only@ =~= seq![cci_sel]);
            return Some(only);
        }
        let ghost sels = self@.cursor.selections();
        let mut sel: Vec<VisSelection> = Vec::new();
        if let CursorState::Select(list) = &self.cc_cursor {
            sel = crate::cache::copied(list);
        }
        assert(sel@ =~= sels);

        let mut idx_contains: Option<usize> = None;
        let mut i: usize = 0;
        while i < sel.len() && idx_contains.is_none()
            invariant
                ncol > 0,
                i <= sel@.len(),
                idx_contains is Some ==> i < sel@.len() && idx_contains == Some(i)
                    && sel@[i as int].covers_rect(ncol, cci_sel),
                forall|k: int| 0 <= k < i ==> !(#[trigger] sel@[k]).covers_rect(ncol, cci_sel),
            decreases sel@.len() - i + (if idx_contains is None { 1int } else { 0int }),
        {
            if sel[i].contains_rect(ncol, cci_sel) {
                idx_contains = Some(i);
            } else {
                i += 1;
            }
        }
        proof {
            lemma_first_covering_skip(sel@, ncol, cci_sel, i as int);
            if i == sel@.len() {
                assert(sel@.skip(i as int) =~= Seq::<VisSelection>::empty());
            } else {
                assert(sel@.skip(i as int)[0] == sel@[i as int]);
            }
            assert(first_covering(sels, ncol, cci_sel) == match idx_contains {
                Some(k) => Some(k as int),
                None => None,
            });
        }
        if sel.len() == 0 {
            sel.push(cci_sel);
            assert(sel@ =~= seq![cci_sel]);
            return Some(sel);
        }
        if mods.command_only() {
            if let Some(idx) = idx_contains {
                sel.remove(idx);
            } else {
                sel.push(cci_sel);
            }
        }
        if mods.cmd_ctrl_matches(Modifiers::shift()) {
            let last_idx = sel.len() - 1;
            let last = sel[last_idx];
            if cci_sel.is_point() && last.is_point() {
                proof {
                    lemma_in_grid_fits(last.1, nrows, ncol);
                    lemma_in_grid_fits(cci_sel.1, nrows, ncol);
                }
                let joined = last.union(ncol, cci_sel);
                proof {
                    lemma_rect_within(joined, nrows, ncol);
                }
                sel.set(last_idx, joined);
            } else {
                sel.push(cci_sel);
            }
        }
        Some(sel)
    }

    /// Ends the gesture without a selection, as for a gesture that the grid has
    /// shrunk away from.
    pub fn cci_drop_selection(&mut self)
        ensures
            final(self)@ == (UiModel { gesture: None, ..old(self)@ }),
    {
        self.cci_selection = None;
    }

    /// Where a step in a direction leads from `pos`.
    pub fn moved_position(&self, pos: VisLinearIdx, dir: MoveDirection) -> (next: VisLinearIdx)
        requires
            self@.wf(),
            pos.row(self@.ncol()) <= vstd::math::max(self@.rows.len() - 1, 0),
        ensures
            next == moved(pos, dir, self@.ncol(), self@.rows.len() as int),
            next.row(self@.ncol()) <= vstd::math::max(self@.rows.len() - 1, 0),
            next.col(self@.ncol()) < self@.ncol(),
    {
        let ncol = self.p.vis_cols.len();
        proof {
            lemma_grid_fits(self@);
        }
        let (rpos, cpos) = pos.row_col(ncol);
        let r = rpos.0;
        let c = cpos.0;
        let rmax = if self.cc_rows.len() == 0 {
            0
        } else {
            self.cc_rows.len() - 1
        };
        let cmax = ncol - 1;

        let (nr, nc) = match dir {
            MoveDirection::Up => if r == 0 {
                (0, c)
            } else {
                (r - 1, c)
            },
            MoveDirection::Down => if r == rmax {
                (r, c)
            } else {
                (r + 1, c)
            },
            MoveDirection::Left => if r == 0 && c == 0 {
                (0, 0)
            } else if c == 0 {
                (r - 1, cmax)
            } else {
                (r, c - 1)
            },
            MoveDirection::Right => if r == rmax && c == cmax {
                (r, c)
            } else if c == cmax {
                (r + 1, 0)
            } else {
                (r, c + 1)
            },
        };
        proof {
            if self@.rows.len() > 0 {
                crate::cache::lemma_cell_in_grid(
                    self@.rows.len() as int,
                    ncol,
                    self@.num_columns,
                    nr as int,
                    nc as int,
                );
            } else {
                assert(nr == 0);
                assert(0 * ncol == 0) by (nonlinear_arith);
            }
            lemma_linear_monotonic(ncol as int, 0, 0, nr as int, 0);
            lemma_linear_row_col(ncol as int, nr as int, nc as int);
        }
        VisLinearIdx(nr * ncol + nc)
    }

    /// Every selected cell, each once: row after row, and from left to right in a
    /// row.
    pub fn collect_selection(&self) -> (cells: Vec<(VisRowPos, VisColumnPos)>)
        requires
            self@.vis_cols.len() > 0,
        ensures
            lists_cells(cells@, self@.cursor.selections(), self@.ncol()),
    {
        let ncol = self.p.vis_cols.len();
        let mut set: BTreeSet<usize> = BTreeSet::new();
        let ghost sels = self@.cursor.selections();
        if let CursorState::Select(selections) = &self.cc_cursor {
            let mut s: usize = 0;
            while s < selections.len()
                invariant
                    ncol > 0,
                    selections@ == sels,
                    s <= sels.len(),
                    forall|k: usize|
                        set@.contains(k) <==> covered(
                            sels.take(s as int),
                            ncol,
                            VisLinearIdx(k).row(ncol),
                            VisLinearIdx(k).col(ncol),
                        ),
                decreases sels.len() - s,
            {
                let sel = selections[s];
                let (top, left) = sel.0.row_col(ncol);
                let (bottom, right) = sel.1.row_col(ncol);
                let ghost done = sels.take(s as int);
                let ghost next = sels.take(s + 1);
                proof {
                    assert(next.drop_last() =~= done);
                    assert(next[s as int] == sel);
                }
                if top.0 <= bottom.0 && left.0 <= right.0 {
                    let mut r: usize = top.0;
                    loop
                        invariant_except_break
                            forall|k: usize|
                                set@.contains(k) <==> covered(
                                    done,
                                    ncol,
                                    VisLinearIdx(k).row(ncol),
                                    VisLinearIdx(k).col(ncol),
                                ) || (sel.covers(ncol, VisLinearIdx(k).row(ncol), VisLinearIdx(k).col(ncol))
                                    && VisLinearIdx(k).row(ncol) < r),
                        invariant
                            ncol > 0,
                            top.0 <= r <= bottom.0,
                            left.0 <= right.0 < ncol,
                            top.0 == sel.top(ncol),
                            bottom.0 == sel.bottom(ncol),
                            left.0 == sel.left(ncol),
                            right.0 == sel.right(ncol),
                            linear(ncol as int, bottom.0 as int, right.0 as int) == sel.1.0,
                        ensures
                            forall|k: usize|
                                set@.contains(k) <==> covered(
                                    done,
                                    ncol,
                                    VisLinearIdx(k).row(ncol),
                                    VisLinearIdx(k).col(ncol),
                                ) || sel.covers(ncol, VisLinearIdx(k).row(ncol), VisLinearIdx(k).col(ncol)),
                        decreases bottom.0 - r,
                    {
                        let mut c: usize = left.0;
                        loop
                            invariant_except_break
                                forall|k: usize|
                                    set@.contains(k) <==> covered(
                                        done,
                                        ncol,
                                        VisLinearIdx(k).row(ncol),
                                        VisLinearIdx(k).col(ncol),
                                    ) || (sel.covers(
                                        ncol,
                                        VisLinearIdx(k).row(ncol),
                                        VisLinearIdx(k).col(ncol),
                                    ) && (VisLinearIdx(k).row(ncol) < r || (VisLinearIdx(k).row(ncol) == r
                                        && VisLinearIdx(k).col(ncol) < c))),
                            invariant
                                ncol > 0,
                                top.0 <= r <= bottom.0,
                                left.0 <= c <= right.0 < ncol,
                                top.0 == sel.top(ncol),
                                bottom.0 == sel.bottom(ncol),
                                left.0 == sel.left(ncol),
                                right.0 == sel.right(ncol),
                                linear(ncol as int, bottom.0 as int, right.0 as int) == sel.1.0,
                            ensures
                                forall|k: usize|
                                    set@.contains(k) <==> covered(
                                        done,
                                        ncol,
                                        VisLinearIdx(k).row(ncol),
                                        VisLinearIdx(k).col(ncol),
                                    ) || (sel.covers(
                                        ncol,
                                        VisLinearIdx(k).row(ncol),
                                        VisLinearIdx(k).col(ncol),
                                    ) && VisLinearIdx(k).row(ncol) <= r),
                            decreases right.0 - c,
                        {
                            proof {
                                lemma_linear_monotonic(
                                    ncol as int,
                                    r as int,
                                    c as int,
                                    bottom.0 as int,
                                    right.0 as int,
                                );
                                lemma_linear_monotonic(ncol as int, 0, 0, r as int, c as int);
                                lemma_linear_monotonic(ncol as int, 0, 0, r as int, 0);
                                lemma_linear_row_col(ncol as int, r as int, c as int);
                            }
                            let cell = r * ncol + c;
                            set.insert(cell);
                            proof {
                                assert forall|k: usize| VisLinearIdx(k).row(ncol) == r && k as int
                                    % ncol as int == c implies k == cell by {
                                    lemma_row_col_linear(ncol as int, k as int);
                                }
                            }
                            if c == right.0 {
                                break ;
                            }
                            c += 1;
                        }
                        if r == bottom.0 {
                            break ;
                        }
                        r += 1;
                    }
                }
                proof {
                    assert forall|k: usize|
                        set@.contains(k) <==> covered(
                            next,
                            ncol,
                            VisLinearIdx(k).row(ncol),
                            VisLinearIdx(k).col(ncol),
                        ) by {
                        let kr = VisLinearIdx(k).row(ncol);
                        let kc = VisLinearIdx(k).col(ncol);
                        if covered(done, ncol, kr, kc) {
                            let w = choose|w: int| 0 <= w < done.len() && (#[trigger] done[w]).covers(ncol, kr, kc);
                            assert(next[w].covers(ncol, kr, kc));
                        }
                        if sel.covers(ncol, kr, kc) {
                            assert(next[s as int].covers(ncol, kr, kc));
                        }
                        if covered(next, ncol, kr, kc) {
                            let w = choose|w: int| 0 <= w < next.len() && (#[trigger] next[w]).covers(ncol, kr, kc);
                            if w < s {
                                assert(done[w].covers(ncol, kr, kc));
                            }
                        }
                    }
                }
                s += 1;
            }
            proof {
                assert(sels.take(sels.len() as int) =~= sels);
            }
        } else {
            assert(sels.take(0) =~= sels);
        }
        let list = sorted_items(&set);
        let mut cells: Vec<(VisRowPos, VisColumnPos)> = Vec::new();
        let mut i: usize = 0;
        while i < list.len()
            invariant
                ncol > 0,
                i <= list@.len(),
                cells@.len() == i,
                forall|k: int|
                    0 <= k < i ==> (#[trigger] cells@[k]) == (
                        VisRowPos(VisLinearIdx(list@[k]).row(ncol) as usize),
                        VisColumnPos(VisLinearIdx(list@[k]).col(ncol) as usize),
                    ),
            decreases list@.len() - i,
        {
            let (r, c) = VisLinearIdx(list[i]).row_col(ncol);
            cells.push((r, c));
            i += 1;
        }
        proof {
            assert forall|i: int, j: int| 0 <= i < j < cells@.len() implies (#[trigger] cells@[i]).0.0
                < (#[trigger] cells@[j]).0.0 || (cells@[i].0 == cells@[j].0 && cells@[i].1.0
                < cells@[j].1.0) by {
                lemma_row_col_linear(ncol as int, list@[i] as int);
                lemma_row_col_linear(ncol as int, list@[j] as int);
                assert(list@[i] < list@[j]);
                let ri = VisLinearIdx(list@[i]).row(ncol);
                let rj = VisLinearIdx(list@[j]).row(ncol);
                if ri > rj {
                    lemma_linear_monotonic(
                        ncol as int,
                        rj + 1,
                        0,
                        ri,
                        VisLinearIdx(list@[i]).col(ncol),
                    );
                    assert(linear(ncol as int, rj + 1, 0) == linear(ncol as int, rj, ncol as int)) by (nonlinear_arith);
                }
            }
            assert forall|row: usize, col: usize| col < ncol implies (cells@.contains(
                (VisRowPos(row), VisColumnPos(col)),
            ) <==> #[trigger] covered(sels, ncol, row as int, col as int)) by {
                let cell = (VisRowPos(row), VisColumnPos(col));
                if cells@.contains(cell) {
                    let k = choose|k: int| 0 <= k < cells@.len() && cells@[k] == cell;
                    assert(list@.contains(list@[k]));
                    assert(set@.contains(list@[k]));
                    let w = choose|w: int|
                        0 <= w < sels.len() && (#[trigger] sels[w]).covers(
                            ncol,
                            VisLinearIdx(list@[k]).row(ncol),
                            VisLinearIdx(list@[k]).col(ncol),
                        );
                    assert(sels[w].covers(ncol, row as int, col as int));
                }
                if covered(sels, ncol, row as int, col as int) {
                    let w = choose|w: int|
                        0 <= w < sels.len() && (#[trigger] sels[w]).covers(ncol, row as int, col as int);
                    let sel = sels[w];
                    lemma_row_col_linear(ncol as int, sel.1.0 as int);
                    lemma_linear_monotonic(
                        ncol as int,
                        row as int,
                        col as int,
                        sel.bottom(ncol),
                        sel.right(ncol),
                    );
                    lemma_linear_monotonic(ncol as int, 0, 0, row as int, col as int);
                    lemma_linear_row_col(ncol as int, row as int, col as int);
                    let k = linear(ncol as int, row as int, col as int) as usize;
                    assert(sels[w].covers(ncol, VisLinearIdx(k).row(ncol), VisLinearIdx(k).col(ncol)));
                    assert(set@.contains(k));
                    assert(list@.to_set().contains(k));
                    let at = choose|at: int| 0 <= at < list@.len() && list@[at] == k;
                    assert(cells@[at] == cell);
                }
            }
        }
        cells
    }

    /// Every row that a selected rectangle reaches over, each once, from the top.
    pub fn collect_selected_rows(&self) -> (rows: Vec<VisRowPos>)
        requires
            self@.vis_cols.len() > 0,
        ensures
            lists_selected_rows(rows@, self@.cursor.selections(), self@.ncol()),
    {
        let ncol = self.p.vis_cols.len();
        let mut set: BTreeSet<usize> = BTreeSet::new();
        let ghost sels = self@.cursor.selections();
        if let CursorState::Select(selections) = &self.cc_cursor {
            let mut s: usize = 0;
            while s < selections.len()
                invariant
                    ncol > 0,
                    selections@ == sels,
                    s <= sels.len(),
                    forall|k: usize| set@.contains(k) <==> row_covered(sels.take(s as int), ncol, k as int),
                decreases sels.len() - s,
            {
                let sel = selections[s];
                let (top, _) = sel.0.row_col(ncol);
                let (bottom, _) = sel.1.row_col(ncol);
                let ghost done = sels.take(s as int);
                let ghost next = sels.take(s + 1);
                proof {
                    assert(next.drop_last() =~= done);
                    assert(next[s as int] == sel);
                }
                if top.0 <= bottom.0 {
                    let mut r: usize = top.0;
                    loop
                        invariant_except_break
                            forall|k: usize|
                                set@.contains(k) <==> row_covered(done, ncol, k as int) || top.0 <= k
                                    < r,
                        invariant
                            top.0 <= r <= bottom.0,
                        ensures
                            forall|k: usize|
                                set@.contains(k) <==> row_covered(done, ncol, k as int) || top.0 <= k
                                    <= bottom.0,
                        decreases bottom.0 - r,
                    {
                        set.insert(r);
                        if r == bottom.0 {
                            break ;
                        }
                        r += 1;
                    }
                }
                proof {
                    assert forall|k: usize| set@.contains(k) <==> row_covered(next, ncol, k as int) by {
                        if row_covered(done, ncol, k as int) {
                            let w = choose|w: int|
                                0 <= w < done.len() && (#[trigger] done[w]).top(ncol) <= k
                                    <= done[w].bottom(ncol);
                            assert(next[w].top(ncol) <= k <= next[w].bottom(ncol));
                        }
                        if top.0 <= k <= bottom.0 {
                            assert(next[s as int].top(ncol) <= k <= next[s as int].bottom(ncol));
                        }
                        if row_covered(next, ncol, k as int) {
                            let w = choose|w: int|
                                0 <= w < next.len() && (#[trigger] next[w]).top(ncol) <= k
                                    <= next[w].bottom(ncol);
                            if w < s {
                                assert(done[w].top(ncol) <= k <= done[w].bottom(ncol));
                            }
                        }
                    }
                }
                s += 1;
            }
            proof {
                assert(sels.take(sels.len() as int) =~= sels);
            }
        } else {
            assert(sels.take(0) =~= sels);
        }
        let list = sorted_items(&set);
        let mut rows: Vec<VisRowPos> = Vec::new();
        let mut i: usize = 0;
        while i < list.len()
            invariant
                i <= list@.len(),
                rows@.len() == i,
                forall|k: int| 0 <= k < i ==> (#[trigger] rows@[k]) == VisRowPos(list@[k]),
            decreases list@.len() - i,
        {
            rows.push(VisRowPos(list[i]));
            i += 1;
        }
        proof {
            assert forall|row: usize|
                rows@.contains(VisRowPos(row)) <==> #[trigger] row_covered(sels, ncol, row as int) by {
                if rows@.contains(VisRowPos(row)) {
                    let k = choose|k: int| 0 <= k < rows@.len() && rows@[k] == VisRowPos(row);
                    assert(list@.contains(list@[k]));
                    assert(set@.contains(row));
                }
                if row_covered(sels, ncol, row as int) {
                    assert(set@.contains(row));
                    assert(list@.to_set().contains(row));
                    let at = choose|at: int| 0 <= at < list@.len() && list@[at] == row;
                    assert(rows@[at] == VisRowPos(row));
                }
            }
        }
        rows
    }
}

/// The first and the last row of each rectangle.
pub fn make_row_range(sels: &[VisSelection], ncol: usize) -> (ranges: Vec<(usize, usize)>)
    requires
        ncol > 0,
    ensures
        ranges@.len() == sels@.len(),
        forall|i: int|
            0 <= i < sels@.len() ==> (#[trigger] ranges@[i]) == (
                sels@[i].top(ncol) as usize,
                sels@[i].bottom(ncol) as usize,
            ),
{
    let mut ranges: Vec<(usize, usize)> = Vec::new();
    let mut i: usize = 0;
    while i < sels.len()
        invariant
            ncol > 0,
            i <= sels@.len(),
            ranges@.len() == i,
            forall|k: int|
                0 <= k < i ==> (#[trigger] ranges@[k]) == (
                    sels@[k].top(ncol) as usize,
                    sels@[k].bottom(ncol) as usize,
                ),
        decreases sels@.len() - i,
    {
        let (first, _) = sels[i].0.row_col(ncol);
        let (last, _) = sels[i].1.row_col(ncol);
        ranges.push((first.0, last.0));
        i += 1;
    }
    ranges
}

/// The rows that the rectangles reach over.
pub fn covered_rows(sels: &[VisSelection], ncol: usize) -> (rows: HashSet<usize>)
    requires
        ncol > 0,
    ensures
        forall|row: usize| rows@.contains(row) <==> row_covered(sels@, ncol, row as int),
{
    let ranges = make_row_range(sels, ncol);
    let mut rows: HashSet<usize> = HashSet::new();
    let mut s: usize = 0;
    while s < ranges.len()
        invariant
            ncol > 0,
            ranges@.len() == sels@.len(),
            forall|i: int|
                0 <= i < sels@.len() ==> (#[trigger] ranges@[i]) == (
                    sels@[i].top(ncol) as usize,
                    sels@[i].bottom(ncol) as usize,
                ),
            s <= ranges@.len(),
            forall|k: usize| rows@.contains(k) <==> row_covered(sels@.take(s as int), ncol, k as int),
        decreases ranges@.len() - s,
    {
        let (first, last) = ranges[s];
        let ghost done = sels@.take(s as int);
        let ghost next = sels@.take(s + 1);
        proof {
            assert(next.drop_last() =~= done);
            assert(next[s as int] == sels@[s as int]);
            assert(ranges@[s as int] == (
                sels@[s as int].top(ncol) as usize,
                sels@[s as int].bottom(ncol) as usize,
            ));
            assert(first == next[s as int].top(ncol));
            assert(last == next[s as int].bottom(ncol));
        }
        if first <= last {
            let mut r: usize = first;
            loop
                invariant_except_break
                    forall|k: usize|
                        rows@.contains(k) <==> row_covered(done, ncol, k as int) || first <= k < r,
                invariant
                    first <= r <= last,
                ensures
                    forall|k: usize|
                        rows@.contains(k) <==> row_covered(done, ncol, k as int) || first <= k
                            <= last,
                decreases last - r,
            {
                rows.insert(r);
                if r == last {
                    break ;
                }
                r += 1;
            }
        }
        proof {
            assert forall|k: usize| rows@.contains(k) <==> row_covered(next, ncol, k as int) by {
                if row_covered(done, ncol, k as int) {
                    let w = choose|w: int|
                        0 <= w < done.len() && (#[trigger] done[w]).top(ncol) <= k <= done[w].bottom(
                            ncol,
                        );
                    assert(next[w].top(ncol) <= k <= next[w].bottom(ncol));
                }
                if first <= k <= last {
                    assert(next[s as int].top(ncol) <= k <= next[s as int].bottom(ncol));
                }
                if row_covered(next, ncol, k as int) {
                    let w = choose|w: int|
                        0 <= w < next.len() && (#[trigger] next[w]).top(ncol) <= k <= next[w].bottom(
                            ncol,
                        );
                    if w < s {
                        assert(done[w].top(ncol) <= k <= done[w].bottom(ncol));
                    }
                }
            }
        }
        s += 1;
    }
    proof {
        assert(sels@.take(sels@.len() as int) =~= sels@);
    }
    rows
}

impl<R> UiState<R> {
    /// The displayed rows that `sel` would highlight, and those that the selection
    /// highlights now but `sel` would not; both from the top.
    pub fn highlight_rows(&self, sel: &[VisSelection]) -> (changes: (Vec<usize>, Vec<usize>))
        requires
            self@.vis_cols.len() > 0,
        ensures
            lists_rows(changes.0@, sel@, Seq::empty(), self@.ncol()),
            lists_rows(changes.1@, self@.cursor.selections(), sel@, self@.ncol()),
    {
        let ncol = self.p.vis_cols.len();
        let nhs_rows = covered_rows(sel, ncol);
        let ohs_rows = match &self.cc_cursor {
            CursorState::Select(s) => covered_rows(s.as_slice(), ncol),
            CursorState::Edit { .. } => HashSet::new(),
        };
        let new_list = unordered_items(&nhs_rows);
        let old_list = unordered_items(&ohs_rows);
        let mut gone: Vec<usize> = Vec::new();
        let mut i: usize = 0;
        while i < old_list.len()
            invariant
                i <= old_list@.len(),
                old_list@.no_duplicates(),
                gone@.no_duplicates(),
                forall|k: int| 0 <= k < gone@.len() ==> old_list@.take(i as int).contains(#[trigger] gone@[k]),
                forall|row: usize|
                    gone@.contains(row) <==> old_list@.take(i as int).contains(row)
                        && !nhs_rows@.contains(row),
            decreases old_list@.len() - i,
        {
            let row = old_list[i];
            let ghost seen = old_list@.take(i as int);
            let ghost next = old_list@.take(i + 1);
            proof {
                assert(next.drop_last() =~= seen);
                assert(next.last() == row);
                assert(!seen.contains(row)) by {
                    if seen.contains(row) {
                        let k = choose|k: int| 0 <= k < seen.len() && seen[k] == row;
                        assert(old_list@[k] == old_list@[i as int]);
                    }
                }
                assert forall|x: usize| next.contains(x) <==> seen.contains(x) || x == row by {
                    if next.contains(x) {
                        let k = choose|k: int| 0 <= k < next.len() && next[k] == x;
                        if k < i {
                            assert(seen[k] == x);
                        }
                    }
                    if seen.contains(x) {
                        let k = choose|k: int| 0 <= k < seen.len() && seen[k] == x;
                        assert(next[k] == x);
                    }
                    if x == row {
                        assert(next[i as int] == x);
                    }
                }
            }
            if !nhs_rows.contains(&row) {
                let ghost before = gone@;
                gone.push(row);
                proof {
                    assert forall|x: usize| gone@.contains(x) <==> before.contains(x) || x == row by {
                        if gone@.contains(x) {
                            let k = choose|k: int| 0 <= k < gone@.len() && gone@[k] == x;
                            if k < before.len() {
                                assert(before[k] == x);
                            }
                        }
                        if before.contains(x) {
                            let k = choose|k: int| 0 <= k < before.len() && before[k] == x;
                            assert(gone@[k] == x);
                        }
                        if x == row {
                            assert(gone@[before.len() as int] == x);
                        }
                    }
                    assert(!before.contains(row));
                }
            }
            i += 1;
        }
        proof {
            assert(old_list@.take(old_list@.len() as int) =~= old_list@);
        }
        let highlighted = sorted(new_list);
        let deselected = sorted(gone);
        proof {
            lemma_sorted_distinct(new_list@, highlighted@);
            lemma_sorted_distinct(gone@, deselected@);
            assert forall|row: usize|
                highlighted@.contains(row) <==> row_covered(sel@, ncol, row as int) && !row_covered(
                    Seq::<VisSelection>::empty(),
                    ncol,
                    row as int,
                ) by {
                assert(new_list@.contains(row) <==> new_list@.to_set().contains(row));
            }
            assert forall|row: usize|
                deselected@.contains(row) <==> row_covered(
                    self@.cursor.selections(),
                    ncol,
                    row as int,
                ) && !row_covered(sel@, ncol, row as int) by {
                assert(old_list@.contains(row) <==> old_list@.to_set().contains(row));
            }
        }
        (highlighted, deselected)
    }

    /// The rows of `table` that are displayed at `positions`.
    pub fn rows_at<'a>(&self, table: &'a DataTable<R>, positions: &Vec<usize>) -> (rows: Vec<&'a R>)
        requires
            self@.shows_rows_of(table@.rows.len() as int),
            forall|i: int| 0 <= i < positions@.len() ==> (#[trigger] positions@[i]) < self@.rows.len(),
        ensures
            rows@.len() == positions@.len(),
            forall|i: int|
                0 <= i < rows@.len() ==> *(#[trigger] rows@[i]) == picked_rows(
                    table@.rows,
                    self@.rows,
                    positions@,
                )[i],
    {
        let mut rows: Vec<&'a R> = Vec::new();
        let mut i: usize = 0;
        while i < positions.len()
            invariant
                self@.shows_rows_of(table@.rows.len() as int),
                forall|i: int|
                    0 <= i < positions@.len() ==> (#[trigger] positions@[i]) < self@.rows.len(),
                i <= positions@.len(),
                rows@.len() == i,
                forall|k: int|
                    0 <= k < i ==> *(#[trigger] rows@[k]) == picked_rows(
                        table@.rows,
                        self@.rows,
                        positions@,
                    )[k],
            decreases positions@.len() - i,
        {
            let row_id = self.cc_rows[positions[i]];
            assert(self@.rows[positions@[i as int] as int].0 < table@.rows.len());
            rows.push(&table.rows[row_id.0]);
            i += 1;
        }
        rows
    }

    /// The rows that `sel` would highlight, and those that the selection highlights
    /// now but `sel` would not; both from the top.
    pub fn get_highlight_changes<'a>(&self, table: &'a DataTable<R>, sel: &[VisSelection]) -> (changes: (
        Vec<&'a R>,
        Vec<&'a R>,
    ))
        requires
            self@.wf(),
            self@.shows_rows_of(table@.rows.len() as int),
            self@.selection_in_grid(),
            rects_within(sel@, self@.cells()),
        ensures
            exists|on: Seq<usize>, off: Seq<usize>|
                {
                    &&& #[trigger] lists_rows(on, sel@, Seq::empty(), self@.ncol())
                    &&& #[trigger] lists_rows(off, self@.cursor.selections(), sel@, self@.ncol())
                    &&& changes.0@.len() == on.len()
                    &&& changes.1@.len() == off.len()
                    &&& forall|i: int|
                        0 <= i < on.len() ==> *(#[trigger] changes.0@[i]) == picked_rows(
                            table@.rows,
                            self@.rows,
                            on,
                        )[i]
                    &&& forall|i: int|
                        0 <= i < off.len() ==> *(#[trigger] changes.1@[i]) == picked_rows(
                            table@.rows,
                            self@.rows,
                            off,
                        )[i]
                },
    {
        let ghost ncol = self@.ncol();
        let ghost nrows = self@.rows.len() as int;
        let (on, off) = self.highlight_rows(sel);
        proof {
            lemma_grid_fits(self@);
            assert forall|i: int| 0 <= i < on@.len() implies (#[trigger] on@[i]) < nrows by {
                assert(on@.contains(on@[i]));
                let w = choose|w: int|
                    0 <= w < sel@.len() && (#[trigger] sel@[w]).top(ncol) <= on@[i] <= sel@[w].bottom(
                        ncol,
                    );
                lemma_in_grid_fits(sel@[w].1, nrows, ncol);
            }
            assert forall|i: int| 0 <= i < off@.len() implies (#[trigger] off@[i]) < nrows by {
                assert(off@.contains(off@[i]));
                let sels = self@.cursor.selections();
                let w = choose|w: int|
                    0 <= w < sels.len() && (#[trigger] sels[w]).top(ncol) <= off@[i] <= sels[w].bottom(
                        ncol,
                    );
                lemma_in_grid_fits(sels[w].1, nrows, ncol);
            }
        }
        let highlighted = self.rows_at(table, &on);
        let unhighlighted = self.rows_at(table, &off);
        (highlighted, unhighlighted)
    }
}

/// Both corners of a rectangle whose rows and columns lie in a grid lie in it.
pub proof fn lemma_rect_within(rect: VisSelection, nrows: int, ncol: usize)
    requires
        ncol > 0,
        0 <= rect.top(ncol) < nrows,
        0 <= rect.bottom(ncol) < nrows,
    ensures
        rect.0.0 < nrows * ncol,
        rect.1.0 < nrows * ncol,
{
    lemma_row_col_linear(ncol as int, rect.0.0 as int);
    lemma_row_col_linear(ncol as int, rect.1.0 as int);
    lemma_linear_monotonic(ncol as int, rect.top(ncol), rect.left(ncol), nrows - 1, ncol - 1);
    lemma_linear_monotonic(ncol as int, rect.bottom(ncol), rect.right(ncol), nrows - 1, ncol - 1);
    assert(linear(ncol as int, nrows - 1, ncol - 1) == nrows * ncol - 1) by (nonlinear_arith);
}

} // verus!
