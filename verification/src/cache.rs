//! Keeping the displayed rows, the selection and the interactive cell in step with
//! the rows and the viewer.

use std::collections::HashMap;
use vstd::prelude::*;
use crate::index::{
    lemma_linear_monotonic,
    lemma_linear_row_col,
    lemma_row_col_linear,
    linear,
    ColumnIdx,
    IsAscending,
    RowIdx,
    VisColumnPos,
    VisLinearIdx,
    VisRowPos,
    VisSelection,
};
use crate::seqs::{lemma_retained_within, retained};
use crate::sorting::{
    keeps_ties,
    keys_order_consistently,
    never_less,
    rearranged,
    sort_rows,
    sorted_by_keys,
    SortKey,
};
use crate::state::{
    lemma_grid_fits,
    rects_within,
    lemma_columns_bounded,
    valid_columns,
    CursorModel,
    CursorState,
    PersistData,
    PersistModel,
    UiModel,
    UiState,
    BASELINE_ROW_HEIGHT,
};
use crate::viewer::RowViewer;

verus! {

broadcast use vstd::std_specs::hash::group_hash_axioms;

/// The cell moved into a grid of `nrows` rows: no lower than the last row, and no
/// further right than the last of `new_ncol` columns. The columns are counted as
/// `ncol` to a row, before and after. In a grid without a row it is the first cell.
pub open spec fn clamped_cell(cell: VisLinearIdx, ncol: usize, nrows: int, new_ncol: usize) -> VisLinearIdx {
    if nrows <= 0 {
        VisLinearIdx(0)
    } else {
        let row = vstd::math::min(cell.row(ncol), nrows - 1);
        let col = vstd::math::min(cell.col(ncol), vstd::math::max(new_ncol - 1, 0));
        VisLinearIdx(linear(ncol as int, row, col) as usize)
    }
}

/// One selected cell for each of `columns` that is visible, in the row that begins at
/// the linear index `row_start`.
pub open spec fn column_points(row_start: int, columns: Seq<ColumnIdx>, vis_cols: Seq<ColumnIdx>) -> Seq<
    VisSelection,
>
    decreases columns.len(),
{
    if columns.len() == 0 {
        Seq::empty()
    } else {
        let rest = column_points(row_start, columns.drop_last(), vis_cols);
        if vis_cols.contains(columns.last()) {
            let cell = VisLinearIdx((row_start + vis_cols.index_of(columns.last())) as usize);
            rest.push(VisSelection(cell, cell))
        } else {
            rest
        }
    }
}

/// The rectangles that a desired selection comes to: for each row that is displayed,
/// the whole row if no column is named with it, else the named columns that are
/// visible. Rows that are not displayed give nothing.
pub open spec fn desired_rects(
    desired: Seq<(RowIdx, Seq<ColumnIdx>)>,
    positions: Map<usize, usize>,
    vis_cols: Seq<ColumnIdx>,
) -> Seq<VisSelection>
    decreases desired.len(),
{
    if desired.len() == 0 {
        Seq::empty()
    } else {
        let rest = desired_rects(desired.drop_last(), positions, vis_cols);
        let (row, columns) = desired.last();
        if !positions.contains_key(row.0) {
            rest
        } else {
            let start = positions[row.0] * vis_cols.len();
            if columns.len() == 0 {
                rest.push(
                    VisSelection(
                        VisLinearIdx(start as usize),
                        VisLinearIdx((start + vis_cols.len() - 1) as usize),
                    ),
                )
            } else {
                rest + column_points(start, columns, vis_cols)
            }
        }
    }
}

/// What becomes of a rectangle laid out for `old_cols` columns in a grid of
/// `new_rows` rows and `new_cols` columns: nothing if its top-left corner lies
/// outside, else the rectangle with its bottom-right corner moved inside.
pub open spec fn reprojected_one(sel: VisSelection, old_cols: usize, new_rows: int, new_cols: usize) -> Option<
    VisSelection,
> {
    if old_cols == 0 || sel.top(old_cols) >= new_rows || sel.left(old_cols) >= new_cols {
        None
    } else {
        let bottom = vstd::math::min(sel.bottom(old_cols), new_rows - 1);
        let right = vstd::math::min(sel.right(old_cols), new_cols - 1);
        Some(
            VisSelection(
                VisLinearIdx(linear(new_cols as int, sel.top(old_cols), sel.left(old_cols)) as usize),
                VisLinearIdx(linear(new_cols as int, bottom, right) as usize),
            ),
        )
    }
}

/// The rectangles of `sels` that are left in the new grid, each moved inside.
pub open spec fn reprojected(sels: Seq<VisSelection>, old_cols: usize, new_rows: int, new_cols: usize) -> Seq<
    VisSelection,
>
    decreases sels.len(),
{
    if sels.len() == 0 {
        Seq::empty()
    } else {
        let rest = reprojected(sels.drop_last(), old_cols, new_rows, new_cols);
        match reprojected_one(sels.last(), old_cols, new_rows, new_cols) {
            Some(sel) => rest.push(sel),
            None => rest,
        }
    }
}

/// `heights` cut or filled up to `len` entries; a new entry is the baseline height.
pub open spec fn resized_heights(heights: Seq<u32>, len: int) -> Seq<u32> {
    Seq::new(
        len as nat,
        |i: int|
            if i < heights.len() {
                heights[i]
            } else {
                BASELINE_ROW_HEIGHT
            },
    )
}

/// The indices of the rows that `shown` marks, in ascending order.
pub open spec fn marked_rows(shown: Seq<bool>) -> Seq<RowIdx>
    decreases shown.len(),
{
    if shown.len() == 0 {
        Seq::empty()
    } else if shown.last() {
        marked_rows(shown.drop_last()).push(RowIdx((shown.len() - 1) as usize))
    } else {
        marked_rows(shown.drop_last())
    }
}

/// The columns `0`, `1`, ... up to `num_columns`.
pub open spec fn all_columns(num_columns: usize) -> Seq<ColumnIdx> {
    Seq::new(num_columns as nat, |i: int| ColumnIdx(i as usize))
}

impl<R> UiModel<R> {
    /// Whether every displayed row is a row of a store of `nrows` rows.
    pub open spec fn shows_rows_of(self, nrows: int) -> bool {
        forall|i: int| 0 <= i < self.rows.len() ==> (#[trigger] self.rows[i]).0 < nrows
    }

    /// The state with the interactive cell moved into the grid.
    pub open spec fn with_interactive_clamped(self, new_ncol: usize) -> UiModel<R> {
        UiModel {
            interactive_cell: clamped_cell(
                self.interactive_cell,
                self.ncol(),
                self.rows.len() as int,
                new_ncol,
            ),
            ..self
        }
    }

    /// Whether a desired selection waits and can be made: cells are selected rather
    /// than a row edited.
    pub open spec fn desired_applies(self) -> bool {
        self.desired_selection is Some && self.cursor is Select
    }

    /// The state once a waiting desired selection has been made. While a row is
    /// edited the desired selection is dropped.
    pub open spec fn with_desired_selection(self) -> UiModel<R> {
        if self.desired_applies() {
            UiModel {
                cursor: CursorModel::Select(
                    desired_rects(self.desired_selection->0, self.row_id_to_vis, self.vis_cols),
                ),
                desired_selection: None,
                ..self
            }
        } else {
            UiModel { desired_selection: None, ..self }
        }
    }

    /// The state once the selection and the interactive cell have been fitted to
    /// displayed rows that were chosen anew: a desired selection is made; without
    /// one the selected rectangles are laid out for the new grid, and a row that was
    /// being edited no longer is.
    pub open spec fn settled(self) -> UiModel<R> {
        let selected = if self.desired_applies() {
            self.with_desired_selection()
        } else {
            UiModel {
                cursor: match self.cursor {
                    CursorModel::Select(sels) => CursorModel::Select(
                        reprojected(sels, self.prev_n_columns, self.rows.len() as int, self.ncol()),
                    ),
                    CursorModel::Edit { .. } => CursorModel::Select(Seq::empty()),
                },
                desired_selection: None,
                ..self
            }
        };
        UiModel { prev_n_columns: self.ncol(), ..selected }.with_interactive_clamped(self.ncol())
    }

    /// Whether `after` is the state once the displayed rows have been chosen anew:
    /// the rows that `shown` marks are displayed, sorted by the sort keys as the
    /// viewer compares the rows; the row heights, the selection and the interactive
    /// cell are fitted to them.
    ///
    /// The sort is stable whatever the viewer's comparison is like: two displayed rows
    /// of which the earlier is less than the later by no key, as when all their keys
    /// are equal, stand in the order of the row store. The rows come out in order if
    /// every key orders them consistently.
    pub open spec fn rows_chosen<V: RowViewer<R>>(
        self,
        after: UiModel<R>,
        rows: Seq<R>,
        shown: Seq<bool>,
        vwr: &V,
    ) -> bool {
        &&& rearranged(marked_rows(shown), after.rows)
        &&& after.shows_rows_of(rows.len() as int)
        &&& forall|i: int, j: int|
            0 <= i < j < after.rows.len() && never_less(
                vwr,
                rows,
                self.sort,
                #[trigger] after.rows[i],
                #[trigger] after.rows[j],
            ) ==> after.rows[i].0 < after.rows[j].0
        &&& keys_order_consistently(vwr, rows, self.sort, after.rows) ==> sorted_by_keys(
            vwr,
            rows,
            self.sort,
            after.rows,
        )
        &&& after.rows_indexed()
        &&& after == (UiModel {
            rows: after.rows,
            row_heights: resized_heights(self.row_heights, after.rows.len() as int),
            row_id_to_vis: after.row_id_to_vis,
            dirty: false,
            ..self
        }).settled()
    }

    /// Whether the state was made for a viewer of this kind and number of columns.
    pub open spec fn same_viewer(self, viewer_type: u64, num_columns: usize) -> bool {
        self.num_columns == num_columns && self.viewer_type == viewer_type
    }

    /// The state after a frame has begun with the same viewer as before. The rows
    /// have to be chosen anew if the filter has changed, if the second frame since a
    /// row was last written has begun and a sort is set, or if a sort key is dropped
    /// because its column can no longer be sorted by. `sortable` says of each sort
    /// key whether its column can.
    pub open spec fn revalidated(self, filter_hash: u64, sortable: Seq<bool>) -> UiModel<R> {
        let frames = if self.cursor is Edit || self.num_frame_from_last_edit == usize::MAX {
            self.num_frame_from_last_edit
        } else {
            (self.num_frame_from_last_edit + 1) as usize
        };
        UiModel {
            viewer_filter_hash: filter_hash,
            num_frame_from_last_edit: frames,
            sort: retained(self.sort, sortable),
            dirty: self.dirty || self.viewer_filter_hash != filter_hash || (frames == 2
                && self.sort.len() > 0) || sortable.contains(false),
            ..self
        }
    }

    /// The state after a frame has begun with a viewer of the given kind, number of
    /// columns and filter.
    pub open spec fn identity_validated(
        self,
        viewer_type: u64,
        num_columns: usize,
        filter_hash: u64,
        sortable: Seq<bool>,
    ) -> UiModel<R> {
        if self.same_viewer(viewer_type, num_columns) {
            self.revalidated(filter_hash, sortable)
        } else {
            UiModel::reset_for(viewer_type, num_columns, filter_hash)
        }
    }

    /// Whether a stored layout is taken over: it was stored for as many columns as
    /// the viewer has, and its visible columns can be those of the viewer.
    pub open spec fn adopts(self, stored: PersistModel) -> bool {
        stored.num_columns == self.num_columns && valid_columns(stored.vis_cols, stored.num_columns)
    }

    /// The state after the stored layout has been asked for, for the first time:
    /// a layout that is taken over replaces the visible columns and the sort keys,
    /// less the keys whose column cannot be sorted by, as `sortable` says of each.
    pub open spec fn with_layout_loaded(self, stored: PersistModel, sortable: Seq<bool>) -> UiModel<R> {
        if self.adopts(stored) {
            UiModel {
                is_p_loaded: true,
                dirty: true,
                vis_cols: stored.vis_cols,
                sort: retained(stored.sort, sortable),
                ..self
            }
        } else {
            UiModel { is_p_loaded: true, dirty: true, ..self }
        }
    }

    /// The layout that is kept from one session to the next.
    pub open spec fn layout(self) -> PersistModel {
        PersistModel { num_columns: self.num_columns, vis_cols: self.vis_cols, sort: self.sort }
    }

    /// The state made anew for a viewer: every column visible, nothing else kept.
    pub open spec fn reset_for(viewer_type: u64, num_columns: usize, filter_hash: u64) -> UiModel<R> {
        UiModel {
            viewer_type,
            viewer_filter_hash: filter_hash,
            num_columns,
            vis_cols: all_columns(num_columns),
            dirty: true,
            ..UiModel::blank()
        }
    }
}

/// In a grid whose size fits, the linear index of every cell is less than the number
/// of cells.
pub proof fn lemma_cell_in_grid(nrows: int, ncol: usize, num_columns: usize, row: int, col: int)
    requires
        0 <= row < nrows,
        0 <= col < ncol <= num_columns,
        (nrows + 1) * num_columns <= usize::MAX,
    ensures
        0 <= linear(ncol as int, row, col) < nrows * ncol <= usize::MAX,
{
    lemma_linear_monotonic(ncol as int, 0, 0, row, col);
    lemma_linear_monotonic(ncol as int, row, col, nrows - 1, ncol - 1);
    assert(linear(ncol as int, nrows - 1, ncol - 1) == nrows * ncol - 1) by (nonlinear_arith);
    assert(nrows * ncol <= nrows * num_columns) by (nonlinear_arith)
        requires
            0 <= nrows,
            ncol <= num_columns,
    ;
    assert((nrows + 1) * num_columns == nrows * num_columns + num_columns) by (nonlinear_arith);
}

/// The cells that `column_points` selects in a displayed row lie in the grid.
pub proof fn lemma_column_points_in_grid(
    nrows: int,
    num_columns: usize,
    row: int,
    columns: Seq<ColumnIdx>,
    vis_cols: Seq<ColumnIdx>,
)
    requires
        0 <= row < nrows,
        0 < vis_cols.len() <= num_columns,
        (nrows + 1) * num_columns <= usize::MAX,
    ensures
        rects_within(column_points(row * vis_cols.len(), columns, vis_cols), nrows * vis_cols.len()),
    decreases columns.len(),
{
    if columns.len() > 0 {
        lemma_column_points_in_grid(nrows, num_columns, row, columns.drop_last(), vis_cols);
        let rest = column_points(row * vis_cols.len(), columns.drop_last(), vis_cols);
        let all = column_points(row * vis_cols.len(), columns, vis_cols);
        if vis_cols.contains(columns.last()) {
            lemma_cell_in_grid(
                nrows,
                vis_cols.len() as usize,
                num_columns,
                row,
                vis_cols.index_of(columns.last()),
            );
            assert forall|i: int| 0 <= i < all.len() implies (#[trigger] all[i]).0.0 < nrows
                * vis_cols.len() && all[i].1.0 < nrows * vis_cols.len() by {
                if i < rest.len() {
                    assert(all[i] == rest[i]);
                }
            }
        }
    }
}

/// The rectangles of a desired selection lie in the grid.
pub proof fn lemma_desired_rects_in_grid<R>(m: UiModel<R>, desired: Seq<(RowIdx, Seq<ColumnIdx>)>)
    requires
        m.wf(),
    ensures
        rects_within(desired_rects(desired, m.row_id_to_vis, m.vis_cols), m.cells()),
    decreases desired.len(),
{
    lemma_columns_bounded(m.vis_cols, m.num_columns);
    if desired.len() > 0 {
        lemma_desired_rects_in_grid(m, desired.drop_last());
        let rest = desired_rects(desired.drop_last(), m.row_id_to_vis, m.vis_cols);
        let all = desired_rects(desired, m.row_id_to_vis, m.vis_cols);
        let (row, columns) = desired.last();
        if m.row_id_to_vis.contains_key(row.0) {
            let pos = m.row_id_to_vis[row.0] as int;
            let n = m.vis_cols.len() as usize;
            lemma_cell_in_grid(m.rows.len() as int, n, m.num_columns, pos, 0);
            lemma_cell_in_grid(m.rows.len() as int, n, m.num_columns, pos, n - 1);
            lemma_column_points_in_grid(m.rows.len() as int, m.num_columns, pos, columns, m.vis_cols);
            let points = column_points(pos * n, columns, m.vis_cols);
            assert forall|i: int| 0 <= i < all.len() implies (#[trigger] all[i]).0.0 < m.cells()
                && all[i].1.0 < m.cells() by {
                if i < rest.len() {
                    assert(all[i] == rest[i]);
                } else if columns.len() > 0 {
                    assert(all[i] == points[i - rest.len()]);
                }
            }
        }
    }
}

/// The rectangles that are left of a selection in a new grid lie in that grid.
pub proof fn lemma_reprojected_in_grid(
    sels: Seq<VisSelection>,
    old_cols: usize,
    new_rows: int,
    new_cols: usize,
    num_columns: usize,
)
    requires
        0 < new_cols <= num_columns,
        0 <= new_rows,
        (new_rows + 1) * num_columns <= usize::MAX,
    ensures
        rects_within(reprojected(sels, old_cols, new_rows, new_cols), new_rows * new_cols),
    decreases sels.len(),
{
    if sels.len() > 0 {
        lemma_reprojected_in_grid(sels.drop_last(), old_cols, new_rows, new_cols, num_columns);
        let rest = reprojected(sels.drop_last(), old_cols, new_rows, new_cols);
        let all = reprojected(sels, old_cols, new_rows, new_cols);
        let sel = sels.last();
        if reprojected_one(sel, old_cols, new_rows, new_cols) is Some {
            let bottom = vstd::math::min(sel.bottom(old_cols), new_rows - 1);
            let right = vstd::math::min(sel.right(old_cols), new_cols - 1);
            lemma_cell_in_grid(new_rows, new_cols, num_columns, sel.top(old_cols), sel.left(old_cols));
            lemma_cell_in_grid(new_rows, new_cols, num_columns, bottom, right);
            assert forall|i: int| 0 <= i < all.len() implies (#[trigger] all[i]).0.0 < new_rows
                * new_cols && all[i].1.0 < new_rows * new_cols by {
                if i < rest.len() {
                    assert(all[i] == rest[i]);
                }
            }
        }
    }
}

/// Whether `columns` can be the visible columns of a viewer of `num_columns` columns.
pub fn columns_valid(columns: &Vec<ColumnIdx>, num_columns: usize) -> (valid: bool)
    ensures
        valid == valid_columns(columns@, num_columns),
{
    if columns.len() == 0 {
        return false;
    }
    let mut i: usize = 0;
    while i < columns.len()
        invariant
            i <= columns@.len(),
            forall|a: int| 0 <= a < i ==> (#[trigger] columns@[a]).0 < num_columns,
            forall|a: int, b: int| 0 <= a < b < i ==> columns@[a] != columns@[b],
        decreases columns@.len() - i,
    {
        if columns[i].0 >= num_columns {
            return false;
        }
        let mut j: usize = 0;
        while j < i
            invariant
                j <= i < columns@.len(),
                forall|a: int| 0 <= a < j ==> columns@[a] != columns@[i as int],
            decreases i - j,
        {
            if columns[j] == columns[i] {
                assert(!columns@.no_duplicates());
                return false;
            }
            j += 1;
        }
        i += 1;
    }
    true
}

/// The items of `items` that `keep` marks, `keep` being as long as `items`.
pub fn retain_marked<T: Copy>(items: &Vec<T>, keep: &Vec<bool>) -> (kept: Vec<T>)
    requires
        items@.len() == keep@.len(),
    ensures
        kept@ == retained(items@, keep@),
{
    let mut kept: Vec<T> = Vec::new();
    let mut i: usize = 0;
    while i < items.len()
        invariant
            items@.len() == keep@.len(),
            i <= items@.len(),
            kept@ == retained(items@.take(i as int), keep@.take(i as int)),
        decreases items@.len() - i,
    {
        proof {
            assert(items@.take(i + 1).drop_last() =~= items@.take(i as int));
            assert(keep@.take(i + 1).drop_last() =~= keep@.take(i as int));
        }
        if keep[i] {
            kept.push(items[i]);
        }
        i += 1;
    }
    proof {
        assert(items@.take(items@.len() as int) =~= items@);
        assert(keep@.take(keep@.len() as int) =~= keep@);
    }
    kept
}

/// A copy of `items`.
pub fn copied<T: Copy>(items: &Vec<T>) -> (copy: Vec<T>)
    ensures
        copy@ == items@,
{
    let mut copy: Vec<T> = Vec::new();
    let mut i: usize = 0;
    while i < items.len()
        invariant
            i <= items@.len(),
            copy@ == items@.take(i as int),
        decreases items@.len() - i,
    {
        copy.push(items[i]);
        assert(copy@ =~= items@.take(i + 1));
        i += 1;
    }
    assert(items@.take(items@.len() as int) =~= items@);
    copy
}

/// The columns `0`, `1`, ... up to `num_columns` are valid visible columns.
pub proof fn lemma_all_columns_valid(num_columns: usize)
    requires
        num_columns > 0,
    ensures
        valid_columns(all_columns(num_columns), num_columns),
{
}

/// Row `i` of the store: what a viewer's filter is asked about, row after row.
pub fn row_to_filter<R>(rows: &[R], i: usize) -> (row: &R)
    requires
        i < rows@.len(),
    ensures
        *row == rows@[i as int],
{
    &rows[i]
}

/// The column of sort key `i`: what a viewer is asked whether the rows can be sorted
/// by.
pub fn sort_key_column(sort: &Vec<(ColumnIdx, IsAscending)>, i: usize) -> (column: usize)
    requires
        i < sort@.len(),
    ensures
        column == sort@[i as int].0.0,
{
    sort[i].0.0
}

impl<R> UiState<R> {
    /// Begins a frame. A viewer of another kind or with another number of columns
    /// has the state made anew. For the same viewer the state stays, and the rows
    /// are marked to be chosen anew where the filter, the time since the last edit
    /// or a sort key that can no longer be sorted by asks for it.
    ///
    /// The number of columns, the filter's hash and whether a column can be sorted by
    /// are what the viewer answers; `begin_frame` says what the answers lead to.
    pub fn validate_identity<V: RowViewer<R>>(&mut self, vwr: &mut V, viewer_type: u64)
        ensures
            exists|num_columns: usize, filter_hash: u64, sortable: Seq<bool>|
                {
                    &&& sortable.len() == old(self)@.sort.len()
                    &&& final(self)@ == #[trigger] old(self)@.identity_validated(
                        viewer_type,
                        num_columns,
                        filter_hash,
                        sortable,
                    )
                },
            old(self)@.wf() && final(self)@.num_columns > 0 ==> final(self)@.wf(),
            final(self)@.viewer_type == viewer_type,
    {
        let num_columns = vwr.num_columns();
        let vwr_hash = vwr.row_filter_hash();

        // The sort keys matter only to a viewer that is the same as before.
        let mut sortable: Vec<bool> = Vec::new();
        if self.is_same_viewer(viewer_type, num_columns) {
            let mut i: usize = 0;
            while i < self.p.sort.len()
                invariant
                    i <= self.p.sort@.len(),
                    sortable@.len() == i,
                    self == old(self),
                decreases self.p.sort@.len() - i,
            {
                sortable.push(vwr.is_sortable_column(sort_key_column(&self.p.sort, i)));
                i += 1;
            }
        }
        self.begin_frame(viewer_type, num_columns, vwr_hash, &sortable);
        proof {
            if !old(self)@.same_viewer(viewer_type, num_columns) {
                let all = Seq::new(old(self)@.sort.len(), |i: int| true);
                assert(self@ == old(self)@.identity_validated(
                    viewer_type,
                    num_columns,
                    vwr_hash,
                    all,
                ));
            }
        }
    }

    /// Whether the state was made for a viewer of this kind and number of columns.
    pub fn is_same_viewer(&self, viewer_type: u64, num_columns: usize) -> (same: bool)
        ensures
            same == self@.same_viewer(viewer_type, num_columns),
    {
        self.p.num_columns == num_columns && self.viewer_type == viewer_type
    }

    /// Begins a frame with what the viewer has answered: its kind, its number of
    /// columns, the hash of its filter, and of each sort key whether its column can
    /// be sorted by. A viewer of another kind or with another number of columns has
    /// the state made anew, whatever `sortable` holds.
    pub fn begin_frame(&mut self, viewer_type: u64, num_columns: usize, filter_hash: u64, sortable: &Vec<bool>)
        requires
            old(self)@.same_viewer(viewer_type, num_columns) ==> sortable@.len() == old(self)@.sort.len(),
        ensures
            final(self)@ == old(self)@.identity_validated(
                viewer_type,
                num_columns,
                filter_hash,
                sortable@,
            ),
            old(self)@.wf() && num_columns > 0 ==> final(self)@.wf(),
    {
        if self.is_same_viewer(viewer_type, num_columns) {
            self.revalidate(filter_hash, sortable);
        } else {
            self.reset(viewer_type, num_columns, filter_hash);
        }
    }

    /// The frame begins with the same viewer as before, whose filter has the hash
    /// `filter_hash`; `sortable` says of each sort key whether its column can be
    /// sorted by.
    pub fn revalidate(&mut self, filter_hash: u64, sortable: &Vec<bool>)
        requires
            sortable@.len() == old(self)@.sort.len(),
        ensures
            final(self)@ == old(self)@.revalidated(filter_hash, sortable@),
            old(self)@.wf() ==> final(self)@.wf(),
    {
        // A changed filter always asks for the rows to be chosen anew.
        if self.viewer_filter_hash != filter_hash {
            self.viewer_filter_hash = filter_hash;
            self.cc_dirty = true;
        }
        // The rows are not sorted anew while a row is edited, nor right after, so
        // that a row does not move away while cell after cell of it is edited.
        if !self.is_editing() && self.cc_num_frame_from_last_edit < usize::MAX {
            self.cc_num_frame_from_last_edit += 1;
        }
        if self.cc_num_frame_from_last_edit == 2 && self.p.sort.len() > 0 {
            self.cc_dirty = true;
        }
        // Sort keys whose column can no longer be sorted by are dropped.
        let mut any_sort_invalidated = false;
        let mut i: usize = 0;
        while i < sortable.len()
            invariant
                i <= sortable@.len(),
                any_sort_invalidated == sortable@.take(i as int).contains(false),
            decreases sortable@.len() - i,
        {
            proof {
                let seen = sortable@.take(i as int);
                let next = sortable@.take(i + 1);
                assert(next.drop_last() =~= seen);
                if seen.contains(false) {
                    let k = choose|k: int| 0 <= k < seen.len() && seen[k] == false;
                    assert(next[k] == false);
                }
                if !sortable@[i as int] {
                    assert(next[i as int] == false);
                }
                if next.contains(false) {
                    let k = choose|k: int| 0 <= k < next.len() && next[k] == false;
                    if k < i {
                        assert(seen[k] == false);
                    }
                }
            }
            if !sortable[i] {
                any_sort_invalidated = true;
            }
            i += 1;
        }
        proof {
            assert(sortable@.take(sortable@.len() as int) =~= sortable@);
        }
        if any_sort_invalidated {
            self.p.sort = retain_marked(&self.p.sort, sortable);
            self.cc_dirty = true;
        } else {
            proof {
                lemma_retained_within(self.p.sort@, sortable@);
            }
        }
    }

    /// Makes the state anew for a viewer of `num_columns` columns: every column is
    /// visible, and the rows are to be chosen.
    pub fn reset(&mut self, viewer_type: u64, num_columns: usize, filter_hash: u64)
        ensures
            final(self)@ == UiModel::<R>::reset_for(viewer_type, num_columns, filter_hash),
            num_columns > 0 ==> final(self)@.wf(),
    {
        *self = Default::default();
        self.viewer_type = viewer_type;
        self.viewer_filter_hash = filter_hash;
        self.p.num_columns = num_columns;

        let mut columns: Vec<ColumnIdx> = Vec::new();
        let mut i: usize = 0;
        while i < num_columns
            invariant
                i <= num_columns,
                columns@ == all_columns(i),
            decreases num_columns - i,
        {
            columns.push(ColumnIdx(i));
            assert(columns@ =~= all_columns((i + 1) as usize));
            i += 1;
        }
        self.p.vis_cols = columns;
        self.cc_dirty = true;
        proof {
            if num_columns > 0 {
                lemma_all_columns_valid(num_columns);
                assert(self@.rows_indexed());
                assert(self@.cursor.selections() =~= Seq::empty());
                assert(self@.history =~= Seq::empty());
                assert((self@.rows.len() + 1) * self@.num_columns == num_columns) by (nonlinear_arith)
                    requires
                        self@.rows.len() == 0,
                        self@.num_columns == num_columns,
                ;
                assert(self@.wf());
            }
        }
    }

    /// Whether the stored layout has been asked for.
    pub fn is_persist_loaded(&self) -> (loaded: bool)
        ensures
            loaded == self@.is_p_loaded,
    {
        self.is_p_loaded
    }

    /// Keeps the layout from one session to the next. The first call takes over
    /// `stored`, what the storage held, where it fits the viewer; a later call
    /// returns the layout to be stored if the state has changed since the rows were
    /// last chosen.
    pub fn validate_persistency<V: RowViewer<R>>(
        &mut self,
        stored: Option<PersistData>,
        vwr: &mut V,
    ) -> (to_store: Option<PersistData>)
        requires
            old(self)@.wf(),
        ensures
            final(self)@.wf(),
            old(self)@.is_p_loaded ==> {
                &&& final(self)@ == old(self)@
                &&& to_store is Some == old(self)@.dirty
                &&& to_store is Some ==> to_store->0@ == old(self)@.layout()
            },
            !old(self)@.is_p_loaded ==> {
                &&& to_store is None
                &&& match stored {
                    Some(layout) => exists|sortable: Seq<bool>|
                        sortable.len() == layout@.sort.len() && final(self)@
                            == #[trigger] old(self)@.with_layout_loaded(layout@, sortable),
                    None => final(self)@ == (UiModel { is_p_loaded: true, dirty: true, ..old(self)@ }),
                }
            },
    {
        if !self.is_p_loaded {
            self.is_p_loaded = true;
            self.cc_dirty = true;
            match stored {
                Some(layout) => {
                    let mut sortable: Vec<bool> = Vec::new();
                    let mut i: usize = 0;
                    while i < layout.sort.len()
                        invariant
                            i <= layout.sort@.len(),
                            sortable@.len() == i,
                        decreases layout.sort@.len() - i,
                    {
                        sortable.push(vwr.is_sortable_column(sort_key_column(&layout.sort, i)));
                        i += 1;
                    }
                    self.load_layout(layout, &sortable);
                    proof {
                        assert(self@ == old(self)@.with_layout_loaded(layout@, sortable@));
                    }
                },
                None => {},
            }
            None
        } else if self.cc_dirty {
            Some(
                PersistData {
                    num_columns: self.p.num_columns,
                    vis_cols: copied(&self.p.vis_cols),
                    sort: copied(&self.p.sort),
                },
            )
        } else {
            None
        }
    }

    /// Takes over the stored layout where it fits the viewer; `sortable` says of each
    /// of its sort keys whether the column can be sorted by.
    pub fn load_layout(&mut self, stored: PersistData, sortable: &Vec<bool>)
        requires
            old(self)@.wf(),
            sortable@.len() == stored@.sort.len(),
        ensures
            final(self)@ == old(self)@.with_layout_loaded(stored@, sortable@),
            final(self)@.wf(),
    {
        self.is_p_loaded = true;
        self.cc_dirty = true;
        // A layout stored for another number of columns belongs to another table.
        if stored.num_columns == self.p.num_columns && columns_valid(
            &stored.vis_cols,
            stored.num_columns,
        ) {
            let sort = retain_marked(&stored.sort, sortable);
            self.p.vis_cols = stored.vis_cols;
            self.p.sort = sort;
        }
    }

    /// Moves the interactive cell into the grid: no lower than the last displayed
    /// row, and no further right than the last of `new_num_column` columns; to the
    /// first cell where no row is displayed.
    pub fn validate_interactive_cell(&mut self, new_num_column: usize)
        requires
            old(self)@.vis_cols.len() > 0,
        ensures
            final(self)@ == old(self)@.with_interactive_clamped(new_num_column),
            final(self)@.interactive_in_grid(),
    {
        let clen = self.p.vis_cols.len();
        if self.cc_rows.len() == 0 {
            self.cc_interactive_cell = VisLinearIdx(0);
            return;
        }
        let (r, c) = self.cc_interactive_cell.row_col(clen);
        let rmax = self.cc_rows.len() - 1;
        let cmax = if new_num_column == 0 {
            0
        } else {
            new_num_column - 1
        };
        let row = if r.0 <= rmax {
            r.0
        } else {
            rmax
        };
        let col = if c.0 <= cmax {
            c.0
        } else {
            cmax
        };
        proof {
            lemma_linear_monotonic(clen as int, row as int, col as int, r.0 as int, c.0 as int);
            lemma_linear_monotonic(clen as int, 0, 0, row as int, col as int);
            lemma_linear_monotonic(clen as int, 0, 0, row as int, 0);
            lemma_linear_row_col(clen as int, row as int, col as int);
        }
        self.cc_interactive_cell = VisLinearIdx(row * clen + col);
    }

    /// Makes a waiting desired selection, and says whether it did. While a row is
    /// edited the desired selection is dropped.
    pub fn handle_desired_selection(&mut self) -> (done: bool)
        requires
            old(self)@.wf(),
        ensures
            done == old(self)@.desired_applies(),
            final(self)@ == old(self)@.with_desired_selection(),
            final(self)@.wf(),
            done ==> final(self)@.selection_in_grid(),
    {
        let taken = self.cc_desired_selection.take();
        let next_sel = match taken {
            Some(list) => list,
            None => {
                assert(self@ == old(self)@.with_desired_selection());
                return false;
            },
        };
        if let CursorState::Edit { .. } = &self.cc_cursor {
            assert(self@ == old(self)@.with_desired_selection());
            return false;
        }
        let ghost desired = old(self)@.desired_selection->0;
        let ghost positions = self@.row_id_to_vis;
        let ghost vis_cols = self@.vis_cols;
        proof {
            lemma_columns_bounded(self@.vis_cols, self@.num_columns);
            lemma_desired_rects_in_grid(old(self)@, desired);
        }
        let ncol = self.p.vis_cols.len();
        let mut sel: Vec<VisSelection> = Vec::new();
        let mut i: usize = 0;
        while i < next_sel.len()
            invariant
                self@.wf(),
                self@ == (UiModel { desired_selection: None, ..old(self)@ }),
                positions == self@.row_id_to_vis,
                vis_cols == self@.vis_cols,
                ncol == vis_cols.len(),
                0 < ncol <= self@.num_columns,
                desired.len() == next_sel@.len(),
                forall|k: int|
                    0 <= k < next_sel@.len() ==> #[trigger] desired[k] == (
                        next_sel@[k].0,
                        next_sel@[k].1@,
                    ),
                i <= next_sel@.len(),
                sel@ == desired_rects(desired.take(i as int), positions, vis_cols),
            decreases next_sel@.len() - i,
        {
            let ghost seen = desired.take(i as int);
            let ghost next = desired.take(i + 1);
            proof {
                assert(next.drop_last() =~= seen);
                assert(next.last() == desired[i as int]);
            }
            let row_id = next_sel[i].0;
            let columns = &next_sel[i].1;
            match self.cc_row_id_to_vis.get(&row_id.0) {
                None => {},
                Some(vis_row) => {
                    let vis_row = VisRowPos(*vis_row);
                    proof {
                        lemma_cell_in_grid(
                            self@.rows.len() as int,
                            ncol,
                            self@.num_columns,
                            vis_row.0 as int,
                            0,
                        );
                        lemma_cell_in_grid(
                            self@.rows.len() as int,
                            ncol,
                            self@.num_columns,
                            vis_row.0 as int,
                            ncol - 1,
                        );
                    }
                    if columns.len() == 0 {
                        let p_left = vis_row.linear_index(ncol, VisColumnPos(0));
                        let p_right = vis_row.linear_index(ncol, VisColumnPos(ncol - 1));
                        sel.push(VisSelection(p_left, p_right));
                    } else {
                        let ghost start = vis_row.0 * ncol;
                        let ghost base = sel@;
                        let mut j: usize = 0;
                        while j < columns.len()
                            invariant
                                self@.wf(),
                                vis_cols == self@.vis_cols,
                                ncol == vis_cols.len(),
                                0 < ncol <= self@.num_columns,
                                vis_row.0 < self@.rows.len(),
                                start == vis_row.0 * ncol,
                                j <= columns@.len(),
                                sel@ == base + column_points(start, columns@.take(j as int), vis_cols),
                            decreases columns@.len() - j,
                        {
                            let col = columns[j];
                            proof {
                                assert(columns@.take(j + 1).drop_last() =~= columns@.take(j as int));
                                assert(columns@.take(j + 1).last() == col);
                            }
                            let ghost so_far = sel@;
                            match self.vis_col_position(col) {
                                Some(vis_c) => {
                                    proof {
                                        lemma_cell_in_grid(
                                            self@.rows.len() as int,
                                            ncol,
                                            self@.num_columns,
                                            vis_row.0 as int,
                                            vis_c.0 as int,
                                        );
                                    }
                                    let p = vis_row.linear_index(ncol, vis_c);
                                    sel.push(VisSelection(p, p));
                                    assert(sel@ =~= base + column_points(
                                        start,
                                        columns@.take(j + 1),
                                        vis_cols,
                                    ));
                                },
                                None => {},
                            }
                            j += 1;
                        }
                        proof {
                            assert(columns@.take(columns@.len() as int) =~= columns@);
                        }
                    }
                },
            }
            i += 1;
        }
        proof {
            assert(desired.take(desired.len() as int) =~= desired);
        }
        self.cc_cursor = CursorState::Select(sel);
        true
    }

    /// Fits the selection and the interactive cell to displayed rows that were chosen
    /// anew.
    pub(crate) fn settle(&mut self)
        requires
            old(self)@.wf(),
        ensures
            final(self)@ == old(self)@.settled(),
            final(self)@.wf(),
            final(self)@.selection_in_grid(),
            final(self)@.interactive_in_grid(),
    {
        let ncol = self.p.vis_cols.len();
        proof {
            lemma_columns_bounded(self@.vis_cols, self@.num_columns);
        }
        if self.handle_desired_selection() {
            // The desired selection has taken the place of the selection.
        } else {
            let mut cursor = CursorState::Select(Vec::new());
            std::mem::swap(&mut self.cc_cursor, &mut cursor);
            let mut kept: Vec<VisSelection> = Vec::new();
            if let CursorState::Select(sels) = cursor {
                let old_cols = self.cc_prev_n_columns;
                let new_rows = self.cc_rows.len();
                let new_cols = ncol;
                proof {
                    lemma_reprojected_in_grid(
                        sels@,
                        old_cols,
                        new_rows as int,
                        new_cols,
                        self@.num_columns,
                    );
                }
                let mut i: usize = 0;
                while i < sels.len()
                    invariant
                        0 < new_cols <= self@.num_columns,
                        (new_rows + 1) * self@.num_columns <= usize::MAX,
                        i <= sels@.len(),
                        kept@ == reprojected(sels@.take(i as int), old_cols, new_rows as int, new_cols),
                    decreases sels@.len() - i,
                {
                    let sel = sels[i];
                    proof {
                        assert(sels@.take(i + 1).drop_last() =~= sels@.take(i as int));
                        assert(sels@.take(i + 1).last() == sel);
                    }
                    if old_cols > 0 {
                        let (min_r, min_c) = sel.0.row_col(old_cols);
                        if min_r.0 < new_rows && min_c.0 < new_cols {
                            let (max_r, max_c) = sel.1.row_col(old_cols);
                            let max_r = VisRowPos(
                                if max_r.0 <= new_rows - 1 {
                                    max_r.0
                                } else {
                                    new_rows - 1
                                },
                            );
                            let max_c = VisColumnPos(
                                if max_c.0 <= new_cols - 1 {
                                    max_c.0
                                } else {
                                    new_cols - 1
                                },
                            );
                            proof {
                                lemma_cell_in_grid(
                                    new_rows as int,
                                    new_cols,
                                    self@.num_columns,
                                    min_r.0 as int,
                                    min_c.0 as int,
                                );
                                lemma_cell_in_grid(
                                    new_rows as int,
                                    new_cols,
                                    self@.num_columns,
                                    max_r.0 as int,
                                    max_c.0 as int,
                                );
                            }
                            let min = min_r.linear_index(new_cols, min_c);
                            let max = max_r.linear_index(new_cols, max_c);
                            kept.push(VisSelection(min, max));
                        }
                    }
                    i += 1;
                }
                proof {
                    assert(sels@.take(sels@.len() as int) =~= sels@);
                }
            }
            self.cc_cursor = CursorState::Select(kept);
        }
        self.cc_prev_n_columns = ncol;
        self.validate_interactive_cell(ncol);
    }

    /// Chooses the displayed rows anew if they are out of date: the rows that the
    /// viewer's filter lets through, sorted by the sort keys; then fits the row
    /// heights, the selection and the interactive cell to them. If they are up to
    /// date, only a waiting desired selection is made.
    ///
    /// Which rows the filter lets through is for the viewer to say; `validate_rows`
    /// says what each answer leads to.
    pub fn validate_cc<V: RowViewer<R>>(&mut self, rows: &[R], vwr: &mut V)
        requires
            old(self)@.wf(),
            (rows@.len() + 1) * old(self)@.num_columns <= usize::MAX,
        ensures
            final(self)@.wf(),
            !old(self)@.dirty ==> final(self)@ == old(self)@.with_desired_selection(),
            old(self)@.dirty || old(self)@.desired_applies() ==> final(self)@.selection_in_grid(),
            old(self)@.dirty ==> final(self)@.interactive_in_grid() && exists|shown: Seq<bool>|
                shown.len() == rows@.len() && #[trigger] old(self)@.rows_chosen(
                    final(self)@,
                    rows@,
                    shown,
                    final(vwr),
                ),
    {
        if !self.cc_dirty {
            self.handle_desired_selection();
            return ;
        }
        let mut shown: Vec<bool> = Vec::new();
        let mut i: usize = 0;
        while i < rows.len()
            invariant
                i <= rows@.len(),
                shown@.len() == i,
            decreases rows@.len() - i,
        {
            shown.push(vwr.filter_row(row_to_filter(rows, i)));
            i += 1;
        }
        self.validate_rows(rows, &shown, &*vwr);
    }

    /// Chooses the displayed rows anew: the rows that `shown` marks, sorted by the
    /// sort keys; then fits the row heights, the selection and the interactive cell
    /// to them.
    pub fn validate_rows<V: RowViewer<R>>(&mut self, rows: &[R], shown: &Vec<bool>, vwr: &V)
        requires
            old(self)@.wf(),
            (rows@.len() + 1) * old(self)@.num_columns <= usize::MAX,
            shown@.len() == rows@.len(),
        ensures
            final(self)@.wf(),
            final(self)@.selection_in_grid(),
            final(self)@.interactive_in_grid(),
            old(self)@.rows_chosen(final(self)@, rows@, shown@, vwr),
    {
        self.cc_dirty = false;
        let ghost mask = shown@;
        let shown_mask = shown;

        // The rows that are marked, in the order of the row store.
        let mut shown: Vec<RowIdx> = Vec::new();
        let mut i: usize = 0;
        while i < rows.len()
            invariant
                mask == shown_mask@,
                mask.len() == rows@.len(),
                i <= rows@.len(),
                shown@.len() <= i,
                shown@ == marked_rows(mask.take(i as int)),
                forall|k: int| 0 <= k < shown@.len() ==> (#[trigger] shown@[k]).0 < i,
                forall|a: int, b: int|
                    0 <= a < b < shown@.len() ==> (#[trigger] shown@[a]).0 < (#[trigger] shown@[b]).0,
            decreases rows@.len() - i,
        {
            proof {
                assert(mask.take(i + 1).drop_last() =~= mask.take(i as int));
                assert(mask.take(i + 1).last() == mask[i as int]);
            }
            if shown_mask[i] {
                shown.push(RowIdx(i));
            }
            i += 1;
        }
        proof {
            assert(mask.take(mask.len() as int) =~= mask);
        }
        let ghost filtered = shown@;
        proof {
            assert forall|a: int, b: int| 0 <= a < b < filtered.len() implies filtered.index_of(
                filtered[a],
            ) < filtered.index_of(filtered[b]) by {
                assert(filtered.index_of(filtered[a]) == a);
                assert(filtered.index_of(filtered[b]) == b);
            }
        }

        sort_rows(&mut shown, vwr, rows, self.p.sort.as_slice());
        proof {
            let keys = self@.sort;
            assert forall|k: int| 0 <= k < shown@.len() implies (#[trigger] shown@[k]).0
                < rows@.len() by {
                assert(shown@.contains(shown@[k]));
                assert(filtered.contains(shown@[k]));
            }
            assert forall|i: int, j: int|
                0 <= i < j < shown@.len() && never_less(
                    vwr,
                    rows@,
                    keys,
                    #[trigger] shown@[i],
                    #[trigger] shown@[j],
                ) implies shown@[i].0 < shown@[j].0 by {
                assert(shown@.contains(shown@[i]));
                assert(shown@.contains(shown@[j]));
                let a = filtered.index_of(shown@[i]);
                let b = filtered.index_of(shown@[j]);
                assert(a < b);
            }
            if keys_order_consistently(vwr, rows@, keys, shown@) {
                assert forall|k: int| 0 <= k < keys.len() implies crate::sorting::orders_consistently(
                    vwr,
                    rows@,
                    #[trigger] keys[k],
                    filtered,
                ) by {
                    assert(crate::sorting::orders_consistently(vwr, rows@, keys[k], shown@));
                }
            }
        }

        // The heights that are known stay; a new row gets the baseline height.
        let ghost old_heights = self.cc_row_heights@;
        self.cc_row_heights.truncate(shown.len());
        while self.cc_row_heights.len() < shown.len()
            invariant
                self.cc_row_heights@.len() <= shown@.len(),
                old_heights.len() <= self.cc_row_heights@.len() || self.cc_row_heights@.len()
                    == shown@.len(),
                forall|k: int|
                    0 <= k < self.cc_row_heights@.len() ==> self.cc_row_heights@[k] == resized_heights(
                        old_heights,
                        shown@.len() as int,
                    )[k],
                self.undo_queue == old(self).undo_queue,
                self.undo_cursor == old(self).undo_cursor,
                self.clipboard == old(self).clipboard,
                self.p == old(self).p,
                self.is_p_loaded == old(self).is_p_loaded,
                self.viewer_type == old(self).viewer_type,
                self.viewer_filter_hash == old(self).viewer_filter_hash,
                self.cc_rows == old(self).cc_rows,
                self.cc_row_id_to_vis == old(self).cc_row_id_to_vis,
                self.cc_dirty == false,
                self.cc_cursor == old(self).cc_cursor,
                self.cc_num_frame_from_last_edit == old(self).cc_num_frame_from_last_edit,
                self.cc_prev_n_columns == old(self).cc_prev_n_columns,
                self.cc_interactive_cell == old(self).cc_interactive_cell,
                self.cc_desired_selection == old(self).cc_desired_selection,
                self.cci_selection == old(self).cci_selection,
                self.cci_has_focus == old(self).cci_has_focus,
                self.cci_want_move_scroll == old(self).cci_want_move_scroll,
                self.cci_page_row_count == old(self).cci_page_row_count,
            decreases shown@.len() - self.cc_row_heights@.len(),
        {
            self.cc_row_heights.push(BASELINE_ROW_HEIGHT);
        }
        proof {
            assert(self.cc_row_heights@ =~= resized_heights(old_heights, shown@.len() as int));
        }

        // Where each displayed row stands.
        let mut positions: HashMap<usize, usize> = HashMap::new();
        let mut k: usize = 0;
        while k < shown.len()
            invariant
                k <= shown@.len(),
                shown@.no_duplicates(),
                forall|a: int|
                    0 <= a < k ==> {
                        &&& positions@.contains_key((#[trigger] shown@[a]).0)
                        &&& positions@[shown@[a].0] == a
                    },
                forall|id: usize| #[trigger]
                    positions@.contains_key(id) ==> {
                        &&& positions@[id] < k
                        &&& shown@[positions@[id] as int].0 == id
                    },
            decreases shown@.len() - k,
        {
            let ghost before = positions@;
            positions.insert(shown[k].0, k);
            proof {
                assert forall|a: int| 0 <= a < k + 1 implies {
                    &&& positions@.contains_key((#[trigger] shown@[a]).0)
                    &&& positions@[shown@[a].0] == a
                } by {
                    if a < k {
                        assert(shown@[a] != shown@[k as int]);
                    }
                }
            }
            k += 1;
        }
        self.cc_rows = shown;
        self.cc_row_id_to_vis = positions;

        proof {
            assert(self@.rows_indexed());
            assert((self@.rows.len() + 1) * self@.num_columns <= (rows@.len() + 1)
                * self@.num_columns) by (nonlinear_arith)
                requires
                    self@.rows.len() <= rows@.len(),
            ;
            assert(self@.wf());
        }
        self.settle();
    }

    /// Where `col` stands among the visible columns, if it is visible.
    pub fn vis_col_position(&self, col: ColumnIdx) -> (pos: Option<VisColumnPos>)
        requires
            self@.vis_cols.no_duplicates(),
        ensures
            pos is Some == self@.vis_cols.contains(col),
            pos is Some ==> pos == Some(VisColumnPos(self@.vis_cols.index_of(col) as usize)),
            pos is Some ==> pos->0 == VisColumnPos(self@.vis_cols.index_of(col) as usize),
    {
        let mut k: usize = 0;
        while k < self.p.vis_cols.len()
            invariant
                self@.vis_cols.no_duplicates(),
                k <= self@.vis_cols.len(),
                forall|i: int| 0 <= i < k ==> self@.vis_cols[i] != col,
            decreases self@.vis_cols.len() - k,
        {
            if self.p.vis_cols[k] == col {
                assert(self@.vis_cols.contains(col));
                assert(self@.vis_cols.index_of(col) == k);
                return Some(VisColumnPos(k));
            }
            k += 1;
        }
        None
    }
}

} // verus!
