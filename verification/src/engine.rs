//! What the commands do, as functions on mathematical values.
//!
//! The grid applies a command to the rows and to its own state, and records it with
//! the commands that undo it. The functions here say what comes out: the rows and the
//! state after a command, the commands that undo it, and the history after it has
//! been recorded.

use vstd::prelude::*;
use crate::cache::clamped_cell;
use crate::command::{CellWrite, CommandModel};
use crate::index::{linear, ColumnIdx, IsAscending, RowIdx, VisColumnPos, VisLinearIdx, VisSelection};
use crate::seqs::retained;
use crate::state::{rects_within, valid_columns, CursorModel, UiModel, UndoEntry};
use crate::table::TableModel;
use crate::viewer::RowViewer;

verus! {

/// The rows with `new_rows` put in before the row at `at`.
pub open spec fn rows_inserted<R>(rows: Seq<R>, at: int, new_rows: Seq<R>) -> Seq<R> {
    rows.subrange(0, at) + new_rows + rows.subrange(at, rows.len() as int)
}

/// The rows whose index is not in `removed`.
pub open spec fn rows_without<R>(rows: Seq<R>, removed: Seq<RowIdx>) -> Seq<R>
    decreases rows.len(),
{
    if rows.len() == 0 {
        Seq::empty()
    } else if removed.contains(RowIdx((rows.len() - 1) as usize)) {
        rows_without(rows.drop_last(), removed)
    } else {
        rows_without(rows.drop_last(), removed).push(rows.last())
    }
}

/// The rows after the cells of `values` have been written one after the other, each
/// from its row of `slab`.
pub open spec fn cells_written<R, V: RowViewer<R>>(rows: Seq<R>, slab: Seq<R>, values: Seq<CellWrite>) -> Seq<R>
    decreases values.len(),
{
    if values.len() == 0 {
        rows
    } else {
        let before = cells_written::<R, V>(rows, slab, values.drop_last());
        let (row, column, source) = values.last();
        before.update(
            row.0 as int,
            V::cell_written(slab[source.0 as int], before[row.0 as int], column.0),
        )
    }
}

/// A copy of each row, as the viewer copies rows.
pub open spec fn copies<R, V: RowViewer<R>>(rows: Seq<R>) -> Seq<R> {
    Seq::new(rows.len(), |i: int| V::row_copy(rows[i]))
}

/// Whether each index is less than the next.
pub open spec fn strictly_ascending(rows: Seq<RowIdx>) -> bool {
    forall|i: int, j: int| 0 <= i < j < rows.len() ==> rows[i].0 < rows[j].0
}

/// The `count` indices that begin at `at`.
pub open spec fn row_range(at: RowIdx, count: nat) -> Seq<RowIdx> {
    Seq::new(count, |i: int| RowIdx((at.0 + i) as usize))
}

/// The rows that `values` writes to, in their order; a row that is written to
/// several times in a row is named once.
pub open spec fn touched_rows(values: Seq<CellWrite>) -> Seq<RowIdx>
    decreases values.len(),
{
    if values.len() == 0 {
        Seq::empty()
    } else {
        let rest = touched_rows(values.drop_last());
        if values.len() >= 2 && values[values.len() - 2].0 == values.last().0 {
            rest
        } else {
            rest.push(values.last().0)
        }
    }
}

/// `removed` cut into its runs of indices that follow each other without a gap.
pub open spec fn runs_of(removed: Seq<RowIdx>) -> Seq<Seq<RowIdx>>
    decreases removed.len(),
{
    if removed.len() == 0 {
        Seq::empty()
    } else if removed.len() == 1 {
        seq![seq![removed[0]]]
    } else {
        let rest = runs_of(removed.drop_last());
        if removed[removed.len() - 2].0 + 1 == removed.last().0 {
            rest.update(rest.len() - 1, rest.last().push(removed.last()))
        } else {
            rest.push(seq![removed.last()])
        }
    }
}

impl<R> CommandModel<R> {
    /// Whether the command can be applied to a store of `nrows` rows: the rows it
    /// names exist, rows to be removed are named in ascending order, and the store
    /// has room for rows to be inserted.
    pub open spec fn fits(self, nrows: int) -> bool {
        match self {
            CommandModel::SetRowValue(row, _) => row.0 < nrows,
            CommandModel::SetCells { slab, values } => forall|i: int|
                0 <= i < values.len() ==> (#[trigger] values[i]).0.0 < nrows && values[i].2.0
                    < slab.len(),
            CommandModel::CcSetCells { slab, values, context } => forall|i: int|
                0 <= i < values.len() ==> (#[trigger] values[i]).0.0 < nrows && values[i].2.0
                    < slab.len(),
            CommandModel::InsertRows(at, rows) => at.0 <= nrows && nrows + rows.len() <= usize::MAX,
            CommandModel::RemoveRow(rows) => strictly_ascending(rows) && forall|i: int|
                0 <= i < rows.len() ==> (#[trigger] rows[i]).0 < nrows,
            _ => true,
        }
    }

    /// The rows after the command has been applied.
    pub open spec fn rows_after<V: RowViewer<R>>(self, rows: Seq<R>) -> Seq<R> {
        match self {
            CommandModel::SetRowValue(row, value) => rows.update(row.0 as int, V::row_copy(value)),
            CommandModel::SetCells { slab, values } => cells_written::<R, V>(rows, slab, values),
            CommandModel::InsertRows(at, new_rows) => rows_inserted(
                rows,
                at.0 as int,
                copies::<R, V>(new_rows),
            ),
            CommandModel::RemoveRow(removed) => rows_without(rows, removed),
            _ => rows,
        }
    }

    /// Whether the command writes to the rows.
    pub open spec fn writes_rows(self) -> bool {
        match self {
            CommandModel::SetRowValue(_, _) => true,
            CommandModel::SetCells { .. } => true,
            CommandModel::InsertRows(_, _) => true,
            CommandModel::RemoveRow(_) => true,
            _ => false,
        }
    }

    /// The commands that undo the command, applied one after the other to the rows
    /// that it leaves. `rows`, `vis_cols` and `sort` are what the command finds.
    ///
    /// A list of visible columns or of sort keys is undone by the list that was there.
    /// A written row is undone by a copy of what it held, as are the rows that cells
    /// are written to. Inserted rows are undone by removing them, removed rows by
    /// inserting a copy of each, run after run.
    pub open spec fn inverse<V: RowViewer<R>>(
        self,
        rows: Seq<R>,
        vis_cols: Seq<ColumnIdx>,
        sort: Seq<(ColumnIdx, IsAscending)>,
    ) -> Seq<CommandModel<R>> {
        match self {
            CommandModel::SetVisibleColumns(_) => seq![CommandModel::SetVisibleColumns(vis_cols)],
            CommandModel::SetColumnSort(_) => seq![CommandModel::SetColumnSort(sort)],
            CommandModel::SetRowValue(row, _) => seq![
                CommandModel::SetRowValue(row, V::row_copy(rows[row.0 as int])),
            ],
            CommandModel::SetCells { slab, values } => {
                let touched = touched_rows(values);
                Seq::new(
                    touched.len(),
                    |i: int|
                        CommandModel::SetRowValue(touched[i], V::row_copy(rows[touched[i].0 as int])),
                )
            },
            CommandModel::InsertRows(at, new_rows) => seq![
                CommandModel::RemoveRow(row_range(at, new_rows.len())),
            ],
            CommandModel::RemoveRow(removed) => {
                let runs = runs_of(removed);
                Seq::new(
                    runs.len(),
                    |i: int|
                        CommandModel::InsertRows(
                            runs[i][0],
                            Seq::new(runs[i].len(), |k: int| V::row_copy(rows[runs[i][k].0 as int])),
                        ),
                )
            },
            _ => Seq::empty(),
        }
    }
}

impl<R> TableModel<R> {
    /// The table after a recorded command has been applied: the rows are what the
    /// command leaves, and a command that writes to the rows marks the table as
    /// changed by the user.
    pub open spec fn applied<V: RowViewer<R>>(self, cmd: CommandModel<R>) -> TableModel<R> {
        TableModel {
            rows: cmd.rows_after::<V>(self.rows),
            user_modified: self.user_modified || cmd.writes_rows(),
            ..self
        }
    }
}

impl<R> UiModel<R> {
    /// The state after a recorded command has been applied. New visible columns or
    /// sort keys, and rows that are inserted or removed, ask for the displayed rows
    /// to be chosen anew. Inserted rows are to be selected then; removed rows leave
    /// nothing selected. A row that is written to restarts the count of frames since
    /// the last edit. New visible columns move the interactive cell no further right
    /// than their last one.
    pub open spec fn applied(self, cmd: CommandModel<R>) -> UiModel<R> {
        match cmd {
            CommandModel::SetVisibleColumns(columns) => UiModel {
                vis_cols: columns,
                dirty: true,
                ..self.with_interactive_clamped(columns.len() as usize)
            },
            CommandModel::SetColumnSort(sort) => UiModel { sort, dirty: true, ..self },
            CommandModel::SetRowValue(_, _) => UiModel { num_frame_from_last_edit: 0, ..self },
            CommandModel::SetCells { .. } => UiModel { num_frame_from_last_edit: 0, ..self },
            CommandModel::InsertRows(at, rows) => UiModel {
                dirty: true,
                desired_selection: Some(
                    Seq::new(
                        rows.len(),
                        |i: int| (RowIdx((at.0 + i) as usize), Seq::<ColumnIdx>::empty()),
                    ),
                ),
                ..self
            },
            CommandModel::RemoveRow(_) => UiModel {
                dirty: true,
                desired_selection: Some(Seq::empty()),
                ..self
            },
            _ => self,
        }
    }

    /// Whether the command would change nothing: the visible columns or the sort
    /// keys that it sets are set already, or it removes no row.
    pub open spec fn is_noop(self, cmd: CommandModel<R>) -> bool {
        match cmd {
            CommandModel::SetVisibleColumns(columns) => columns == self.vis_cols,
            CommandModel::SetColumnSort(sort) => sort == self.sort,
            CommandModel::RemoveRow(rows) => rows.len() == 0,
            _ => false,
        }
    }

    /// The history after `entry` has been recorded: the entries that were undone are
    /// gone, of the others the latest are kept, one less than `capacity`, and `entry`
    /// stands before them.
    pub open spec fn history_with(self, entry: UndoEntry<R>, capacity: usize) -> Seq<UndoEntry<R>> {
        let done = self.history.skip(self.undo_cursor);
        let room = vstd::math::max(capacity - 1, 0);
        seq![entry] + done.take(vstd::math::min(room, done.len() as int))
    }

    /// The state and the table after a recorded command has been pushed: nothing
    /// changes if the command would change nothing; else it is applied, and recorded
    /// with the commands that undo it, as the latest entry of the history.
    pub open spec fn recorded<V: RowViewer<R>>(
        self,
        table: TableModel<R>,
        cmd: CommandModel<R>,
        capacity: usize,
    ) -> (UiModel<R>, TableModel<R>) {
        if self.is_noop(cmd) {
            (self, table)
        } else {
            let entry = UndoEntry {
                apply: cmd,
                restore: cmd.inverse::<V>(table.rows, self.vis_cols, self.sort),
            };
            (
                UiModel {
                    history: self.history_with(entry, capacity),
                    undo_cursor: 0,
                    ..self.applied(cmd)
                },
                table.applied::<V>(cmd),
            )
        }
    }

    /// The state and the table after an edit has been committed: the cursor goes back
    /// to selecting, with nothing selected, and the working copy is written to the
    /// row that was edited, as a recorded command. Nothing changes if no row is
    /// edited.
    pub open spec fn committed<V: RowViewer<R>>(self, table: TableModel<R>, capacity: usize) -> (
        UiModel<R>,
        TableModel<R>,
    ) {
        match self.cursor {
            CursorModel::Edit { row, edition, .. } => UiModel {
                cursor: CursorModel::Select(Seq::empty()),
                ..self
            }.recorded::<V>(table, CommandModel::SetRowValue(row, edition), capacity),
            CursorModel::Select(_) => (self, table),
        }
    }

    /// The state after an edit has been cancelled: the cursor goes back to selecting,
    /// with nothing selected, and the working copy is dropped.
    pub open spec fn edit_cancelled(self) -> UiModel<R> {
        match self.cursor {
            CursorModel::Edit { .. } => UiModel { cursor: CursorModel::Select(Seq::empty()), ..self },
            CursorModel::Select(_) => self,
        }
    }

    /// The state after the edit of a row has begun at a column: the cursor holds the
    /// working copy, the editor has yet to take the focus, and the interactive cell
    /// is the cell that is edited.
    pub open spec fn edit_started(self, row: RowIdx, column: VisColumnPos, value: R) -> UiModel<R> {
        UiModel {
            cursor: CursorModel::Edit { next_focus: true, last_focus: column, row, edition: value },
            interactive_cell: VisLinearIdx(
                linear(self.ncol() as int, self.row_id_to_vis[row.0] as int, column.0 as int) as usize,
            ),
            ..self
        }
    }

    /// The state after the selection has been set: the interactive cell is the
    /// top-left corner of the first rectangle, if there is one.
    pub open spec fn selection_set(self, selection: Seq<VisSelection>) -> UiModel<R> {
        UiModel {
            cursor: CursorModel::Select(selection),
            interactive_cell: if selection.len() > 0 {
                selection[0].0
            } else {
                self.interactive_cell
            },
            ..self
        }
    }

    /// The visible columns with the column at `from` moved to stand before what stood
    /// at `to`.
    pub open spec fn reordered(self, from: VisColumnPos, to: VisColumnPos) -> Seq<ColumnIdx> {
        if from.0 < to.0 {
            self.vis_cols.insert(to.0 as int, self.vis_cols[from.0 as int]).remove(from.0 as int)
        } else {
            self.vis_cols.remove(from.0 as int).insert(to.0 as int, self.vis_cols[from.0 as int])
        }
    }

    /// The recorded command that a command comes to, if it comes to one. Hiding,
    /// showing and moving a column come to setting the visible columns; hiding the
    /// last visible column, and moving a column to where it stands or to beyond the
    /// end, come to nothing. Writing cells at the user's request comes to writing
    /// those of them that `allowed` marks. A recorded command is itself.
    pub open spec fn normalized(self, cmd: CommandModel<R>, allowed: Seq<bool>) -> Option<
        CommandModel<R>,
    > {
        match cmd {
            CommandModel::CcHideColumn(column) => if self.vis_cols.len() == 1 {
                None
            } else {
                Some(
                    CommandModel::SetVisibleColumns(
                        self.vis_cols.remove(self.vis_cols.index_of(column)),
                    ),
                )
            },
            CommandModel::CcShowColumn { what, at } => Some(
                CommandModel::SetVisibleColumns(self.vis_cols.insert(at.0 as int, what)),
            ),
            CommandModel::CcReorderColumn { from, to } => if from == to || to.0
                > self.vis_cols.len() {
                None
            } else {
                Some(CommandModel::SetVisibleColumns(self.reordered(from, to)))
            },
            CommandModel::CcSetCells { slab, values, context } => Some(
                CommandModel::SetCells { slab, values: retained(values, allowed) },
            ),
            _ => if cmd.is_recorded() {
                Some(cmd)
            } else {
                None
            },
        }
    }

    /// Whether the command can be pushed, the table holding `nrows` rows: what it
    /// names exists. A row that is edited has to exist, since the edit is committed
    /// first.
    pub open spec fn accepts(self, nrows: int, cmd: CommandModel<R>) -> bool {
        &&& self.wf()
        &&& match self.cursor {
            CursorModel::Edit { row, .. } => row.0 < nrows,
            CursorModel::Select(_) => true,
        }
        &&& cmd.fits(nrows)
        &&& match cmd {
            CommandModel::CcHideColumn(column) => self.vis_cols.len() == 1 || self.vis_cols.contains(
                column,
            ),
            CommandModel::CcShowColumn { what, at } => !self.vis_cols.contains(what) && what.0
                < self.num_columns && at.0 <= self.vis_cols.len(),
            CommandModel::SetVisibleColumns(columns) => valid_columns(columns, self.num_columns),
            CommandModel::CcReorderColumn { from, to } => from == to || to.0 > self.vis_cols.len()
                || from.0 < self.vis_cols.len(),
            CommandModel::CcEditStart(row, column, _) => self.row_id_to_vis.contains_key(row.0)
                && column.0 < self.vis_cols.len(),
            CommandModel::CcSetSelection(selection) => {
                &&& self.shows_rows_of(nrows)
                &&& self.cursor is Select ==> self.selection_in_grid()
                &&& rects_within(selection, self.cells())
            },
            CommandModel::CcUpdateSystemClipboard(_) => false,
            _ => true,
        }
    }

    /// The state and the table after a command has been pushed. An edit that is going
    /// on is committed before any command but one that ends it. `allowed` says which
    /// cells the viewer lets a `CcSetCells` command write.
    pub open spec fn pushed<V: RowViewer<R>>(
        self,
        table: TableModel<R>,
        cmd: CommandModel<R>,
        capacity: usize,
        allowed: Seq<bool>,
    ) -> (UiModel<R>, TableModel<R>) {
        let (ui, tbl) = if self.cursor is Edit && !(cmd is CcCancelEdit || cmd is CcCommitEdit) {
            self.committed::<V>(table, capacity)
        } else {
            (self, table)
        };
        match cmd {
            CommandModel::CcEditStart(row, column, value) => (ui.edit_started(row, column, value), tbl),
            CommandModel::CcCancelEdit => (ui.edit_cancelled(), tbl),
            CommandModel::CcCommitEdit => ui.committed::<V>(tbl, capacity),
            CommandModel::CcSetSelection(selection) => (ui.selection_set(selection), tbl),
            _ => match ui.normalized(cmd, allowed) {
                Some(recorded) => ui.recorded::<V>(tbl, recorded, capacity),
                None => (ui, tbl),
            },
        }
    }
}

} // verus!
