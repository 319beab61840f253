//! What undoing and redoing restore.
//!
//! The rows, the visible columns and the sort keys are what the recorded commands
//! change. A history is consistent with them if every entry fits its neighbours: the
//! commands that undo an entry lead from what it left back to what it found, and the
//! entry leads there again. Recording a command, undoing and redoing keep a history
//! consistent; and in a consistent history undoing and then redoing, or redoing and
//! then undoing, changes nothing of the three.

use vstd::prelude::*;
use crate::command::CommandModel;
use crate::engine::{cells_written, copies, row_range, rows_inserted, rows_without, runs_of, strictly_ascending, touched_rows};
use crate::history::{fit_in_turn, lemma_applied_keeps_history, lemma_cells_written_len, lemma_rows_without_ignores, lemma_rows_without_len, row_count_after};
use crate::index::{ColumnIdx, IsAscending, RowIdx};
use crate::state::{UiModel, UndoEntry};
use crate::table::TableModel;
use crate::viewer::RowViewer;

verus! {

/// What the recorded commands change: the rows, the visible columns and the sort
/// keys.
pub struct Snapshot<R> {
    pub rows: Seq<R>,
    pub vis_cols: Seq<ColumnIdx>,
    pub sort: Seq<(ColumnIdx, IsAscending)>,
}

/// The snapshot of a state and a table.
pub open spec fn snapshot<R>(ui: UiModel<R>, table: TableModel<R>) -> Snapshot<R> {
    Snapshot { rows: table.rows, vis_cols: ui.vis_cols, sort: ui.sort }
}

impl<R> Snapshot<R> {
    /// The snapshot after a recorded command.
    pub open spec fn after<V: RowViewer<R>>(self, cmd: CommandModel<R>) -> Snapshot<R> {
        Snapshot {
            rows: cmd.rows_after::<V>(self.rows),
            vis_cols: match cmd {
                CommandModel::SetVisibleColumns(columns) => columns,
                _ => self.vis_cols,
            },
            sort: match cmd {
                CommandModel::SetColumnSort(sort) => sort,
                _ => self.sort,
            },
        }
    }

    /// The snapshot after the commands, one after the other.
    pub open spec fn after_all<V: RowViewer<R>>(self, commands: Seq<CommandModel<R>>) -> Snapshot<R>
        decreases commands.len(),
    {
        if commands.len() == 0 {
            self
        } else {
            self.after::<V>(commands[0]).after_all::<V>(commands.drop_first())
        }
    }

    /// Whether the entries, the latest first, are the commands that led to the
    /// snapshot: the commands that undo the latest can be applied and lead to a
    /// snapshot from which the entry leads here again, and the entries before it led
    /// to that snapshot.
    pub open spec fn follows<V: RowViewer<R>>(self, applied: Seq<UndoEntry<R>>) -> bool
        decreases applied.len(),
    {
        applied.len() == 0 || {
            let entry = applied[0];
            let before = self.after_all::<V>(entry.restore);
            &&& fit_in_turn(entry.restore, self.rows.len() as int)
            &&& entry.apply.fits(before.rows.len() as int)
            &&& before.after::<V>(entry.apply) == self
            &&& before.follows::<V>(applied.drop_first())
        }
    }

    /// Whether the entries, the one undone last standing last, are commands that
    /// were undone to get to the snapshot: the last can be applied again, the
    /// commands that undo it lead back here, and what it leads to precedes the
    /// entries before it in the same way.
    pub open spec fn precedes<V: RowViewer<R>>(self, undone: Seq<UndoEntry<R>>) -> bool
        decreases undone.len(),
    {
        undone.len() == 0 || {
            let entry = undone.last();
            let next = self.after::<V>(entry.apply);
            &&& entry.apply.fits(self.rows.len() as int)
            &&& fit_in_turn(entry.restore, next.rows.len() as int)
            &&& next.after_all::<V>(entry.restore) == self
            &&& next.precedes::<V>(undone.drop_last())
        }
    }
}

impl<R> UiModel<R> {
    /// Whether the history is consistent with the rows of `table`, the visible
    /// columns and the sort keys.
    pub open spec fn history_consistent<V: RowViewer<R>>(self, table: TableModel<R>) -> bool {
        &&& 0 <= self.undo_cursor <= self.history.len()
        &&& snapshot(self, table).follows::<V>(self.history.skip(self.undo_cursor))
        &&& snapshot(self, table).precedes::<V>(self.history.take(self.undo_cursor))
    }
}

/// Applying a command to a state and a table does to their snapshot what the command
/// does to a snapshot.
pub proof fn lemma_snapshot_after<R, V: RowViewer<R>>(ui: UiModel<R>, table: TableModel<R>, cmd: CommandModel<R>)
    requires
        cmd.is_recorded(),
    ensures
        snapshot(ui.applied(cmd), table.applied::<V>(cmd)) == snapshot(ui, table).after::<V>(cmd),
{
}

/// Applying commands one after the other to a state and a table does to their
/// snapshot what the commands do to a snapshot.
pub proof fn lemma_snapshot_after_all<R, V: RowViewer<R>>(
    ui: UiModel<R>,
    table: TableModel<R>,
    commands: Seq<CommandModel<R>>,
)
    requires
        forall|i: int| 0 <= i < commands.len() ==> (#[trigger] commands[i]).is_recorded(),
    ensures
        snapshot(ui.applied_in_turn(commands), table.applied_in_turn::<V>(commands)) == snapshot(
            ui,
            table,
        ).after_all::<V>(commands),
        ui.applied_in_turn(commands).history == ui.history,
        ui.applied_in_turn(commands).undo_cursor == ui.undo_cursor,
        ui.applied_in_turn(commands).cursor == ui.cursor,
    decreases commands.len(),
{
    if commands.len() > 0 {
        lemma_snapshot_after::<R, V>(ui, table, commands[0]);
        lemma_applied_keeps_history(ui, ui.history, commands[0]);
        assert forall|i: int| 0 <= i < commands.drop_first().len() implies (
        #[trigger] commands.drop_first()[i]).is_recorded() by {
            assert(commands.drop_first()[i] == commands[i + 1]);
        }
        lemma_snapshot_after_all::<R, V>(
            ui.applied(commands[0]),
            table.applied::<V>(commands[0]),
            commands.drop_first(),
        );
    }
}

/// A history without entries is consistent with any rows.
pub proof fn law_empty_history_consistent<R, V: RowViewer<R>>(ui: UiModel<R>, table: TableModel<R>)
    requires
        ui.history.len() == 0,
        ui.undo_cursor == 0,
    ensures
        ui.history_consistent::<V>(table),
{
}

/// The history of a state that was made anew is consistent with any rows: from
/// there on pushing, undoing and redoing keep it so.
pub proof fn law_new_state_consistent<R, V: RowViewer<R>>(
    viewer_type: u64,
    num_columns: usize,
    filter_hash: u64,
    table: TableModel<R>,
)
    ensures
        UiModel::<R>::blank().history_consistent::<V>(table),
        UiModel::<R>::reset_for(viewer_type, num_columns, filter_hash).history_consistent::<V>(table),
{
    law_empty_history_consistent::<R, V>(UiModel::<R>::blank(), table);
    law_empty_history_consistent::<R, V>(
        UiModel::<R>::reset_for(viewer_type, num_columns, filter_hash),
        table,
    );
}

/// In a consistent history, the command to be undone and the command to be redone
/// can be applied: what `undo` and `redo` ask for holds.
pub proof fn law_consistent_history_fits<R, V: RowViewer<R>>(ui: UiModel<R>, table: TableModel<R>)
    requires
        ui.history_consistent::<V>(table),
    ensures
        ui.undo_fits(table.rows.len() as int),
        ui.redo_fits(table.rows.len() as int),
{
    if ui.undo_cursor < ui.history.len() {
        assert(ui.history.skip(ui.undo_cursor)[0] == ui.history[ui.undo_cursor]);
    }
    if ui.undo_cursor > 0 {
        assert(ui.history.take(ui.undo_cursor).last() == ui.history[ui.undo_cursor - 1]);
    }
}

/// Undoing and then redoing restores the rows, the visible columns and the sort keys
/// exactly, and with them the selection and the place in the history.
pub proof fn law_undo_then_redo<R, V: RowViewer<R>>(ui: UiModel<R>, table: TableModel<R>)
    requires
        ui.wf(),
        ui.history_consistent::<V>(table),
        ui.undo_cursor < ui.history.len(),
    ensures
        ({
            let undone = ui.undone();
            let table_undone = ui.table_undone::<V>(table);
            let redone = undone.redone();
            let table_redone = undone.table_redone::<V>(table_undone);
            &&& table_redone.rows == table.rows
            &&& redone.vis_cols == ui.vis_cols
            &&& redone.sort == ui.sort
            &&& redone.cursor == ui.cursor
            &&& redone.history == ui.history
            &&& redone.undo_cursor == ui.undo_cursor
        }),
{
    let entry = ui.history[ui.undo_cursor];
    assert(ui.history.skip(ui.undo_cursor)[0] == entry);
    assert(entry.recordable(ui.num_columns));
    lemma_snapshot_after_all::<R, V>(ui, table, entry.restore);
    let undone = ui.undone();
    let table_undone = ui.table_undone::<V>(table);
    lemma_snapshot_after::<R, V>(undone, table_undone, entry.apply);
    lemma_applied_keeps_history(undone, undone.history, entry.apply);
}

/// Redoing and then undoing restores the rows, the visible columns and the sort keys
/// exactly, and with them the selection and the place in the history.
pub proof fn law_redo_then_undo<R, V: RowViewer<R>>(ui: UiModel<R>, table: TableModel<R>)
    requires
        ui.wf(),
        ui.history_consistent::<V>(table),
        ui.undo_cursor > 0,
    ensures
        ({
            let redone = ui.redone();
            let table_redone = ui.table_redone::<V>(table);
            let undone = redone.undone();
            let table_undone = redone.table_undone::<V>(table_redone);
            &&& table_undone.rows == table.rows
            &&& undone.vis_cols == ui.vis_cols
            &&& undone.sort == ui.sort
            &&& undone.cursor == ui.cursor
            &&& undone.history == ui.history
            &&& undone.undo_cursor == ui.undo_cursor
        }),
{
    let entry = ui.history[ui.undo_cursor - 1];
    assert(ui.history.take(ui.undo_cursor).last() == entry);
    assert(entry.recordable(ui.num_columns));
    lemma_snapshot_after::<R, V>(ui, table, entry.apply);
    lemma_applied_keeps_history(ui, ui.history, entry.apply);
    let redone = ui.redone();
    let table_redone = ui.table_redone::<V>(table);
    lemma_snapshot_after_all::<R, V>(redone, table_redone, entry.restore);
}

/// Undoing keeps a consistent history consistent.
pub proof fn law_undo_keeps_consistent<R, V: RowViewer<R>>(ui: UiModel<R>, table: TableModel<R>)
    requires
        ui.wf(),
        ui.history_consistent::<V>(table),
    ensures
        ui.undone().history_consistent::<V>(ui.table_undone::<V>(table)),
{
    if ui.undo_cursor < ui.history.len() {
        let c = ui.undo_cursor;
        let entry = ui.history[c];
        let here = snapshot(ui, table);
        assert(ui.history.skip(c)[0] == entry);
        assert(entry.recordable(ui.num_columns));
        lemma_snapshot_after_all::<R, V>(ui, table, entry.restore);
        let before = here.after_all::<V>(entry.restore);
        assert(ui.history.skip(c).drop_first() =~= ui.history.skip(c + 1));
        assert(ui.history.take(c + 1).last() == entry);
        assert(ui.history.take(c + 1).drop_last() =~= ui.history.take(c));
    }
}

/// Redoing keeps a consistent history consistent.
pub proof fn law_redo_keeps_consistent<R, V: RowViewer<R>>(ui: UiModel<R>, table: TableModel<R>)
    requires
        ui.wf(),
        ui.history_consistent::<V>(table),
    ensures
        ui.redone().history_consistent::<V>(ui.table_redone::<V>(table)),
{
    if ui.undo_cursor > 0 {
        let c = ui.undo_cursor;
        let entry = ui.history[c - 1];
        let here = snapshot(ui, table);
        assert(ui.history.take(c).last() == entry);
        assert(entry.recordable(ui.num_columns));
        lemma_snapshot_after::<R, V>(ui, table, entry.apply);
        lemma_applied_keeps_history(ui, ui.history, entry.apply);
        assert(ui.history.take(c).drop_last() =~= ui.history.take(c - 1));
        assert(ui.history.skip(c - 1)[0] == entry);
        assert(ui.history.skip(c - 1).drop_first() =~= ui.history.skip(c));
    }
}

/// Whether the viewer's copy of a row is that row.
pub open spec fn copies_faithfully<R, V: RowViewer<R>>() -> bool {
    forall|row: R| #[trigger] V::row_copy(row) == row
}

/// Removing no row leaves the rows as they are.
pub proof fn lemma_rows_without_nothing<R>(rows: Seq<R>)
    ensures
        rows_without(rows, Seq::<RowIdx>::empty()) == rows,
    decreases rows.len(),
{
    if rows.len() > 0 {
        lemma_rows_without_nothing(rows.drop_last());
        assert(rows.drop_last().push(rows.last()) =~= rows);
    } else {
        assert(rows_without(rows, Seq::<RowIdx>::empty()) =~= rows);
    }
}

/// Removing the `n` rows from `at` on leaves the rows before and the rows after.
pub proof fn lemma_rows_without_range<R>(rows: Seq<R>, at: int, n: int)
    requires
        0 <= at,
        0 <= n,
        at + n <= rows.len() <= usize::MAX,
    ensures
        rows_without(rows, row_range(RowIdx(at as usize), n as nat)) == rows.subrange(0, at)
            + rows.subrange(at + n, rows.len() as int),
    decreases rows.len(),
{
    let range = row_range(RowIdx(at as usize), n as nat);
    let want = rows.subrange(0, at) + rows.subrange(at + n, rows.len() as int);
    if n == 0 {
        assert(range =~= Seq::<RowIdx>::empty());
        lemma_rows_without_nothing(rows);
        assert(want =~= rows);
    } else {
        let last = rows.len() - 1;
        let head = rows.drop_last();
        if last >= at + n {
            assert(!range.contains(RowIdx(last as usize))) by {
                if range.contains(RowIdx(last as usize)) {
                    let k = choose|k: int| 0 <= k < range.len() && range[k] == RowIdx(last as usize);
                    assert(range[k].0 == at + k);
                }
            }
            lemma_rows_without_range(head, at, n);
            assert(want =~= (head.subrange(0, at) + head.subrange(at + n, head.len() as int)).push(
                rows.last(),
            ));
        } else {
            assert(last == at + n - 1);
            assert(range[n - 1] == RowIdx(last as usize));
            assert(range.contains(RowIdx(last as usize)));
            lemma_rows_without_ignores(head, range, range.last());
            assert(range.drop_last() =~= row_range(RowIdx(at as usize), (n - 1) as nat));
            lemma_rows_without_range(head, at, n - 1);
            assert(want =~= head.subrange(0, at) + head.subrange(at + n - 1, head.len() as int));
        }
    }
}

/// A row that no cell is written to is left as it is.
pub proof fn lemma_cells_written_elsewhere<R, V: RowViewer<R>>(
    rows: Seq<R>,
    slab: Seq<R>,
    values: Seq<crate::command::CellWrite>,
    row: int,
)
    requires
        0 <= row < rows.len(),
        forall|i: int| 0 <= i < values.len() ==> (#[trigger] values[i]).0.0 < rows.len(),
        forall|i: int| 0 <= i < values.len() ==> (#[trigger] values[i]).0.0 != row,
    ensures
        cells_written::<R, V>(rows, slab, values)[row] == rows[row],
    decreases values.len(),
{
    if values.len() > 0 {
        let fewer = values.drop_last();
        assert forall|i: int| 0 <= i < fewer.len() implies (#[trigger] fewer[i]).0.0 < rows.len()
            && fewer[i].0.0 != row by {
            assert(fewer[i] == values[i]);
        }
        lemma_cells_written_elsewhere::<R, V>(rows, slab, fewer, row);
        lemma_cells_written_len::<R, V>(rows, slab, fewer);
        assert(values.last() == values[values.len() - 1]);
    }
}

/// Whether a cell is written to in the row.
pub open spec fn writes_to(values: Seq<crate::command::CellWrite>, row: RowIdx) -> bool {
    exists|i: int| 0 <= i < values.len() && (#[trigger] values[i]).0 == row
}

/// The rows that are named as written to are the rows that cells are written to.
pub proof fn lemma_touched_rows<R>(values: Seq<crate::command::CellWrite>)
    ensures
        forall|i: int| 0 <= i < values.len() ==> touched_rows(values).contains((#[trigger] values[i]).0),
        forall|k: int|
            0 <= k < touched_rows(values).len() ==> writes_to(values, #[trigger] touched_rows(values)[k]),
    decreases values.len(),
{
    if values.len() > 0 {
        let fewer = values.drop_last();
        lemma_touched_rows::<R>(fewer);
        let rest = touched_rows(fewer);
        let all = touched_rows(values);
        let last = values.last();
        assert forall|i: int| 0 <= i < values.len() implies all.contains((#[trigger] values[i]).0) by {
            if i < values.len() - 1 {
                assert(fewer[i] == values[i]);
                assert(rest.contains(values[i].0));
                let k = choose|k: int| 0 <= k < rest.len() && rest[k] == values[i].0;
                assert(all[k] == values[i].0);
            } else if values.len() >= 2 && values[values.len() - 2].0 == last.0 {
                assert(fewer[values.len() - 2] == values[values.len() - 2]);
                assert(rest.contains(last.0));
            } else {
                assert(all[all.len() - 1] == last.0);
            }
        }
        assert forall|k: int| 0 <= k < all.len() implies writes_to(values, #[trigger] all[k]) by {
            if k < rest.len() {
                assert(writes_to(fewer, rest[k]));
                let i = choose|i: int| 0 <= i < fewer.len() && (#[trigger] fewer[i]).0 == rest[k];
                assert(values[i].0 == all[k]);
            } else {
                assert(values[values.len() - 1].0 == all[k]);
            }
        }
    }
}

/// Writing back to each of `touched` what `base` holds there leaves `base` in these
/// rows and changes no other row.
pub proof fn lemma_rows_restored<R, V: RowViewer<R>>(
    now: Snapshot<R>,
    base: Seq<R>,
    touched: Seq<RowIdx>,
    restore: Seq<CommandModel<R>>,
)
    requires
        copies_faithfully::<R, V>(),
        now.rows.len() == base.len() <= usize::MAX,
        restore.len() == touched.len(),
        forall|k: int| 0 <= k < touched.len() ==> (#[trigger] touched[k]).0 < base.len(),
        forall|k: int|
            0 <= k < touched.len() ==> (#[trigger] restore[k]) == CommandModel::SetRowValue(
                touched[k],
                base[touched[k].0 as int],
            ),
    ensures
        fit_in_turn(restore, now.rows.len() as int),
        now.after_all::<V>(restore).vis_cols == now.vis_cols,
        now.after_all::<V>(restore).sort == now.sort,
        now.after_all::<V>(restore).rows.len() == base.len(),
        forall|r: int|
            0 <= r < base.len() ==> (#[trigger] now.after_all::<V>(restore).rows[r]) == if touched.contains(
                RowIdx(r as usize),
            ) {
                base[r]
            } else {
                now.rows[r]
            },
    decreases restore.len(),
{
    if restore.len() > 0 {
        let first = touched[0];
        let next = now.after::<V>(restore[0]);
        assert(next.rows == now.rows.update(first.0 as int, base[first.0 as int]));
        let later = touched.drop_first();
        assert forall|k: int| 0 <= k < later.len() implies (#[trigger] later[k]).0 < base.len()
            && (#[trigger] restore.drop_first()[k]) == CommandModel::SetRowValue(
            later[k],
            base[later[k].0 as int],
        ) by {
            assert(later[k] == touched[k + 1]);
            assert(restore.drop_first()[k] == restore[k + 1]);
        }
        lemma_rows_restored::<R, V>(next, base, later, restore.drop_first());
        assert forall|r: int| 0 <= r < base.len() implies (#[trigger] now.after_all::<V>(
            restore,
        ).rows[r]) == if touched.contains(RowIdx(r as usize)) {
            base[r]
        } else {
            now.rows[r]
        } by {
            let row = RowIdx(r as usize);
            if later.contains(row) {
                let k = choose|k: int| 0 <= k < later.len() && later[k] == row;
                assert(touched[k + 1] == row);
            } else if first == row {
                assert(touched[0] == row);
            } else {
                if touched.contains(row) {
                    let k = choose|k: int| 0 <= k < touched.len() && touched[k] == row;
                    assert(later[k - 1] == row);
                }
            }
        }
    }
}

/// The rows from `start` on whose index is not in `removed`.
pub open spec fn kept_from<R>(rows: Seq<R>, start: int, removed: Seq<RowIdx>) -> Seq<R>
    decreases rows.len(),
{
    if rows.len() <= start || rows.len() == 0 {
        Seq::empty()
    } else if removed.contains(RowIdx((rows.len() - 1) as usize)) {
        kept_from(rows.drop_last(), start, removed)
    } else {
        kept_from(rows.drop_last(), start, removed).push(rows.last())
    }
}

/// The rows that are left are those that are kept from the first row on.
pub proof fn lemma_kept_from_start<R>(rows: Seq<R>, removed: Seq<RowIdx>)
    ensures
        kept_from(rows, 0, removed) == rows_without(rows, removed),
    decreases rows.len(),
{
    if rows.len() > 0 {
        lemma_kept_from_start(rows.drop_last(), removed);
    }
}

/// The rows that are kept are those kept of the first `k` rows and those kept from
/// the row `k` on.
pub proof fn lemma_kept_split<R>(rows: Seq<R>, start: int, k: int, removed: Seq<RowIdx>)
    requires
        0 <= start <= k <= rows.len(),
    ensures
        kept_from(rows, start, removed) == kept_from(rows.take(k), start, removed) + kept_from(
            rows,
            k,
            removed,
        ),
    decreases rows.len(),
{
    if rows.len() == k {
        assert(rows.take(k) =~= rows);
        assert(kept_from(rows, k, removed) =~= Seq::<R>::empty());
        assert(kept_from(rows, start, removed) =~= kept_from(rows.take(k), start, removed)
            + kept_from(rows, k, removed));
    } else {
        let head = rows.drop_last();
        lemma_kept_split(head, start, k, removed);
        assert(head.take(k) =~= rows.take(k));
        assert(kept_from(rows, start, removed) =~= kept_from(rows.take(k), start, removed)
            + kept_from(rows, k, removed));
    }
}

/// What is kept from `start` on depends only on which of the rows from `start` on
/// are removed.
pub proof fn lemma_kept_same<R>(rows: Seq<R>, start: int, one: Seq<RowIdx>, other: Seq<RowIdx>)
    requires
        0 <= start,
        rows.len() <= usize::MAX,
        forall|i: int|
            start <= i < rows.len() ==> (one.contains(RowIdx(i as usize)) <==> #[trigger] other.contains(
                RowIdx(i as usize),
            )),
    ensures
        kept_from(rows, start, one) == kept_from(rows, start, other),
    decreases rows.len(),
{
    if rows.len() > start && rows.len() > 0 {
        lemma_kept_same(rows.drop_last(), start, one, other);
        assert(one.contains(RowIdx((rows.len() - 1) as usize)) <==> other.contains(
            RowIdx((rows.len() - 1) as usize),
        ));
    }
}

/// If none of the rows from `start` on is removed, all of them are kept.
pub proof fn lemma_kept_all<R>(rows: Seq<R>, start: int, removed: Seq<RowIdx>)
    requires
        0 <= start <= rows.len() <= usize::MAX,
        forall|i: int| start <= i < rows.len() ==> !#[trigger] removed.contains(RowIdx(i as usize)),
    ensures
        kept_from(rows, start, removed) == rows.subrange(start, rows.len() as int),
    decreases rows.len(),
{
    if rows.len() > start {
        lemma_kept_all(rows.drop_last(), start, removed);
        assert(!removed.contains(RowIdx((rows.len() - 1) as usize)));
        assert(rows.subrange(start, rows.len() as int) =~= rows.drop_last().subrange(
            start,
            rows.len() - 1,
        ).push(rows.last()));
    } else {
        assert(rows.subrange(start, rows.len() as int) =~= Seq::<R>::empty());
    }
}

/// If all of the rows from `start` on are removed, none of them is kept.
pub proof fn lemma_kept_none<R>(rows: Seq<R>, start: int, removed: Seq<RowIdx>)
    requires
        0 <= start,
        rows.len() <= usize::MAX,
        forall|i: int| start <= i < rows.len() ==> #[trigger] removed.contains(RowIdx(i as usize)),
    ensures
        kept_from(rows, start, removed).len() == 0,
    decreases rows.len(),
{
    if rows.len() > start && rows.len() > 0 {
        lemma_kept_none(rows.drop_last(), start, removed);
        assert(removed.contains(RowIdx((rows.len() - 1) as usize)));
    }
}

/// Putting a run of removed rows back in where it began leaves removed only the rows
/// that were removed above the run.
pub proof fn lemma_run_put_back<R>(rows: Seq<R>, at: int, n: int, above: Seq<RowIdx>)
    requires
        0 <= at,
        1 <= n,
        at + n <= rows.len() <= usize::MAX,
        forall|i: int| 0 <= i < above.len() ==> at + n <= (#[trigger] above[i]).0,
    ensures
        rows_inserted(
            rows_without(rows, row_range(RowIdx(at as usize), n as nat) + above),
            at,
            rows.subrange(at, at + n),
        ) == rows_without(rows, above),
        at <= rows_without(rows, row_range(RowIdx(at as usize), n as nat) + above).len(),
        rows_without(rows, row_range(RowIdx(at as usize), n as nat) + above).len() + n
            == rows_without(rows, above).len() <= rows.len(),
{
    let range = row_range(RowIdx(at as usize), n as nat);
    let both = range + above;
    lemma_kept_from_start(rows, both);
    lemma_kept_from_start(rows, above);
    lemma_kept_split(rows, 0, at, both);
    lemma_kept_split(rows, at, at + n, both);
    lemma_kept_split(rows, 0, at, above);
    lemma_kept_split(rows, at, at + n, above);
    let low = rows.take(at);
    let mid = rows.take(at + n);
    // Below the run nothing was removed.
    assert forall|i: int| 0 <= i < low.len() implies !#[trigger] both.contains(RowIdx(i as usize))
        && !above.contains(RowIdx(i as usize)) by {
        if both.contains(RowIdx(i as usize)) {
            let k = choose|k: int| 0 <= k < both.len() && both[k] == RowIdx(i as usize);
            if k < range.len() {
                assert(range[k].0 == at + k);
            } else {
                assert(above[k - range.len()] == both[k]);
            }
        }
        if above.contains(RowIdx(i as usize)) {
            let k = choose|k: int| 0 <= k < above.len() && above[k] == RowIdx(i as usize);
        }
    }
    lemma_kept_all(low, 0, both);
    lemma_kept_all(low, 0, above);
    assert(low.subrange(0, low.len() as int) =~= low);
    // The run was removed whole, and is whole again.
    assert forall|i: int| at <= i < mid.len() implies #[trigger] both.contains(RowIdx(i as usize))
        && !above.contains(RowIdx(i as usize)) by {
        assert(range[i - at] == RowIdx(i as usize));
        assert(both[i - at] == range[i - at]);
        if above.contains(RowIdx(i as usize)) {
            let k = choose|k: int| 0 <= k < above.len() && above[k] == RowIdx(i as usize);
        }
    }
    lemma_kept_none(mid, at, both);
    lemma_kept_all(mid, at, above);
    assert(mid.subrange(at, mid.len() as int) =~= rows.subrange(at, at + n));
    // Above the run the same rows are removed.
    assert forall|i: int| at + n <= i < rows.len() implies (both.contains(RowIdx(i as usize))
        <==> #[trigger] above.contains(RowIdx(i as usize))) by {
        if both.contains(RowIdx(i as usize)) {
            let k = choose|k: int| 0 <= k < both.len() && both[k] == RowIdx(i as usize);
            if k < range.len() {
                assert(range[k].0 == at + k);
            } else {
                assert(above[k - range.len()] == both[k]);
            }
        }
        if above.contains(RowIdx(i as usize)) {
            let k = choose|k: int| 0 <= k < above.len() && above[k] == RowIdx(i as usize);
            assert(both[range.len() + k] == above[k]);
        }
    }
    lemma_kept_same(rows, at + n, both, above);
    let high = kept_from(rows, at + n, above);
    assert(kept_from(low, 0, both) == low);
    assert(kept_from(mid, at, both) =~= Seq::<R>::empty());
    assert(kept_from(rows, at, both) =~= high);
    assert(rows_without(rows, both) =~= low + high);
    assert(kept_from(low, 0, above) == low);
    assert(kept_from(mid, at, above) == rows.subrange(at, at + n));
    assert(kept_from(rows, at, above) =~= rows.subrange(at, at + n) + high);
    assert(rows_without(rows, above) =~= low + rows.subrange(at, at + n) + high);
    assert((low + high).subrange(0, at) =~= low);
    assert((low + high).subrange(at, (low + high).len() as int) =~= high);
    lemma_kept_within(rows, at + n, above);
}

/// No more rows are kept from `start` on than there are.
pub proof fn lemma_kept_within<R>(rows: Seq<R>, start: int, removed: Seq<RowIdx>)
    requires
        0 <= start <= rows.len(),
    ensures
        kept_from(rows, start, removed).len() <= rows.len() - start,
    decreases rows.len(),
{
    if rows.len() > start {
        lemma_kept_within(rows.drop_last(), start, removed);
    }
}

/// The indices of the runs, run after run.
pub open spec fn flat(runs: Seq<Seq<RowIdx>>) -> Seq<RowIdx>
    decreases runs.len(),
{
    if runs.len() == 0 {
        Seq::empty()
    } else {
        flat(runs.drop_last()) + runs.last()
    }
}

/// Whether the runs are runs of indices without gaps, with a gap from each run to the
/// next, all below `bound`.
pub open spec fn well_cut(runs: Seq<Seq<RowIdx>>, bound: int) -> bool {
    &&& forall|g: int| 0 <= g < runs.len() ==> (#[trigger] runs[g]).len() > 0
    &&& forall|g: int, k: int|
        0 <= g < runs.len() && 0 <= k < runs[g].len() ==> (#[trigger] runs[g][k]).0 == runs[g][0].0
            + k && runs[g][k].0 < bound
    &&& forall|g: int|
        0 <= g < runs.len() - 1 ==> (#[trigger] runs[g]).last().0 + 1 < runs[g + 1][0].0
}

/// The runs that ascending indices are cut into are runs without gaps, with a gap
/// between them, and make up the indices.
#[verifier::rlimit(80)]
pub proof fn lemma_runs_of<R>(removed: Seq<RowIdx>, bound: int)
    requires
        strictly_ascending(removed),
        forall|i: int| 0 <= i < removed.len() ==> (#[trigger] removed[i]).0 < bound,
    ensures
        well_cut(runs_of(removed), bound),
        flat(runs_of(removed)) == removed,
        removed.len() > 0 ==> runs_of(removed).len() > 0 && runs_of(removed).last().last()
            == removed.last(),
    decreases removed.len(),
{
    let runs = runs_of(removed);
    if removed.len() == 0 {
    } else if removed.len() == 1 {
        assert(runs.drop_last() =~= Seq::<Seq<RowIdx>>::empty());
        assert(flat(runs.drop_last()) =~= Seq::<RowIdx>::empty());
        assert(runs.last() =~= removed);
        assert(flat(runs) =~= removed);
    } else {
        let fewer = removed.drop_last();
        assert forall|i: int| 0 <= i < fewer.len() implies (#[trigger] fewer[i]).0 < bound by {
            assert(fewer[i] == removed[i]);
        }
        assert(strictly_ascending(fewer)) by {
            assert forall|i: int, j: int| 0 <= i < j < fewer.len() implies fewer[i].0 < fewer[j].0 by {
                assert(fewer[i] == removed[i] && fewer[j] == removed[j]);
            }
        }
        lemma_runs_of::<R>(fewer, bound);
        let rest = runs_of(fewer);
        let x = removed.last();
        assert(fewer.last() == removed[removed.len() - 2]);
        assert(removed[removed.len() - 2].0 < removed[removed.len() - 1].0);
        if removed[removed.len() - 2].0 + 1 == x.0 {
            let grown = rest.last().push(x);
            assert(runs == rest.update(rest.len() - 1, grown));
            assert(runs.drop_last() =~= rest.drop_last());
            assert(runs.last() == grown);
            assert(flat(rest) == flat(rest.drop_last()) + rest.last());
            assert(flat(runs) == flat(rest.drop_last()) + grown);
            assert(fewer.push(x) =~= removed);
            assert(flat(runs) =~= removed);
            assert forall|g: int, k: int| 0 <= g < runs.len() && 0 <= k < runs[g].len() implies (
            #[trigger] runs[g][k]).0 == runs[g][0].0 + k && runs[g][k].0 < bound by {
                if g == rest.len() - 1 {
                    if k < rest.last().len() {
                        assert(runs[g][k] == rest[g][k]);
                    } else {
                        assert(rest[g][k - 1].0 == rest[g][0].0 + k - 1);
                    }
                    assert(runs[g][0] == rest[g][0]);
                } else {
                    assert(runs[g] == rest[g]);
                }
            }
            assert forall|g: int| 0 <= g < runs.len() - 1 implies (#[trigger] runs[g]).last().0 + 1
                < runs[g + 1][0].0 by {
                assert(runs[g] == rest[g]);
                assert(rest[g].last().0 + 1 < rest[g + 1][0].0);
                assert(runs[g + 1][0] == rest[g + 1][0]);
            }
        } else {
            assert(runs == rest.push(seq![x]));
            assert(runs.drop_last() =~= rest);
            assert(runs.last() == seq![x]);
            assert(flat(runs) == flat(rest) + seq![x]);
            assert(fewer.push(x) =~= removed);
            assert(flat(runs) =~= removed);
            assert forall|g: int, k: int| 0 <= g < runs.len() && 0 <= k < runs[g].len() implies (
            #[trigger] runs[g][k]).0 == runs[g][0].0 + k && runs[g][k].0 < bound by {
                if g < rest.len() {
                    assert(runs[g] == rest[g]);
                }
            }
            assert forall|g: int| 0 <= g < runs.len() - 1 implies (#[trigger] runs[g]).last().0 + 1
                < runs[g + 1][0].0 by {
                assert(runs[g] == rest[g]);
                if g + 1 < rest.len() {
                    assert(runs[g + 1] == rest[g + 1]);
                    assert(rest[g].last().0 + 1 < rest[g + 1][0].0);
                }
            }
        }
    }
}

/// The indices of runs are those of the first run and then those of the others.
pub proof fn lemma_flat_front(runs: Seq<Seq<RowIdx>>)
    requires
        runs.len() > 0,
    ensures
        flat(runs) == runs[0] + flat(runs.drop_first()),
    decreases runs.len(),
{
    if runs.len() == 1 {
        assert(runs.drop_last() =~= Seq::<Seq<RowIdx>>::empty());
        assert(runs.drop_first() =~= Seq::<Seq<RowIdx>>::empty());
        assert(flat(runs.drop_last()) =~= Seq::<RowIdx>::empty());
        assert(flat(runs) =~= runs[0] + flat(runs.drop_first()));
    } else {
        lemma_flat_front(runs.drop_last());
        assert(runs.drop_last().drop_first() =~= runs.drop_first().drop_last());
        assert(runs.drop_last()[0] == runs[0]);
        assert(runs.drop_first().last() == runs.last());
        assert(flat(runs) =~= runs[0] + flat(runs.drop_first()));
    }
}

/// Every index of runs that are well cut lies in a run that is not below the first.
pub proof fn lemma_flat_above(runs: Seq<Seq<RowIdx>>, bound: int)
    requires
        well_cut(runs, bound),
        runs.len() > 0,
    ensures
        forall|i: int| 0 <= i < flat(runs).len() ==> runs[0][0].0 <= (#[trigger] flat(runs)[i]).0 < bound,
    decreases runs.len(),
{
    if runs.len() == 1 {
        assert(runs.drop_last() =~= Seq::<Seq<RowIdx>>::empty());
        assert(flat(runs.drop_last()) =~= Seq::<RowIdx>::empty());
        assert(flat(runs) =~= runs[0]);
    } else {
        let fewer = runs.drop_last();
        assert(well_cut(fewer, bound)) by {
            assert forall|g: int| 0 <= g < fewer.len() implies (#[trigger] fewer[g]).len() > 0 by {
                assert(fewer[g] == runs[g]);
            }
            assert forall|g: int, k: int| 0 <= g < fewer.len() && 0 <= k < fewer[g].len() implies (
            #[trigger] fewer[g][k]).0 == fewer[g][0].0 + k && fewer[g][k].0 < bound by {
                assert(fewer[g] == runs[g]);
            }
            assert forall|g: int| 0 <= g < fewer.len() - 1 implies (#[trigger] fewer[g]).last().0 + 1
                < fewer[g + 1][0].0 by {
                assert(fewer[g] == runs[g]);
                assert(fewer[g + 1] == runs[g + 1]);
            }
        }
        lemma_flat_above(fewer, bound);
        lemma_first_run_lowest(runs, bound, runs.len() - 1);
        assert forall|i: int| 0 <= i < flat(runs).len() implies runs[0][0].0 <= (
        #[trigger] flat(runs)[i]).0 < bound by {
            if i < flat(fewer).len() {
                assert(flat(runs)[i] == flat(fewer)[i]);
            } else {
                let k = i - flat(fewer).len();
                assert(flat(runs)[i] == runs.last()[k]);
            }
        }
    }
}

/// A later run begins above the first run.
pub proof fn lemma_first_run_lowest(runs: Seq<Seq<RowIdx>>, bound: int, g: int)
    requires
        well_cut(runs, bound),
        0 <= g < runs.len(),
    ensures
        runs[0][0].0 <= runs[g][0].0,
        g > 0 ==> runs[0].last().0 + 1 < runs[g][0].0,
    decreases g,
{
    if g > 0 {
        lemma_first_run_lowest(runs, bound, g - 1);
        assert(runs[g - 1].last().0 + 1 < runs[g][0].0);
        assert(runs[g - 1].last().0 == runs[g - 1][0].0 + runs[g - 1].len() - 1);
        assert(runs[0].last().0 == runs[0][0].0 + runs[0].len() - 1);
    }
}

/// Putting the runs of removed rows back in, run after run from the lowest, restores
/// the rows.
pub proof fn lemma_runs_put_back<R, V: RowViewer<R>>(
    rows: Seq<R>,
    runs: Seq<Seq<RowIdx>>,
    now: Snapshot<R>,
    restore: Seq<CommandModel<R>>,
)
    requires
        copies_faithfully::<R, V>(),
        rows.len() <= usize::MAX,
        well_cut(runs, rows.len() as int),
        now.rows == rows_without(rows, flat(runs)),
        restore.len() == runs.len(),
        forall|g: int|
            0 <= g < runs.len() ==> {
                &&& (#[trigger] restore[g]) is InsertRows
                &&& restore[g]->InsertRows_0 == runs[g][0]
                &&& restore[g]->InsertRows_1.len() == runs[g].len()
                &&& forall|k: int|
                    0 <= k < runs[g].len() ==> (#[trigger] restore[g]->InsertRows_1[k])
                        == rows[runs[g][k].0 as int]
            },
    ensures
        fit_in_turn(restore, now.rows.len() as int),
        now.after_all::<V>(restore) == (Snapshot { rows, ..now }),
    decreases runs.len(),
{
    if runs.len() == 0 {
        lemma_rows_without_nothing(rows);
    } else {
        let run = runs[0];
        let at = run[0].0 as int;
        let n = run.len() as int;
        let later = runs.drop_first();
        let above = flat(later);
        lemma_flat_front(runs);
        assert(run.last().0 == at + n - 1);
        assert(run =~= row_range(RowIdx(at as usize), n as nat)) by {
            assert forall|k: int| 0 <= k < n implies run[k] == row_range(
                RowIdx(at as usize),
                n as nat,
            )[k] by {
                assert(run[k].0 == run[0].0 + k);
            }
        }
        assert(well_cut(later, rows.len() as int)) by {
            assert forall|g: int| 0 <= g < later.len() implies (#[trigger] later[g]).len() > 0 by {
                assert(later[g] == runs[g + 1]);
            }
            assert forall|g: int, k: int| 0 <= g < later.len() && 0 <= k < later[g].len() implies (
            #[trigger] later[g][k]).0 == later[g][0].0 + k && later[g][k].0 < rows.len() by {
                assert(later[g] == runs[g + 1]);
            }
            assert forall|g: int| 0 <= g < later.len() - 1 implies (#[trigger] later[g]).last().0 + 1
                < later[g + 1][0].0 by {
                assert(later[g] == runs[g + 1]);
                assert(later[g + 1] == runs[g + 2]);
            }
        }
        if later.len() > 0 {
            lemma_flat_above(later, rows.len() as int);
            assert(later[0] == runs[1]);
            assert(runs[0].last().0 + 1 < runs[1][0].0);
        } else {
            assert(above =~= Seq::<RowIdx>::empty());
        }
        lemma_run_put_back(rows, at, n, above);
        let values = restore[0]->InsertRows_1;
        assert(copies::<R, V>(values) =~= rows.subrange(at, at + n)) by {
            assert forall|k: int| 0 <= k < n implies copies::<R, V>(values)[k] == rows.subrange(
                at,
                at + n,
            )[k] by {
                assert(values[k] == rows[run[k].0 as int]);
                assert(run[k].0 == at + k);
            }
        }
        let next = now.after::<V>(restore[0]);
        assert(next.rows == rows_without(rows, above));
        assert forall|g: int| 0 <= g < later.len() implies {
            &&& (#[trigger] restore.drop_first()[g]) is InsertRows
            &&& restore.drop_first()[g]->InsertRows_0 == later[g][0]
            &&& restore.drop_first()[g]->InsertRows_1.len() == later[g].len()
            &&& forall|k: int|
                0 <= k < later[g].len() ==> (#[trigger] restore.drop_first()[g]->InsertRows_1[k])
                    == rows[later[g][k].0 as int]
        } by {
            assert(restore.drop_first()[g] == restore[g + 1]);
            assert(later[g] == runs[g + 1]);
        }
        lemma_runs_put_back::<R, V>(rows, later, next, restore.drop_first());
    }
}

/// The commands that undo a command lead from what it leaves back to what it found,
/// if the viewer copies rows faithfully.
pub proof fn lemma_inverse_undoes<R, V: RowViewer<R>>(found: Snapshot<R>, cmd: CommandModel<R>)
    requires
        copies_faithfully::<R, V>(),
        cmd.is_recorded(),
        cmd.fits(found.rows.len() as int),
        found.rows.len() <= usize::MAX,
    ensures
        fit_in_turn(
            cmd.inverse::<V>(found.rows, found.vis_cols, found.sort),
            found.after::<V>(cmd).rows.len() as int,
        ),
        found.after::<V>(cmd).after_all::<V>(
            cmd.inverse::<V>(found.rows, found.vis_cols, found.sort),
        ) == found,
{
    let left = found.after::<V>(cmd);
    let inverse = cmd.inverse::<V>(found.rows, found.vis_cols, found.sort);
    match cmd {
        CommandModel::SetVisibleColumns(_) => {
            assert(inverse.drop_first() =~= Seq::<CommandModel<R>>::empty());
            assert(inverse[0] == CommandModel::<R>::SetVisibleColumns(found.vis_cols));
            assert(left.after::<V>(inverse[0]) == found);
            assert(inverse.len() == 1);
            assert(found.after_all::<V>(inverse.drop_first()) == found);
            assert(left.after_all::<V>(inverse) == left.after::<V>(inverse[0]).after_all::<V>(
                inverse.drop_first(),
            ));
            assert(fit_in_turn(inverse.drop_first(), row_count_after(inverse[0], left.rows.len() as int)));
            assert(inverse[0].fits(left.rows.len() as int));
        },
        CommandModel::SetColumnSort(_) => {
            assert(inverse.drop_first() =~= Seq::<CommandModel<R>>::empty());
            assert(inverse[0] == CommandModel::<R>::SetColumnSort(found.sort));
            assert(left.after::<V>(inverse[0]) == found);
            assert(inverse.len() == 1);
            assert(found.after_all::<V>(inverse.drop_first()) == found);
            assert(left.after_all::<V>(inverse) == left.after::<V>(inverse[0]).after_all::<V>(
                inverse.drop_first(),
            ));
            assert(fit_in_turn(inverse.drop_first(), row_count_after(inverse[0], left.rows.len() as int)));
            assert(inverse[0].fits(left.rows.len() as int));
        },
        CommandModel::SetRowValue(row, value) => {
            assert(inverse.drop_first() =~= Seq::<CommandModel<R>>::empty());
            assert(left.after::<V>(inverse[0]).rows =~= found.rows);
            assert(left.after::<V>(inverse[0]) == found);
            assert(inverse.len() == 1);
            assert(found.after_all::<V>(inverse.drop_first()) == found);
            assert(left.after_all::<V>(inverse) == left.after::<V>(inverse[0]).after_all::<V>(
                inverse.drop_first(),
            ));
            assert(inverse[0].fits(left.rows.len() as int));
            assert(fit_in_turn(inverse.drop_first(), row_count_after(inverse[0], left.rows.len() as int)));
        },
        CommandModel::SetCells { slab, values } => {
            let touched = touched_rows(values);
            lemma_touched_rows::<R>(values);
            lemma_cells_written_len::<R, V>(found.rows, slab, values);
            assert forall|k: int| 0 <= k < touched.len() implies (#[trigger] touched[k]).0
                < found.rows.len() by {
                assert(writes_to(values, touched[k]));
                let i = choose|i: int| 0 <= i < values.len() && (#[trigger] values[i]).0 == touched[k];
            }
            lemma_rows_restored::<R, V>(left, found.rows, touched, inverse);
            let back = left.after_all::<V>(inverse);
            assert(back.rows =~= found.rows) by {
                assert forall|r: int| 0 <= r < found.rows.len() implies back.rows[r]
                    == found.rows[r] by {
                    if !touched.contains(RowIdx(r as usize)) {
                        assert forall|i: int| 0 <= i < values.len() implies (#[trigger] values[i]).0.0
                            != r by {
                            assert(touched.contains(values[i].0));
                        }
                        lemma_cells_written_elsewhere::<R, V>(found.rows, slab, values, r);
                    }
                }
            }
        },
        CommandModel::InsertRows(at, new_rows) => {
            assert(inverse.drop_first() =~= Seq::<CommandModel<R>>::empty());
            let range = row_range(at, new_rows.len());
            assert(strictly_ascending(range));
            lemma_rows_without_range(left.rows, at.0 as int, new_rows.len() as int);
            assert(inverse[0] == CommandModel::<R>::RemoveRow(range));
            assert(left.after::<V>(inverse[0]).rows =~= found.rows);
            assert(left.after::<V>(inverse[0]) == found);
            assert forall|i: int| 0 <= i < range.len() implies (#[trigger] range[i]).0
                < left.rows.len() by {}
            assert(inverse.len() == 1);
            assert(found.after_all::<V>(inverse.drop_first()) == found);
            assert(left.after_all::<V>(inverse) == left.after::<V>(inverse[0]).after_all::<V>(
                inverse.drop_first(),
            ));
            assert(inverse[0].fits(left.rows.len() as int));
            assert(fit_in_turn(inverse.drop_first(), row_count_after(inverse[0], left.rows.len() as int)));
        },
        CommandModel::RemoveRow(removed) => {
            let runs = runs_of(removed);
            lemma_runs_of::<R>(removed, found.rows.len() as int);
            assert forall|g: int| 0 <= g < runs.len() implies {
                &&& (#[trigger] inverse[g]) is InsertRows
                &&& inverse[g]->InsertRows_0 == runs[g][0]
                &&& inverse[g]->InsertRows_1.len() == runs[g].len()
                &&& forall|k: int|
                    0 <= k < runs[g].len() ==> (#[trigger] inverse[g]->InsertRows_1[k])
                        == found.rows[runs[g][k].0 as int]
            } by {}
            lemma_runs_put_back::<R, V>(found.rows, runs, left, inverse);
        },
        _ => {},
    }
}

/// The latest of the entries that led to a snapshot led to it too.
pub proof fn lemma_follows_take<R, V: RowViewer<R>>(here: Snapshot<R>, applied: Seq<UndoEntry<R>>, k: int)
    requires
        here.follows::<V>(applied),
        0 <= k <= applied.len(),
    ensures
        here.follows::<V>(applied.take(k)),
    decreases k,
{
    if k > 0 {
        let entry = applied[0];
        let before = here.after_all::<V>(entry.restore);
        lemma_follows_take::<R, V>(before, applied.drop_first(), k - 1);
        assert(applied.take(k)[0] == entry);
        assert(applied.take(k).drop_first() =~= applied.drop_first().take(k - 1));
    }
}

/// Recording a command keeps a consistent history consistent, if the viewer copies rows
/// faithfully.
pub proof fn law_record_keeps_consistent<R, V: RowViewer<R>>(
    ui: UiModel<R>,
    table: TableModel<R>,
    cmd: CommandModel<R>,
    capacity: usize,
)
    requires
        copies_faithfully::<R, V>(),
        ui.history_consistent::<V>(table),
        cmd.is_recorded(),
        cmd.fits(table.rows.len() as int),
        table.rows.len() <= usize::MAX,
    ensures
        ui.recorded::<V>(table, cmd, capacity).0.history_consistent::<V>(
            ui.recorded::<V>(table, cmd, capacity).1,
        ),
{
    if !ui.is_noop(cmd) {
        let (ui2, table2) = ui.recorded::<V>(table, cmd, capacity);
        let found = snapshot(ui, table);
        lemma_snapshot_after::<R, V>(ui, table, cmd);
        lemma_applied_keeps_history(ui, ui.history, cmd);
        lemma_inverse_undoes::<R, V>(found, cmd);
        let done = ui.history.skip(ui.undo_cursor);
        let room = vstd::math::max(capacity - 1, 0);
        let kept = done.take(vstd::math::min(room, done.len() as int));
        lemma_follows_take::<R, V>(found, done, vstd::math::min(room, done.len() as int));
        assert(ui2.history.skip(0) =~= ui2.history);
        assert(ui2.history.drop_first() =~= kept);
        assert(ui2.history.take(0) =~= Seq::<UndoEntry<R>>::empty());
        assert(snapshot(ui2, table2) == found.after::<V>(cmd));
    }
}

/// Pushing a command keeps a consistent history consistent, if the viewer copies rows
/// faithfully: every sequence of commands leaves a history in which undoing and
/// redoing restore what was there.
pub proof fn law_push_keeps_consistent<R, V: RowViewer<R>>(
    ui: UiModel<R>,
    table: TableModel<R>,
    cmd: CommandModel<R>,
    capacity: usize,
    allowed: Seq<bool>,
)
    requires
        copies_faithfully::<R, V>(),
        ui.accepts(table.rows.len() as int, cmd),
        ui.history_consistent::<V>(table),
        table.rows.len() <= usize::MAX,
        cmd is CcSetCells ==> allowed.len() == cmd->CcSetCells_values.len(),
    ensures
        ui.pushed::<V>(table, cmd, capacity, allowed).0.history_consistent::<V>(
            ui.pushed::<V>(table, cmd, capacity, allowed).1,
        ),
{
    let commits = ui.cursor is Edit && !(cmd is CcCancelEdit || cmd is CcCommitEdit);
    let (mid, mid_table) = if commits {
        ui.committed::<V>(table, capacity)
    } else {
        (ui, table)
    };
    lemma_commit_keeps_consistent::<R, V>(ui, table, capacity);
    assert(mid.history_consistent::<V>(mid_table));
    assert(mid_table.rows.len() == table.rows.len());
    match cmd {
        CommandModel::CcEditStart(_, _, _) => {},
        CommandModel::CcCancelEdit => {},
        CommandModel::CcCommitEdit => {},
        CommandModel::CcSetSelection(_) => {},
        _ => {
            match mid.normalized(cmd, allowed) {
                Some(recorded) => {
                    if cmd is CcSetCells {
                        let values = cmd->CcSetCells_values;
                        crate::seqs::lemma_retained_within(values, allowed);
                        let kept = crate::seqs::retained(values, allowed);
                        assert forall|i: int| 0 <= i < kept.len() implies (#[trigger] kept[i]).0.0
                            < table.rows.len() && kept[i].2.0 < cmd->CcSetCells_slab.len() by {
                            assert(values.contains(kept[i]));
                            let k = choose|k: int| 0 <= k < values.len() && values[k] == kept[i];
                        }
                    }
                    law_record_keeps_consistent::<R, V>(mid, mid_table, recorded, capacity);
                },
                None => {},
            }
        },
    }
}

/// Committing an edit keeps a consistent history consistent, if the viewer copies
/// rows faithfully.
pub proof fn lemma_commit_keeps_consistent<R, V: RowViewer<R>>(
    ui: UiModel<R>,
    table: TableModel<R>,
    capacity: usize,
)
    requires
        copies_faithfully::<R, V>(),
        ui.history_consistent::<V>(table),
        table.rows.len() <= usize::MAX,
        match ui.cursor {
            crate::state::CursorModel::Edit { row, .. } => row.0 < table.rows.len(),
            crate::state::CursorModel::Select(_) => true,
        },
    ensures
        ui.committed::<V>(table, capacity).0.history_consistent::<V>(
            ui.committed::<V>(table, capacity).1,
        ),
        ui.committed::<V>(table, capacity).1.rows.len() == table.rows.len(),
        ui.committed::<V>(table, capacity).0.vis_cols == ui.vis_cols,
{
    match ui.cursor {
        crate::state::CursorModel::Edit { row, edition, .. } => {
            let selecting = UiModel {
                cursor: crate::state::CursorModel::Select(Seq::empty()),
                ..ui
            };
            assert(snapshot(selecting, table) == snapshot(ui, table));
            law_record_keeps_consistent::<R, V>(
                selecting,
                table,
                CommandModel::SetRowValue(row, edition),
                capacity,
            );
        },
        crate::state::CursorModel::Select(_) => {},
    }
}

} // verus!
