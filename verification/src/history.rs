//! Applying commands, recording them, and undoing and redoing what was recorded.

use std::collections::{HashMap, VecDeque};
use vstd::prelude::*;
use crate::cache::{copied, lemma_cell_in_grid};
use crate::command::{CellWrite, Command, CommandModel};
use crate::engine::{
    cells_written,
    copies,
    row_range,
    rows_inserted,
    rows_without,
    runs_of,
    strictly_ascending,
    touched_rows,
};
use crate::index::{ColumnIdx, IsAscending, RowIdx, VisColumnPos, VisLinearIdx, VisRowPos, VisSelection};
use crate::seqs::retained;
use crate::state::{
    lemma_columns_bounded,
    lemma_grid_fits,
    entries,
    lemma_in_grid_fits,
    valid_columns,
    CursorModel,
    CursorState,
    UiModel,
    UiState,
    UndoArg,
    UndoEntry,
};
use crate::table::{DataTable, TableModel};
use crate::viewer::RowViewer;

verus! {

broadcast use vstd::std_specs::hash::group_hash_axioms;

/// The commands of a list as mathematical values.
pub open spec fn models<R>(commands: Seq<Command<R>>) -> Seq<CommandModel<R>> {
    commands.map_values(|c: Command<R>| c@)
}

/// Whether the commands can be applied one after the other to a store that holds
/// `nrows` rows at first.
pub open spec fn fit_in_turn<R>(commands: Seq<CommandModel<R>>, nrows: int) -> bool
    decreases commands.len(),
{
    commands.len() == 0 || (commands[0].fits(nrows) && fit_in_turn(
        commands.drop_first(),
        row_count_after(commands[0], nrows),
    ))
}

/// Number of rows that a command leaves of `nrows` rows.
pub open spec fn row_count_after<R>(cmd: CommandModel<R>, nrows: int) -> int {
    match cmd {
        CommandModel::InsertRows(_, rows) => nrows + rows.len(),
        CommandModel::RemoveRow(rows) => nrows - rows.len(),
        _ => nrows,
    }
}

impl<R> TableModel<R> {
    /// The table after the commands have been applied one after the other.
    pub open spec fn applied_in_turn<V: RowViewer<R>>(self, commands: Seq<CommandModel<R>>) -> TableModel<
        R,
    >
        decreases commands.len(),
    {
        if commands.len() == 0 {
            self
        } else {
            self.applied::<V>(commands[0]).applied_in_turn::<V>(commands.drop_first())
        }
    }
}

impl<R> UiModel<R> {
    /// The state after the commands have been applied one after the other.
    pub open spec fn applied_in_turn(self, commands: Seq<CommandModel<R>>) -> UiModel<R>
        decreases commands.len(),
    {
        if commands.len() == 0 {
            self
        } else {
            self.applied(commands[0]).applied_in_turn(commands.drop_first())
        }
    }

    /// The state after the latest command that has not been undone has been: the
    /// commands that undo it have been applied, and it counts as undone. Nothing
    /// changes if there is no such command.
    pub open spec fn undone(self) -> UiModel<R> {
        if self.undo_cursor < self.history.len() {
            UiModel {
                undo_cursor: self.undo_cursor + 1,
                ..self.applied_in_turn(self.history[self.undo_cursor].restore)
            }
        } else {
            self
        }
    }

    /// The table after the latest command that has not been undone has been.
    pub open spec fn table_undone<V: RowViewer<R>>(self, table: TableModel<R>) -> TableModel<R> {
        if self.undo_cursor < self.history.len() {
            table.applied_in_turn::<V>(self.history[self.undo_cursor].restore)
        } else {
            table
        }
    }

    /// The state after the command that was undone last has been applied again.
    /// Nothing changes if no command has been undone.
    pub open spec fn redone(self) -> UiModel<R> {
        if self.undo_cursor > 0 {
            UiModel {
                undo_cursor: self.undo_cursor - 1,
                ..self.applied(self.history[self.undo_cursor - 1].apply)
            }
        } else {
            self
        }
    }

    /// The table after the command that was undone last has been applied again.
    pub open spec fn table_redone<V: RowViewer<R>>(self, table: TableModel<R>) -> TableModel<R> {
        if self.undo_cursor > 0 {
            table.applied::<V>(self.history[self.undo_cursor - 1].apply)
        } else {
            table
        }
    }

    /// Whether the latest command that has not been undone can be: the commands that
    /// undo it can be applied to a store of `nrows` rows.
    pub open spec fn undo_fits(self, nrows: int) -> bool {
        self.undo_cursor < self.history.len() ==> fit_in_turn(
            self.history[self.undo_cursor].restore,
            nrows,
        )
    }

    /// Whether the command that was undone last can be applied again to a store of
    /// `nrows` rows.
    pub open spec fn redo_fits(self, nrows: int) -> bool {
        self.undo_cursor > 0 ==> self.history[self.undo_cursor - 1].apply.fits(nrows)
    }
}

/// Removing rows that are named in ascending order leaves as many rows less.
pub proof fn lemma_rows_without_len<R>(rows: Seq<R>, removed: Seq<RowIdx>)
    requires
        rows.len() <= usize::MAX,
        strictly_ascending(removed),
        forall|i: int| 0 <= i < removed.len() ==> (#[trigger] removed[i]).0 < rows.len(),
    ensures
        rows_without(rows, removed).len() == rows.len() - removed.len(),
    decreases rows.len(),
{
    if rows.len() > 0 {
        let last = RowIdx((rows.len() - 1) as usize);
        if removed.contains(last) {
            let k = choose|k: int| 0 <= k < removed.len() && removed[k] == last;
            assert(removed[removed.len() - 1].0 < rows.len());
            if k < removed.len() - 1 {
                assert(removed[k].0 < removed[removed.len() - 1].0);
            }
            assert(removed.last() == last);
            let fewer = removed.drop_last();
            assert forall|i: int| 0 <= i < fewer.len() implies (#[trigger] fewer[i]).0
                < rows.drop_last().len() by {
                assert(fewer[i] == removed[i]);
                assert(removed[i].0 < removed[removed.len() - 1].0);
            }
            lemma_rows_without_len(rows.drop_last(), fewer);
            lemma_rows_without_ignores(rows.drop_last(), removed, last);
        } else {
            assert forall|i: int| 0 <= i < removed.len() implies (#[trigger] removed[i]).0
                < rows.drop_last().len() by {
                assert(removed.contains(removed[i]));
            }
            lemma_rows_without_len(rows.drop_last(), removed);
        }
    } else {
        if removed.len() > 0 {
            assert(removed[0].0 < rows.len());
        }
    }
}

/// An index at or beyond the end of the rows does not matter to what is removed.
pub proof fn lemma_rows_without_ignores<R>(rows: Seq<R>, removed: Seq<RowIdx>, beyond: RowIdx)
    requires
        rows.len() <= usize::MAX,
        removed.len() > 0,
        removed.last() == beyond,
        beyond.0 >= rows.len(),
    ensures
        rows_without(rows, removed) == rows_without(rows, removed.drop_last()),
    decreases rows.len(),
{
    if rows.len() > 0 {
        lemma_rows_without_ignores(rows.drop_last(), removed, beyond);
        let last = RowIdx((rows.len() - 1) as usize);
        let fewer = removed.drop_last();
        if removed.contains(last) {
            let k = choose|k: int| 0 <= k < removed.len() && removed[k] == last;
            assert(k < removed.len() - 1);
            assert(fewer[k] == last);
        }
        if fewer.contains(last) {
            let k = choose|k: int| 0 <= k < fewer.len() && fewer[k] == last;
            assert(removed[k] == last);
        }
    }
}

/// Puts a copy of each of `values` in before the row at `at`, and tells the viewer of
/// each new row.
pub fn insert_rows<R, V: RowViewer<R>>(rows: &mut Vec<R>, vwr: &mut V, at: usize, values: &Vec<R>)
    requires
        at <= old(rows)@.len(),
        old(rows)@.len() + values@.len() <= usize::MAX,
    ensures
        final(rows)@ == rows_inserted(old(rows)@, at as int, copies::<R, V>(values@)),
{
    let mut tail = rows.split_off(at);
    let mut i: usize = 0;
    while i < values.len()
        invariant
            i <= values@.len(),
            at <= old(rows)@.len(),
            tail@ == old(rows)@.subrange(at as int, old(rows)@.len() as int),
            rows@ == old(rows)@.subrange(0, at as int) + copies::<R, V>(values@).take(i as int),
        decreases values@.len() - i,
    {
        let copy = vwr.clone_row(&values[i]);
        rows.push(copy);
        assert(rows@ =~= old(rows)@.subrange(0, at as int) + copies::<R, V>(values@).take(i + 1));
        i += 1;
    }
    rows.append(&mut tail);
    assert(rows@ =~= rows_inserted(old(rows)@, at as int, copies::<R, V>(values@)));
    assert(rows@.len() == old(rows)@.len() + values@.len());
    let mut k: usize = 0;
    while k < values.len()
        invariant
            k <= values@.len(),
            at + values@.len() <= rows@.len() <= usize::MAX,
        decreases values@.len() - k,
    {
        vwr.on_row_inserted(at + k, &rows[at + k]);
        k += 1;
    }
}

/// Tells the viewer of each row that is about to go, and removes the rows whose index
/// is in `removed`.
pub fn remove_rows<R, V: RowViewer<R>>(rows: &mut Vec<R>, vwr: &mut V, removed: &Vec<RowIdx>)
    requires
        strictly_ascending(removed@),
        forall|i: int| 0 <= i < removed@.len() ==> (#[trigger] removed@[i]).0 < old(rows)@.len(),
    ensures
        final(rows)@ == rows_without(old(rows)@, removed@),
{
    let mut k: usize = 0;
    while k < removed.len()
        invariant
            k <= removed@.len(),
            forall|i: int| 0 <= i < removed@.len() ==> (#[trigger] removed@[i]).0 < rows@.len(),
            rows@ == old(rows)@,
        decreases removed@.len() - k,
    {
        vwr.on_row_removed(removed[k].0, &rows[removed[k].0]);
        k += 1;
    }
    let mut all: Vec<R> = Vec::new();
    std::mem::swap(rows, &mut all);
    let total = all.len();
    let mut next: usize = 0;
    let mut index: usize = 0;
    for row in it: all
        invariant
            it.seq() == old(rows)@,
            index == it.index(),
            total == old(rows)@.len(),
            index <= total,
            strictly_ascending(removed@),
            forall|i: int| 0 <= i < removed@.len() ==> (#[trigger] removed@[i]).0 < old(rows)@.len(),
            next <= removed@.len(),
            forall|i: int| 0 <= i < next ==> (#[trigger] removed@[i]).0 < index,
            forall|i: int| next <= i < removed@.len() ==> (#[trigger] removed@[i]).0 >= index,
            rows@ == rows_without(old(rows)@.take(index as int), removed@),
    {
        let ghost seen = old(rows)@.take(index as int);
        let ghost more = old(rows)@.take(index + 1);
        proof {
            assert(index < total);
            assert(more.drop_last() =~= seen);
            assert(more.last() == row);
        }
        if next < removed.len() && removed[next].0 == index {
            proof {
                assert(removed@[next as int] == RowIdx(index));
                assert(removed@.contains(RowIdx(index)));
                assert forall|i: int| next + 1 <= i < removed@.len() implies (
                #[trigger] removed@[i]).0 >= index + 1 by {
                    assert(removed@[next as int].0 < removed@[i].0);
                }
            }
            next += 1;
        } else {
            proof {
                if removed@.contains(RowIdx(index)) {
                    let k = choose|k: int| 0 <= k < removed@.len() && removed@[k] == RowIdx(index);
                    if k < next {
                        assert(removed@[k].0 < index);
                    } else if k > next {
                        assert(removed@[next as int].0 < removed@[k].0);
                    }
                }
            }
            rows.push(row);
        }
        index += 1;
    }
    proof {
        assert(old(rows)@.take(old(rows)@.len() as int) =~= old(rows)@);
    }
}

/// Writes the cells of `values`, each from its row of `slab`, and tells the viewer of
/// each row that was written to.
pub fn write_cells<R, V: RowViewer<R>>(
    rows: &mut Vec<R>,
    vwr: &mut V,
    slab: &Vec<R>,
    values: &Vec<CellWrite>,
)
    requires
        forall|i: int|
            0 <= i < values@.len() ==> (#[trigger] values@[i]).0.0 < old(rows)@.len() && values@[i].2.0
                < slab@.len(),
    ensures
        final(rows)@ == cells_written::<R, V>(old(rows)@, slab@, values@),
{
    // For each row that is written to, where its old value is kept.
    let mut kept_at: HashMap<usize, usize> = HashMap::new();
    let mut old_rows: Vec<(RowIdx, R)> = Vec::new();
    let mut i: usize = 0;
    while i < values.len()
        invariant
            i <= values@.len(),
            rows@.len() == old(rows)@.len(),
            forall|k: int|
                0 <= k < values@.len() ==> (#[trigger] values@[k]).0.0 < rows@.len() && values@[k].2.0
                    < slab@.len(),
            forall|k: int| 0 <= k < old_rows@.len() ==> (#[trigger] old_rows@[k]).0.0 < rows@.len(),
            rows@ == cells_written::<R, V>(old(rows)@, slab@, values@.take(i as int)),
        decreases values@.len() - i,
    {
        let (row, col, value_id) = values[i];
        proof {
            assert(values@.take(i + 1).drop_last() =~= values@.take(i as int));
            assert(values@.take(i + 1).last() == values@[i as int]);
        }
        if !kept_at.contains_key(&row.0) {
            kept_at.insert(row.0, old_rows.len());
            let old_row = vwr.clone_row(&rows[row.0]);
            old_rows.push((row, old_row));
        }
        vwr.set_cell_value(&slab[value_id.0], &mut rows[row.0], col.0);
        i += 1;
    }
    proof {
        assert(values@.take(values@.len() as int) =~= values@);
    }
    let mut k: usize = 0;
    while k < old_rows.len()
        invariant
            k <= old_rows@.len(),
            forall|k: int| 0 <= k < old_rows@.len() ==> (#[trigger] old_rows@[k]).0.0 < rows@.len(),
        decreases old_rows@.len() - k,
    {
        let row = old_rows[k].0;
        vwr.on_row_updated(row.0, &rows[row.0], &old_rows[k].1);
        k += 1;
    }
}

/// Pushing a command keeps a consistent history consistent, if the viewer's copy
/// of a row is that row.
proof fn lemma_pushed_consistent<R, V: RowViewer<R>>(
    ui: UiModel<R>,
    table: TableModel<R>,
    cmd: CommandModel<R>,
    capacity: usize,
    allowed: Seq<bool>,
)
    requires
        ui.accepts(table.rows.len() as int, cmd),
        table.rows.len() <= usize::MAX,
        cmd is CcSetCells ==> allowed.len() == cmd->CcSetCells_values.len(),
    ensures
        crate::laws::copies_faithfully::<R, V>() && ui.history_consistent::<V>(table) ==> ui.pushed::<V>(
            table,
            cmd,
            capacity,
            allowed,
        ).0.history_consistent::<V>(ui.pushed::<V>(table, cmd, capacity, allowed).1),
{
    if crate::laws::copies_faithfully::<R, V>() && ui.history_consistent::<V>(table) {
        crate::laws::law_push_keeps_consistent::<R, V>(ui, table, cmd, capacity, allowed);
    }
}

/// What a viewer is asked about before write `i` of `values` is made: the column
/// and the row of the cell, the row as it stands in the store, and the row of the
/// slab that holds the value to be written.
pub fn write_request<'a, R>(
    table: &'a DataTable<R>,
    slab: &'a Vec<R>,
    values: &Vec<CellWrite>,
    i: usize,
) -> (request: (usize, usize, &'a R, &'a R))
    requires
        i < values@.len(),
        values@[i as int].0.0 < table@.rows.len(),
        values@[i as int].2.0 < slab@.len(),
    ensures
        request.0 == values@[i as int].1.0,
        request.1 == values@[i as int].0.0,
        *request.2 == table@.rows[values@[i as int].0.0 as int],
        *request.3 == slab@[values@[i as int].2.0 as int],
{
    let (row, column, slab_id) = values[i];
    (column.0, row.0, &table.rows[row.0], &slab[slab_id.0])
}

impl<R> UiState<R> {
    /// Has the rows selected once the displayed rows have been chosen anew.
    pub(crate) fn queue_select_rows(&mut self, first: usize, count: usize)
        requires
            first + count <= usize::MAX,
        ensures
            final(self)@ == (UiModel {
                desired_selection: Some(
                    Seq::new(
                        count as nat,
                        |i: int| (RowIdx((first + i) as usize), Seq::<ColumnIdx>::empty()),
                    ),
                ),
                ..old(self)@
            }),
    {
        let mut list: Vec<(RowIdx, Vec<ColumnIdx>)> = Vec::new();
        let mut i: usize = 0;
        while i < count
            invariant
                i <= count,
                first + count <= usize::MAX,
                list@.len() == i,
                forall|k: int|
                    0 <= k < i ==> (#[trigger] list@[k]).0 == RowIdx((first + k) as usize)
                        && list@[k].1@ == Seq::<ColumnIdx>::empty(),
            decreases count - i,
        {
            list.push((RowIdx(first + i), Vec::new()));
            i += 1;
        }
        self.cc_desired_selection = Some(list);
        proof {
            let want = Seq::new(
                count as nat,
                |i: int| (RowIdx((first + i) as usize), Seq::<ColumnIdx>::empty()),
            );
            assert(self@.desired_selection->0 =~= want);
        }
    }

    /// Applies a recorded command to the rows and to the state.
    pub fn cmd_apply<V: RowViewer<R>>(&mut self, table: &mut DataTable<R>, vwr: &mut V, cmd: &Command<R>)
        requires
            old(self)@.vis_cols.len() > 0,
            cmd@.is_recorded(),
            cmd@.fits(old(table)@.rows.len() as int),
        ensures
            final(self)@ == old(self)@.applied(cmd@),
            final(table)@ == old(table)@.applied::<V>(cmd@),
            final(table)@.rows.len() == row_count_after(cmd@, old(table)@.rows.len() as int),
    {
        match cmd {
            Command::SetVisibleColumns(cols) => {
                self.validate_interactive_cell(cols.len());
                self.p.vis_cols = copied(cols);
                self.cc_dirty = true;
            },
            Command::SetColumnSort(new_sort) => {
                self.p.sort = copied(new_sort);
                self.cc_dirty = true;
            },
            Command::SetRowValue(row_id, value) => {
                self.cc_num_frame_from_last_edit = 0;
                table.dirty_flag = true;
                let old_row = vwr.clone_row(&table.rows[row_id.0]);
                let new_row = vwr.clone_row(&**value);
                table.rows.set(row_id.0, new_row);
                vwr.on_row_updated(row_id.0, &table.rows[row_id.0], &old_row);
            },
            Command::SetCells { slab, values } => {
                self.cc_num_frame_from_last_edit = 0;
                table.dirty_flag = true;
                write_cells(&mut table.rows, vwr, slab, values);
                proof {
                    lemma_cells_written_len::<R, V>(old(table)@.rows, slab@, values@);
                }
            },
            Command::InsertRows(pos, values) => {
                // The row indices held anywhere are out of date.
                self.cc_dirty = true;
                table.dirty_flag = true;
                insert_rows(&mut table.rows, vwr, pos.0, values);
                self.queue_select_rows(pos.0, values.len());
            },
            Command::RemoveRow(values) => {
                // The row indices held anywhere are out of date.
                self.cc_dirty = true;
                table.dirty_flag = true;
                remove_rows(&mut table.rows, vwr, values);
                self.queue_select_rows(0, 0);
                proof {
                    assert(old(table).rows@.len() == old(table).rows.len());
                    lemma_rows_without_len(old(table)@.rows, values@);
                    assert(self@.desired_selection->0 =~= Seq::empty());
                }
            },
            _ => {},
        }
    }
}

/// Whether two lists hold the same columns.
pub fn same_columns(a: &Vec<ColumnIdx>, b: &Vec<ColumnIdx>) -> (same: bool)
    ensures
        same == (a@ == b@),
{
    if a.len() != b.len() {
        return false;
    }
    let mut i: usize = 0;
    while i < a.len()
        invariant
            a@.len() == b@.len(),
            i <= a@.len(),
            forall|k: int| 0 <= k < i ==> a@[k] == b@[k],
        decreases a@.len() - i,
    {
        if a[i] != b[i] {
            return false;
        }
        i += 1;
    }
    assert(a@ =~= b@);
    true
}

/// Whether two lists hold the same sort keys.
pub fn same_sort(a: &Vec<(ColumnIdx, IsAscending)>, b: &Vec<(ColumnIdx, IsAscending)>) -> (same: bool)
    ensures
        same == (a@ == b@),
{
    if a.len() != b.len() {
        return false;
    }
    let mut i: usize = 0;
    while i < a.len()
        invariant
            a@.len() == b@.len(),
            i <= a@.len(),
            forall|k: int| 0 <= k < i ==> a@[k] == b@[k],
        decreases a@.len() - i,
    {
        if a[i].0 != b[i].0 || a[i].1 != b[i].1 {
            return false;
        }
        i += 1;
    }
    assert(a@ =~= b@);
    true
}

/// Applying a command leaves the history alone.
pub proof fn lemma_applied_keeps_history<R>(m: UiModel<R>, history: Seq<UndoEntry<R>>, cmd: CommandModel<R>)
    ensures
        (UiModel { history, ..m }).applied(cmd) == (UiModel { history, ..m.applied(cmd) }),
        m.applied(cmd).history == m.history,
        m.applied(cmd).undo_cursor == m.undo_cursor,
        m.applied(cmd).num_columns == m.num_columns,
        m.applied(cmd).rows == m.rows,
        m.applied(cmd).row_id_to_vis == m.row_id_to_vis,
        m.applied(cmd).cursor == m.cursor,
        m.applied(cmd).gesture == m.gesture,
        m.applied(cmd).clipboard == m.clipboard,
        cmd.recordable(m.num_columns) && valid_columns(m.vis_cols, m.num_columns) ==> valid_columns(
            m.applied(cmd).vis_cols,
            m.num_columns,
        ),
{
}

impl<R> UiState<R> {
    /// Whether the command would change nothing.
    pub fn is_noop_command(&self, command: &Command<R>) -> (noop: bool)
        ensures
            noop == self@.is_noop(command@),
    {
        match command {
            Command::SetVisibleColumns(value) => same_columns(value, &self.p.vis_cols),
            Command::SetColumnSort(sort) => same_sort(sort, &self.p.sort),
            Command::RemoveRow(indices) => indices.len() == 0,
            _ => false,
        }
    }

    /// The commands that undo a recorded command, made before it is applied.
    pub fn restore_for<V: RowViewer<R>>(&self, table: &DataTable<R>, vwr: &mut V, command: &Command<R>) -> (restore: Vec<
        Command<R>,
    >)
        requires
            command@.is_recorded(),
            command@.fits(table@.rows.len() as int),
        ensures
            models(restore@) == command@.inverse::<V>(table@.rows, self@.vis_cols, self@.sort),
    {
        let mut restore: Vec<Command<R>> = Vec::new();
        let ghost want = command@.inverse::<V>(table@.rows, self@.vis_cols, self@.sort);
        match command {
            Command::SetVisibleColumns(_) => {
                restore.push(Command::SetVisibleColumns(copied(&self.p.vis_cols)));
                assert(models(restore@) =~= want);
            },
            Command::SetColumnSort(_) => {
                restore.push(Command::SetColumnSort(copied(&self.p.sort)));
                assert(models(restore@) =~= want);
            },
            Command::SetRowValue(row_id, _) => {
                let snapshot = vwr.clone_row(&table.rows[row_id.0]);
                restore.push(Command::SetRowValue(*row_id, Box::new(snapshot)));
                assert(models(restore@) =~= want);
            },
            Command::SetCells { values, .. } => {
                let ghost rows = table@.rows;
                let mut i: usize = 0;
                while i < values.len()
                    invariant
                        i <= values@.len(),
                        forall|k: int|
                            0 <= k < values@.len() ==> (#[trigger] values@[k]).0.0 < table@.rows.len(),
                        rows == table@.rows,
                        restore@.len() == touched_rows(values@.take(i as int)).len(),
                        forall|k: int|
                            0 <= k < restore@.len() ==> (#[trigger] restore@[k])@
                                == CommandModel::SetRowValue(
                                touched_rows(values@.take(i as int))[k],
                                V::row_copy(rows[touched_rows(values@.take(i as int))[k].0 as int]),
                            ),
                    decreases values@.len() - i,
                {
                    let ghost seen = values@.take(i as int);
                    let ghost next = values@.take(i + 1);
                    proof {
                        assert(next.drop_last() =~= seen);
                        assert(next.last() == values@[i as int]);
                        if i > 0 {
                            assert(next[next.len() - 2] == values@[i - 1]);
                        }
                    }
                    let row = values[i].0;
                    if i == 0 || values[i - 1].0 != row {
                        let snapshot = vwr.clone_row(&table.rows[row.0]);
                        restore.push(Command::SetRowValue(row, Box::new(snapshot)));
                    }
                    i += 1;
                }
                proof {
                    assert(values@.take(values@.len() as int) =~= values@);
                    assert(models(restore@) =~= want);
                }
            },
            Command::InsertRows(pivot, values) => {
                let mut range: Vec<RowIdx> = Vec::new();
                let mut i: usize = 0;
                while i < values.len()
                    invariant
                        i <= values@.len(),
                        pivot.0 + values@.len() <= usize::MAX,
                        range@ == row_range(*pivot, i as nat),
                    decreases values@.len() - i,
                {
                    range.push(RowIdx(pivot.0 + i));
                    assert(range@ =~= row_range(*pivot, (i + 1) as nat));
                    i += 1;
                }
                restore.push(Command::RemoveRow(range));
                assert(models(restore@) =~= want);
            },
            Command::RemoveRow(indices) => {
                let ghost rows = table@.rows;
                // The rows of the run that is being gathered.
                let mut chunk: Vec<R> = Vec::new();
                let mut chunk_start = RowIdx(0);
                let mut i: usize = 0;
                while i < indices.len()
                    invariant
                        i <= indices@.len(),
                        rows == table@.rows,
                        strictly_ascending(indices@),
                        forall|k: int|
                            0 <= k < indices@.len() ==> (#[trigger] indices@[k]).0 < table@.rows.len(),
                        i > 0 ==> {
                            let runs = runs_of(indices@.take(i as int));
                            &&& runs.len() == restore@.len() + 1
                            &&& chunk_start == runs.last()[0]
                            &&& runs.last().len() > 0
                            &&& chunk@ == Seq::new(
                                runs.last().len(),
                                |k: int| V::row_copy(rows[runs.last()[k].0 as int]),
                            )
                        },
                        i == 0 ==> restore@.len() == 0 && chunk@.len() == 0,
                        forall|g: int|
                            0 <= g < restore@.len() ==> (#[trigger] restore@[g])@ == CommandModel::InsertRows(
                                runs_of(indices@.take(i as int))[g][0],
                                Seq::new(
                                    runs_of(indices@.take(i as int))[g].len(),
                                    |k: int|
                                        V::row_copy(rows[runs_of(indices@.take(i as int))[g][k].0 as int]),
                                ),
                            ),
                    decreases indices@.len() - i,
                {
                    let ghost seen = indices@.take(i as int);
                    let ghost next = indices@.take(i + 1);
                    let ghost runs = runs_of(seen);
                    proof {
                        assert(next.drop_last() =~= seen);
                        assert(next.last() == indices@[i as int]);
                        if i > 0 {
                            assert(next[next.len() - 2] == indices@[i - 1]);
                        }
                    }
                    let index = indices[i];
                    let copy = vwr.clone_row(&table.rows[index.0]);
                    if i == 0 {
                        chunk_start = index;
                        chunk.push(copy);
                        proof {
                            assert(chunk@ =~= Seq::new(
                                runs_of(next).last().len(),
                                |k: int| V::row_copy(rows[runs_of(next).last()[k].0 as int]),
                            ));
                        }
                    } else if indices[i - 1].0 + 1 == index.0 {
                        chunk.push(copy);
                        proof {
                            let grown = runs_of(next);
                            assert(grown.last() =~= runs.last().push(index));
                            assert(chunk@ =~= Seq::new(
                                grown.last().len(),
                                |k: int| V::row_copy(rows[grown.last()[k].0 as int]),
                            ));
                            assert forall|g: int| 0 <= g < restore@.len() implies grown[g]
                                == runs[g] by {}
                        }
                    } else {
                        let mut done: Vec<R> = Vec::new();
                        std::mem::swap(&mut chunk, &mut done);
                        restore.push(Command::InsertRows(chunk_start, done));
                        chunk_start = index;
                        chunk.push(copy);
                        proof {
                            let grown = runs_of(next);
                            assert(grown.last() =~= seq![index]);
                            assert(chunk@ =~= Seq::new(
                                grown.last().len(),
                                |k: int| V::row_copy(rows[grown.last()[k].0 as int]),
                            ));
                            assert forall|g: int| 0 <= g < runs.len() implies grown[g] == runs[g] by {}
                        }
                    }
                    i += 1;
                }
                if indices.len() > 0 {
                    restore.push(Command::InsertRows(chunk_start, chunk));
                }
                proof {
                    assert(indices@.take(indices@.len() as int) =~= indices@);
                    assert(models(restore@) =~= want);
                }
            },
            _ => {},
        }
        restore
    }

    /// Pushes a recorded command: unless it would change nothing, it is applied and
    /// becomes the latest entry of the history, with the commands that undo it. The
    /// entries that had been undone are dropped, and so are the oldest ones beyond
    /// `capacity`.
    pub fn record<V: RowViewer<R>>(
        &mut self,
        table: &mut DataTable<R>,
        vwr: &mut V,
        command: Command<R>,
        capacity: usize,
    )
        requires
            old(self)@.wf(),
            command@.recordable(old(self)@.num_columns),
            command@.fits(old(table)@.rows.len() as int),
        ensures
            (final(self)@, final(table)@) == old(self)@.recorded::<V>(
                old(table)@,
                command@,
                capacity,
            ),
            final(self)@.wf(),
            final(self)@.cursor == old(self)@.cursor,
            final(self)@.rows == old(self)@.rows,
            final(self)@.row_id_to_vis == old(self)@.row_id_to_vis,
            final(table)@.rows.len() == if old(self)@.is_noop(command@) {
                old(table)@.rows.len() as int
            } else {
                row_count_after(command@, old(table)@.rows.len() as int)
            },
    {
        if self.is_noop_command(&command) {
            return ;
        }
        let restore = self.restore_for(table, vwr, &command);
        let ghost entry = UndoEntry { apply: command@, restore: models(restore@) };
        let ghost before = self@;

        let mut queue: VecDeque<UndoArg<R>> = VecDeque::new();
        std::mem::swap(&mut self.undo_queue, &mut queue);
        // What had been undone cannot be redone any more.
        let mut k: usize = 0;
        while k < self.undo_cursor
            invariant
                k <= self.undo_cursor <= before.history.len(),
                self.undo_cursor == before.undo_cursor,
                entries(queue@) == before.history.skip(k as int),
            decreases self.undo_cursor - k,
        {
            assert(entries(queue@).len() == before.history.len() - k);
            let ghost longer = queue@;
            queue.pop_front();
            assert(queue@ == longer.subrange(1, longer.len() as int));
            assert(entries(queue@) =~= before.history.skip(k + 1)) by {
                assert forall|i: int| 0 <= i < queue@.len() implies entries(queue@)[i]
                    == before.history.skip(k + 1)[i] by {
                    assert(entries(longer)[i + 1] == before.history.skip(k as int)[i + 1]);
                }
            }
            k += 1;
        }
        // The oldest entries make room.
        let room = if capacity == 0 {
            0
        } else {
            capacity - 1
        };
        let new_len = if room <= queue.len() {
            room
        } else {
            queue.len()
        };
        queue.truncate(new_len);
        self.undo_cursor = 0;
        proof {
            lemma_applied_keeps_history(self@, self@.history, command@);
        }
        self.cmd_apply(table, vwr, &command);
        queue.push_front(UndoArg { apply: command, restore });
        self.undo_queue = queue;
        proof {
            let done = before.history.skip(before.undo_cursor);
            assert(self@.history =~= before.history_with(entry, capacity));
            assert forall|i: int| 0 <= i < self@.history.len() implies (
            #[trigger] self@.history[i]).recordable(self@.num_columns) by {
                if i > 0 {
                    assert(self@.history[i] == before.history[before.undo_cursor + i - 1]);
                } else {
                    assert forall|r: int| 0 <= r < entry.restore.len() implies (
                    #[trigger] entry.restore[r]).recordable(self@.num_columns) by {}
                }
            }
        }
    }
}

/// Applying commands one after the other keeps what a single command keeps.
pub proof fn lemma_applied_in_turn_keeps<R>(m: UiModel<R>, commands: Seq<CommandModel<R>>)
    requires
        valid_columns(m.vis_cols, m.num_columns),
        forall|i: int| 0 <= i < commands.len() ==> (#[trigger] commands[i]).recordable(m.num_columns),
    ensures
        m.applied_in_turn(commands).history == m.history,
        m.applied_in_turn(commands).undo_cursor == m.undo_cursor,
        m.applied_in_turn(commands).num_columns == m.num_columns,
        m.applied_in_turn(commands).rows == m.rows,
        m.applied_in_turn(commands).row_id_to_vis == m.row_id_to_vis,
        m.applied_in_turn(commands).cursor == m.cursor,
        valid_columns(m.applied_in_turn(commands).vis_cols, m.num_columns),
    decreases commands.len(),
{
    if commands.len() > 0 {
        lemma_applied_keeps_history(m, m.history, commands[0]);
        assert forall|i: int| 0 <= i < commands.drop_first().len() implies (
        #[trigger] commands.drop_first()[i]).recordable(m.num_columns) by {
            assert(commands.drop_first()[i] == commands[i + 1]);
        }
        lemma_applied_in_turn_keeps(m.applied(commands[0]), commands.drop_first());
    }
}

impl<R> UiState<R> {
    /// Ends an edit and hands out what was edited: the row, the working copy and the
    /// column that had the focus. The cursor goes back to selecting, with nothing
    /// selected.
    pub fn try_take_edition(&mut self) -> (taken: Option<(RowIdx, R, VisColumnPos)>)
        ensures
            final(self)@ == old(self)@.edit_cancelled(),
            match old(self)@.cursor {
                CursorModel::Edit { row, edition, last_focus, .. } => taken == Some(
                    (row, edition, last_focus),
                ),
                CursorModel::Select(_) => taken is None,
            },
    {
        if self.is_editing() {
            let mut cursor = CursorState::Select(Vec::new());
            std::mem::swap(&mut self.cc_cursor, &mut cursor);
            match cursor {
                CursorState::Edit { row, edition, last_focus, .. } => Some((row, edition, last_focus)),
                CursorState::Select(_) => None,
            }
        } else {
            None
        }
    }

    /// Commits the edit that is going on, if any: the working copy is written to the
    /// row, as a recorded command.
    pub fn commit_edit<V: RowViewer<R>>(
        &mut self,
        table: &mut DataTable<R>,
        vwr: &mut V,
        capacity: usize,
    )
        requires
            old(self)@.wf(),
            match old(self)@.cursor {
                CursorModel::Edit { row, .. } => row.0 < old(table)@.rows.len(),
                CursorModel::Select(_) => true,
            },
        ensures
            (final(self)@, final(table)@) == old(self)@.committed::<V>(old(table)@, capacity),
            final(self)@.wf(),
            final(self)@.cursor is Select,
            old(self)@.cursor is Select ==> final(self)@.cursor == old(self)@.cursor,
            old(self)@.cursor is Edit ==> final(self)@.cursor == CursorModel::<R>::Select(Seq::empty()),
            final(self)@.rows == old(self)@.rows,
            final(self)@.row_id_to_vis == old(self)@.row_id_to_vis,
            final(self)@.vis_cols == old(self)@.vis_cols,
            final(self)@.num_columns == old(self)@.num_columns,
            final(table)@.rows.len() == old(table)@.rows.len(),
    {
        match self.try_take_edition() {
            Some((row_id, edition, _)) => {
                self.record(table, vwr, Command::SetRowValue(row_id, Box::new(edition)), capacity);
            },
            None => {},
        }
    }

    /// Pushes a command. An edit that is going on is committed first, unless the
    /// command itself ends it. A command that comes to a change of the rows, the
    /// visible columns or the sort keys is recorded in the undo history; one that
    /// comes to nothing is dropped.
    ///
    /// Which cells a `CcSetCells` command may write is for the viewer to say.
    #[verifier::rlimit(60)]
    pub fn push_new_command<V: RowViewer<R>>(
        &mut self,
        table: &mut DataTable<R>,
        vwr: &mut V,
        command: Command<R>,
        capacity: usize,
    )
        requires
            old(self)@.accepts(old(table)@.rows.len() as int, command@),
        ensures
            final(self)@.wf(),
            exists|allowed: Seq<bool>|
                {
                    &&& command@ is CcSetCells ==> allowed.len() == command@->CcSetCells_values.len()
                    &&& (final(self)@, final(table)@) == #[trigger] old(self)@.pushed::<V>(
                        old(table)@,
                        command@,
                        capacity,
                        allowed,
                    )
                },
            // With a viewer whose copy of a row is that row, a history that tells how
            // the rows, the visible columns and the sort keys came about still does so.
            crate::laws::copies_faithfully::<R, V>() && old(self)@.history_consistent::<V>(old(table)@)
                ==> final(self)@.history_consistent::<V>(final(table)@),
    {
        let ghost none: Seq<bool> = Seq::empty();
        assert(table@.rows.len() == table.rows.len() <= usize::MAX);
        if self.is_editing() && !matches!(command, Command::CcCancelEdit | Command::CcCommitEdit) {
            // An edit does not go on across other commands.
            self.commit_edit(table, vwr, capacity);
        }
        let ghost ui = self@;
        let ghost tbl = table@;
        proof {
            lemma_columns_bounded(self@.vis_cols, self@.num_columns);
        }
        match command {
            Command::CcHideColumn(column_idx) => {
                if self.p.vis_cols.len() == 1 {
                    assert((self@, table@) == old(self)@.pushed::<V>(old(table)@, command@, capacity, none));
                    proof {
                        lemma_pushed_consistent::<R, V>(old(self)@, old(table)@, command@, capacity, none);
                    }
                    return ;
                }
                let mut vis_cols = copied(&self.p.vis_cols);
                let idx = match self.vis_col_position(column_idx) {
                    Some(pos) => pos.0,
                    None => vstd::pervasive::unreached(),
                };
                vis_cols.remove(idx);
                proof {
                    lemma_removed_valid(ui.vis_cols, idx as int, ui.num_columns);
                }
                self.record(table, vwr, Command::SetVisibleColumns(vis_cols), capacity);
                assert((self@, table@) == old(self)@.pushed::<V>(old(table)@, command@, capacity, none));
                proof {
                    lemma_pushed_consistent::<R, V>(old(self)@, old(table)@, command@, capacity, none);
                }
            },
            Command::CcShowColumn { what, at } => {
                let mut vis_cols = copied(&self.p.vis_cols);
                vis_cols.insert(at.0, what);
                proof {
                    lemma_inserted_valid(ui.vis_cols, at.0 as int, what, ui.num_columns);
                }
                self.record(table, vwr, Command::SetVisibleColumns(vis_cols), capacity);
                assert((self@, table@) == old(self)@.pushed::<V>(old(table)@, command@, capacity, none));
                proof {
                    lemma_pushed_consistent::<R, V>(old(self)@, old(table)@, command@, capacity, none);
                }
            },
            Command::CcReorderColumn { from, to } => {
                if from == to || to.0 > self.p.vis_cols.len() {
                    // The position may belong to another table that is shown
                    // beside this one.
                    assert((self@, table@) == old(self)@.pushed::<V>(old(table)@, command@, capacity, none));
                    proof {
                        lemma_pushed_consistent::<R, V>(old(self)@, old(table)@, command@, capacity, none);
                    }
                    return ;
                }
                let mut vis_cols = copied(&self.p.vis_cols);
                if from.0 < to.0 {
                    let moved = vis_cols[from.0];
                    vis_cols.insert(to.0, moved);
                    vis_cols.remove(from.0);
                } else {
                    let moved = vis_cols.remove(from.0);
                    vis_cols.insert(to.0, moved);
                }
                proof {
                    lemma_reordered_valid(ui.vis_cols, from.0 as int, to.0 as int, ui.num_columns);
                    assert(vis_cols@ == ui.reordered(from, to));
                }
                self.record(table, vwr, Command::SetVisibleColumns(vis_cols), capacity);
                assert((self@, table@) == old(self)@.pushed::<V>(old(table)@, command@, capacity, none));
                proof {
                    lemma_pushed_consistent::<R, V>(old(self)@, old(table)@, command@, capacity, none);
                }
            },
            Command::CcEditStart(row_id, column_pos, current) => {
                // The edit begins at once and is not recorded.
                let vis_row = match self.cc_row_id_to_vis.get(&row_id.0) {
                    Some(pos) => VisRowPos(*pos),
                    None => vstd::pervasive::unreached(),
                };
                proof {
                    lemma_cell_in_grid(
                        self@.rows.len() as int,
                        self@.ncol(),
                        self@.num_columns,
                        vis_row.0 as int,
                        column_pos.0 as int,
                    );
                }
                self.cc_cursor = CursorState::Edit {
                    edition: *current,
                    next_focus: true,
                    last_focus: column_pos,
                    row: row_id,
                };
                self.cc_interactive_cell = vis_row.linear_index(self.p.vis_cols.len(), column_pos);
                assert((self@, table@) == old(self)@.pushed::<V>(old(table)@, command@, capacity, none));
                proof {
                    lemma_pushed_consistent::<R, V>(old(self)@, old(table)@, command@, capacity, none);
                }
            },
            Command::CcCancelEdit => {
                // The working copy is dropped; nothing is written.
                let _ = self.try_take_edition();
                assert((self@, table@) == old(self)@.pushed::<V>(old(table)@, command@, capacity, none));
                proof {
                    lemma_pushed_consistent::<R, V>(old(self)@, old(table)@, command@, capacity, none);
                }
            },
            Command::CcCommitEdit => {
                self.commit_edit(table, vwr, capacity);
                assert((self@, table@) == old(self)@.pushed::<V>(old(table)@, command@, capacity, none));
                proof {
                    lemma_pushed_consistent::<R, V>(old(self)@, old(table)@, command@, capacity, none);
                }
            },
            Command::CcSetCells { context, slab, values } => {
                let mut kept: Vec<CellWrite> = Vec::new();
                let ghost mut allowed: Seq<bool> = Seq::empty();
                let mut i: usize = 0;
                while i < values.len()
                    invariant
                        i <= values@.len(),
                        allowed.len() == i,
                        forall|k: int|
                            0 <= k < values@.len() ==> (#[trigger] values@[k]).0.0 < table@.rows.len()
                                && values@[k].2.0 < slab@.len(),
                        kept@ == retained(values@.take(i as int), allowed),
                        forall|k: int|
                            0 <= k < kept@.len() ==> (#[trigger] kept@[k]).0.0 < table@.rows.len()
                                && kept@[k].2.0 < slab@.len(),
                    decreases values@.len() - i,
                {
                    let (row, col, slab_id) = values[i];
                    let ghost before = allowed;
                    let (column, at, current, proposed) = write_request(table, &slab, &values, i);
                    let allow = if vwr.is_editable_cell(column, at, current) {
                        vwr.confirm_cell_write_by_ui(current, proposed, column, context)
                    } else {
                        false
                    };
                    proof {
                        allowed = allowed.push(allow);
                        assert(values@.take(i + 1).drop_last() =~= values@.take(i as int));
                        assert(allowed.drop_last() =~= before);
                    }
                    if allow {
                        kept.push((row, col, slab_id));
                    }
                    i += 1;
                }
                proof {
                    assert(values@.take(values@.len() as int) =~= values@);
                }
                self.record(table, vwr, Command::SetCells { slab, values: kept }, capacity);
                assert((self@, table@) == old(self)@.pushed::<V>(
                    old(table)@,
                    command@,
                    capacity,
                    allowed,
                ));
                proof {
                    lemma_pushed_consistent::<R, V>(old(self)@, old(table)@, command@, capacity, allowed);
                }
            },
            Command::CcSetSelection(sel) => {
                if sel.len() > 0 {
                    self.cc_interactive_cell = sel[0].0;

                    proof {
                        lemma_grid_fits(self@);
                        lemma_in_grid_fits(sel@[0].0, self@.rows.len() as int, self@.ncol());
                    }
                    let (ic_r, ic_c) = self.cc_interactive_cell.row_col(self.p.vis_cols.len());
                    let row_id = self.cc_rows[ic_r.0];
                    let idx = self.p.vis_cols[ic_c.0];
                    let row = &table.rows[row_id.0];
                    vwr.on_highlight_cell(row, idx.0);
                }
                let (highlighted, unhighlighted) = self.get_highlight_changes(table, sel.as_slice());
                vwr.on_highlight_change(&highlighted, &unhighlighted);
                self.cc_cursor = CursorState::Select(sel);
                assert((self@, table@) == old(self)@.pushed::<V>(old(table)@, command@, capacity, none));
                proof {
                    lemma_pushed_consistent::<R, V>(old(self)@, old(table)@, command@, capacity, none);
                }
            },
            Command::CcUpdateSystemClipboard(_) => {
                // The host takes this command out before it gets here.
            },
            Command::SetVisibleColumns(columns) => {
                self.record(table, vwr, Command::SetVisibleColumns(columns), capacity);
                assert((self@, table@) == old(self)@.pushed::<V>(old(table)@, command@, capacity, none));
                proof {
                    lemma_pushed_consistent::<R, V>(old(self)@, old(table)@, command@, capacity, none);
                }
            },
            Command::SetColumnSort(sort) => {
                self.record(table, vwr, Command::SetColumnSort(sort), capacity);
                assert((self@, table@) == old(self)@.pushed::<V>(old(table)@, command@, capacity, none));
                proof {
                    lemma_pushed_consistent::<R, V>(old(self)@, old(table)@, command@, capacity, none);
                }
            },
            Command::SetRowValue(row, value) => {
                self.record(table, vwr, Command::SetRowValue(row, value), capacity);
                assert((self@, table@) == old(self)@.pushed::<V>(old(table)@, command@, capacity, none));
                proof {
                    lemma_pushed_consistent::<R, V>(old(self)@, old(table)@, command@, capacity, none);
                }
            },
            Command::SetCells { slab, values } => {
                self.record(table, vwr, Command::SetCells { slab, values }, capacity);
                assert((self@, table@) == old(self)@.pushed::<V>(old(table)@, command@, capacity, none));
                proof {
                    lemma_pushed_consistent::<R, V>(old(self)@, old(table)@, command@, capacity, none);
                }
            },
            Command::InsertRows(at, rows) => {
                self.record(table, vwr, Command::InsertRows(at, rows), capacity);
                assert((self@, table@) == old(self)@.pushed::<V>(old(table)@, command@, capacity, none));
                proof {
                    lemma_pushed_consistent::<R, V>(old(self)@, old(table)@, command@, capacity, none);
                }
            },
            Command::RemoveRow(rows) => {
                self.record(table, vwr, Command::RemoveRow(rows), capacity);
                assert((self@, table@) == old(self)@.pushed::<V>(old(table)@, command@, capacity, none));
                proof {
                    lemma_pushed_consistent::<R, V>(old(self)@, old(table)@, command@, capacity, none);
                }
            },
        }
    }

    /// Undoes the latest command that has not been undone, and says whether there
    /// was one.
    pub fn undo<V: RowViewer<R>>(&mut self, table: &mut DataTable<R>, vwr: &mut V) -> (done: bool)
        requires
            old(self)@.wf(),
            old(self)@.undo_fits(old(table)@.rows.len() as int),
        ensures
            final(self)@.wf(),
            done == (old(self)@.undo_cursor < old(self)@.history.len()),
            final(self)@ == old(self)@.undone(),
            final(table)@ == old(self)@.table_undone::<V>(old(table)@),
            // A history that tells how the rows, the visible columns and the sort keys
            // came about still does so.
            old(self)@.history_consistent::<V>(old(table)@) ==> final(self)@.history_consistent::<V>(
                final(table)@,
            ),
    {
        proof {
            if self@.history_consistent::<V>(table@) {
                crate::laws::law_undo_keeps_consistent::<R, V>(self@, table@);
            }
        }
        if self.undo_cursor == self.undo_queue.len() {
            return false;
        }
        let ghost before = self@;
        let ghost restore = before.history[before.undo_cursor].restore;
        let mut queue: VecDeque<UndoArg<R>> = VecDeque::new();
        std::mem::swap(&mut self.undo_queue, &mut queue);
        {
            let item = &queue[self.undo_cursor];
            assert(item@ == before.history[before.undo_cursor]);
            assert(restore =~= models(item.restore@));
            assert(restore.skip(0) =~= restore);
            assert((UiModel { history: before.history, ..self@ }) == before);
            let mut k: usize = 0;
            while k < item.restore.len()
                invariant
                    k <= item.restore@.len(),
                    restore == models(item.restore@),
                    before.history[before.undo_cursor].recordable(before.num_columns),
                    restore == before.history[before.undo_cursor].restore,
                    self@.num_columns == before.num_columns,
                    valid_columns(self@.vis_cols, self@.num_columns),
                    before.wf(),
                    self@.rows == before.rows,
                    self@.row_id_to_vis == before.row_id_to_vis,
                    self@.undo_cursor == before.undo_cursor,
                    self@.history.len() == 0,
                    fit_in_turn(restore.skip(k as int), table@.rows.len() as int),
                    (UiModel { history: before.history, ..self@ }).applied_in_turn(restore.skip(k as int))
                        == before.applied_in_turn(restore),
                    table@.applied_in_turn::<V>(restore.skip(k as int)) == old(table)@.applied_in_turn::<V>(
                        restore,
                    ),
                decreases item.restore@.len() - k,
            {
                let ghost rest = restore.skip(k as int);
                proof {
                    assert(rest[0] == restore[k as int]);
                    assert(rest.drop_first() =~= restore.skip(k + 1));
                    assert(restore[k as int].recordable(before.num_columns));
                    lemma_applied_keeps_history(self@, before.history, restore[k as int]);
                }
                self.cmd_apply(table, vwr, &item.restore[k]);
                k += 1;
            }
            proof {
                assert(restore.skip(restore.len() as int) =~= Seq::<CommandModel<R>>::empty());
            }
            self.undo_cursor += 1;
        }
        self.undo_queue = queue;
        proof {
            lemma_applied_in_turn_keeps(before, restore);
        }
        true
    }

    /// Applies again the command that was undone last, and says whether there was
    /// one.
    pub fn redo<V: RowViewer<R>>(&mut self, table: &mut DataTable<R>, vwr: &mut V) -> (done: bool)
        requires
            old(self)@.wf(),
            old(self)@.redo_fits(old(table)@.rows.len() as int),
        ensures
            final(self)@.wf(),
            done == (old(self)@.undo_cursor > 0),
            final(self)@ == old(self)@.redone(),
            final(table)@ == old(self)@.table_redone::<V>(old(table)@),
            // A history that tells how the rows, the visible columns and the sort keys
            // came about still does so.
            old(self)@.history_consistent::<V>(old(table)@) ==> final(self)@.history_consistent::<V>(
                final(table)@,
            ),
    {
        proof {
            if self@.history_consistent::<V>(table@) {
                crate::laws::law_redo_keeps_consistent::<R, V>(self@, table@);
            }
        }
        if self.undo_cursor == 0 {
            return false;
        }
        let ghost before = self@;
        let mut queue: VecDeque<UndoArg<R>> = VecDeque::new();
        std::mem::swap(&mut self.undo_queue, &mut queue);
        {
            self.undo_cursor -= 1;
            let item = &queue[self.undo_cursor];
            assert(item@ == before.history[before.undo_cursor - 1]);
            proof {
                lemma_applied_keeps_history(self@, before.history, item.apply@);
            }
            self.cmd_apply(table, vwr, &item.apply);
        }
        self.undo_queue = queue;
        true
    }
}

/// Visible columns less one of them are valid as long as one is left.
pub proof fn lemma_removed_valid(columns: Seq<ColumnIdx>, at: int, num_columns: usize)
    requires
        valid_columns(columns, num_columns),
        columns.len() > 1,
        0 <= at < columns.len(),
    ensures
        valid_columns(columns.remove(at), num_columns),
{
    let rest = columns.remove(at);
    assert forall|i: int| 0 <= i < rest.len() implies (#[trigger] rest[i]).0 < num_columns by {
        let j = if i < at {
            i
        } else {
            i + 1
        };
        assert(rest[i] == columns[j]);
    }
    assert forall|i: int, j: int| 0 <= i < rest.len() && 0 <= j < rest.len() && i != j implies rest[i]
        != rest[j] by {
        let i2 = if i < at {
            i
        } else {
            i + 1
        };
        let j2 = if j < at {
            j
        } else {
            j + 1
        };
        assert(rest[i] == columns[i2]);
        assert(rest[j] == columns[j2]);
    }
}

/// Visible columns with one more column of the viewer, not among them yet, are valid.
pub proof fn lemma_inserted_valid(columns: Seq<ColumnIdx>, at: int, what: ColumnIdx, num_columns: usize)
    requires
        columns.no_duplicates(),
        forall|i: int| 0 <= i < columns.len() ==> (#[trigger] columns[i]).0 < num_columns,
        0 <= at <= columns.len(),
        !columns.contains(what),
        what.0 < num_columns,
    ensures
        valid_columns(columns.insert(at, what), num_columns),
{
    let more = columns.insert(at, what);
    assert forall|i: int| 0 <= i < more.len() implies (#[trigger] more[i]).0 < num_columns by {
        if i < at {
            assert(more[i] == columns[i]);
        } else if i > at {
            assert(more[i] == columns[i - 1]);
        }
    }
    assert forall|i: int, j: int| 0 <= i < more.len() && 0 <= j < more.len() && i != j implies more[i]
        != more[j] by {
        let pick = |k: int|
            if k < at {
                k
            } else {
                k - 1
            };
        if i != at {
            assert(more[i] == columns[pick(i)]);
            assert(columns.contains(more[i]));
        }
        if j != at {
            assert(more[j] == columns[pick(j)]);
            assert(columns.contains(more[j]));
        }
    }
}

/// Visible columns with one of them moved are valid.
pub proof fn lemma_reordered_valid(columns: Seq<ColumnIdx>, from: int, to: int, num_columns: usize)
    requires
        valid_columns(columns, num_columns),
        0 <= from < columns.len(),
        0 <= to <= columns.len(),
        from != to,
    ensures
        from < to ==> valid_columns(columns.insert(to, columns[from]).remove(from), num_columns),
        from > to ==> valid_columns(columns.remove(from).insert(to, columns[from]), num_columns),
{
    let moved = columns[from];
    if columns.len() == 1 {
        assert(columns.insert(to, moved).remove(from) =~= columns);
    } else {
        lemma_removed_valid(columns, from, num_columns);
        let rest = columns.remove(from);
        assert(!rest.contains(moved)) by {
            if rest.contains(moved) {
                let k = choose|k: int| 0 <= k < rest.len() && rest[k] == moved;
                let j = if k < from {
                    k
                } else {
                    k + 1
                };
                assert(rest[k] == columns[j]);
            }
        }
        if from < to {
            lemma_inserted_valid(rest, to - 1, moved, num_columns);
            assert(columns.insert(to, moved).remove(from) =~= rest.insert(to - 1, moved));
        } else {
            lemma_inserted_valid(rest, to, moved, num_columns);
        }
    }
}

/// Writing cells leaves as many rows as there were.
pub proof fn lemma_cells_written_len<R, V: RowViewer<R>>(rows: Seq<R>, slab: Seq<R>, values: Seq<CellWrite>)
    requires
        forall|i: int| 0 <= i < values.len() ==> (#[trigger] values[i]).0.0 < rows.len(),
    ensures
        cells_written::<R, V>(rows, slab, values).len() == rows.len(),
    decreases values.len(),
{
    if values.len() > 0 {
        assert forall|i: int| 0 <= i < values.drop_last().len() implies (
        #[trigger] values.drop_last()[i]).0.0 < rows.len() by {
            assert(values.drop_last()[i] == values[i]);
        }
        lemma_cells_written_len::<R, V>(rows, slab, values.drop_last());
    }
}

} // verus!
