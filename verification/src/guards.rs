//! Telling, before a call, whether the call can be made.
//!
//! Most functions of the grid ask that the state is well formed, which every
//! function keeps. Some ask more: that the rows a command names exist, that the
//! selection lies in the grid. Code that cannot know this finds out with the
//! functions here.

use vstd::prelude::*;
use crate::cache::columns_valid;
use crate::command::{Command, CommandModel};
use crate::history::{fit_in_turn, lemma_rows_without_len, models, row_count_after};
use crate::index::{VisLinearIdx, VisSelection};
use crate::state::{lemma_grid_fits, rects_within, CursorState, UiState};
use crate::viewer::UiAction;

verus! {

broadcast use vstd::std_specs::hash::group_hash_axioms;

/// Whether both corners of every rectangle lie among the first `cells` cells.
pub fn rects_fit(sels: &[VisSelection], cells: usize) -> (fit: bool)
    ensures
        fit == rects_within(sels@, cells as int),
{
    let mut i: usize = 0;
    while i < sels.len()
        invariant
            i <= sels@.len(),
            forall|k: int| 0 <= k < i ==> (#[trigger] sels@[k]).0.0 < cells && sels@[k].1.0 < cells,
        decreases sels@.len() - i,
    {
        if sels[i].0.0 >= cells || sels[i].1.0 >= cells {
            return false;
        }
        i += 1;
    }
    true
}

impl<R> Command<R> {
    /// Whether the command can be applied to a store of `nrows` rows.
    pub fn fits(&self, nrows: usize) -> (fit: bool)
        ensures
            fit == self@.fits(nrows as int),
    {
        match self {
            Command::SetRowValue(row, _) => row.0 < nrows,
            Command::SetCells { slab, values } => {
                let mut i: usize = 0;
                while i < values.len()
                    invariant
                        self@ is SetCells,
                        self@->SetCells_slab == slab@,
                        self@->SetCells_values == values@,
                        i <= values@.len(),
                        forall|k: int|
                            0 <= k < i ==> (#[trigger] values@[k]).0.0 < nrows && values@[k].2.0
                                < slab@.len(),
                    decreases values@.len() - i,
                {
                    if values[i].0.0 >= nrows || values[i].2.0 >= slab.len() {
                        assert(!(values@[i as int].0.0 < nrows && values@[i as int].2.0 < slab@.len()));
                        return false;
                    }
                    i += 1;
                }
                true
            },
            Command::CcSetCells { slab, values, .. } => {
                let mut i: usize = 0;
                while i < values.len()
                    invariant
                        self@ is CcSetCells,
                        self@->CcSetCells_slab == slab@,
                        self@->CcSetCells_values == values@,
                        i <= values@.len(),
                        forall|k: int|
                            0 <= k < i ==> (#[trigger] values@[k]).0.0 < nrows && values@[k].2.0
                                < slab@.len(),
                    decreases values@.len() - i,
                {
                    if values[i].0.0 >= nrows || values[i].2.0 >= slab.len() {
                        assert(!(values@[i as int].0.0 < nrows && values@[i as int].2.0 < slab@.len()));
                        return false;
                    }
                    i += 1;
                }
                true
            },
            Command::InsertRows(at, rows) => at.0 <= nrows && rows.len() <= usize::MAX - nrows,
            Command::RemoveRow(rows) => {
                let mut i: usize = 0;
                while i < rows.len()
                    invariant
                        self@ == CommandModel::<R>::RemoveRow(rows@),
                        i <= rows@.len(),
                        forall|k: int| 0 <= k < i ==> (#[trigger] rows@[k]).0 < nrows,
                        forall|a: int, b: int| 0 <= a < b < i ==> rows@[a].0 < rows@[b].0,
                    decreases rows@.len() - i,
                {
                    if rows[i].0 >= nrows {
                        assert(!(rows@[i as int].0 < nrows));
                        return false;
                    }
                    if i > 0 && rows[i - 1].0 >= rows[i].0 {
                        assert(!(rows@[i - 1].0 < rows@[i as int].0));
                        return false;
                    }
                    proof {
                        assert forall|a: int, b: int| 0 <= a < b < i + 1 implies rows@[a].0
                            < rows@[b].0 by {
                            if b == i && a < i - 1 {
                                assert(rows@[a].0 < rows@[i - 1].0);
                            }
                        }
                    }
                    i += 1;
                }
                true
            },
            _ => true,
        }
    }

    /// Number of rows that the command leaves of `nrows` rows.
    pub fn row_count_after(&self, nrows: usize) -> (count: usize)
        requires
            self@.fits(nrows as int),
        ensures
            count == row_count_after(self@, nrows as int),
    {
        match self {
            Command::InsertRows(_, rows) => nrows + rows.len(),
            Command::RemoveRow(rows) => {
                proof {
                    lemma_rows_without_len(Seq::new(nrows as nat, |i: int| 0int), rows@);
                }
                nrows - rows.len()
            },
            _ => nrows,
        }
    }
}

/// Whether the commands can be applied one after the other to a store that holds
/// `nrows` rows at first.
pub fn commands_fit<R>(commands: &Vec<Command<R>>, nrows: usize) -> (fit: bool)
    ensures
        fit == fit_in_turn(models(commands@), nrows as int),
{
    let ghost all = models(commands@);
    let mut count = nrows;
    let mut i: usize = 0;
    assert(all.skip(0) =~= all);
    while i < commands.len()
        invariant
            i <= commands@.len(),
            all == models(commands@),
            fit_in_turn(all, nrows as int) == fit_in_turn(all.skip(i as int), count as int),
        decreases commands@.len() - i,
    {
        proof {
            assert(all.skip(i as int)[0] == commands@[i as int]@);
            assert(all.skip(i as int).drop_first() =~= all.skip(i + 1));
        }
        if !commands[i].fits(count) {
            return false;
        }
        count = commands[i].row_count_after(count);
        i += 1;
    }
    true
}

impl<R> UiState<R> {
    /// Whether a grid of this many columns can show `nrows` rows: its cells can be
    /// counted.
    pub fn has_room_for(&self, nrows: usize) -> (room: bool)
        ensures
            room == ((nrows + 1) * self@.num_columns <= usize::MAX),
    {
        if nrows == usize::MAX {
            assert((nrows + 1) * self@.num_columns > usize::MAX || self@.num_columns == 0) by (nonlinear_arith)
                requires
                    nrows == usize::MAX,
                    0 <= self@.num_columns,
            ;
            return self.p.num_columns == 0;
        }
        match (nrows + 1).checked_mul(self.p.num_columns) {
            Some(_) => true,
            None => false,
        }
    }

    /// Whether every displayed row is a row of a store of `nrows` rows.
    pub fn shows_rows_of(&self, nrows: usize) -> (shown: bool)
        ensures
            shown == self@.shows_rows_of(nrows as int),
    {
        let mut i: usize = 0;
        while i < self.cc_rows.len()
            invariant
                i <= self@.rows.len(),
                forall|k: int| 0 <= k < i ==> (#[trigger] self@.rows[k]).0 < nrows,
            decreases self@.rows.len() - i,
        {
            if self.cc_rows[i].0 >= nrows {
                return false;
            }
            i += 1;
        }
        true
    }

    /// Whether the selected rectangles lie inside the displayed grid.
    pub fn selection_in_grid(&self) -> (inside: bool)
        requires
            self@.wf(),
        ensures
            inside == self@.selection_in_grid(),
    {
        proof {
            lemma_grid_fits(self@);
        }
        let cells = self.cc_rows.len() * self.p.vis_cols.len();
        match &self.cc_cursor {
            CursorState::Select(sels) => rects_fit(sels.as_slice(), cells),
            CursorState::Edit { .. } => true,
        }
    }

    /// Whether the cell where a drag began and the cell where it is now lie inside
    /// the displayed grid.
    pub fn gesture_in_grid(&self) -> (inside: bool)
        requires
            self@.wf(),
        ensures
            inside == self@.gesture_in_grid(),
    {
        proof {
            lemma_grid_fits(self@);
        }
        let cells = self.cc_rows.len() * self.p.vis_cols.len();
        match self.cci_selection {
            Some((pivot, current)) => pivot.0 < cells && current.0 < cells,
            None => true,
        }
    }

    /// Whether the interactive cell lies in the grid, or in its first row if no row
    /// is displayed.
    pub fn interactive_in_grid(&self) -> (inside: bool)
        requires
            self@.wf(),
        ensures
            inside == self@.interactive_in_grid(),
    {
        let (row, _) = self.cc_interactive_cell.row_col(self.p.vis_cols.len());
        let last = if self.cc_rows.len() == 0 {
            0
        } else {
            self.cc_rows.len() - 1
        };
        row.0 <= last
    }

    /// Whether the latest command that has not been undone can be.
    pub fn undo_fits(&self, nrows: usize) -> (fit: bool)
        requires
            self@.wf(),
        ensures
            fit == self@.undo_fits(nrows as int),
    {
        if self.undo_cursor < self.undo_queue.len() {
            let item = &self.undo_queue[self.undo_cursor];
            assert(self@.history[self@.undo_cursor].restore =~= models(item.restore@));
            commands_fit(&item.restore, nrows)
        } else {
            true
        }
    }

    /// Whether the command that was undone last can be applied again.
    pub fn redo_fits(&self, nrows: usize) -> (fit: bool)
        requires
            self@.wf(),
        ensures
            fit == self@.redo_fits(nrows as int),
    {
        if self.undo_cursor > 0 {
            self.undo_queue[self.undo_cursor - 1].apply.fits(nrows)
        } else {
            true
        }
    }

    /// Whether the command can be pushed, the table holding `nrows` rows.
    pub fn accepts(&self, nrows: usize, command: &Command<R>) -> (accepted: bool)
        requires
            self@.wf(),
        ensures
            accepted == self@.accepts(nrows as int, command@),
    {
        if let CursorState::Edit { row, .. } = &self.cc_cursor {
            if row.0 >= nrows {
                return false;
            }
        }
        if !command.fits(nrows) {
            return false;
        }
        match command {
            Command::CcHideColumn(column) => self.p.vis_cols.len() == 1 || self.vis_col_position(
                *column,
            ).is_some(),
            Command::CcShowColumn { what, at } => self.vis_col_position(*what).is_none() && what.0
                < self.p.num_columns && at.0 <= self.p.vis_cols.len(),
            Command::SetVisibleColumns(columns) => columns_valid(columns, self.p.num_columns),
            Command::CcReorderColumn { from, to } => *from == *to || to.0 > self.p.vis_cols.len()
                || from.0 < self.p.vis_cols.len(),
            Command::CcEditStart(row, column, _) => self.cc_row_id_to_vis.contains_key(&row.0)
                && column.0 < self.p.vis_cols.len(),
            Command::CcSetSelection(selection) => {
                proof {
                    lemma_grid_fits(self@);
                }
                let cells = self.cc_rows.len() * self.p.vis_cols.len();
                self.shows_rows_of(nrows) && self.selection_in_grid() && rects_fit(
                    selection.as_slice(),
                    cells,
                )
            },
            Command::CcUpdateSystemClipboard(_) => false,
            _ => true,
        }
    }

    /// Whether the state and the table, which holds `nrows` rows, are fit for the
    /// action.
    pub fn ready_for(&self, nrows: usize, action: UiAction) -> (ready: bool)
        requires
            self@.wf(),
        ensures
            ready == self@.ready_for(nrows as int, action),
    {
        if !(self.shows_rows_of(nrows) && self.interactive_in_grid() && self.selection_in_grid()) {
            return false;
        }
        let rows = self.cc_rows.len();
        match action {
            UiAction::SelectionStartEditing => rows > 0,
            UiAction::CommitEditionAndMove(_) => rows > 0,
            UiAction::SelectionDuplicateValues => rows > 0,
            UiAction::Undo => self.undo_fits(nrows),
            UiAction::Redo => self.redo_fits(nrows),
            UiAction::PasteInPlace => match &self.clipboard {
                Some(clip) => clip.is_well_formed(),
                None => true,
            },
            UiAction::PasteInsert => match &self.clipboard {
                Some(clip) => clip.is_well_formed() && (rows > 0 || self.p.sort.len() > 0)
                    && clip.pastes.len() <= usize::MAX - nrows,
                None => true,
            },
            UiAction::DuplicateRow => (rows > 0 || self.p.sort.len() > 0) && rows <= usize::MAX
                - nrows,
            _ => true,
        }
    }
}

impl<R> Command<R> {
    /// Whether the command can stand in the history of a grid of `num_columns`
    /// columns.
    pub fn is_recordable(&self, num_columns: usize) -> (recordable: bool)
        ensures
            recordable == self@.recordable(num_columns),
    {
        match self {
            Command::SetVisibleColumns(columns) => columns_valid(columns, num_columns),
            Command::SetColumnSort(_) => true,
            Command::SetRowValue(_, _) => true,
            Command::SetCells { .. } => true,
            Command::InsertRows(_, _) => true,
            Command::RemoveRow(_) => true,
            _ => false,
        }
    }
}

impl<R> UiState<R> {
    /// Whether every entry of the history can stand in it.
    pub fn history_is_recordable(&self) -> (recordable: bool)
        ensures
            recordable == (forall|i: int|
                0 <= i < self@.history.len() ==> (#[trigger] self@.history[i]).recordable(
                    self@.num_columns,
                )),
    {
        let num_columns = self.p.num_columns;
        let mut i: usize = 0;
        while i < self.undo_queue.len()
            invariant
                num_columns == self@.num_columns,
                i <= self@.history.len(),
                self@.history.len() == self.undo_queue@.len(),
                forall|k: int| 0 <= k < i ==> (#[trigger] self@.history[k]).recordable(num_columns),
            decreases self@.history.len() - i,
        {
            let entry = &self.undo_queue[i];
            assert(entry@ == self@.history[i as int]);
            if !entry.apply.is_recordable(num_columns) {
                return false;
            }
            let mut k: usize = 0;
            while k < entry.restore.len()
                invariant
                    k <= entry.restore@.len(),
                    i < self@.history.len(),
                    num_columns == self@.num_columns,
                    entry@ == self@.history[i as int],
                    entry@.restore.len() == entry.restore@.len(),
                    forall|j: int|
                        0 <= j < entry.restore@.len() ==> (#[trigger] entry@.restore[j]) == entry.restore@[j]@,
                    forall|j: int| 0 <= j < k ==> (#[trigger] entry@.restore[j]).recordable(num_columns),
                decreases entry.restore@.len() - k,
            {
                if !entry.restore[k].is_recordable(num_columns) {
                    assert(!entry@.restore[k as int].recordable(num_columns));
                    assert(!self@.history[i as int].recordable(num_columns));
                    return false;
                }
                k += 1;
            }
            i += 1;
        }
        true
    }

    /// Whether the position of each displayed row is what the index of the rows
    /// says, and the index says nothing of other rows.
    pub fn rows_are_indexed(&self) -> (indexed: bool)
        ensures
            indexed == self@.rows_indexed(),
    {
        let ghost ids = Seq::new(self@.rows.len(), |i: int| self@.rows[i].0);
        let mut i: usize = 0;
        while i < self.cc_rows.len()
            invariant
                i <= self@.rows.len(),
                forall|k: int|
                    0 <= k < i ==> self@.row_id_to_vis.contains_key((#[trigger] self@.rows[k]).0)
                        && self@.row_id_to_vis[self@.rows[k].0] == k,
            decreases self@.rows.len() - i,
        {
            match self.cc_row_id_to_vis.get(&self.cc_rows[i].0) {
                Some(pos) => {
                    if *pos != i {
                        return false;
                    }
                },
                None => {
                    return false;
                },
            }
            i += 1;
        }
        let same_count = self.cc_row_id_to_vis.len() == self.cc_rows.len();
        proof {
            let index = self@.row_id_to_vis;
            assert forall|a: int, b: int| 0 <= a < ids.len() && 0 <= b < ids.len() && a != b implies ids[a]
                != ids[b] by {
                assert(index[self@.rows[a].0] == a);
                assert(index[self@.rows[b].0] == b);
            }
            ids.unique_seq_to_set();
            assert(ids.to_set().subset_of(index.dom())) by {
                assert forall|id: usize| ids.to_set().contains(id) implies index.dom().contains(id) by {
                    let k = choose|k: int| 0 <= k < ids.len() && ids[k] == id;
                    assert(self@.rows[k].0 == id);
                }
            }
            if same_count {
                vstd::set_lib::lemma_len_subset(ids.to_set(), index.dom());
                vstd::set_lib::lemma_subset_equality(ids.to_set(), index.dom());
                assert forall|id: usize| #[trigger] index.contains_key(id) implies index[id]
                    < self@.rows.len() && self@.rows[index[id] as int].0 == id by {
                    assert(ids.to_set().contains(id));
                    let k = choose|k: int| 0 <= k < ids.len() && ids[k] == id;
                    assert(self@.rows[k].0 == id);
                }
            } else if self@.rows_indexed() {
                assert forall|id: usize| index.dom().contains(id) implies ids.to_set().contains(id) by {
                    assert(index.contains_key(id));
                    assert(ids[index[id] as int] == id);
                }
                assert(ids.to_set() =~= index.dom());
            }
        }
        same_count
    }

    /// Whether the state is well formed: what every function of the grid keeps, and
    /// most ask for.
    pub fn is_well_formed(&self) -> (wf: bool)
        ensures
            wf == self@.wf(),
    {
        columns_valid(&self.p.vis_cols, self.p.num_columns) && self.undo_cursor <= self.undo_queue.len()
            && self.history_is_recordable() && self.rows_are_indexed() && self.has_room_for(
            self.cc_rows.len(),
        )
    }
}

impl<R> crate::state::Clipboard<R> {
    /// Whether every cell takes its value from a row that the slab holds, and the
    /// cells stand row after row.
    pub fn is_well_formed(&self) -> (wf: bool)
        ensures
            wf == self@.wf(),
    {
        let mut i: usize = 0;
        while i < self.pastes.len()
            invariant
                i <= self@.pastes.len(),
                forall|k: int| 0 <= k < i ==> (#[trigger] self@.pastes[k]).2.0 < self@.slab.len(),
                forall|a: int, b: int| 0 <= a < b < i ==> self@.pastes[a].0.0 <= self@.pastes[b].0.0,
            decreases self@.pastes.len() - i,
        {
            if self.pastes[i].2.0 >= self.slab.len() {
                return false;
            }
            if i > 0 && self.pastes[i - 1].0.0 > self.pastes[i].0.0 {
                return false;
            }
            proof {
                assert forall|a: int, b: int| 0 <= a < b < i + 1 implies self@.pastes[a].0.0
                    <= self@.pastes[b].0.0 by {
                    if b == i && a < i - 1 {
                        assert(self@.pastes[a].0.0 <= self@.pastes[i - 1].0.0);
                    }
                }
            }
            i += 1;
        }
        true
    }
}

} // verus!
