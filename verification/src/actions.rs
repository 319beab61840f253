//! Turning what the user asks for into commands.

use vstd::prelude::*;
use crate::cache::{clamped_cell, lemma_cell_in_grid};
use crate::command::{CellWrite, Command, CommandModel};
use crate::history::models;
use crate::index::{
    lemma_linear_monotonic,
    lemma_linear_row_col,
    lemma_row_col_linear,
    linear,
    ColumnIdx,
    RowIdx,
    RowSlabIndex,
    VisColumnPos,
    VisLinearIdx,
    VisRowOffset,
    VisRowPos,
    VisSelection,
};
use crate::selection::{covered, lists_cells, lists_selected_rows, moved, row_covered};
use crate::clipboard::{dumped, pastes_sorted};
use crate::engine::copies;
use crate::grouping::{are_runs, chunk_by, joined, lemma_joined_prefix, lemma_run_boundaries};
use crate::history::{fit_in_turn, row_count_after};
use std::collections::HashMap;
use crate::engine::strictly_ascending;
use crate::grouping::{lemma_sorted_distinct, sorted};
use crate::state::{rects_within, Clipboard, ClipboardModel, PasteCell};
use crate::state::{lemma_grid_fits, lemma_in_grid_fits, CursorModel, CursorState, UiModel, UiState};
use crate::table::{DataTable, TableModel};
use crate::viewer::{CellWriteContext, EmptyRowCreateContext, MoveDirection, RowViewer, UiAction};

verus! {

broadcast use vstd::std_specs::hash::group_hash_axioms;

/// The cell in the same column as `cell`, a page up or down, or in the first or the
/// last row.
pub open spec fn navigated(cell: VisLinearIdx, action: UiAction, ncol: usize, nrows: int, page: int) -> VisLinearIdx {
    let row = cell.row(ncol);
    let last = vstd::math::max(nrows - 1, 0);
    let to = match action {
        UiAction::NavPageDown => vstd::math::min(row + page, last),
        UiAction::NavPageUp => vstd::math::max(row - page, 0),
        UiAction::NavTop => 0,
        _ => last,
    };
    VisLinearIdx(linear(ncol as int, to, cell.col(ncol)) as usize)
}

/// The cells of the row store that the displayed cells are, each to be written from
/// the first row of a slab.
pub open spec fn cell_writes(
    cells: Seq<(VisRowPos, VisColumnPos)>,
    rows: Seq<RowIdx>,
    vis_cols: Seq<ColumnIdx>,
) -> Seq<CellWrite> {
    Seq::new(
        cells.len(),
        |i: int| (rows[cells[i].0.0 as int], vis_cols[cells[i].1.0 as int], RowSlabIndex(0)),
    )
}

/// Whether `row` is displayed at one of the first `upto` positions of `selected`, and
/// at one that `confirmed` marks.
pub open spec fn confirmed_row(
    selected: Seq<VisRowPos>,
    confirmed: Seq<bool>,
    upto: int,
    rows: Seq<RowIdx>,
    row: RowIdx,
) -> bool {
    exists|a: int|
        0 <= a < upto && a < selected.len() && #[trigger] confirmed[a] && selected[a].0 < rows.len()
            && rows[selected[a].0 as int] == row
}

/// Whether `removed` names, in the order of the row store and each once, the rows
/// that are displayed at the positions of `selected` that `confirmed` marks.
pub open spec fn removes_confirmed(
    selected: Seq<VisRowPos>,
    confirmed: Seq<bool>,
    rows: Seq<RowIdx>,
    removed: Seq<RowIdx>,
) -> bool {
    &&& strictly_ascending(removed)
    &&& forall|row: RowIdx|
        #[trigger] removed.contains(row) <==> confirmed_row(
            selected,
            confirmed,
            selected.len() as int,
            rows,
            row,
        )
}

/// The command that writes `values`, each from the one row `source`.
pub open spec fn writes_from<R>(source: R, values: Seq<CellWrite>, context: CellWriteContext) -> CommandModel<
    R,
> {
    CommandModel::CcSetCells { slab: seq![source], values, context }
}

/// What the text holds, if there is text.
pub open spec fn text_of(text: Option<String>) -> Option<Seq<char>> {
    match text {
        Some(t) => Some(t@),
        None => None,
    }
}

/// The commands that copying or cutting hands back: `head`, and after it the command
/// that shares `text`, if there is text to share.
pub open spec fn transfer_commands<R>(head: Seq<CommandModel<R>>, text: Option<Seq<char>>) -> Seq<
    CommandModel<R>,
> {
    match text {
        Some(text) => head.push(CommandModel::CcUpdateSystemClipboard(text)),
        None => head,
    }
}

/// The cells of the row store that the cells of a clipboard fall on when the row of
/// its first cell falls on the displayed row `row`. A cell that falls below the last
/// displayed row is left out.
pub open spec fn paste_targets(pastes: Seq<PasteCell>, row: int, rows: Seq<RowIdx>) -> Seq<CellWrite>
    decreases pastes.len(),
{
    if pastes.len() == 0 {
        Seq::empty()
    } else {
        let rest = paste_targets(pastes.drop_last(), row, rows);
        let (offset, column, source) = pastes.last();
        if row + offset.0 < rows.len() {
            rest.push((rows[row + offset.0], column, source))
        } else {
            rest
        }
    }
}

/// The rows that `values` writes to, each with the columns that are written in it;
/// writes that follow each other in one row make one entry.
pub open spec fn grouped_by_row(values: Seq<CellWrite>) -> Seq<(RowIdx, Seq<ColumnIdx>)>
    decreases values.len(),
{
    if values.len() == 0 {
        Seq::empty()
    } else {
        let rest = grouped_by_row(values.drop_last());
        let (row, column, _) = values.last();
        if values.len() >= 2 && values[values.len() - 2].0 == row {
            rest.update(rest.len() - 1, (row, rest.last().1.push(column)))
        } else {
            rest.push((row, seq![column]))
        }
    }
}

/// The rows that the cells of a clipboard make up when they are put in as new rows:
/// one row for each run of cells of one row, each made from the empty row that
/// `empties` holds for it by writing the cells of the run.
pub open spec fn filled_rows<R, V: RowViewer<R>>(empties: Seq<R>, slab: Seq<R>, pastes: Seq<PasteCell>) -> Seq<R>
    decreases pastes.len(),
{
    if pastes.len() == 0 {
        Seq::empty()
    } else {
        let rest = filled_rows::<R, V>(empties, slab, pastes.drop_last());
        let (offset, column, source) = pastes.last();
        if pastes.len() >= 2 && pastes[pastes.len() - 2].0 == offset {
            rest.update(
                rest.len() - 1,
                V::cell_written(slab[source.0 as int], rest.last(), column.0),
            )
        } else {
            rest.push(V::cell_written(slab[source.0 as int], empties[rest.len() as int], column.0))
        }
    }
}

/// Number of runs of cells of one row.
pub open spec fn run_count(pastes: Seq<PasteCell>) -> nat
    decreases pastes.len(),
{
    if pastes.len() == 0 {
        0
    } else if pastes.len() >= 2 && pastes[pastes.len() - 2].0 == pastes.last().0 {
        run_count(pastes.drop_last())
    } else {
        run_count(pastes.drop_last()) + 1
    }
}

/// The cells as they are copied: each with its distance from the row of the first
/// cell, its column, and the place of its row among the selected rows.
pub open spec fn copy_plan(
    cells: Seq<(VisRowPos, VisColumnPos)>,
    rows: Seq<VisRowPos>,
    vis_cols: Seq<ColumnIdx>,
) -> Seq<PasteCell> {
    Seq::new(
        cells.len(),
        |i: int|
            (
                VisRowOffset((cells[i].0.0 - cells[0].0.0) as usize),
                vis_cols[cells[i].1.0 as int],
                RowSlabIndex(rows.index_of(cells[i].0) as usize),
            ),
    )
}

impl<R> UiModel<R> {
    /// The commands that begin the edit of the interactive cell: one command, which
    /// begins the edit on a copy of the cell's row, if the cell may be edited; none if
    /// it may not.
    pub open spec fn start_editing_commands<V: RowViewer<R>>(self, rows: Seq<R>, editable: bool) -> Seq<
        CommandModel<R>,
    > {
        if editable {
            seq![
                CommandModel::CcEditStart(
                    self.interactive_row(),
                    VisColumnPos(self.interactive_cell.col(self.ncol()) as usize),
                    V::row_copy(rows[self.interactive_row().0 as int]),
                ),
            ]
        } else {
            Seq::empty()
        }
    }

    /// What asking to edit the interactive cell comes to: the command that begins the
    /// edit on a copy of the cell's row, or nothing if the viewer does not let the
    /// cell be edited.
    pub open spec fn start_editing_outcome<V: RowViewer<R>>(
        self,
        rows: Seq<R>,
        after: UiModel<R>,
        commands: Seq<CommandModel<R>>,
    ) -> bool {
        &&& after == self
        &&& commands.len() == 0 || commands == seq![
            CommandModel::CcEditStart(
                self.interactive_row(),
                VisColumnPos(self.interactive_cell.col(self.ncol()) as usize),
                V::row_copy(rows[self.interactive_row().0 as int]),
            ),
        ]
    }

    /// What committing the edit and moving on comes to: the command that commits, and
    /// the command that begins the edit of the cell one step on if the viewer lets
    /// that cell be edited. A cell of the row that is edited is edited on a copy of
    /// the working copy.
    pub open spec fn commit_and_move_outcome<V: RowViewer<R>>(
        self,
        rows: Seq<R>,
        dir: MoveDirection,
        after: UiModel<R>,
        commands: Seq<CommandModel<R>>,
    ) -> bool {
        let pos = moved(self.interactive_cell, dir, self.ncol(), self.rows.len() as int);
        let row_id = self.rows[pos.row(self.ncol())];
        let src = if self.cursor is Edit && self.interactive_cell.row(self.ncol()) == pos.row(
            self.ncol(),
        ) {
            self.cursor->Edit_edition
        } else {
            rows[row_id.0 as int]
        };
        &&& after == self
        &&& commands == seq![CommandModel::<R>::CcCommitEdit] || commands == seq![
            CommandModel::CcCommitEdit,
            CommandModel::CcEditStart(
                row_id,
                VisColumnPos(pos.col(self.ncol()) as usize),
                V::row_copy(src),
            ),
        ]
    }

    /// What moving the selection comes to: the command that selects the cell one step
    /// on from the interactive cell.
    pub open spec fn move_selection_outcome(
        self,
        dir: MoveDirection,
        after: UiModel<R>,
        commands: Seq<CommandModel<R>>,
    ) -> bool {
        let pos = moved(self.interactive_cell, dir, self.ncol(), self.rows.len() as int);
        &&& after == self
        &&& commands == seq![CommandModel::<R>::CcSetSelection(seq![VisSelection(pos, pos)])]
    }

    /// What selecting all comes to: the command that selects the whole grid, or
    /// nothing if no row is displayed.
    pub open spec fn select_all_outcome(self, after: UiModel<R>, commands: Seq<CommandModel<R>>) -> bool {
        &&& after == self
        &&& self.rows.len() == 0 ==> commands.len() == 0
        &&& self.rows.len() > 0 ==> commands == seq![
            CommandModel::<R>::CcSetSelection(
                seq![VisSelection(VisLinearIdx(0), VisLinearIdx((self.cells() - 1) as usize))],
            ),
        ]
    }

    /// What paging and jumping to an end comes to: the interactive cell moves, and the
    /// command selects it.
    pub open spec fn navigate_outcome(
        self,
        action: UiAction,
        after: UiModel<R>,
        commands: Seq<CommandModel<R>>,
    ) -> bool {
        let cell = navigated(
            self.interactive_cell,
            action,
            self.ncol(),
            self.rows.len() as int,
            self.page_row_count as int,
        );
        &&& after == (UiModel { interactive_cell: cell, ..self })
        &&& after.interactive_in_grid()
        &&& commands == seq![CommandModel::<R>::CcSetSelection(seq![VisSelection(cell, cell)])]
    }

    /// What writing one row to all selected cells comes to: the command that writes
    /// every selected cell from that row. Which row it is, is for the caller to say.
    pub open spec fn set_cells_outcome(
        self,
        nrows: int,
        context: CellWriteContext,
        after: UiModel<R>,
        commands: Seq<CommandModel<R>>,
    ) -> bool {
        &&& after == self
        &&& exists|cells: Seq<(VisRowPos, VisColumnPos)>, source: R|
            {
                &&& #[trigger] lists_cells(cells, self.cursor.selections(), self.ncol())
                &&& commands == seq![
                    #[trigger] writes_from(
                        source,
                        cell_writes(cells, self.rows, self.vis_cols),
                        context,
                    ),
                ]
            }
        &&& forall|i: int| 0 <= i < commands.len() ==> (#[trigger] commands[i]).fits(nrows)
    }

    /// What removing the selected rows comes to: nothing if the viewer lets no row be
    /// removed; else the command that removes, in the order of the row store, those of
    /// the rows that the selection reaches over whose removal the viewer confirms.
    pub open spec fn delete_row_outcome(
        self,
        nrows: int,
        after: UiModel<R>,
        commands: Seq<CommandModel<R>>,
    ) -> bool {
        &&& after == self
        &&& commands.len() <= 1
        &&& commands.len() == 1 ==> {
            &&& commands[0] is RemoveRow
            &&& commands[0].fits(nrows)
            &&& exists|selected: Seq<VisRowPos>, confirmed: Seq<bool>|
                {
                    &&& lists_selected_rows(selected, self.cursor.selections(), self.ncol())
                    &&& confirmed.len() == selected.len()
                    &&& #[trigger] removes_confirmed(
                        selected,
                        confirmed,
                        self.rows,
                        commands[0]->RemoveRow_0,
                    )
                }
        }
    }

    /// What duplicating the selected rows comes to: nothing if the viewer lets no row
    /// be put in; else the command that puts in one row for each row that the
    /// selection reaches over. What the new rows hold is for the viewer to say.
    pub open spec fn duplicate_row_outcome(
        self,
        nrows: int,
        after: UiModel<R>,
        commands: Seq<CommandModel<R>>,
    ) -> bool {
        &&& after == self
        &&& commands.len() <= 1
        &&& commands.len() == 1 ==> {
            &&& commands[0] is InsertRows
            &&& commands[0].fits(nrows)
            &&& commands[0]->InsertRows_0 == self.insert_position(nrows)
            &&& exists|rows: Seq<VisRowPos>|
                #[trigger] lists_selected_rows(rows, self.cursor.selections(), self.ncol())
                    && commands[0]->InsertRows_1.len() == rows.len()
        }
    }

    /// What copying the selection comes to. If no cell is selected, the clipboard is
    /// emptied. Else it holds one row for each row that the selection reaches over,
    /// and the selected cells, in order; `text` is what they are shared as, if the
    /// viewer has a codec.
    pub open spec fn copy_outcome(self, after: UiModel<R>, text: Option<Seq<char>>) -> bool {
        exists|cells: Seq<(VisRowPos, VisColumnPos)>, rows: Seq<VisRowPos>|
            {
                &&& #[trigger] lists_cells(cells, self.cursor.selections(), self.ncol())
                &&& #[trigger] lists_selected_rows(rows, self.cursor.selections(), self.ncol())
                &&& after == (UiModel { clipboard: after.clipboard, ..self })
                &&& cells.len() == 0 ==> after.clipboard is None && text is None
                &&& cells.len() > 0 ==> {
                    &&& after.clipboard is Some
                    &&& after.clipboard->0.wf()
                    &&& pastes_sorted(after.clipboard->0.pastes)
                    &&& after.clipboard->0.pastes.to_multiset() == copy_plan(
                        cells,
                        rows,
                        self.vis_cols,
                    ).to_multiset()
                    &&& after.clipboard->0.slab.len() == rows.len()
                    &&& text is Some ==> exists|contents: Seq<Seq<char>>|
                        contents.len() == after.clipboard->0.pastes.len() && text->0
                            == #[trigger] dumped(after.clipboard->0.pastes, contents)
                }
            }
    }

    /// What copying or cutting comes to: the selection is copied; cutting also clears
    /// the selected cells, if there are any; and the text to share is handed back last.
    pub open spec fn transfer_outcome(
        self,
        nrows: int,
        cut: bool,
        after: UiModel<R>,
        commands: Seq<CommandModel<R>>,
    ) -> bool {
        exists|head: Seq<CommandModel<R>>, text: Option<Seq<char>>|
            {
                &&& commands == #[trigger] transfer_commands(head, text)
                &&& self.copy_outcome(after, text)
                &&& if cut && after.clipboard is Some {
                    after.set_cells_outcome(nrows, CellWriteContext::Clear, after, head)
                } else {
                    head.len() == 0
                }
            }
    }

    /// What pasting in place comes to: nothing if nothing was copied; else the command
    /// that writes the copied cells, the row of the first falling on the row of the
    /// interactive cell, from copies of the copied rows. The rows that are written to
    /// are to be selected, each with the columns that are written.
    pub open spec fn paste_in_place_outcome<V: RowViewer<R>>(
        self,
        after: UiModel<R>,
        commands: Seq<CommandModel<R>>,
    ) -> bool {
        match self.clipboard {
            None => after == self && commands.len() == 0,
            Some(clip) => {
                let values = paste_targets(
                    clip.pastes,
                    self.interactive_cell.row(self.ncol()),
                    self.rows,
                );
                &&& after == (UiModel { desired_selection: Some(grouped_by_row(values)), ..self })
                &&& commands == seq![
                    CommandModel::CcSetCells {
                        slab: copies::<R, V>(clip.slab),
                        values,
                        context: CellWriteContext::Paste,
                    },
                ]
            },
        }
    }

    /// What pasting as new rows comes to: nothing if nothing was copied; else the
    /// command that puts in one row for each row of copied cells. Each new row is
    /// made by writing its cells to an empty row, which is for the viewer to make.
    pub open spec fn paste_insert_outcome<V: RowViewer<R>>(
        self,
        nrows: int,
        after: UiModel<R>,
        commands: Seq<CommandModel<R>>,
    ) -> bool {
        &&& after == self
        &&& match self.clipboard {
            None => commands.len() == 0,
            Some(clip) => exists|empties: Seq<R>|
                empties.len() == run_count(clip.pastes) && commands == seq![
                    CommandModel::InsertRows(
                        self.insert_position(nrows),
                        #[trigger] filled_rows::<R, V>(empties, clip.slab, clip.pastes),
                    ),
                ],
        }
    }

    /// Whether the state and the table, which holds `nrows` rows, are fit for the
    /// action: the state is well formed and in step with the rows, and where the
    /// action works on the row of the interactive cell, a row is displayed.
    pub open spec fn ready_for(self, nrows: int, action: UiAction) -> bool {
        &&& self.wf()
        &&& self.shows_rows_of(nrows)
        &&& self.interactive_in_grid()
        &&& self.selection_in_grid()
        &&& match action {
            UiAction::SelectionStartEditing => self.rows.len() > 0,
            UiAction::CommitEditionAndMove(_) => self.rows.len() > 0,
            UiAction::SelectionDuplicateValues => self.rows.len() > 0,
            UiAction::Undo => self.undo_fits(nrows),
            UiAction::Redo => self.redo_fits(nrows),
            UiAction::PasteInPlace => self.clipboard is Some ==> self.clipboard->0.wf(),
            UiAction::PasteInsert => self.clipboard is Some ==> {
                &&& self.clipboard->0.wf()
                &&& self.rows.len() > 0 || self.sort.len() > 0
                &&& nrows + self.clipboard->0.pastes.len() <= usize::MAX
            },
            UiAction::DuplicateRow => (self.rows.len() > 0 || self.sort.len() > 0) && nrows
                + self.rows.len() <= usize::MAX,
            _ => true,
        }
    }

    /// What an action comes to: the state and the table after it, and the commands
    /// that it hands back to be pushed.
    pub open spec fn acted<V: RowViewer<R>>(
        self,
        table: TableModel<R>,
        action: UiAction,
        after: UiModel<R>,
        table_after: TableModel<R>,
        commands: Seq<CommandModel<R>>,
    ) -> bool {
        let nrows = table.rows.len() as int;
        match action {
            UiAction::Undo => {
                &&& commands.len() == 0
                &&& after == self.undone()
                &&& table_after == self.table_undone::<V>(table)
            },
            UiAction::Redo => {
                &&& commands.len() == 0
                &&& after == self.redone()
                &&& table_after == self.table_redone::<V>(table)
            },
            _ => {
                &&& table_after == table
                &&& match action {
                    UiAction::SelectionStartEditing => self.start_editing_outcome::<V>(
                        table.rows,
                        after,
                        commands,
                    ),
                    UiAction::CancelEdition => after == self && commands == seq![
                        CommandModel::<R>::CcCancelEdit,
                    ],
                    UiAction::CommitEdition => after == self && commands == seq![
                        CommandModel::<R>::CcCommitEdit,
                    ],
                    UiAction::CommitEditionAndMove(dir) => self.commit_and_move_outcome::<V>(
                        table.rows,
                        dir,
                        after,
                        commands,
                    ),
                    UiAction::MoveSelection(dir) => self.move_selection_outcome(dir, after, commands),
                    UiAction::CopySelection => self.transfer_outcome(nrows, false, after, commands),
                    UiAction::CutSelection => self.transfer_outcome(nrows, true, after, commands),
                    UiAction::PasteInPlace => self.paste_in_place_outcome::<V>(after, commands),
                    UiAction::PasteInsert => self.paste_insert_outcome::<V>(nrows, after, commands),
                    UiAction::DuplicateRow => self.duplicate_row_outcome(nrows, after, commands),
                    UiAction::DeleteSelection => self.set_cells_outcome(
                        nrows,
                        CellWriteContext::Clear,
                        after,
                        commands,
                    ),
                    UiAction::DeleteRow => self.delete_row_outcome(nrows, after, commands),
                    UiAction::SelectionDuplicateValues => self.set_cells_outcome(
                        nrows,
                        CellWriteContext::Paste,
                        after,
                        commands,
                    ),
                    UiAction::SelectAll => self.select_all_outcome(after, commands),
                    _ => self.navigate_outcome(action, after, commands),
                }
            },
        }
    }

    /// Whether the interactive cell lies in the grid, or in its first row if no row
    /// is displayed.
    pub open spec fn interactive_in_grid(self) -> bool {
        self.interactive_cell.row(self.ncol()) <= vstd::math::max(self.rows.len() - 1, 0)
    }

    /// The row of the row store that the interactive cell lies in.
    pub open spec fn interactive_row(self) -> RowIdx {
        self.rows[self.interactive_cell.row(self.ncol())]
    }

    /// Where rows are put in: before the row of the interactive cell, or at the end
    /// if the rows are sorted, since a place among sorted rows means nothing.
    pub open spec fn insert_position(self, nrows: int) -> RowIdx {
        if self.sort.len() == 0 {
            self.interactive_row()
        } else {
            RowIdx(nrows as usize)
        }
    }
}

impl<R> UiState<R> {
    /// The row of the store that is displayed at `pos`: the row that a viewer is
    /// handed when it is asked about a displayed row.
    pub fn shown_row<'a>(&self, table: &'a DataTable<R>, pos: VisRowPos) -> (row: &'a R)
        requires
            pos.0 < self@.rows.len(),
            self@.shows_rows_of(table@.rows.len() as int),
        ensures
            *row == table@.rows[self@.rows[pos.0 as int].0 as int],
    {
        &table.rows[self.cc_rows[pos.0].0]
    }

    /// What a viewer is asked whether the cell at `pos` may be edited: the position
    /// of the cell's column among the visible ones, the position of its row among
    /// the displayed ones, and the row of the store that is displayed there.
    pub fn edit_request<'a>(&self, table: &'a DataTable<R>, pos: VisLinearIdx) -> (request: (usize, usize, &'a R))
        requires
            self@.vis_cols.len() > 0,
            pos.row(self@.ncol()) < self@.rows.len(),
            self@.shows_rows_of(table@.rows.len() as int),
        ensures
            request.0 == pos.col(self@.ncol()),
            request.1 == pos.row(self@.ncol()),
            *request.2 == table@.rows[self@.rows[pos.row(self@.ncol())].0 as int],
    {
        let (row, column) = pos.row_col(self.p.vis_cols.len());
        (column.0, row.0, self.shown_row(table, row))
    }
}

impl<R> UiState<R> {
    /// The command that begins the edit of the interactive cell, if the viewer lets
    /// the cell be edited. Whether it does is for the viewer to say;
    /// `start_editing_if` says what each answer leads to.
    pub fn action_start_editing<V: RowViewer<R>>(&mut self, table: &DataTable<R>, vwr: &mut V) -> (commands: Vec<
        Command<R>,
    >)
        requires
            old(self)@.wf(),
            old(self)@.shows_rows_of(table@.rows.len() as int),
            old(self)@.interactive_in_grid(),
            old(self)@.rows.len() > 0,
        ensures
            old(self)@.start_editing_outcome::<V>(table@.rows, final(self)@, models(commands@)),
    {
        let (column, row, row_value) = self.edit_request(table, self.cc_interactive_cell);
        let editable = vwr.is_editable_cell(column, row, row_value);
        self.start_editing_if(table, vwr, editable)
    }

    /// The command that begins the edit of the interactive cell on a copy of its
    /// row, if the cell may be edited; no command if it may not.
    pub fn start_editing_if<V: RowViewer<R>>(
        &mut self,
        table: &DataTable<R>,
        vwr: &mut V,
        editable: bool,
    ) -> (commands: Vec<Command<R>>)
        requires
            old(self)@.wf(),
            old(self)@.shows_rows_of(table@.rows.len() as int),
            old(self)@.interactive_in_grid(),
            old(self)@.rows.len() > 0,
        ensures
            final(self)@ == old(self)@,
            models(commands@) == old(self)@.start_editing_commands::<V>(table@.rows, editable),
    {
        let (ic_r, ic_c) = self.cc_interactive_cell.row_col(self.p.vis_cols.len());
        let row_id = self.cc_rows[ic_r.0];
        let src_row = &table.rows[row_id.0];
        let mut commands: Vec<Command<R>> = Vec::new();
        if editable {
            let row = vwr.clone_row(src_row);
            commands.push(Command::CcEditStart(row_id, ic_c, Box::new(row)));
        }
        assert(models(commands@) =~= old(self)@.start_editing_commands::<V>(table@.rows, editable));
        commands
    }

    /// The commands that commit the edit and begin the edit of the cell one step on,
    /// if the viewer lets that cell be edited. A cell of the row that is edited is
    /// edited on the working copy.
    pub fn action_commit_and_move<V: RowViewer<R>>(
        &mut self,
        table: &DataTable<R>,
        vwr: &mut V,
        dir: MoveDirection,
    ) -> (commands: Vec<Command<R>>)
        requires
            old(self)@.wf(),
            old(self)@.shows_rows_of(table@.rows.len() as int),
            old(self)@.interactive_in_grid(),
            old(self)@.rows.len() > 0,
        ensures
            old(self)@.commit_and_move_outcome::<V>(table@.rows, dir, final(self)@, models(commands@)),
    {
        let ncol = self.p.vis_cols.len();
        let (ic_r, _) = self.cc_interactive_cell.row_col(ncol);
        let pos = self.moved_position(self.cc_interactive_cell, dir);
        let (r, c) = pos.row_col(ncol);

        let mut commands: Vec<Command<R>> = Vec::new();
        commands.push(Command::CcCommitEdit);
        assert(models(commands@) =~= seq![CommandModel::<R>::CcCommitEdit]);

        let row_id = self.cc_rows[r.0];
        let (column, row, row_value) = self.edit_request(table, pos);
        if vwr.is_editable_cell(column, row, row_value) {
            let row_value = if self.is_editing() && ic_r == r {
                vwr.clone_row(self.unwrap_editing_row_data())
            } else {
                vwr.clone_row(&table.rows[row_id.0])
            };
            commands.push(Command::CcEditStart(row_id, c, Box::new(row_value)));
            proof {
                let m = old(self)@;
                let src = if m.cursor is Edit && m.interactive_cell.row(m.ncol()) == pos.row(m.ncol()) {
                    m.cursor->Edit_edition
                } else {
                    table@.rows[row_id.0 as int]
                };
                assert(models(commands@) =~= seq![
                    CommandModel::CcCommitEdit,
                    CommandModel::CcEditStart(
                        row_id,
                        VisColumnPos(pos.col(m.ncol()) as usize),
                        V::row_copy(src),
                    ),
                ]);
            }
        }
        commands
    }

    /// The command that selects the cell one step on from the interactive cell.
    pub fn action_move_selection(&mut self, dir: MoveDirection) -> (commands: Vec<Command<R>>)
        requires
            old(self)@.wf(),
            old(self)@.interactive_in_grid(),
        ensures
            old(self)@.move_selection_outcome(dir, final(self)@, models(commands@)),
    {
        let pos = self.moved_position(self.cc_interactive_cell, dir);
        let mut sel: Vec<VisSelection> = Vec::new();
        sel.push(VisSelection(pos, pos));
        assert(sel@ =~= seq![VisSelection(pos, pos)]);
        let mut commands: Vec<Command<R>> = Vec::new();
        commands.push(Command::CcSetSelection(sel));
        assert(models(commands@) =~= seq![
            CommandModel::<R>::CcSetSelection(seq![VisSelection(pos, pos)]),
        ]);
        commands
    }

    /// The command that selects every cell; none if no row is displayed.
    pub fn action_select_all(&mut self) -> (commands: Vec<Command<R>>)
        requires
            old(self)@.wf(),
        ensures
            old(self)@.select_all_outcome(final(self)@, models(commands@)),
    {
        let mut commands: Vec<Command<R>> = Vec::new();
        if self.cc_rows.len() == 0 {
            return commands;
        }
        let ncol = self.p.vis_cols.len();
        proof {
            lemma_grid_fits(self@);
            lemma_cell_in_grid(
                self@.rows.len() as int,
                ncol,
                self@.num_columns,
                self@.rows.len() - 1,
                ncol - 1,
            );
            assert(linear(ncol as int, self@.rows.len() - 1, ncol - 1) == self@.rows.len() * ncol - 1) by (nonlinear_arith);
        }
        let last = VisRowPos(self.cc_rows.len() - 1).linear_index(ncol, VisColumnPos(ncol - 1));
        let mut sel: Vec<VisSelection> = Vec::new();
        sel.push(VisSelection(VisLinearIdx(0), last));
        assert(sel@ =~= seq![VisSelection(VisLinearIdx(0), last)]);
        commands.push(Command::CcSetSelection(sel));
        assert(models(commands@) =~= seq![
            CommandModel::<R>::CcSetSelection(seq![VisSelection(VisLinearIdx(0), last)]),
        ]);
        commands
    }

    /// Moves the interactive cell a page up or down, or to the first or the last row,
    /// and returns the command that selects it.
    pub fn action_navigate(&mut self, action: UiAction) -> (commands: Vec<Command<R>>)
        requires
            old(self)@.wf(),
            old(self)@.interactive_in_grid(),
            action == UiAction::NavPageDown || action == UiAction::NavPageUp || action
                == UiAction::NavTop || action == UiAction::NavBottom,
        ensures
            old(self)@.navigate_outcome(action, final(self)@, models(commands@)),
    {
        let ncol = self.p.vis_cols.len();
        let (ic_r, ic_c) = self.cc_interactive_cell.row_col(ncol);
        let last = if self.cc_rows.len() == 0 {
            0
        } else {
            self.cc_rows.len() - 1
        };
        let new_ic_r = match action {
            UiAction::NavPageDown => if self.cci_page_row_count <= last - ic_r.0 {
                ic_r.0 + self.cci_page_row_count
            } else {
                last
            },
            UiAction::NavPageUp => if self.cci_page_row_count <= ic_r.0 {
                ic_r.0 - self.cci_page_row_count
            } else {
                0
            },
            UiAction::NavTop => 0,
            _ => last,
        };
        proof {
            lemma_grid_fits(self@);
            if self@.rows.len() > 0 {
                lemma_cell_in_grid(
                    self@.rows.len() as int,
                    ncol,
                    self@.num_columns,
                    new_ic_r as int,
                    ic_c.0 as int,
                );
            } else {
                assert(0 * ncol == 0) by (nonlinear_arith);
            }
            lemma_linear_monotonic(ncol as int, 0, 0, new_ic_r as int, 0);
            lemma_linear_row_col(ncol as int, new_ic_r as int, ic_c.0 as int);
        }
        self.cc_interactive_cell = VisLinearIdx(new_ic_r * ncol + ic_c.0);
        let cell = self.cc_interactive_cell;
        let mut sel: Vec<VisSelection> = Vec::new();
        sel.push(VisSelection(cell, cell));
        assert(sel@ =~= seq![VisSelection(cell, cell)]);
        let mut commands: Vec<Command<R>> = Vec::new();
        commands.push(Command::CcSetSelection(sel));
        assert(models(commands@) =~= seq![
            CommandModel::<R>::CcSetSelection(seq![VisSelection(cell, cell)]),
        ]);
        commands
    }
}

/// A selected cell lies in a displayed row and in a visible column.
pub proof fn lemma_selected_in_grid<R>(m: UiModel<R>, row: int, col: int)
    requires
        m.wf(),
        m.selection_in_grid(),
        covered(m.cursor.selections(), m.ncol(), row, col) || row_covered(
            m.cursor.selections(),
            m.ncol(),
            row,
        ),
    ensures
        row < m.rows.len(),
{
    lemma_grid_fits(m);
    let sels = m.cursor.selections();
    if covered(sels, m.ncol(), row, col) {
        let w = choose|w: int| 0 <= w < sels.len() && (#[trigger] sels[w]).covers(m.ncol(), row, col);
        lemma_in_grid_fits(sels[w].1, m.rows.len() as int, m.ncol());
    } else {
        let w = choose|w: int|
            0 <= w < sels.len() && (#[trigger] sels[w]).top(m.ncol()) <= row <= sels[w].bottom(m.ncol());
        lemma_in_grid_fits(sels[w].1, m.rows.len() as int, m.ncol());
    }
}

impl<R> UiState<R> {
    /// The cells of the row store that are selected, each to be written from the
    /// first row of a slab.
    pub fn selected_cell_writes(&self) -> (values: Vec<CellWrite>)
        requires
            self@.wf(),
            self@.selection_in_grid(),
        ensures
            exists|cells: Seq<(VisRowPos, VisColumnPos)>|
                #[trigger] lists_cells(cells, self@.cursor.selections(), self@.ncol()) && values@
                    == cell_writes(cells, self@.rows, self@.vis_cols),
            forall|i: int|
                0 <= i < values@.len() ==> self@.rows.contains((#[trigger] values@[i]).0)
                    && values@[i].2.0 == 0,
    {
        let sels = self.collect_selection();
        let mut values: Vec<CellWrite> = Vec::new();
        let mut i: usize = 0;
        while i < sels.len()
            invariant
                self@.wf(),
                self@.selection_in_grid(),
                lists_cells(sels@, self@.cursor.selections(), self@.ncol()),
                i <= sels@.len(),
                values@.len() == i,
                forall|k: int|
                    0 <= k < i ==> (#[trigger] values@[k]) == cell_writes(
                        sels@,
                        self@.rows,
                        self@.vis_cols,
                    )[k] && self@.rows.contains(values@[k].0),
            decreases sels@.len() - i,
        {
            let (r, c) = sels[i];
            proof {
                assert(sels@.contains(sels@[i as int]));
                assert(covered(self@.cursor.selections(), self@.ncol(), r.0 as int, c.0 as int));
                lemma_selected_in_grid(self@, r.0 as int, c.0 as int);
            }
            values.push((self.cc_rows[r.0], self.p.vis_cols[c.0], RowSlabIndex(0)));
            assert(self@.rows[r.0 as int] == values@[i as int].0);
            i += 1;
        }
        proof {
            assert(values@ =~= cell_writes(sels@, self@.rows, self@.vis_cols));
        }
        values
    }

    /// The command that writes the row of the interactive cell to every selected
    /// cell.
    pub fn action_duplicate_values<V: RowViewer<R>>(&mut self, table: &DataTable<R>, vwr: &mut V) -> (commands: Vec<
        Command<R>,
    >)
        requires
            old(self)@.wf(),
            old(self)@.shows_rows_of(table@.rows.len() as int),
            old(self)@.interactive_in_grid(),
            old(self)@.selection_in_grid(),
            old(self)@.rows.len() > 0,
        ensures
            old(self)@.set_cells_outcome(
                table@.rows.len() as int,
                CellWriteContext::Paste,
                final(self)@,
                models(commands@),
            ),
    {
        let (ic_r, _) = self.cc_interactive_cell.row_col(self.p.vis_cols.len());
        let pivot_row = vwr.clone_row_as_copied_base(self.shown_row(table, ic_r));
        let values = self.selected_cell_writes();
        let mut slab: Vec<R> = Vec::new();
        slab.push(pivot_row);
        assert(slab@ =~= seq![pivot_row]);
        let mut commands: Vec<Command<R>> = Vec::new();
        commands.push(Command::CcSetCells { slab, values, context: CellWriteContext::Paste });
        proof {
            let cells = choose|cells: Seq<(VisRowPos, VisColumnPos)>|
                #[trigger] lists_cells(cells, self@.cursor.selections(), self@.ncol()) && values@
                    == cell_writes(cells, self@.rows, self@.vis_cols);
            let cmd = writes_from(
                pivot_row,
                cell_writes(cells, self@.rows, self@.vis_cols),
                CellWriteContext::Paste,
            );
            assert(models(commands@) =~= seq![cmd]);
            lemma_writes_fit(self@, table@.rows.len() as int, values@, 1);
            assert(models(commands@)[0].fits(table@.rows.len() as int));
        }
        commands
    }

    /// The command that clears every selected cell: each is written from an empty
    /// row.
    pub fn action_delete_selection<V: RowViewer<R>>(&mut self, table: &DataTable<R>, vwr: &mut V) -> (commands: Vec<
        Command<R>,
    >)
        requires
            old(self)@.wf(),
            old(self)@.shows_rows_of(table@.rows.len() as int),
            old(self)@.selection_in_grid(),
        ensures
            old(self)@.set_cells_outcome(
                table@.rows.len() as int,
                CellWriteContext::Clear,
                final(self)@,
                models(commands@),
            ),
    {
        let default = vwr.new_empty_row_for(EmptyRowCreateContext::for_cleared_cells());
        let values = self.selected_cell_writes();
        let mut slab: Vec<R> = Vec::new();
        slab.push(default);
        assert(slab@ =~= seq![default]);
        let mut commands: Vec<Command<R>> = Vec::new();
        commands.push(Command::CcSetCells { slab, values, context: CellWriteContext::Clear });
        proof {
            let cells = choose|cells: Seq<(VisRowPos, VisColumnPos)>|
                #[trigger] lists_cells(cells, self@.cursor.selections(), self@.ncol()) && values@
                    == cell_writes(cells, self@.rows, self@.vis_cols);
            let cmd = writes_from(
                default,
                cell_writes(cells, self@.rows, self@.vis_cols),
                CellWriteContext::Clear,
            );
            assert(models(commands@) =~= seq![cmd]);
            lemma_writes_fit(self@, table@.rows.len() as int, values@, 1);
            assert(models(commands@)[0].fits(table@.rows.len() as int));
        }
        commands
    }

    /// The command that removes the rows that the selection reaches over, less those
    /// that the viewer wants kept; none if the viewer lets no row be removed. Both
    /// are for the viewer to say; `removal_of` says what its answers lead to.
    pub fn action_delete_row<V: RowViewer<R>>(&mut self, table: &DataTable<R>, vwr: &mut V) -> (commands: Vec<
        Command<R>,
    >)
        requires
            old(self)@.wf(),
            old(self)@.shows_rows_of(table@.rows.len() as int),
            old(self)@.selection_in_grid(),
        ensures
            old(self)@.delete_row_outcome(table@.rows.len() as int, final(self)@, models(commands@)),
    {
        let mut commands: Vec<Command<R>> = Vec::new();
        if !vwr.allow_row_deletions() {
            return commands;
        }
        let selected = self.collect_selected_rows();
        proof {
            lemma_rows_listed(self@, selected@);
        }
        let mut confirmed: Vec<bool> = Vec::new();
        let mut i: usize = 0;
        while i < selected.len()
            invariant
                self@.shows_rows_of(table@.rows.len() as int),
                forall|k: int| 0 <= k < selected@.len() ==> (#[trigger] selected@[k]).0 < self@.rows.len(),
                i <= selected@.len(),
                confirmed@.len() == i,
            decreases selected@.len() - i,
        {
            confirmed.push(vwr.confirm_row_deletion_by_ui(self.shown_row(table, selected[i])));
            i += 1;
        }
        commands.push(self.removal_of(table, &selected, &confirmed));
        commands
    }

    /// The command that removes, in the order of the row store, the rows that are
    /// displayed at the positions of `selected` that `confirmed` marks. `selected`
    /// lists the rows that the selection reaches over.
    pub fn removal_of(&self, table: &DataTable<R>, selected: &Vec<VisRowPos>, confirmed: &Vec<bool>) -> (command: Command<
        R,
    >)
        requires
            self@.wf(),
            self@.shows_rows_of(table@.rows.len() as int),
            self@.selection_in_grid(),
            lists_selected_rows(selected@, self@.cursor.selections(), self@.ncol()),
            confirmed@.len() == selected@.len(),
        ensures
            command@ is RemoveRow,
            command@.fits(table@.rows.len() as int),
            removes_confirmed(selected@, confirmed@, self@.rows, command@->RemoveRow_0),
    {
        proof {
            lemma_rows_listed(self@, selected@);
        }
        let mut ids: Vec<usize> = Vec::new();
        let mut i: usize = 0;
        while i < selected.len()
            invariant
                self@.wf(),
                lists_selected_rows(selected@, self@.cursor.selections(), self@.ncol()),
                forall|k: int| 0 <= k < selected@.len() ==> (#[trigger] selected@[k]).0 < self@.rows.len(),
                confirmed@.len() == selected@.len(),
                i <= selected@.len(),
                ids@.no_duplicates(),
                forall|id: usize|
                    #[trigger] ids@.contains(id) <==> confirmed_row(
                        selected@,
                        confirmed@,
                        i as int,
                        self@.rows,
                        RowIdx(id),
                    ),
            decreases selected@.len() - i,
        {
            let pos = selected[i];
            let row = self.cc_rows[pos.0];
            let ghost before = ids@;
            if confirmed[i] {
                proof {
                    if before.contains(row.0) {
                        let a = choose|a: int|
                            0 <= a < i && a < selected@.len() && #[trigger] confirmed@[a]
                                && selected@[a].0 < self@.rows.len() && self@.rows[selected@[a].0 as int]
                                == RowIdx(row.0);
                        assert(self@.row_id_to_vis[row.0] == pos.0);
                        assert(self@.row_id_to_vis[row.0] == selected@[a].0);
                        assert(selected@[a].0 < selected@[i as int].0);
                    }
                }
                ids.push(row.0);
                proof {
                    assert forall|x: int, y: int| 0 <= x < ids@.len() && 0 <= y < ids@.len() && x != y
                        implies ids@[x] != ids@[y] by {
                        if x < before.len() {
                            assert(before.contains(ids@[x]));
                        }
                        if y < before.len() {
                            assert(before.contains(ids@[y]));
                        }
                    }
                }
            }
            proof {
                assert forall|id: usize|
                    #[trigger] ids@.contains(id) <==> confirmed_row(
                        selected@,
                        confirmed@,
                        i + 1,
                        self@.rows,
                        RowIdx(id),
                    ) by {
                    if ids@.contains(id) {
                        let k = choose|k: int| 0 <= k < ids@.len() && ids@[k] == id;
                        if k < before.len() {
                            assert(before.contains(id));
                            let a = choose|a: int|
                                0 <= a < i && a < selected@.len() && #[trigger] confirmed@[a]
                                    && selected@[a].0 < self@.rows.len()
                                    && self@.rows[selected@[a].0 as int] == RowIdx(id);
                            assert(confirmed@[a]);
                        } else {
                            assert(confirmed@[i as int]);
                        }
                    }
                    if confirmed_row(selected@, confirmed@, i + 1, self@.rows, RowIdx(id)) {
                        let a = choose|a: int|
                            0 <= a < i + 1 && a < selected@.len() && #[trigger] confirmed@[a]
                                && selected@[a].0 < self@.rows.len() && self@.rows[selected@[a].0 as int]
                                == RowIdx(id);
                        if a < i {
                            assert(confirmed_row(selected@, confirmed@, i as int, self@.rows, RowIdx(id)));
                            assert(before.contains(id));
                            let k = choose|k: int| 0 <= k < before.len() && before[k] == id;
                            assert(ids@[k] == id);
                        } else {
                            assert(ids@[ids@.len() - 1] == id);
                        }
                    }
                }
            }
            i += 1;
        }
        // Rows are removed in the order of the row store, whatever order they are
        // displayed in.
        let ordered = sorted(ids);
        proof {
            lemma_sorted_distinct(ids@, ordered@);
        }
        let mut rows: Vec<RowIdx> = Vec::new();
        let mut k: usize = 0;
        while k < ordered.len()
            invariant
                k <= ordered@.len(),
                rows@.len() == k,
                forall|j: int| 0 <= j < k ==> rows@[j] == RowIdx(ordered@[j]),
            decreases ordered@.len() - k,
        {
            rows.push(RowIdx(ordered[k]));
            k += 1;
        }
        proof {
            assert forall|row: RowIdx|
                #[trigger] rows@.contains(row) <==> confirmed_row(
                    selected@,
                    confirmed@,
                    selected@.len() as int,
                    self@.rows,
                    row,
                ) by {
                if rows@.contains(row) {
                    let j = choose|j: int| 0 <= j < rows@.len() && rows@[j] == row;
                    assert(ordered@.contains(ordered@[j]));
                    assert(ids@.contains(row.0));
                    assert(RowIdx(row.0) == row);
                }
                if confirmed_row(selected@, confirmed@, selected@.len() as int, self@.rows, row) {
                    assert(RowIdx(row.0) == row);
                    assert(ids@.contains(row.0));
                    assert(ordered@.contains(row.0));
                    let j = choose|j: int| 0 <= j < ordered@.len() && ordered@[j] == row.0;
                    assert(rows@[j] == row);
                }
            }
            assert forall|j: int| 0 <= j < rows@.len() implies (#[trigger] rows@[j]).0
                < table@.rows.len() by {
                assert(rows@.contains(rows@[j]));
                let a = choose|a: int|
                    0 <= a < selected@.len() && a < selected@.len() && #[trigger] confirmed@[a]
                        && selected@[a].0 < self@.rows.len() && self@.rows[selected@[a].0 as int]
                        == rows@[j];
                assert(self@.rows[selected@[a].0 as int].0 < table@.rows.len());
            }
        }
        Command::RemoveRow(rows)
    }

    /// The command that puts in a copy of each row that the selection reaches over;
    /// none if the viewer lets no row be put in. Whether it does, and what the
    /// copies hold, is for the viewer to say; `insertion_of` says what command the
    /// copies make.
    pub fn action_duplicate_row<V: RowViewer<R>>(&mut self, table: &DataTable<R>, vwr: &mut V) -> (commands: Vec<
        Command<R>,
    >)
        requires
            old(self)@.wf(),
            old(self)@.shows_rows_of(table@.rows.len() as int),
            old(self)@.interactive_in_grid(),
            old(self)@.selection_in_grid(),
            old(self)@.rows.len() > 0 || old(self)@.sort.len() > 0,
            table@.rows.len() + old(self)@.rows.len() <= usize::MAX,
        ensures
            old(self)@.duplicate_row_outcome(table@.rows.len() as int, final(self)@, models(commands@)),
    {
        let mut commands: Vec<Command<R>> = Vec::new();
        if !vwr.allow_row_insertions() {
            return commands;
        }
        let selected = self.collect_selected_rows();
        proof {
            lemma_rows_listed(self@, selected@);
        }
        let mut rows: Vec<R> = Vec::new();
        let mut i: usize = 0;
        while i < selected.len()
            invariant
                self@.wf(),
                self@.shows_rows_of(table@.rows.len() as int),
                forall|k: int| 0 <= k < selected@.len() ==> (#[trigger] selected@[k]).0 < self@.rows.len(),
                i <= selected@.len(),
                rows@.len() == i,
            decreases selected@.len() - i,
        {
            rows.push(vwr.clone_row_for_insertion(self.shown_row(table, selected[i])));
            i += 1;
        }
        commands.push(self.insertion_of(table, rows));
        proof {
            assert(lists_selected_rows(selected@, self@.cursor.selections(), self@.ncol()));
            assert(models(commands@)[0] == commands@[0]@);
            assert(self@.insert_position(table@.rows.len() as int).0 <= table@.rows.len());
        }
        commands
    }

    /// The command that puts `rows` in where rows are put in: before the row of the
    /// interactive cell, or at the end if the rows are sorted.
    pub fn insertion_of(&self, table: &DataTable<R>, rows: Vec<R>) -> (command: Command<R>)
        requires
            self@.wf(),
            self@.shows_rows_of(table@.rows.len() as int),
            self@.interactive_in_grid(),
            self@.rows.len() > 0 || self@.sort.len() > 0,
        ensures
            command@ == CommandModel::InsertRows(
                self@.insert_position(table@.rows.len() as int),
                rows@,
            ),
            self@.insert_position(table@.rows.len() as int).0 <= table@.rows.len(),
    {
        let (ic_r, _) = self.cc_interactive_cell.row_col(self.p.vis_cols.len());
        let pos = if self.p.sort.len() == 0 {
            self.cc_rows[ic_r.0]
        } else {
            RowIdx(table.rows.len())
        };
        Command::InsertRows(pos, rows)
    }
}

/// Writes to displayed rows, each from one of the rows of a slab, fit the rows that
/// are displayed.
pub proof fn lemma_writes_fit<R>(m: UiModel<R>, nrows: int, values: Seq<CellWrite>, slab_len: int)
    requires
        m.shows_rows_of(nrows),
        forall|i: int|
            0 <= i < values.len() ==> m.rows.contains((#[trigger] values[i]).0) && values[i].2.0
                < slab_len,
    ensures
        forall|i: int| 0 <= i < values.len() ==> (#[trigger] values[i]).0.0 < nrows,
{
    assert forall|i: int| 0 <= i < values.len() implies (#[trigger] values[i]).0.0 < nrows by {
        let k = choose|k: int| 0 <= k < m.rows.len() && m.rows[k] == values[i].0;
        assert(m.rows[k].0 < nrows);
    }
}

/// The rows that the selection reaches over are displayed rows, and no more than are
/// displayed.
pub proof fn lemma_rows_listed<R>(m: UiModel<R>, rows: Seq<VisRowPos>)
    requires
        m.wf(),
        m.selection_in_grid(),
        lists_selected_rows(rows, m.cursor.selections(), m.ncol()),
    ensures
        forall|k: int| 0 <= k < rows.len() ==> (#[trigger] rows[k]).0 < m.rows.len(),
        rows.len() <= m.rows.len(),
{
    assert forall|k: int| 0 <= k < rows.len() implies (#[trigger] rows[k]).0 < m.rows.len() by {
        assert(rows.contains(rows[k]));
        lemma_selected_in_grid(m, rows[k].0 as int, 0);
    }
    lemma_ascending_bounded(rows, m.rows.len() as int);
}

/// A list of numbers below a bound, each less than the next, is no longer than the
/// bound.
pub proof fn lemma_ascending_bounded(rows: Seq<VisRowPos>, bound: int)
    requires
        forall|i: int, j: int| 0 <= i < j < rows.len() ==> rows[i].0 < rows[j].0,
        forall|k: int| 0 <= k < rows.len() ==> (#[trigger] rows[k]).0 < bound,
    ensures
        rows.len() <= vstd::math::max(bound, 0),
        forall|k: int| 0 <= k < rows.len() ==> k <= (#[trigger] rows[k]).0,
    decreases rows.len(),
{
    if rows.len() > 0 {
        let head = rows.drop_last();
        assert forall|k: int| 0 <= k < head.len() implies (#[trigger] head[k]).0 < bound by {
            assert(head[k] == rows[k]);
        }
        lemma_ascending_bounded(head, bound);
        if rows.len() >= 2 {
            assert(head[rows.len() - 2] == rows[rows.len() - 2]);
            assert(rows[rows.len() - 2].0 < rows[rows.len() - 1].0);
        }
        assert forall|k: int| 0 <= k < rows.len() implies k <= (#[trigger] rows[k]).0 by {
            if k < rows.len() - 1 {
                assert(head[k] == rows[k]);
            }
        }
        assert(rows.len() - 1 <= rows[rows.len() - 1].0);
    }
}

impl<R> UiState<R> {
    /// Copies the selection to the clipboard, and returns the text that it is shared
    /// as, if the viewer has a codec to write text with.
    pub fn action_copy<V: RowViewer<R>>(&mut self, table: &DataTable<R>, vwr: &mut V) -> (text: Option<String>)
        requires
            old(self)@.wf(),
            old(self)@.shows_rows_of(table@.rows.len() as int),
            old(self)@.selection_in_grid(),
        ensures
            old(self)@.copy_outcome(final(self)@, text_of(text)),
            final(self)@.cursor == old(self)@.cursor,
    {
        let sels = self.collect_selection();
        let selected = self.collect_selected_rows();
        self.clipboard = None;
        let ghost m = old(self)@;
        let ncol = self.p.vis_cols.len();
        proof {
            lemma_rows_listed(m, selected@);
        }
        if sels.len() == 0 {
            return None;
        }
        // Rows are counted from the row of the first cell.
        let offset = sels[0].0;
        let mut slab: Vec<R> = Vec::new();
        let mut vis_map: HashMap<usize, usize> = HashMap::new();
        let mut i: usize = 0;
        while i < selected.len()
            invariant
                self@.shows_rows_of(table@.rows.len() as int),
                self@.rows == m.rows,
                forall|k: int| 0 <= k < selected@.len() ==> (#[trigger] selected@[k]).0 < m.rows.len(),
                forall|a: int, b: int| 0 <= a < b < selected@.len() ==> selected@[a].0 < selected@[b].0,
                i <= selected@.len(),
                slab@.len() == i,
                forall|k: int|
                    0 <= k < i ==> vis_map@.contains_key((#[trigger] selected@[k]).0)
                        && vis_map@[selected@[k].0] == k,
                forall|key: usize| #[trigger]
                    vis_map@.contains_key(key) ==> vis_map@[key] < i && selected@[vis_map@[key] as int].0
                        == key,
            decreases selected@.len() - i,
        {
            let vis_row = selected[i];
            vis_map.insert(vis_row.0, slab.len());
            slab.push(vwr.clone_row_as_copied_base(self.shown_row(table, vis_row)));
            proof {
                assert forall|k: int| 0 <= k < i + 1 implies vis_map@.contains_key(
                    (#[trigger] selected@[k]).0,
                ) && vis_map@[selected@[k].0] == k by {
                    if k < i {
                        assert(selected@[k].0 < selected@[i as int].0);
                    }
                }
            }
            i += 1;
        }
        let ghost plan = copy_plan(sels@, selected@, m.vis_cols);
        let mut pastes: Vec<PasteCell> = Vec::new();
        let mut k: usize = 0;
        while k < sels.len()
            invariant
                self@.vis_cols == m.vis_cols,
                ncol == m.vis_cols.len(),
                lists_cells(sels@, m.cursor.selections(), ncol),
                lists_selected_rows(selected@, m.cursor.selections(), ncol),
                sels@.len() > 0,
                offset == sels@[0].0,
                plan == copy_plan(sels@, selected@, m.vis_cols),
                forall|a: int|
                    0 <= a < selected@.len() ==> vis_map@.contains_key((#[trigger] selected@[a]).0)
                        && vis_map@[selected@[a].0] == a,
                k <= sels@.len(),
                pastes@.len() == k,
                forall|j: int| 0 <= j < k ==> (#[trigger] pastes@[j]) == plan[j] && pastes@[j].2.0 < selected@.len(),
            decreases sels@.len() - k,
        {
            let (v_r, v_c) = sels[k];
            proof {
                assert(sels@.contains(sels@[k as int]));
                assert(covered(m.cursor.selections(), ncol, v_r.0 as int, v_c.0 as int));
                let w = choose|w: int|
                    0 <= w < m.cursor.selections().len() && (#[trigger] m.cursor.selections()[w]).covers(
                        ncol,
                        v_r.0 as int,
                        v_c.0 as int,
                    );
                assert(m.cursor.selections()[w].top(ncol) <= v_r.0 <= m.cursor.selections()[w].bottom(ncol));
                assert(row_covered(m.cursor.selections(), ncol, v_r.0 as int));
                assert(selected@.contains(v_r));
                let at = selected@.index_of(v_r);
                assert(selected@[at] == v_r);
                assert(vis_map@[selected@[at].0] == at);
                if k > 0 {
                    assert(sels@[0].0.0 <= sels@[k as int].0.0);
                }
            }
            let slab_idx = match vis_map.get(&v_r.0) {
                Some(idx) => *idx,
                None => vstd::pervasive::unreached(),
            };
            pastes.push((VisRowOffset(v_r.0 - offset.0), self.p.vis_cols[v_c.0], RowSlabIndex(slab_idx)));
            k += 1;
        }
        proof {
            assert(pastes@ =~= plan);
        }
        let mut clipboard = Clipboard { slab, pastes };
        clipboard.sort();
        proof {
            let sorted = clipboard@.pastes;
            plan.to_multiset_ensures();
            sorted.to_multiset_ensures();
            assert(sorted.to_multiset() == plan.to_multiset());
            assert forall|j: int| 0 <= j < sorted.len() implies (#[trigger] sorted[j]).2.0
                < clipboard@.slab.len() by {
                assert(sorted.contains(sorted[j]));
                assert(sorted.to_multiset().count(sorted[j]) > 0);
                assert(plan.to_multiset().count(sorted[j]) > 0);
                assert(plan.contains(sorted[j]));
                let at = choose|at: int| 0 <= at < plan.len() && plan[at] == sorted[j];
                assert(pastes@[at] == plan[at]);
            }
            assert forall|a: int, b: int| 0 <= a < b < sorted.len() implies sorted[a].0.0
                <= sorted[b].0.0 by {
                assert(crate::clipboard::paste_before(sorted[a], sorted[b]));
            }
        }
        let sys_clip = Self::try_dump_clipboard_content(&clipboard, vwr);
        self.clipboard = Some(clipboard);
        proof {
            let held = self@.clipboard->0;
            assert(held.wf());
            assert(pastes_sorted(held.pastes));
            assert(held.pastes.to_multiset() == copy_plan(sels@, selected@, m.vis_cols).to_multiset());
            assert(held.slab.len() == selected@.len());
            assert(lists_cells(sels@, m.cursor.selections(), m.ncol()));
            assert(lists_selected_rows(selected@, m.cursor.selections(), m.ncol()));
        }
        sys_clip
    }

    /// The command that writes the copied cells to where they fall when the first of
    /// them falls on the row of the interactive cell, and has the rows that are
    /// written to selected afterwards.
    pub fn action_paste_in_place<V: RowViewer<R>>(&mut self, table: &DataTable<R>, vwr: &mut V) -> (commands: Vec<
        Command<R>,
    >)
        requires
            old(self)@.wf(),
            old(self)@.shows_rows_of(table@.rows.len() as int),
            old(self)@.clipboard is Some ==> old(self)@.clipboard->0.wf(),
        ensures
            old(self)@.paste_in_place_outcome::<V>(final(self)@, models(commands@)),
            forall|i: int|
                0 <= i < commands@.len() ==> (#[trigger] commands@[i])@.fits(table@.rows.len() as int),
    {
        let mut commands: Vec<Command<R>> = Vec::new();
        let ncol = self.p.vis_cols.len();
        proof {
            lemma_grid_fits(self@);
        }
        let (ic_r, _) = self.cc_interactive_cell.row_col(ncol);
        let ghost m = old(self)@;
        let mut values: Vec<CellWrite> = Vec::new();
        let mut slab: Vec<R> = Vec::new();
        match &self.clipboard {
            None => {
                return commands;
            },
            Some(clip) => {
                let mut i: usize = 0;
                while i < clip.pastes.len()
                    invariant
                        m == self@,
                        clip@ == m.clipboard->0,
                        m.shows_rows_of(table@.rows.len() as int),
                        clip@.wf(),
                        ic_r.0 == m.interactive_cell.row(m.ncol()),
                        i <= clip@.pastes.len(),
                        values@ == paste_targets(clip@.pastes.take(i as int), ic_r.0 as int, m.rows),
                        forall|k: int|
                            0 <= k < values@.len() ==> (#[trigger] values@[k]).0.0 < table@.rows.len()
                                && values@[k].2.0 < clip@.slab.len(),
                    decreases clip@.pastes.len() - i,
                {
                    let (offset, col, slab_id) = clip.pastes[i];
                    proof {
                        assert(clip@.pastes.take(i + 1).drop_last() =~= clip@.pastes.take(i as int));
                        assert(clip@.pastes.take(i + 1).last() == clip@.pastes[i as int]);
                    }
                    // A cell that falls below the last displayed row is left out.
                    if ic_r.0 < self.cc_rows.len() && offset.0 < self.cc_rows.len() - ic_r.0 {
                        let row = self.cc_rows[ic_r.0 + offset.0];
                        assert(m.rows[ic_r.0 + offset.0].0 < table@.rows.len());
                        values.push((row, col, slab_id));
                    }
                    i += 1;
                }
                proof {
                    assert(clip@.pastes.take(clip@.pastes.len() as int) =~= clip@.pastes);
                }
                let mut k: usize = 0;
                while k < clip.slab.len()
                    invariant
                        k <= clip@.slab.len(),
                        slab@ == copies::<R, V>(clip@.slab).take(k as int),
                    decreases clip@.slab.len() - k,
                {
                    slab.push(vwr.clone_row(&clip.slab[k]));
                    assert(slab@ =~= copies::<R, V>(clip@.slab).take(k + 1));
                    k += 1;
                }
                proof {
                    assert(copies::<R, V>(clip@.slab).take(clip@.slab.len() as int)
                        =~= copies::<R, V>(clip@.slab));
                }
            },
        }
        let desired = group_by_row(&values);
        self.cc_desired_selection = Some(desired);
        proof {
            assert(crate::state::desired_model(self.cc_desired_selection)->0 =~= grouped_by_row(
                values@,
            ));
        }
        commands.push(Command::CcSetCells { slab, values, context: CellWriteContext::Paste });
        proof {
            let clip = m.clipboard->0;
            assert(models(commands@) =~= seq![
                CommandModel::CcSetCells {
                    slab: copies::<R, V>(clip.slab),
                    values: values@,
                    context: CellWriteContext::Paste,
                },
            ]);
        }
        commands
    }

    /// The command that puts in the copied cells as new rows.
    pub fn action_paste_insert<V: RowViewer<R>>(&mut self, table: &DataTable<R>, vwr: &mut V) -> (commands: Vec<
        Command<R>,
    >)
        requires
            old(self)@.wf(),
            old(self)@.shows_rows_of(table@.rows.len() as int),
            old(self)@.interactive_in_grid(),
            old(self)@.clipboard is Some ==> {
                &&& old(self)@.clipboard->0.wf()
                &&& old(self)@.rows.len() > 0 || old(self)@.sort.len() > 0
                &&& table@.rows.len() + old(self)@.clipboard->0.pastes.len() <= usize::MAX
            },
        ensures
            old(self)@.paste_insert_outcome::<V>(table@.rows.len() as int, final(self)@, models(commands@)),
            forall|i: int|
                0 <= i < commands@.len() ==> (#[trigger] commands@[i])@.fits(table@.rows.len() as int),
    {
        let mut commands: Vec<Command<R>> = Vec::new();
        let ncol = self.p.vis_cols.len();
        let (ic_r, _) = self.cc_interactive_cell.row_col(ncol);
        let ghost m = old(self)@;
        let mut rows: Vec<R> = Vec::new();
        let ghost mut empties: Seq<R> = Seq::empty();
        match &self.clipboard {
            None => {
                return commands;
            },
            Some(clip) => {
                let mut i: usize = 0;
                while i < clip.pastes.len()
                    invariant
                        clip@ == m.clipboard->0,
                        clip@.wf(),
                        i <= clip@.pastes.len(),
                        empties.len() == run_count(clip@.pastes.take(i as int)),
                        rows@.len() == empties.len(),
                        rows@.len() <= i,
                        i > 0 ==> rows@.len() > 0,
                        forall|more: Seq<R>|
                            #![trigger filled_rows::<R, V>(more, clip@.slab, clip@.pastes.take(i as int))]
                            more.len() >= empties.len() && more.take(empties.len() as int) == empties
                                ==> rows@ == filled_rows::<R, V>(
                                more,
                                clip@.slab,
                                clip@.pastes.take(i as int),
                            ),
                    decreases clip@.pastes.len() - i,
                {
                    let (offset, column, slab_id) = clip.pastes[i];
                    let ghost seen = clip@.pastes.take(i as int);
                    let ghost next = clip@.pastes.take(i + 1);
                    let ghost before = rows@;
                    let ghost old_empties = empties;
                    proof {
                        assert(next.drop_last() =~= seen);
                        assert(next.last() == clip@.pastes[i as int]);
                        if i > 0 {
                            assert(next[next.len() - 2] == clip@.pastes[i - 1]);
                        }
                    }
                    if i == 0 || clip.pastes[i - 1].0 != offset {
                        let empty = vwr.new_empty_row_for(EmptyRowCreateContext::for_pasted_row());
                        proof {
                            empties = empties.push(empty);
                        }
                        rows.push(empty);
                    }
                    let last = rows.len() - 1;
                    vwr.set_cell_value(&clip.slab[slab_id.0], &mut rows[last], column.0);
                    proof {
                        assert forall|more: Seq<R>|
                            #![trigger filled_rows::<R, V>(more, clip@.slab, next)]
                            more.len() >= empties.len() && more.take(empties.len() as int) == empties
                                implies rows@ == filled_rows::<R, V>(more, clip@.slab, next) by {
                            assert(more.take(old_empties.len() as int) =~= old_empties) by {
                                assert forall|x: int| 0 <= x < old_empties.len() implies more.take(
                                    old_empties.len() as int,
                                )[x] == old_empties[x] by {
                                    assert(more.take(empties.len() as int)[x] == empties[x]);
                                }
                            }
                            assert(before == filled_rows::<R, V>(more, clip@.slab, seen));
                            if !(i == 0 || clip@.pastes[i - 1].0 != offset) {
                                assert(rows@ =~= filled_rows::<R, V>(more, clip@.slab, next));
                            } else {
                                assert(more[old_empties.len() as int] == more.take(
                                    empties.len() as int,
                                )[old_empties.len() as int]);
                                assert(rows@ =~= filled_rows::<R, V>(more, clip@.slab, next));
                            }
                        }
                    }
                    i += 1;
                }
                proof {
                    assert(clip@.pastes.take(clip@.pastes.len() as int) =~= clip@.pastes);
                    assert(empties.take(empties.len() as int) =~= empties);
                }
            },
        }
        let pos = if self.p.sort.len() == 0 {
            self.cc_rows[ic_r.0]
        } else {
            RowIdx(table.rows.len())
        };
        commands.push(Command::InsertRows(pos, rows));
        proof {
            let clip = m.clipboard->0;
            assert(models(commands@) =~= seq![
                CommandModel::InsertRows(
                    m.insert_position(table@.rows.len() as int),
                    filled_rows::<R, V>(empties, clip.slab, clip.pastes),
                ),
            ]);
        }
        commands
    }

    /// Does what the user asks for as far as it concerns the state alone, and returns
    /// the commands that do the rest. The view is to scroll to the interactive cell.
    pub fn try_apply_ui_action<V: RowViewer<R>>(
        &mut self,
        table: &mut DataTable<R>,
        vwr: &mut V,
        action: UiAction,
    ) -> (commands: Vec<Command<R>>)
        requires
            old(self)@.ready_for(old(table)@.rows.len() as int, action),
        ensures
            (UiModel { want_move_scroll: true, ..old(self)@ }).acted::<V>(
                old(table)@,
                action,
                final(self)@,
                final(table)@,
                models(commands@),
            ),
    {
        self.cci_want_move_scroll = true;
        let ghost m = self@;
        match action {
            UiAction::SelectionStartEditing => self.action_start_editing(table, vwr),
            UiAction::CancelEdition => {
                let mut commands: Vec<Command<R>> = Vec::new();
                commands.push(Command::CcCancelEdit);
                assert(models(commands@) =~= seq![CommandModel::<R>::CcCancelEdit]);
                commands
            },
            UiAction::CommitEdition => {
                let mut commands: Vec<Command<R>> = Vec::new();
                commands.push(Command::CcCommitEdit);
                assert(models(commands@) =~= seq![CommandModel::<R>::CcCommitEdit]);
                commands
            },
            UiAction::CommitEditionAndMove(dir) => self.action_commit_and_move(table, vwr, dir),
            UiAction::MoveSelection(dir) => self.action_move_selection(dir),
            UiAction::Undo => {
                self.undo(table, vwr);
                Vec::new()
            },
            UiAction::Redo => {
                self.redo(table, vwr);
                Vec::new()
            },
            UiAction::CopySelection => {
                let sys_clip = self.action_copy(table, vwr);
                let mut commands: Vec<Command<R>> = Vec::new();
                let ghost head = models(commands@);
                let ghost text = text_of(sys_clip);
                // The text is shared only if the viewer has a codec.
                if let Some(clip) = sys_clip {
                    commands.push(Command::CcUpdateSystemClipboard(clip));
                }
                proof {
                    assert(models(commands@) =~= transfer_commands(head, text));
                }
                commands
            },
            UiAction::CutSelection => {
                let sys_clip = self.action_copy(table, vwr);
                let mut commands = if self.clipboard.is_some() {
                    self.action_delete_selection(table, vwr)
                } else {
                    Vec::new()
                };
                let ghost head = models(commands@);
                let ghost text = text_of(sys_clip);
                if let Some(clip) = sys_clip {
                    commands.push(Command::CcUpdateSystemClipboard(clip));
                }
                proof {
                    assert(models(commands@) =~= transfer_commands(head, text));
                }
                commands
            },
            UiAction::SelectionDuplicateValues => self.action_duplicate_values(table, vwr),
            UiAction::PasteInPlace => self.action_paste_in_place(table, vwr),
            UiAction::PasteInsert => self.action_paste_insert(table, vwr),
            UiAction::DuplicateRow => self.action_duplicate_row(table, vwr),
            UiAction::DeleteSelection => self.action_delete_selection(table, vwr),
            UiAction::DeleteRow => self.action_delete_row(table, vwr),
            UiAction::SelectAll => self.action_select_all(),
            UiAction::NavPageDown => self.action_navigate(action),
            UiAction::NavPageUp => self.action_navigate(action),
            UiAction::NavTop => self.action_navigate(action),
            UiAction::NavBottom => self.action_navigate(action),
        }
    }
}

/// The rows that `values` writes to, each with the columns that are written in it.
pub fn group_by_row(values: &Vec<CellWrite>) -> (groups: Vec<(RowIdx, Vec<ColumnIdx>)>)
    ensures
        crate::state::desired_model(Some(groups))->0 == grouped_by_row(values@),
{
    let mut keys: Vec<usize> = Vec::new();
    let mut i: usize = 0;
    while i < values.len()
        invariant
            i <= values@.len(),
            keys@.len() == i,
            forall|k: int| 0 <= k < i ==> keys@[k] == values@[k].0.0,
        decreases values@.len() - i,
    {
        keys.push(values[i].0.0);
        i += 1;
    }
    let chunks = chunk_by(&keys);
    let ghost runs = chunks.deep_view();
    assert(values@.len() == values.len());
    let mut groups: Vec<(RowIdx, Vec<ColumnIdx>)> = Vec::new();
    let mut at: usize = 0;
    let mut g: usize = 0;
    while g < chunks.len()
        invariant
            g <= chunks@.len(),
            runs == chunks.deep_view(),
            runs.len() == chunks@.len(),
            joined(runs) == keys@,
            are_runs(runs),
            keys@.len() == values@.len() <= usize::MAX,
            forall|k: int| 0 <= k < keys@.len() ==> keys@[k] == values@[k].0.0,
            at == joined(runs.take(g as int)).len(),
            at <= values@.len(),
            groups@.len() == g,
            crate::state::desired_model(Some(groups))->0 == grouped_by_row(values@.take(at as int)),
        decreases chunks@.len() - g,
    {
        let count = chunks[g].len();
        proof {
            lemma_joined_prefix(runs, g as int);
            assert(runs[g as int] == chunks@[g as int]@);
            lemma_run_boundaries(runs, g as int, 0);
        }
        let row = values[at].0;
        let mut columns: Vec<ColumnIdx> = Vec::new();
        let ghost done = crate::state::desired_model(Some(groups))->0;
        let ghost start = at;
        let mut k: usize = 0;
        while k < count
            invariant
                k <= count,
                count == runs[g as int].len(),
                count > 0,
                g < runs.len(),
                joined(runs) == keys@,
                are_runs(runs),
                keys@.len() == values@.len() <= usize::MAX,
                forall|k: int| 0 <= k < keys@.len() ==> keys@[k] == values@[k].0.0,
                start == joined(runs.take(g as int)).len(),
                at == start + k,
                start + count <= values@.len(),
                row.0 == runs[g as int][0],
                done == grouped_by_row(values@.take(start as int)),
                start > 0 ==> values@[start - 1].0 != row,
                k == 0 ==> columns@.len() == 0,
                k > 0 ==> grouped_by_row(values@.take(at as int)) == done.push((row, columns@)),
            decreases count - k,
        {
            proof {
                lemma_run_boundaries(runs, g as int, k as int);
                assert(values@.take(at + 1).drop_last() =~= values@.take(at as int));
                assert(values@.take(at + 1).last() == values@[at as int]);
                assert(values@[at as int].0 == row);
                if at > 0 {
                    assert(values@.take(at + 1)[at - 1] == values@[at - 1]);
                }
            }
            let ghost before = columns@;
            columns.push(values[at].1);
            proof {
                let now = grouped_by_row(values@.take(at + 1));
                if k == 0 {
                    assert(columns@ =~= seq![values@[at as int].1]);
                    assert(now == done.push((row, columns@)));
                } else {
                    assert(values@[at - 1].0 == row);
                    assert(now =~= done.push((row, columns@)));
                }
            }
            at += 1;
            k += 1;
        }
        let ghost prior = groups@;
        groups.push((row, columns));
        proof {
            let model = crate::state::desired_model(Some(groups))->0;
            assert(model =~= done.push((row, columns@))) by {
                assert forall|x: int| 0 <= x < prior.len() implies model[x] == done[x] by {
                    assert(groups@[x] == prior[x]);
                }
            }
        }
        g += 1;
    }
    proof {
        assert(runs.take(runs.len() as int) =~= runs);
        assert(values@.take(values@.len() as int) =~= values@);
    }
    groups
}

} // verus!
