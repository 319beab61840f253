//! The state of one grid: the rows it shows, the cursor, the clipboard and the undo
//! history.

use std::collections::{HashMap, VecDeque};
use vstd::prelude::*;
use crate::command::{CellWrite, Command, CommandModel};
use crate::viewer::{UiActionContext, UiCursorState};
use crate::index::{
    ColumnIdx,
    IsAscending,
    RowIdx,
    RowSlabIndex,
    VisColumnPos,
    VisLinearIdx,
    VisRowOffset,
    VisRowPos,
    VisSelection,
};

verus! {

/// Height that a row is given before it has been laid out: the bits of the
/// single-precision number 20.
pub const BASELINE_ROW_HEIGHT: u32 = 0x41A0_0000;

/// One cell of a clipboard: how many displayed rows below the top of the copied
/// selection it lies, its column, and the row of the slab that holds its value.
pub type PasteCell = (VisRowOffset, ColumnIdx, RowSlabIndex);

/// What is kept of the grid's layout from one session to the next.
pub struct PersistData {
    /// Number of columns of the viewer.
    pub num_columns: usize,
    /// The columns that are shown, in the order in which they are shown.
    pub vis_cols: Vec<ColumnIdx>,
    /// The sort keys, the most significant first.
    pub sort: Vec<(ColumnIdx, IsAscending)>,
}

/// The kept layout as a mathematical value.
pub struct PersistModel {
    pub num_columns: usize,
    pub vis_cols: Seq<ColumnIdx>,
    pub sort: Seq<(ColumnIdx, IsAscending)>,
}

impl View for PersistData {
    type V = PersistModel;

    open spec fn view(&self) -> PersistModel {
        PersistModel { num_columns: self.num_columns, vis_cols: self.vis_cols@, sort: self.sort@ }
    }
}

/// Copied cells.
pub struct Clipboard<R> {
    /// One snapshot of each copied row.
    pub slab: Vec<R>,
    /// The copied cells.
    pub pastes: Vec<PasteCell>,
}

/// A clipboard as a mathematical value.
pub struct ClipboardModel<R> {
    pub slab: Seq<R>,
    pub pastes: Seq<PasteCell>,
}

impl<R> View for Clipboard<R> {
    type V = ClipboardModel<R>;

    open spec fn view(&self) -> ClipboardModel<R> {
        ClipboardModel { slab: self.slab@, pastes: self.pastes@ }
    }
}

/// An applied command and the commands that undo it.
pub struct UndoArg<R> {
    pub(crate) apply: Command<R>,
    pub(crate) restore: Vec<Command<R>>,
}

/// An entry of the undo history as a mathematical value.
pub struct UndoEntry<R> {
    pub apply: CommandModel<R>,
    pub restore: Seq<CommandModel<R>>,
}

impl<R> View for UndoArg<R> {
    type V = UndoEntry<R>;

    open(crate) spec fn view(&self) -> UndoEntry<R> {
        UndoEntry { apply: self.apply@, restore: self.restore@.map_values(|c: Command<R>| c@) }
    }
}

/// Either cells are selected or one row is being edited.
pub enum CursorState<R> {
    Select(Vec<VisSelection>),
    Edit { next_focus: bool, last_focus: VisColumnPos, row: RowIdx, edition: R },
}

/// The cursor as a mathematical value.
pub enum CursorModel<R> {
    /// The selected rectangles. They may overlap.
    Select(Seq<VisSelection>),
    /// A row is being edited: whether its editor has yet to take the focus, the
    /// column that takes it, the row, and the working copy that the edits go to.
    Edit { next_focus: bool, last_focus: VisColumnPos, row: RowIdx, edition: R },
}

impl<R> View for CursorState<R> {
    type V = CursorModel<R>;

    open spec fn view(&self) -> CursorModel<R> {
        match *self {
            CursorState::Select(selections) => CursorModel::Select(selections@),
            CursorState::Edit { next_focus, last_focus, row, edition } => CursorModel::Edit {
                next_focus,
                last_focus,
                row,
                edition,
            },
        }
    }
}

/// The state of a grid.
pub struct UiState<R> {
    /// Which viewer the state belongs to.
    pub(crate) viewer_type: u64,
    /// The filter that the displayed rows were chosen by.
    pub(crate) viewer_filter_hash: u64,
    /// The undo history, the latest command first. Entries before `undo_cursor` have
    /// been undone.
    pub(crate) undo_queue: VecDeque<UndoArg<R>>,
    /// Number of entries that have been undone.
    pub(crate) undo_cursor: usize,
    pub(crate) clipboard: Option<Clipboard<R>>,
    pub(crate) p: PersistData,
    pub(crate) is_p_loaded: bool,
    /// The displayed rows in the order in which they are displayed.
    pub cc_rows: Vec<RowIdx>,
    /// The height of each displayed row, as the bits of a single-precision number.
    pub cc_row_heights: Vec<u32>,
    /// For each displayed row, its position in `cc_rows`.
    pub(crate) cc_row_id_to_vis: HashMap<usize, usize>,
    /// The displayed rows have to be chosen anew.
    pub(crate) cc_dirty: bool,
    pub(crate) cc_cursor: CursorState<R>,
    /// Number of frames since a row was last written.
    pub(crate) cc_num_frame_from_last_edit: usize,
    /// Number of columns that the selections were last laid out for.
    pub(crate) cc_prev_n_columns: usize,
    /// The cell that the keyboard moves from.
    pub(crate) cc_interactive_cell: VisLinearIdx,
    /// The rows, each with some of its columns or with none for all of them, that
    /// are to be selected once the displayed rows have been chosen anew.
    pub(crate) cc_desired_selection: Option<Vec<(RowIdx, Vec<ColumnIdx>)>>,
    /// The cell where a drag began and the cell where it is now.
    pub(crate) cci_selection: Option<(VisLinearIdx, VisLinearIdx)>,
    /// The grid had the latest click.
    pub cci_has_focus: bool,
    /// The view is to scroll to the row of the interactive cell.
    pub cci_want_move_scroll: bool,
    /// Number of rows that were laid out in the latest frame.
    pub cci_page_row_count: usize,
}

/// The state of a grid as a mathematical value.
pub struct UiModel<R> {
    pub viewer_type: u64,
    pub viewer_filter_hash: u64,
    /// The undo history, the latest command first.
    pub history: Seq<UndoEntry<R>>,
    /// Number of entries of `history` that have been undone.
    pub undo_cursor: int,
    pub clipboard: Option<ClipboardModel<R>>,
    pub num_columns: usize,
    pub vis_cols: Seq<ColumnIdx>,
    pub sort: Seq<(ColumnIdx, IsAscending)>,
    pub is_p_loaded: bool,
    /// The displayed rows in the order in which they are displayed.
    pub rows: Seq<RowIdx>,
    pub row_heights: Seq<u32>,
    /// For each displayed row, its position in `rows`.
    pub row_id_to_vis: Map<usize, usize>,
    pub dirty: bool,
    pub cursor: CursorModel<R>,
    pub num_frame_from_last_edit: usize,
    pub prev_n_columns: usize,
    pub interactive_cell: VisLinearIdx,
    pub desired_selection: Option<Seq<(RowIdx, Seq<ColumnIdx>)>>,
    /// The cell where a drag began and the cell where it is now.
    pub gesture: Option<(VisLinearIdx, VisLinearIdx)>,
    pub has_focus: bool,
    pub want_move_scroll: bool,
    pub page_row_count: usize,
}

/// The entries of an undo queue as mathematical values.
pub open spec fn entries<R>(queue: Seq<UndoArg<R>>) -> Seq<UndoEntry<R>> {
    Seq::new(queue.len(), |i: int| queue[i]@)
}

/// The rows and columns that a desired selection names.
pub open spec fn desired_model(desired: Option<Vec<(RowIdx, Vec<ColumnIdx>)>>) -> Option<
    Seq<(RowIdx, Seq<ColumnIdx>)>,
> {
    match desired {
        Some(list) => Some(list@.map_values(|e: (RowIdx, Vec<ColumnIdx>)| (e.0, e.1@))),
        None => None,
    }
}

impl<R> View for UiState<R> {
    type V = UiModel<R>;

    open(crate) spec fn view(&self) -> UiModel<R> {
        UiModel {
            viewer_type: self.viewer_type,
            viewer_filter_hash: self.viewer_filter_hash,
            history: entries(self.undo_queue@),
            undo_cursor: self.undo_cursor as int,
            clipboard: match self.clipboard {
                Some(clipboard) => Some(clipboard@),
                None => None,
            },
            num_columns: self.p.num_columns,
            vis_cols: self.p.vis_cols@,
            sort: self.p.sort@,
            is_p_loaded: self.is_p_loaded,
            rows: self.cc_rows@,
            row_heights: self.cc_row_heights@,
            row_id_to_vis: self.cc_row_id_to_vis@,
            dirty: self.cc_dirty,
            cursor: self.cc_cursor@,
            num_frame_from_last_edit: self.cc_num_frame_from_last_edit,
            prev_n_columns: self.cc_prev_n_columns,
            interactive_cell: self.cc_interactive_cell,
            desired_selection: desired_model(self.cc_desired_selection),
            gesture: self.cci_selection,
            has_focus: self.cci_has_focus,
            want_move_scroll: self.cci_want_move_scroll,
            page_row_count: self.cci_page_row_count,
        }
    }
}

/// Whether `columns` can be the visible columns of a viewer of `num_columns` columns:
/// at least one column, none twice, each one of the viewer's.
pub open spec fn valid_columns(columns: Seq<ColumnIdx>, num_columns: usize) -> bool {
    &&& columns.len() > 0
    &&& columns.no_duplicates()
    &&& forall|i: int| 0 <= i < columns.len() ==> (#[trigger] columns[i]).0 < num_columns
}

/// Whether both corners of every rectangle lie among the first `cells` cells.
pub open spec fn rects_within(sels: Seq<VisSelection>, cells: int) -> bool {
    forall|i: int|
        0 <= i < sels.len() ==> (#[trigger] sels[i]).0.0 < cells && sels[i].1.0 < cells
}

impl<R> CommandModel<R> {
    /// Whether the command is one of those that are applied to the rows and recorded
    /// in the undo history.
    pub open spec fn is_recorded(self) -> bool {
        match self {
            CommandModel::SetColumnSort(_) => true,
            CommandModel::SetVisibleColumns(_) => true,
            CommandModel::SetRowValue(_, _) => true,
            CommandModel::SetCells { .. } => true,
            CommandModel::InsertRows(_, _) => true,
            CommandModel::RemoveRow(_) => true,
            _ => false,
        }
    }

    /// Whether the command can stand in the history of a grid of `num_columns`
    /// columns: it is recorded, and a list of visible columns in it is valid.
    pub open spec fn recordable(self, num_columns: usize) -> bool {
        &&& self.is_recorded()
        &&& match self {
            CommandModel::SetVisibleColumns(columns) => valid_columns(columns, num_columns),
            _ => true,
        }
    }
}

impl<R> UndoEntry<R> {
    /// Whether the entry can stand in the history of a grid of `num_columns` columns.
    pub open spec fn recordable(self, num_columns: usize) -> bool {
        &&& self.apply.recordable(num_columns)
        &&& forall|i: int|
            0 <= i < self.restore.len() ==> (#[trigger] self.restore[i]).recordable(num_columns)
    }
}

impl<R> CursorModel<R> {
    /// The selected rectangles; none while a row is edited.
    pub open spec fn selections(self) -> Seq<VisSelection> {
        match self {
            CursorModel::Select(selections) => selections,
            CursorModel::Edit { .. } => Seq::empty(),
        }
    }

    /// Some selected rectangle holds the cell.
    pub open spec fn selects(self, ncol: usize, row: int, col: int) -> bool {
        exists|i: int|
            0 <= i < self.selections().len() && (#[trigger] self.selections()[i]).covers(
                ncol,
                row,
                col,
            )
    }
}

impl<R> UiModel<R> {
    /// Number of visible columns.
    pub open spec fn ncol(self) -> usize {
        self.vis_cols.len() as usize
    }

    /// The position of each displayed row is what `row_id_to_vis` says, and it says
    /// nothing of other rows. So no row is displayed twice.
    pub open spec fn rows_indexed(self) -> bool {
        &&& forall|i: int|
            0 <= i < self.rows.len() ==> {
                &&& self.row_id_to_vis.contains_key((#[trigger] self.rows[i]).0)
                &&& self.row_id_to_vis[self.rows[i].0] == i
            }
        &&& forall|id: usize| #[trigger]
            self.row_id_to_vis.contains_key(id) ==> {
                &&& self.row_id_to_vis[id] < self.rows.len()
                &&& self.rows[self.row_id_to_vis[id] as int].0 == id
            }
    }

    /// What holds of the state of a grid at any time after its first validation.
    pub open spec fn wf(self) -> bool {
        &&& valid_columns(self.vis_cols, self.num_columns)
        &&& 0 <= self.undo_cursor <= self.history.len()
        &&& forall|i: int|
            0 <= i < self.history.len() ==> (#[trigger] self.history[i]).recordable(
                self.num_columns,
            )
        &&& self.rows_indexed()
        &&& (self.rows.len() + 1) * self.num_columns <= usize::MAX
    }

    /// Number of cells of the displayed grid.
    pub open spec fn cells(self) -> int {
        (self.rows.len() * self.vis_cols.len()) as int
    }

    /// Whether the selected rectangles lie inside the displayed grid.
    pub open spec fn selection_in_grid(self) -> bool {
        rects_within(self.cursor.selections(), self.cells())
    }

    /// Whether the cell where a drag began and the cell where it is now lie inside
    /// the displayed grid.
    pub open spec fn gesture_in_grid(self) -> bool {
        match self.gesture {
            Some((pivot, current)) => pivot.0 < self.cells() && current.0 < self.cells(),
            None => true,
        }
    }

    /// The state of a grid that has not been validated yet.
    pub open spec fn blank() -> UiModel<R> {
        UiModel {
            viewer_type: 0,
            viewer_filter_hash: 0,
            history: Seq::empty(),
            undo_cursor: 0,
            clipboard: None,
            num_columns: 0,
            vis_cols: Seq::empty(),
            sort: Seq::empty(),
            is_p_loaded: false,
            rows: Seq::empty(),
            row_heights: Seq::empty(),
            row_id_to_vis: Map::empty(),
            dirty: false,
            cursor: CursorModel::Select(Seq::empty()),
            num_frame_from_last_edit: 0,
            prev_n_columns: 0,
            interactive_cell: VisLinearIdx(0),
            desired_selection: None,
            gesture: None,
            has_focus: false,
            want_move_scroll: false,
            page_row_count: 0,
        }
    }

    /// The gesture as a rectangle.
    pub open spec fn gesture_rect(self) -> VisSelection
        recommends
            self.gesture is Some,
    {
        match self.gesture {
            Some((pivot, current)) => VisSelection::spanning(self.ncol(), pivot, current),
            None => arbitrary(),
        }
    }
}

impl<R> Default for UiState<R> {
    fn default() -> (state: Self)
        ensures
            state@ == UiModel::<R>::blank(),
    {
        let state = Self {
            viewer_filter_hash: 0,
            clipboard: None,
            viewer_type: 0,
            cc_cursor: CursorState::Select(Vec::new()),
            undo_queue: VecDeque::new(),
            cc_rows: Vec::new(),
            cc_row_heights: Vec::new(),
            cc_dirty: false,
            undo_cursor: 0,
            cci_selection: None,
            cci_has_focus: false,
            cc_interactive_cell: VisLinearIdx(0),
            cc_row_id_to_vis: HashMap::new(),
            cc_num_frame_from_last_edit: 0,
            cc_prev_n_columns: 0,
            cc_desired_selection: None,
            cci_want_move_scroll: false,
            cci_page_row_count: 0,
            p: PersistData { num_columns: 0, vis_cols: Vec::new(), sort: Vec::new() },
            is_p_loaded: false,
        };
        assert(state@.history =~= Seq::empty());
        assert(state@.row_id_to_vis =~= Map::empty());
        state
    }
}

impl<R> UiState<R> {
    /// Whether the displayed rows have to be chosen anew.
    pub fn cc_is_dirty(&self) -> (dirty: bool)
        ensures
            dirty == self@.dirty,
    {
        self.cc_dirty
    }

    /// The visible columns, in the order in which they are shown.
    pub fn vis_cols(&self) -> (columns: &Vec<ColumnIdx>)
        ensures
            columns@ == self@.vis_cols,
    {
        &self.p.vis_cols
    }

    /// Has the displayed rows chosen anew at the next validation.
    pub fn force_mark_dirty(&mut self)
        ensures
            final(self)@ == (UiModel { dirty: true, ..old(self)@ }),
    {
        self.cc_dirty = true;
    }

    /// If `row_id` is the row being edited: whether its editor has yet to take the
    /// focus, and the column that takes it. The focus is handed out once.
    pub fn row_editing_cell(&mut self, row_id: RowIdx) -> (cell: Option<(bool, VisColumnPos)>)
        ensures
            match old(self)@.cursor {
                CursorModel::Edit { next_focus, last_focus, row, edition } if row == row_id => {
                    &&& cell == Some((next_focus, last_focus))
                    &&& final(self)@ == (UiModel {
                        cursor: CursorModel::Edit { next_focus: false, last_focus, row, edition },
                        ..old(self)@
                    })
                },
                _ => cell is None && final(self)@ == old(self)@,
            },
    {
        match &mut self.cc_cursor {
            CursorState::Edit { row, last_focus, next_focus, .. } => {
                if *row == row_id {
                    let asked = *next_focus;
                    *next_focus = false;
                    Some((asked, *last_focus))
                } else {
                    None
                }
            },
            _ => None,
        }
    }

    /// Number of columns of the viewer.
    pub fn num_columns(&self) -> (n: usize)
        ensures
            n == self@.num_columns,
    {
        self.p.num_columns
    }

    /// The sort keys, the most significant first.
    pub fn sort(&self) -> (keys: &[(ColumnIdx, IsAscending)])
        ensures
            keys@ == self@.sort,
    {
        self.p.sort.as_slice()
    }

    /// The working copy of the row being edited.
    pub fn unwrap_editing_row_data(&mut self) -> (edition: &mut R)
        requires
            old(self)@.cursor is Edit,
        ensures
            *edition == old(self)@.cursor->Edit_edition,
            final(self)@ == (UiModel {
                cursor: CursorModel::Edit {
                    next_focus: old(self)@.cursor->Edit_next_focus,
                    last_focus: old(self)@.cursor->Edit_last_focus,
                    row: old(self)@.cursor->Edit_row,
                    edition: *final(edition),
                },
                ..old(self)@
            }),
    {
        match &mut self.cc_cursor {
            CursorState::Edit { edition, .. } => edition,
            _ => vstd::pervasive::unreached(),
        }
    }

    /// Whether a row is being edited.
    pub fn is_editing(&self) -> (b: bool)
        ensures
            b == self@.cursor is Edit,
    {
        matches!(self.cc_cursor, CursorState::Edit { .. })
    }

    /// Whether the cell is selected.
    pub fn is_selected(&self, row: VisRowPos, col: VisColumnPos) -> (b: bool)
        requires
            self@.vis_cols.len() > 0,
        ensures
            b == self@.cursor.selects(self@.ncol(), row.0 as int, col.0 as int),
    {
        if let CursorState::Select(selections) = &self.cc_cursor {
            let mut i: usize = 0;
            while i < selections.len()
                invariant
                    self@.vis_cols.len() > 0,
                    self@.cursor == CursorModel::<R>::Select(selections@),
                    i <= selections@.len(),
                    forall|k: int|
                        0 <= k < i ==> !(#[trigger] selections@[k]).covers(
                            self@.ncol(),
                            row.0 as int,
                            col.0 as int,
                        ),
                decreases selections@.len() - i,
            {
                if self.vis_sel_contains(selections[i], row, col) {
                    assert(self@.cursor.selections()[i as int].covers(
                        self@.ncol(),
                        row.0 as int,
                        col.0 as int,
                    ));
                    return true;
                }
                i += 1;
            }
            false
        } else {
            false
        }
    }

    /// Whether the cell lies inside the rectangle that is being dragged.
    pub fn is_selected_cci(&self, row: VisRowPos, col: VisColumnPos) -> (b: bool)
        requires
            self@.wf(),
            self@.gesture_in_grid(),
        ensures
            b == (self@.gesture is Some && self@.gesture_rect().covers(
                self@.ncol(),
                row.0 as int,
                col.0 as int,
            )),
    {
        match self.cci_selection {
            Some((pivot, current)) => {
                proof {
                    lemma_grid_fits(self@);
                    lemma_in_grid_fits(pivot, self@.rows.len() as int, self@.ncol());
                    lemma_in_grid_fits(current, self@.rows.len() as int, self@.ncol());
                }
                self.vis_sel_contains(
                    VisSelection::from_points(self.p.vis_cols.len(), pivot, current),
                    row,
                    col,
                )
            },
            None => false,
        }
    }

    /// The column of the interactive cell if it lies in `row`.
    pub fn is_interactive_row(&self, row: VisRowPos) -> (col: Option<VisColumnPos>)
        requires
            self@.vis_cols.len() > 0,
        ensures
            col == if self@.interactive_cell.row(self@.ncol()) == row.0 {
                Some(VisColumnPos(self@.interactive_cell.col(self@.ncol()) as usize))
            } else {
                None
            },
    {
        let (r, c) = self.cc_interactive_cell.row_col(self.p.vis_cols.len());
        if r == row {
            Some(c)
        } else {
            None
        }
    }

    /// Row and column of the interactive cell.
    pub fn interactive_cell(&self) -> (cell: (VisRowPos, VisColumnPos))
        requires
            self@.vis_cols.len() > 0,
        ensures
            cell.0.0 == self@.interactive_cell.row(self@.ncol()),
            cell.1.0 == self@.interactive_cell.col(self@.ncol()),
    {
        self.cc_interactive_cell.row_col(self.p.vis_cols.len())
    }

    /// The drag has reached `current`. A drag that has not begun begins there.
    pub fn cci_sel_update(&mut self, current: VisLinearIdx)
        ensures
            final(self)@ == (UiModel {
                gesture: Some(
                    match old(self)@.gesture {
                        Some((pivot, _)) => (pivot, current),
                        None => (current, current),
                    },
                ),
                ..old(self)@
            }),
    {
        if let Some((_, reached)) = &mut self.cci_selection {
            *reached = current;
        } else {
            self.cci_selection = Some((current, current));
        }
    }

    /// The drag has reached the row `row`: it spans the row from the first column, or
    /// from where it began, to the last column.
    pub fn cci_sel_update_row(&mut self, row: VisRowPos)
        requires
            old(self)@.vis_cols.len() > 0,
            crate::index::linear(old(self)@.ncol() as int, row.0 as int, old(self)@.ncol() - 1)
                <= usize::MAX,
        ensures
            final(self)@ == (UiModel {
                gesture: Some(
                    (
                        match old(self)@.gesture {
                            Some((pivot, _)) => pivot,
                            None => VisLinearIdx(
                                crate::index::linear(old(self)@.ncol() as int, row.0 as int, 0) as usize,
                            ),
                        },
                        VisLinearIdx(
                            crate::index::linear(
                                old(self)@.ncol() as int,
                                row.0 as int,
                                old(self)@.ncol() - 1,
                            ) as usize,
                        ),
                    ),
                ),
                ..old(self)@
            }),
    {
        let ncol = self.p.vis_cols.len();
        proof {
            crate::index::lemma_linear_monotonic(ncol as int, row.0 as int, 0, row.0 as int, ncol - 1);
            crate::index::lemma_linear_monotonic(ncol as int, 0, 0, row.0 as int, 0);
        }
        self.cci_sel_update(row.linear_index(ncol, VisColumnPos(0)));
        self.cci_sel_update(row.linear_index(ncol, VisColumnPos(ncol - 1)));
    }

    /// Whether a drag is going on.
    pub fn has_cci_selection(&self) -> (b: bool)
        ensures
            b == self@.gesture is Some,
    {
        self.cci_selection.is_some()
    }

    /// Whether the cell lies inside `sel`.
    pub fn vis_sel_contains(&self, sel: VisSelection, row: VisRowPos, col: VisColumnPos) -> (b:
        bool)
        requires
            self@.vis_cols.len() > 0,
        ensures
            b == sel.covers(self@.ncol(), row.0 as int, col.0 as int),
    {
        sel.contains(self.p.vis_cols.len(), row, col)
    }

    /// Whether anything has been copied.
    pub fn has_clipboard_contents(&self) -> (b: bool)
        ensures
            b == self@.clipboard is Some,
    {
        self.clipboard.is_some()
    }

    /// Whether a command can be undone.
    pub fn has_undo(&self) -> (b: bool)
        ensures
            b == (self@.undo_cursor < self@.history.len()),
    {
        self.undo_cursor < self.undo_queue.len()
    }

    /// Whether an undone command can be applied again.
    pub fn has_redo(&self) -> (b: bool)
        ensures
            b == (self@.undo_cursor > 0),
    {
        self.undo_cursor > 0
    }

    /// The selected rectangles, unless a row is being edited.
    pub fn cursor_as_selection(&self) -> (selections: Option<&[VisSelection]>)
        ensures
            match self@.cursor {
                CursorModel::Select(list) => selections is Some && selections->0@ == list,
                CursorModel::Edit { .. } => selections is None,
            },
    {
        match &self.cc_cursor {
            CursorState::Select(x) => Some(x.as_slice()),
            CursorState::Edit { .. } => None,
        }
    }

    /// What the cursor is doing: editing; nothing selected; one cell selected; more.
    pub fn ui_action_context(&self) -> (context: UiActionContext)
        ensures
            context.cursor == match self@.cursor {
                CursorModel::Select(list) => if list.len() == 0 {
                    UiCursorState::Idle
                } else if list.len() == 1 && list[0].0 == list[0].1 {
                    UiCursorState::SelectOne
                } else {
                    UiCursorState::SelectMany
                },
                CursorModel::Edit { .. } => UiCursorState::Editing,
            },
    {
        UiActionContext::new(
            match &self.cc_cursor {
                CursorState::Select(x) => {
                    if x.len() == 0 {
                        UiCursorState::Idle
                    } else if x.len() == 1 && x[0].0 == x[0].1 {
                        UiCursorState::SelectOne
                    } else {
                        UiCursorState::SelectMany
                    }
                },
                CursorState::Edit { .. } => UiCursorState::Editing,
            },
        )
    }

    /// Makes the cell at `row`, `col` the interactive cell.
    pub fn set_interactive_cell(&mut self, row: VisRowPos, col: VisColumnPos)
        requires
            crate::index::linear(old(self)@.ncol() as int, row.0 as int, col.0 as int) <= usize::MAX,
        ensures
            final(self)@ == (UiModel {
                interactive_cell: VisLinearIdx(
                    crate::index::linear(old(self)@.ncol() as int, row.0 as int, col.0 as int) as usize,
                ),
                ..old(self)@
            }),
    {
        self.cc_interactive_cell = row.linear_index(self.p.vis_cols.len(), col);
    }
}

/// Distinct columns of a viewer are no more than the viewer has.
pub proof fn lemma_columns_bounded(columns: Seq<ColumnIdx>, num_columns: usize)
    requires
        columns.no_duplicates(),
        forall|i: int| 0 <= i < columns.len() ==> (#[trigger] columns[i]).0 < num_columns,
    ensures
        columns.len() <= num_columns,
    decreases num_columns,
{
    if num_columns == 0 {
        if columns.len() > 0 {
            assert(columns[0].0 < num_columns);
        }
    } else {
        let top = ColumnIdx((num_columns - 1) as usize);
        let rest = if columns.contains(top) {
            columns.remove(columns.index_of(top))
        } else {
            columns
        };
        assert forall|i: int| 0 <= i < rest.len() implies (#[trigger] rest[i]).0 < num_columns
            - 1 by {
            if columns.contains(top) {
                let k = columns.index_of(top);
                let j = if i < k {
                    i
                } else {
                    i + 1
                };
                assert(rest[i] == columns[j]);
                assert(columns[j] != columns[k]);
            } else {
                assert(columns[i].0 < num_columns);
                assert(columns[i] != top);
            }
        }
        assert(rest.no_duplicates()) by {
            if columns.contains(top) {
                let k = columns.index_of(top);
                assert forall|i: int, j: int| 0 <= i < rest.len() && 0 <= j < rest.len() && i != j
                    implies rest[i] != rest[j] by {
                    let i2 = if i < k {
                        i
                    } else {
                        i + 1
                    };
                    let j2 = if j < k {
                        j
                    } else {
                        j + 1
                    };
                    assert(rest[i] == columns[i2]);
                    assert(rest[j] == columns[j2]);
                }
            }
        }
        lemma_columns_bounded(rest, (num_columns - 1) as usize);
    }
}

/// The cells of a displayed grid can be counted.
pub proof fn lemma_grid_fits<R>(m: UiModel<R>)
    requires
        m.wf(),
    ensures
        0 < m.vis_cols.len() <= m.num_columns,
        0 <= m.cells() <= usize::MAX,
        m.cells() + m.num_columns <= usize::MAX,
{
    lemma_columns_bounded(m.vis_cols, m.num_columns);
    let rows = m.rows.len() as int;
    let n = m.vis_cols.len() as int;
    let all = m.num_columns as int;
    assert(rows * n <= rows * all) by (nonlinear_arith)
        requires
            0 <= rows,
            0 <= n <= all,
    ;
    assert((rows + 1) * all == rows * all + all) by (nonlinear_arith);
    assert(0 <= rows * n) by (nonlinear_arith)
        requires
            0 <= rows,
            0 <= n,
    ;
}

/// A cell of a grid of `nrows` rows lies in one of these rows, and the last cell of
/// its row lies in the grid too.
pub proof fn lemma_in_grid_fits(cell: VisLinearIdx, nrows: int, ncol: usize)
    requires
        ncol > 0,
        cell.0 < nrows * ncol <= usize::MAX,
    ensures
        0 <= cell.row(ncol) < nrows,
        0 <= cell.col(ncol) < ncol,
        crate::index::linear(ncol as int, cell.row(ncol), ncol - 1) < nrows * ncol,
        VisSelection::row_fits(ncol, cell.row(ncol)),
{
    crate::index::lemma_row_col_linear(ncol as int, cell.0 as int);
    let row = cell.row(ncol);
    let n = ncol as int;
    assert(row < nrows) by (nonlinear_arith)
        requires
            row * n <= cell.0,
            cell.0 < nrows * n,
            n > 0,
    ;
    assert(row * n + (n - 1) < nrows * n) by (nonlinear_arith)
        requires
            row < nrows,
            n > 0,
    ;
}

} // verus!
