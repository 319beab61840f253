use egui_data_table::command::Command;
use egui_data_table::index::{
    ColumnIdx, IsAscending, RowIdx, RowSlabIndex, VisColumnPos, VisLinearIdx, VisRowPos, VisSelection,
};
use egui_data_table::input::Modifiers;
use egui_data_table::state::{PersistData, UiState, BASELINE_ROW_HEIGHT};
use egui_data_table::viewer::{
    CellOrder, CellWriteContext, DecodeErrorBehavior, EmptyRowCreateContext, MoveDirection,
    RowCodec, RowViewer, UiCursorState,
};
use egui_data_table::{DataTable, UiAction};

type Row = Vec<String>;

fn row(cells: &[&str]) -> Row {
    cells.iter().map(|c| c.to_string()).collect()
}

struct Codec {
    columns: usize,
}

impl RowCodec<Row> for Codec {
    type DeserializeError = ();

    fn create_empty_decoded_row(&mut self) -> Row {
        vec![String::new(); self.columns]
    }

    fn encode_column(&mut self, src_row: &Row, column: usize, dst: &mut String) {
        dst.push_str(&src_row[column]);
    }

    fn decode_column(
        &mut self,
        src_data: &str,
        column: usize,
        dst_row: &mut Row,
    ) -> Result<(), DecodeErrorBehavior> {
        match src_data {
            "!cell" => Err(DecodeErrorBehavior::SkipCell),
            "!row" => Err(DecodeErrorBehavior::SkipRow),
            "!abort" => Err(DecodeErrorBehavior::Abort),
            _ => {
                dst_row[column] = src_data.to_owned();
                Ok(())
            }
        }
    }
}

struct Viewer {
    columns: usize,
    hide: Option<String>,
    codec: bool,
    locked_column: Option<usize>,
    keep_rows_with: Option<String>,
    deletions: bool,
    /// What the viewer was asked, in the order in which it was asked.
    asked: Vec<String>,
}

impl Viewer {
    fn new(columns: usize) -> Self {
        Viewer {
            columns,
            hide: None,
            codec: true,
            locked_column: None,
            keep_rows_with: None,
            deletions: true,
            asked: Vec::new(),
        }
    }
}

impl RowViewer<Row> for Viewer {
    type Codec = Codec;

    fn num_columns(&mut self) -> usize {
        self.columns
    }

    fn try_create_codec(&mut self, is_encoding: bool) -> Option<Codec> {
        self.asked.push(format!("codec {is_encoding}"));
        if self.codec {
            Some(Codec { columns: self.columns })
        } else {
            None
        }
    }

    fn is_sortable_column(&mut self, column: usize) -> bool {
        self.asked.push(format!("sortable {column}"));
        true
    }

    fn is_editable_cell(&mut self, column: usize, row: usize, row_value: &Row) -> bool {
        self.asked.push(format!("editable {column} {row} {row_value:?}"));
        true
    }

    fn new_empty_row_for(&mut self, context: EmptyRowCreateContext) -> Row {
        self.asked.push(format!("empty {context:?}"));
        self.new_empty_row()
    }

    fn clone_row_as_copied_base(&mut self, row: &Row) -> Row {
        self.asked.push(format!("copy {row:?}"));
        row.clone()
    }

    fn clone_row_for_insertion(&mut self, row: &Row) -> Row {
        self.asked.push(format!("insert {row:?}"));
        row.clone()
    }

    fn compare_cell(&self, a: &Row, b: &Row, column: usize) -> CellOrder {
        match a[column].cmp(&b[column]) {
            std::cmp::Ordering::Less => CellOrder::Less,
            std::cmp::Ordering::Equal => CellOrder::Equal,
            std::cmp::Ordering::Greater => CellOrder::Greater,
        }
    }

    fn row_filter_hash(&mut self) -> u64 {
        match &self.hide {
            Some(text) => 1 + text.len() as u64,
            None => 0,
        }
    }

    fn filter_row(&mut self, row: &Row) -> bool {
        self.asked.push(format!("filter {row:?}"));
        match &self.hide {
            Some(text) => !row.iter().any(|cell| cell == text),
            None => true,
        }
    }

    fn set_cell_value(&mut self, src: &Row, dst: &mut Row, column: usize) {
        dst[column] = src[column].clone();
    }

    fn confirm_cell_write_by_ui(
        &mut self,
        current: &Row,
        next: &Row,
        column: usize,
        context: CellWriteContext,
    ) -> bool {
        self.asked.push(format!("write {current:?} {next:?} {column} {context:?}"));
        self.locked_column != Some(column)
    }

    fn confirm_row_deletion_by_ui(&mut self, row: &Row) -> bool {
        self.asked.push(format!("delete {row:?}"));
        match &self.keep_rows_with {
            Some(text) => !row.iter().any(|cell| cell == text),
            None => true,
        }
    }

    fn allow_row_deletions(&mut self) -> bool {
        self.deletions
    }

    fn new_empty_row(&mut self) -> Row {
        vec![String::new(); self.columns]
    }

    fn clone_row(&mut self, row: &Row) -> Row {
        row.clone()
    }
}

const CAPACITY: usize = 100;

struct Grid {
    ui: UiState<Row>,
    table: DataTable<Row>,
    vwr: Viewer,
}

impl Grid {
    fn new(columns: usize, rows: Vec<Row>) -> Grid {
        let mut grid = Grid {
            ui: UiState::default(),
            table: DataTable::from_rows(rows),
            vwr: Viewer::new(columns),
        };
        grid.frame();
        grid
    }

    /// What a frame does before anything is drawn.
    fn frame(&mut self) {
        self.ui.validate_identity(&mut self.vwr, 7);
        self.ui.validate_cc(&self.table, &mut self.vwr);
    }

    fn push(&mut self, command: Command<Row>) {
        self.ui.push_new_command(&mut self.table, &mut self.vwr, command, CAPACITY);
    }

    /// Applies an action and pushes the commands that it hands back. The text for
    /// the system clipboard is returned instead.
    fn act(&mut self, action: UiAction) -> Option<String> {
        let commands = self.ui.try_apply_ui_action(&mut self.table, &mut self.vwr, action);
        let mut text = None;
        for command in commands {
            match command {
                Command::CcUpdateSystemClipboard(t) => text = Some(t),
                other => self.push(other),
            }
        }
        text
    }

    fn select(&mut self, cells: &[((usize, usize), (usize, usize))]) {
        let ncol = self.ui.vis_cols().len();
        let sel = cells
            .iter()
            .map(|((r0, c0), (r1, c1))| {
                VisSelection(VisLinearIdx(r0 * ncol + c0), VisLinearIdx(r1 * ncol + c1))
            })
            .collect();
        self.push(Command::CcSetSelection(sel));
    }

    fn rows(&self) -> Vec<Row> {
        self.table.iter().cloned().collect()
    }

    fn selection(&self) -> Vec<VisSelection> {
        self.ui.cursor_as_selection().map(|s| s.to_vec()).unwrap_or_default()
    }
}

fn abc() -> Vec<Row> {
    vec![row(&["a0", "a1"]), row(&["b0", "b1"]), row(&["c0", "c1"])]
}

/* ------------------------------------- the view cache ---------------------------------------- */

#[test]
fn first_frame_shows_every_row_and_column() {
    let grid = Grid::new(2, abc());
    assert_eq!(grid.ui.cc_rows, vec![RowIdx(0), RowIdx(1), RowIdx(2)]);
    assert_eq!(grid.ui.vis_cols(), &vec![ColumnIdx(0), ColumnIdx(1)]);
    assert_eq!(grid.ui.num_columns(), 2);
    assert_eq!(grid.ui.cc_row_heights, vec![BASELINE_ROW_HEIGHT; 3]);
    assert_eq!(f32::from_bits(BASELINE_ROW_HEIGHT), 20.0);
    assert!(!grid.ui.cc_is_dirty());
    assert!(grid.selection().is_empty());
    assert_eq!(grid.ui.interactive_cell(), (VisRowPos(0), VisColumnPos(0)));
    assert!(!grid.ui.has_undo());
    assert!(!grid.ui.has_redo());
}

#[test]
fn filter_hides_rows_and_a_changed_filter_is_noticed() {
    let mut grid = Grid::new(2, abc());
    grid.vwr.hide = Some("b0".to_owned());
    grid.ui.validate_identity(&mut grid.vwr, 7);
    assert!(grid.ui.cc_is_dirty());
    grid.ui.validate_cc(&grid.table, &mut grid.vwr);
    assert_eq!(grid.ui.cc_rows, vec![RowIdx(0), RowIdx(2)]);
    assert_eq!(grid.ui.cc_row_heights.len(), 2);
    // The same filter again changes nothing.
    grid.ui.validate_identity(&mut grid.vwr, 7);
    assert!(!grid.ui.cc_is_dirty());
}

#[test]
fn empty_filtered_set_clears_selection_and_clamps_interactive_cell() {
    let mut grid = Grid::new(2, vec![row(&["x", "1"]), row(&["x", "2"])]);
    grid.select(&[((1, 1), (1, 1))]);
    assert_eq!(grid.ui.interactive_cell(), (VisRowPos(1), VisColumnPos(1)));
    grid.vwr.hide = Some("x".to_owned());
    grid.frame();
    assert!(grid.ui.cc_rows.is_empty());
    assert!(grid.selection().is_empty());
    assert_eq!(grid.ui.interactive_cell(), (VisRowPos(0), VisColumnPos(0)));
}

#[test]
fn another_viewer_resets_the_state() {
    let mut grid = Grid::new(2, abc());
    grid.push(Command::SetRowValue(RowIdx(0), Box::new(row(&["z", "z"]))));
    assert!(grid.ui.has_undo());
    grid.ui.validate_identity(&mut grid.vwr, 8);
    assert!(!grid.ui.has_undo());
    assert!(grid.ui.cc_is_dirty());
    assert!(grid.ui.cc_rows.is_empty());
    // A viewer with another number of columns resets it too.
    grid.ui.validate_cc(&grid.table, &mut grid.vwr);
    grid.vwr.columns = 1;
    grid.ui.validate_identity(&mut grid.vwr, 8);
    assert_eq!(grid.ui.vis_cols(), &vec![ColumnIdx(0)]);
    assert_eq!(grid.ui.num_columns(), 1);
}

#[test]
fn sort_is_stable_and_keys_count_from_the_first() {
    let rows = vec![
        row(&["b", "2", "r0"]),
        row(&["a", "2", "r1"]),
        row(&["b", "1", "r2"]),
        row(&["a", "2", "r3"]),
        row(&["a", "1", "r4"]),
    ];
    let mut grid = Grid::new(3, rows);
    grid.push(Command::SetColumnSort(vec![(ColumnIdx(0), IsAscending(true))]));
    grid.frame();
    // Rows with equal keys keep the order of the row store.
    assert_eq!(
        grid.ui.cc_rows,
        vec![RowIdx(1), RowIdx(3), RowIdx(4), RowIdx(0), RowIdx(2)]
    );
    grid.push(Command::SetColumnSort(vec![
        (ColumnIdx(0), IsAscending(true)),
        (ColumnIdx(1), IsAscending(false)),
    ]));
    grid.frame();
    assert_eq!(
        grid.ui.cc_rows,
        vec![RowIdx(1), RowIdx(3), RowIdx(4), RowIdx(0), RowIdx(2)]
    );
    grid.push(Command::SetColumnSort(vec![
        (ColumnIdx(1), IsAscending(true)),
        (ColumnIdx(0), IsAscending(false)),
    ]));
    grid.frame();
    assert_eq!(
        grid.ui.cc_rows,
        vec![RowIdx(2), RowIdx(4), RowIdx(0), RowIdx(1), RowIdx(3)]
    );
    assert_eq!(
        grid.ui.sort(),
        &[(ColumnIdx(1), IsAscending(true)), (ColumnIdx(0), IsAscending(false))]
    );
}

#[test]
fn sort_with_no_keys_leaves_filter_order() {
    let mut grid = Grid::new(2, vec![row(&["c", "1"]), row(&["a", "2"]), row(&["b", "3"])]);
    grid.ui.force_mark_dirty();
    grid.frame();
    assert_eq!(grid.ui.cc_rows, vec![RowIdx(0), RowIdx(1), RowIdx(2)]);
}

#[test]
fn resort_waits_two_frames_after_an_edit() {
    let mut grid = Grid::new(2, vec![row(&["b", "1"]), row(&["a", "2"])]);
    grid.push(Command::SetColumnSort(vec![(ColumnIdx(0), IsAscending(true))]));
    grid.frame();
    assert_eq!(grid.ui.cc_rows, vec![RowIdx(1), RowIdx(0)]);
    grid.push(Command::SetRowValue(RowIdx(0), Box::new(row(&["0", "1"]))));
    // The first frame after the write does not sort yet.
    grid.ui.validate_identity(&mut grid.vwr, 7);
    assert!(!grid.ui.cc_is_dirty());
    grid.ui.validate_cc(&grid.table, &mut grid.vwr);
    assert_eq!(grid.ui.cc_rows, vec![RowIdx(1), RowIdx(0)]);
    // The second does.
    grid.ui.validate_identity(&mut grid.vwr, 7);
    assert!(grid.ui.cc_is_dirty());
    grid.ui.validate_cc(&grid.table, &mut grid.vwr);
    assert_eq!(grid.ui.cc_rows, vec![RowIdx(0), RowIdx(1)]);
}

#[test]
fn selection_is_laid_out_anew_when_columns_change() {
    let mut grid = Grid::new(3, vec![row(&["a", "b", "c"]), row(&["d", "e", "f"])]);
    // Cells (0,1)..(1,2) of three columns; and one cell in the last column.
    grid.select(&[((0, 1), (1, 2)), ((1, 2), (1, 2))]);
    grid.push(Command::CcHideColumn(ColumnIdx(2)));
    grid.frame();
    // The first rectangle is cut at the last column; the second lies outside.
    assert_eq!(grid.selection(), vec![VisSelection(VisLinearIdx(1), VisLinearIdx(3))]);
}

#[test]
fn stored_layout_is_taken_over_once() {
    let mut grid = Grid::new(3, vec![row(&["a", "b", "c"])]);
    assert!(!grid.ui.is_persist_loaded());
    let stored = PersistData {
        num_columns: 3,
        vis_cols: vec![ColumnIdx(2), ColumnIdx(0)],
        sort: vec![(ColumnIdx(1), IsAscending(false))],
    };
    let out = grid.ui.validate_persistency(Some(stored), &mut grid.vwr);
    assert!(out.is_none());
    assert!(grid.ui.is_persist_loaded());
    assert!(grid.ui.cc_is_dirty());
    assert_eq!(grid.ui.vis_cols(), &vec![ColumnIdx(2), ColumnIdx(0)]);
    assert_eq!(grid.ui.sort(), &[(ColumnIdx(1), IsAscending(false))]);
    // While the state is dirty the layout is handed out to be stored.
    let out = grid.ui.validate_persistency(None, &mut grid.vwr).unwrap();
    assert_eq!(out.num_columns, 3);
    assert_eq!(out.vis_cols, vec![ColumnIdx(2), ColumnIdx(0)]);
    grid.frame();
    assert!(grid.ui.validate_persistency(None, &mut grid.vwr).is_none());
}

#[test]
fn stored_layout_for_other_columns_is_left_alone() {
    let mut grid = Grid::new(2, abc());
    let stored = PersistData { num_columns: 3, vis_cols: vec![ColumnIdx(2)], sort: vec![] };
    grid.ui.validate_persistency(Some(stored), &mut grid.vwr);
    assert_eq!(grid.ui.vis_cols(), &vec![ColumnIdx(0), ColumnIdx(1)]);
    let mut grid = Grid::new(2, abc());
    let twice = PersistData {
        num_columns: 2,
        vis_cols: vec![ColumnIdx(1), ColumnIdx(1)],
        sort: vec![],
    };
    grid.ui.validate_persistency(Some(twice), &mut grid.vwr);
    assert_eq!(grid.ui.vis_cols(), &vec![ColumnIdx(0), ColumnIdx(1)]);
}

/* --------------------------------------- selection ------------------------------------------- */

#[test]
fn take_selection_without_modifier_replaces_the_selection() {
    let mut grid = Grid::new(2, abc());
    grid.select(&[((0, 0), (0, 1))]);
    grid.ui.cci_sel_update(VisLinearIdx(5));
    grid.ui.cci_sel_update(VisLinearIdx(2));
    assert!(grid.ui.has_cci_selection());
    assert!(grid.ui.is_selected_cci(VisRowPos(1), VisColumnPos(1)));
    assert!(!grid.ui.is_selected_cci(VisRowPos(0), VisColumnPos(1)));
    let taken = grid.ui.cci_take_selection(Modifiers::none()).unwrap();
    assert_eq!(taken, vec![VisSelection(VisLinearIdx(2), VisLinearIdx(5))]);
    assert!(!grid.ui.has_cci_selection());
    assert!(grid.ui.cci_take_selection(Modifiers::none()).is_none());
}

#[test]
fn take_selection_with_command_toggles() {
    let command = Modifiers { ctrl: true, command: true, ..Modifiers::none() };
    let mut grid = Grid::new(2, abc());
    grid.select(&[((0, 0), (1, 1))]);
    // A rectangle inside a selected one removes that one.
    grid.ui.cci_sel_update(VisLinearIdx(1));
    assert_eq!(grid.ui.cci_take_selection(command), Some(vec![]));
    // One that lies inside none is added.
    grid.ui.cci_sel_update(VisLinearIdx(4));
    assert_eq!(
        grid.ui.cci_take_selection(command),
        Some(vec![
            VisSelection(VisLinearIdx(0), VisLinearIdx(3)),
            VisSelection(VisLinearIdx(4), VisLinearIdx(4)),
        ])
    );
}

#[test]
fn take_selection_with_shift_extends() {
    let mut grid = Grid::new(2, abc());
    grid.select(&[((0, 1), (0, 1))]);
    grid.ui.cci_sel_update(VisLinearIdx(4));
    // Two single cells are joined.
    assert_eq!(
        grid.ui.cci_take_selection(Modifiers::shift()),
        Some(vec![VisSelection(VisLinearIdx(0), VisLinearIdx(5))])
    );
    grid.select(&[((0, 0), (0, 1))]);
    grid.ui.cci_sel_update_row(VisRowPos(2));
    assert_eq!(
        grid.ui.cci_take_selection(Modifiers::shift()),
        Some(vec![
            VisSelection(VisLinearIdx(0), VisLinearIdx(1)),
            VisSelection(VisLinearIdx(4), VisLinearIdx(5)),
        ])
    );
    // A gesture of more than one cell is added even inside a selected rectangle.
    grid.select(&[((0, 0), (2, 1))]);
    grid.ui.cci_sel_update(VisLinearIdx(2));
    grid.ui.cci_sel_update(VisLinearIdx(3));
    assert_eq!(
        grid.ui.cci_take_selection(Modifiers::shift()),
        Some(vec![
            VisSelection(VisLinearIdx(0), VisLinearIdx(5)),
            VisSelection(VisLinearIdx(2), VisLinearIdx(3)),
        ])
    );
    // With nothing selected the gesture is the selection.
    grid.select(&[]);
    grid.ui.cci_sel_update(VisLinearIdx(3));
    assert_eq!(
        grid.ui.cci_take_selection(Modifiers::shift()),
        Some(vec![VisSelection(VisLinearIdx(3), VisLinearIdx(3))])
    );
}

#[test]
fn moved_position_clamps_and_wraps() {
    let grid = Grid::new(2, abc());
    let at = |r: usize, c: usize| VisLinearIdx(r * 2 + c);
    assert_eq!(grid.ui.moved_position(at(0, 1), MoveDirection::Up), at(0, 1));
    assert_eq!(grid.ui.moved_position(at(2, 0), MoveDirection::Up), at(1, 0));
    assert_eq!(grid.ui.moved_position(at(2, 1), MoveDirection::Down), at(2, 1));
    assert_eq!(grid.ui.moved_position(at(0, 1), MoveDirection::Down), at(1, 1));
    assert_eq!(grid.ui.moved_position(at(0, 0), MoveDirection::Left), at(0, 0));
    assert_eq!(grid.ui.moved_position(at(1, 0), MoveDirection::Left), at(0, 1));
    assert_eq!(grid.ui.moved_position(at(1, 1), MoveDirection::Left), at(1, 0));
    assert_eq!(grid.ui.moved_position(at(2, 1), MoveDirection::Right), at(2, 1));
    assert_eq!(grid.ui.moved_position(at(0, 1), MoveDirection::Right), at(1, 0));
    assert_eq!(grid.ui.moved_position(at(1, 0), MoveDirection::Right), at(1, 1));
}

#[test]
fn selected_cells_and_rows_are_listed_once_in_order() {
    let mut grid = Grid::new(2, abc());
    grid.select(&[((1, 0), (2, 1)), ((0, 1), (1, 1))]);
    assert_eq!(
        grid.ui.collect_selection(),
        vec![
            (VisRowPos(0), VisColumnPos(1)),
            (VisRowPos(1), VisColumnPos(0)),
            (VisRowPos(1), VisColumnPos(1)),
            (VisRowPos(2), VisColumnPos(0)),
            (VisRowPos(2), VisColumnPos(1)),
        ]
    );
    assert_eq!(
        grid.ui.collect_selected_rows(),
        vec![VisRowPos(0), VisRowPos(1), VisRowPos(2)]
    );
    assert!(grid.ui.is_selected(VisRowPos(0), VisColumnPos(1)));
    assert!(!grid.ui.is_selected(VisRowPos(0), VisColumnPos(0)));
    assert_eq!(grid.ui.ui_action_context().cursor, UiCursorState::SelectMany);
}

#[test]
fn highlight_changes_name_rows_in_order() {
    let mut grid = Grid::new(2, abc());
    grid.select(&[((2, 0), (2, 0)), ((0, 0), (0, 1))]);
    let new = [VisSelection(VisLinearIdx(2), VisLinearIdx(5))];
    assert_eq!(grid.ui.highlight_rows(&new), (vec![1, 2], vec![0]));
    let (on, off) = grid.ui.get_highlight_changes(&grid.table, &new);
    assert_eq!(on, vec![&row(&["b0", "b1"]), &row(&["c0", "c1"])]);
    assert_eq!(off, vec![&row(&["a0", "a1"])]);
}

/* ---------------------------------------- commands ------------------------------------------- */

#[test]
fn hiding_the_last_visible_column_is_rejected() {
    let mut grid = Grid::new(2, abc());
    grid.push(Command::CcHideColumn(ColumnIdx(0)));
    assert_eq!(grid.ui.vis_cols(), &vec![ColumnIdx(1)]);
    assert!(grid.ui.has_undo());
    grid.push(Command::CcHideColumn(ColumnIdx(1)));
    assert_eq!(grid.ui.vis_cols(), &vec![ColumnIdx(1)]);
    // One entry only: undoing it leaves nothing to undo.
    assert!(grid.ui.undo(&mut grid.table, &mut grid.vwr));
    assert_eq!(grid.ui.vis_cols(), &vec![ColumnIdx(0), ColumnIdx(1)]);
    assert!(!grid.ui.has_undo());
    assert!(!grid.ui.undo(&mut grid.table, &mut grid.vwr));
}

#[test]
fn show_and_reorder_columns() {
    let mut grid = Grid::new(3, vec![row(&["a", "b", "c"])]);
    grid.push(Command::CcHideColumn(ColumnIdx(1)));
    assert_eq!(grid.ui.vis_cols(), &vec![ColumnIdx(0), ColumnIdx(2)]);
    grid.push(Command::CcShowColumn { what: ColumnIdx(1), at: VisColumnPos(2) });
    assert_eq!(grid.ui.vis_cols(), &vec![ColumnIdx(0), ColumnIdx(2), ColumnIdx(1)]);
    grid.push(Command::CcReorderColumn { from: VisColumnPos(0), to: VisColumnPos(3) });
    assert_eq!(grid.ui.vis_cols(), &vec![ColumnIdx(2), ColumnIdx(1), ColumnIdx(0)]);
    grid.push(Command::CcReorderColumn { from: VisColumnPos(2), to: VisColumnPos(0) });
    assert_eq!(grid.ui.vis_cols(), &vec![ColumnIdx(0), ColumnIdx(2), ColumnIdx(1)]);
    // Moving a column to where it stands, or beyond the end, changes nothing.
    grid.push(Command::CcReorderColumn { from: VisColumnPos(1), to: VisColumnPos(1) });
    grid.push(Command::CcReorderColumn { from: VisColumnPos(1), to: VisColumnPos(4) });
    grid.push(Command::CcReorderColumn { from: VisColumnPos(1), to: VisColumnPos(2) });
    assert_eq!(grid.ui.vis_cols(), &vec![ColumnIdx(0), ColumnIdx(2), ColumnIdx(1)]);
    let mut undone = 0;
    while grid.ui.undo(&mut grid.table, &mut grid.vwr) {
        undone += 1;
    }
    assert_eq!(undone, 4);
    assert_eq!(grid.ui.vis_cols(), &vec![ColumnIdx(0), ColumnIdx(1), ColumnIdx(2)]);
}

#[test]
fn commands_without_effect_leave_no_history() {
    let mut grid = Grid::new(2, abc());
    grid.push(Command::SetVisibleColumns(vec![ColumnIdx(0), ColumnIdx(1)]));
    grid.push(Command::SetColumnSort(vec![]));
    grid.push(Command::RemoveRow(vec![]));
    grid.select(&[((0, 0), (0, 0))]);
    assert!(!grid.ui.has_undo());
    assert!(!grid.table.has_user_modification());
}

#[test]
fn insert_rows_then_undo_restores_rows() {
    let mut grid = Grid::new(2, abc());
    let before = grid.rows();
    grid.push(Command::InsertRows(
        RowIdx(1),
        vec![row(&["x0", "x1"]), row(&["y0", "y1"])],
    ));
    assert_eq!(
        grid.rows(),
        vec![
            row(&["a0", "a1"]),
            row(&["x0", "x1"]),
            row(&["y0", "y1"]),
            row(&["b0", "b1"]),
            row(&["c0", "c1"]),
        ]
    );
    assert!(grid.table.has_user_modification());
    assert!(grid.ui.cc_is_dirty());
    // The new rows are selected once the rows have been looked at again.
    grid.frame();
    assert_eq!(
        grid.selection(),
        vec![
            VisSelection(VisLinearIdx(2), VisLinearIdx(3)),
            VisSelection(VisLinearIdx(4), VisLinearIdx(5)),
        ]
    );
    assert!(grid.ui.undo(&mut grid.table, &mut grid.vwr));
    assert_eq!(grid.rows(), before);
    assert!(grid.ui.has_redo());
    grid.frame();
    assert!(grid.selection().is_empty());
    assert!(grid.ui.redo(&mut grid.table, &mut grid.vwr));
    assert_eq!(grid.rows().len(), 5);
    assert!(!grid.ui.redo(&mut grid.table, &mut grid.vwr));
}

#[test]
fn remove_rows_then_undo_puts_runs_back() {
    let rows: Vec<Row> = (0..7).map(|i| row(&[&i.to_string(), "-"])).collect();
    let mut grid = Grid::new(2, rows.clone());
    grid.push(Command::RemoveRow(vec![RowIdx(1), RowIdx(2), RowIdx(4), RowIdx(6)]));
    assert_eq!(grid.rows(), vec![rows[0].clone(), rows[3].clone(), rows[5].clone()]);
    assert!(grid.ui.undo(&mut grid.table, &mut grid.vwr));
    assert_eq!(grid.rows(), rows);
    assert!(grid.ui.redo(&mut grid.table, &mut grid.vwr));
    assert_eq!(grid.rows(), vec![rows[0].clone(), rows[3].clone(), rows[5].clone()]);
}

#[test]
fn undo_and_redo_round_trip() {
    let mut grid = Grid::new(2, abc());
    grid.push(Command::SetRowValue(RowIdx(1), Box::new(row(&["B0", "B1"]))));
    grid.push(Command::SetCells {
        slab: vec![row(&["p", "q"])],
        values: vec![
            (RowIdx(0), ColumnIdx(1), RowSlabIndex(0)),
            (RowIdx(2), ColumnIdx(0), RowSlabIndex(0)),
            (RowIdx(0), ColumnIdx(0), RowSlabIndex(0)),
        ],
    });
    grid.push(Command::SetColumnSort(vec![(ColumnIdx(1), IsAscending(false))]));
    let now = (grid.rows(), grid.ui.sort().to_vec(), grid.ui.vis_cols().clone());
    assert_eq!(now.0, vec![row(&["p", "q"]), row(&["B0", "B1"]), row(&["p", "c1"])]);
    for depth in 1..=3 {
        for _ in 0..depth {
            assert!(grid.ui.undo(&mut grid.table, &mut grid.vwr));
        }
        let there = (grid.rows(), grid.ui.sort().to_vec(), grid.ui.vis_cols().clone());
        for _ in 0..depth {
            assert!(grid.ui.redo(&mut grid.table, &mut grid.vwr));
        }
        assert_eq!((grid.rows(), grid.ui.sort().to_vec(), grid.ui.vis_cols().clone()), now);
        for _ in 0..depth {
            assert!(grid.ui.undo(&mut grid.table, &mut grid.vwr));
        }
        assert_eq!((grid.rows(), grid.ui.sort().to_vec(), grid.ui.vis_cols().clone()), there);
        for _ in 0..depth {
            assert!(grid.ui.redo(&mut grid.table, &mut grid.vwr));
        }
    }
    for _ in 0..3 {
        assert!(grid.ui.undo(&mut grid.table, &mut grid.vwr));
    }
    assert_eq!(grid.rows(), abc());
    assert!(grid.ui.sort().is_empty());
}

#[test]
fn a_new_command_drops_what_was_undone_and_history_is_bounded() {
    let mut grid = Grid::new(2, abc());
    for i in 0..5 {
        let value = row(&[&i.to_string(), "-"]);
        grid.ui.push_new_command(
            &mut grid.table,
            &mut grid.vwr,
            Command::SetRowValue(RowIdx(0), Box::new(value)),
            3,
        );
    }
    let mut undone = 0;
    while grid.ui.undo(&mut grid.table, &mut grid.vwr) {
        undone += 1;
    }
    assert_eq!(undone, 3);
    assert_eq!(grid.rows()[0], row(&["1", "-"]));
    assert!(grid.ui.redo(&mut grid.table, &mut grid.vwr));
    grid.push(Command::SetRowValue(RowIdx(0), Box::new(row(&["n", "-"]))));
    assert!(!grid.ui.has_redo());
    assert!(grid.ui.undo(&mut grid.table, &mut grid.vwr));
    assert_eq!(grid.rows()[0], row(&["2", "-"]));
}

#[test]
fn editing_commits_before_other_commands() {
    let mut grid = Grid::new(2, abc());
    grid.push(Command::CcEditStart(RowIdx(1), VisColumnPos(1), Box::new(row(&["b0", "b1"]))));
    assert!(grid.ui.is_editing());
    assert_eq!(grid.ui.interactive_cell(), (VisRowPos(1), VisColumnPos(1)));
    assert_eq!(grid.ui.ui_action_context().cursor, UiCursorState::Editing);
    assert_eq!(grid.ui.row_editing_cell(RowIdx(0)), None);
    assert_eq!(grid.ui.row_editing_cell(RowIdx(1)), Some((true, VisColumnPos(1))));
    assert_eq!(grid.ui.row_editing_cell(RowIdx(1)), Some((false, VisColumnPos(1))));
    grid.ui.unwrap_editing_row_data()[1] = "edited".to_owned();
    // Another command commits the edit first.
    grid.push(Command::SetColumnSort(vec![(ColumnIdx(0), IsAscending(true))]));
    assert!(!grid.ui.is_editing());
    assert_eq!(grid.rows()[1], row(&["b0", "edited"]));
    assert!(grid.ui.undo(&mut grid.table, &mut grid.vwr));
    assert!(grid.ui.undo(&mut grid.table, &mut grid.vwr));
    assert_eq!(grid.rows(), abc());
}

#[test]
fn cancelled_edit_writes_nothing() {
    let mut grid = Grid::new(2, abc());
    grid.push(Command::CcEditStart(RowIdx(0), VisColumnPos(0), Box::new(row(&["a0", "a1"]))));
    grid.ui.unwrap_editing_row_data()[0] = "edited".to_owned();
    grid.push(Command::CcCancelEdit);
    assert!(!grid.ui.is_editing());
    assert_eq!(grid.rows(), abc());
    assert!(!grid.ui.has_undo());
    // Ending an edit that is not going on does nothing.
    grid.push(Command::CcCommitEdit);
    assert!(!grid.ui.has_undo());
}

#[test]
fn cells_the_viewer_refuses_are_left_alone() {
    let mut grid = Grid::new(2, abc());
    grid.vwr.locked_column = Some(1);
    grid.push(Command::CcSetCells {
        slab: vec![row(&["x", "y"])],
        values: vec![
            (RowIdx(0), ColumnIdx(0), RowSlabIndex(0)),
            (RowIdx(0), ColumnIdx(1), RowSlabIndex(0)),
        ],
        context: CellWriteContext::Paste,
    });
    assert_eq!(grid.rows()[0], row(&["x", "a1"]));
}

/* ----------------------------------------- actions ------------------------------------------- */

#[test]
fn copy_and_paste_in_place() {
    let mut grid = Grid::new(2, abc());
    grid.select(&[((1, 0), (1, 0))]);
    assert!(!grid.ui.has_clipboard_contents());
    let text = grid.act(UiAction::CopySelection);
    assert_eq!(text.as_deref(), Some("b0"));
    assert!(grid.ui.has_clipboard_contents());
    grid.ui.set_interactive_cell(VisRowPos(2), VisColumnPos(0));
    grid.act(UiAction::PasteInPlace);
    assert_eq!(
        grid.rows(),
        vec![row(&["a0", "a1"]), row(&["b0", "b1"]), row(&["b0", "c1"])]
    );
    // The row that was written to is selected at the next frame.
    grid.frame();
    assert_eq!(grid.selection(), vec![VisSelection(VisLinearIdx(4), VisLinearIdx(4))]);
}

#[test]
fn copy_writes_rows_and_gaps_as_text() {
    let mut grid = Grid::new(3, vec![row(&["a", "", "c\td"]), row(&["e", "f", "g"])]);
    grid.select(&[((0, 1), (0, 2)), ((1, 2), (1, 2))]);
    let text = grid.act(UiAction::CopySelection);
    // Columns count from the least copied one; an empty cell is a space.
    assert_eq!(text.as_deref(), Some(" \tc\\td\n\tg"));
    // Without a codec nothing is shared, but the clipboard is filled.
    grid.vwr.codec = false;
    assert_eq!(grid.act(UiAction::CopySelection), None);
    assert!(grid.ui.has_clipboard_contents());
    // Copying nothing empties the clipboard.
    grid.select(&[]);
    assert_eq!(grid.act(UiAction::CopySelection), None);
    assert!(!grid.ui.has_clipboard_contents());
}

#[test]
fn paste_in_place_drops_cells_below_the_last_row() {
    let mut grid = Grid::new(2, abc());
    grid.select(&[((0, 0), (1, 0))]);
    grid.act(UiAction::CopySelection);
    grid.ui.set_interactive_cell(VisRowPos(2), VisColumnPos(0));
    grid.act(UiAction::PasteInPlace);
    assert_eq!(
        grid.rows(),
        vec![row(&["a0", "a1"]), row(&["b0", "b1"]), row(&["a0", "c1"])]
    );
}

#[test]
fn cut_copies_and_clears() {
    let mut grid = Grid::new(2, abc());
    grid.select(&[((0, 0), (0, 1))]);
    let text = grid.act(UiAction::CutSelection);
    assert_eq!(text.as_deref(), Some("a0\ta1"));
    assert_eq!(grid.rows()[0], row(&["", ""]));
    grid.ui.set_interactive_cell(VisRowPos(1), VisColumnPos(0));
    grid.act(UiAction::PasteInPlace);
    assert_eq!(grid.rows()[1], row(&["a0", "a1"]));
}

#[test]
fn paste_insert_makes_new_rows() {
    let mut grid = Grid::new(2, abc());
    grid.select(&[((0, 1), (1, 1))]);
    grid.act(UiAction::CopySelection);
    grid.ui.set_interactive_cell(VisRowPos(2), VisColumnPos(0));
    grid.act(UiAction::PasteInsert);
    assert_eq!(
        grid.rows(),
        vec![
            row(&["a0", "a1"]),
            row(&["b0", "b1"]),
            row(&["", "a1"]),
            row(&["", "b1"]),
            row(&["c0", "c1"]),
        ]
    );
    // Under a sort the new rows go to the end.
    let mut grid = Grid::new(2, abc());
    grid.push(Command::SetColumnSort(vec![(ColumnIdx(0), IsAscending(false))]));
    grid.frame();
    grid.select(&[((0, 0), (0, 0))]);
    grid.act(UiAction::CopySelection);
    grid.act(UiAction::PasteInsert);
    assert_eq!(grid.rows().len(), 4);
    assert_eq!(grid.rows()[3], row(&["c0", ""]));
}

#[test]
fn delete_and_duplicate() {
    let mut grid = Grid::new(2, abc());
    grid.select(&[((0, 1), (1, 1))]);
    grid.act(UiAction::DeleteSelection);
    assert_eq!(grid.rows(), vec![row(&["a0", ""]), row(&["b0", ""]), row(&["c0", "c1"])]);
    grid.select(&[((0, 0), (1, 1))]);
    grid.ui.set_interactive_cell(VisRowPos(2), VisColumnPos(0));
    grid.act(UiAction::SelectionDuplicateValues);
    assert_eq!(grid.rows(), vec![row(&["c0", "c1"]); 3]);
    grid.select(&[((1, 0), (2, 0))]);
    grid.act(UiAction::DuplicateRow);
    assert_eq!(grid.rows().len(), 5);
    grid.frame();
    assert_eq!(
        grid.selection(),
        vec![
            VisSelection(VisLinearIdx(2), VisLinearIdx(3)),
            VisSelection(VisLinearIdx(4), VisLinearIdx(5)),
        ]
    );
}

#[test]
fn delete_row_removes_in_store_order_what_the_viewer_lets_go() {
    let rows = vec![row(&["d", "keep"]), row(&["c", "1"]), row(&["b", "2"]), row(&["a", "3"])];
    let mut grid = Grid::new(2, rows);
    grid.push(Command::SetColumnSort(vec![(ColumnIdx(0), IsAscending(true))]));
    grid.frame();
    assert_eq!(grid.ui.cc_rows, vec![RowIdx(3), RowIdx(2), RowIdx(1), RowIdx(0)]);
    grid.vwr.keep_rows_with = Some("keep".to_owned());
    grid.select(&[((0, 0), (0, 0)), ((2, 0), (3, 1))]);
    grid.act(UiAction::DeleteRow);
    assert_eq!(grid.rows(), vec![row(&["d", "keep"]), row(&["b", "2"])]);
    grid.vwr.deletions = false;
    grid.frame();
    grid.select(&[((0, 0), (1, 1))]);
    grid.act(UiAction::DeleteRow);
    assert_eq!(grid.rows().len(), 2);
}

#[test]
fn navigation_and_select_all() {
    let rows: Vec<Row> = (0..10).map(|i| row(&[&i.to_string(), "-"])).collect();
    let mut grid = Grid::new(2, rows);
    grid.ui.cci_page_row_count = 4;
    grid.ui.set_interactive_cell(VisRowPos(1), VisColumnPos(1));
    grid.act(UiAction::NavPageDown);
    assert_eq!(grid.ui.interactive_cell(), (VisRowPos(5), VisColumnPos(1)));
    assert_eq!(grid.selection(), vec![VisSelection(VisLinearIdx(11), VisLinearIdx(11))]);
    grid.act(UiAction::NavPageDown);
    grid.act(UiAction::NavPageDown);
    assert_eq!(grid.ui.interactive_cell(), (VisRowPos(9), VisColumnPos(1)));
    grid.act(UiAction::NavPageUp);
    assert_eq!(grid.ui.interactive_cell(), (VisRowPos(5), VisColumnPos(1)));
    grid.act(UiAction::NavTop);
    assert_eq!(grid.ui.interactive_cell(), (VisRowPos(0), VisColumnPos(1)));
    grid.act(UiAction::NavPageUp);
    assert_eq!(grid.ui.interactive_cell(), (VisRowPos(0), VisColumnPos(1)));
    grid.act(UiAction::NavBottom);
    assert_eq!(grid.ui.interactive_cell(), (VisRowPos(9), VisColumnPos(1)));
    grid.act(UiAction::MoveSelection(MoveDirection::Left));
    assert_eq!(grid.ui.interactive_cell(), (VisRowPos(9), VisColumnPos(0)));
    assert!(grid.ui.cci_want_move_scroll);
    grid.act(UiAction::SelectAll);
    assert_eq!(grid.selection(), vec![VisSelection(VisLinearIdx(0), VisLinearIdx(19))]);
    assert_eq!(grid.ui.is_interactive_row(VisRowPos(0)), Some(VisColumnPos(0)));
    assert_eq!(grid.ui.is_interactive_row(VisRowPos(1)), None);
}

#[test]
fn editing_actions() {
    let mut grid = Grid::new(2, abc());
    grid.ui.set_interactive_cell(VisRowPos(1), VisColumnPos(0));
    grid.act(UiAction::SelectionStartEditing);
    assert!(grid.ui.is_editing());
    grid.ui.unwrap_editing_row_data()[0] = "one".to_owned();
    grid.act(UiAction::CommitEditionAndMove(MoveDirection::Right));
    // The next cell of the same row is edited on the row as it was edited.
    assert!(grid.ui.is_editing());
    assert_eq!(grid.rows()[1], row(&["one", "b1"]));
    assert_eq!(grid.ui.unwrap_editing_row_data(), &row(&["one", "b1"]));
    assert_eq!(grid.ui.interactive_cell(), (VisRowPos(1), VisColumnPos(1)));
    grid.ui.unwrap_editing_row_data()[1] = "two".to_owned();
    grid.act(UiAction::CancelEdition);
    assert_eq!(grid.rows()[1], row(&["one", "b1"]));
    grid.act(UiAction::SelectionStartEditing);
    grid.ui.unwrap_editing_row_data()[1] = "two".to_owned();
    grid.act(UiAction::CommitEdition);
    assert_eq!(grid.rows()[1], row(&["one", "two"]));
    grid.act(UiAction::Undo);
    assert_eq!(grid.rows()[1], row(&["one", "b1"]));
    grid.act(UiAction::Redo);
    assert_eq!(grid.rows()[1], row(&["one", "two"]));
}

/* ------------------------------------------ text --------------------------------------------- */

#[test]
fn text_is_read_into_the_clipboard_at_the_selection() {
    let mut grid = Grid::new(3, vec![row(&["a", "b", "c"]), row(&["d", "e", "f"])]);
    grid.select(&[((0, 1), (0, 1))]);
    assert!(grid.ui.try_update_clipboard_from_string(&mut grid.vwr, "x\ty\nz"));
    grid.ui.set_interactive_cell(VisRowPos(0), VisColumnPos(0));
    grid.act(UiAction::PasteInPlace);
    assert_eq!(grid.rows(), vec![row(&["a", "x", "y"]), row(&["d", "z", "f"])]);
}

#[test]
fn text_that_reaches_beyond_the_last_column_is_cut() {
    let mut grid = Grid::new(2, abc());
    grid.select(&[((0, 1), (0, 1))]);
    assert!(grid.ui.try_update_clipboard_from_string(&mut grid.vwr, "x\ty"));
    grid.ui.set_interactive_cell(VisRowPos(0), VisColumnPos(0));
    grid.act(UiAction::PasteInPlace);
    assert_eq!(grid.rows()[0], row(&["a0", "x"]));
}

#[test]
fn text_is_refused_without_selection_or_codec_or_if_too_wide() {
    let mut grid = Grid::new(2, abc());
    assert!(!grid.ui.try_update_clipboard_from_string(&mut grid.vwr, "x"));
    grid.select(&[((0, 0), (0, 0))]);
    assert!(!grid.ui.try_update_clipboard_from_string(&mut grid.vwr, "x\ty\tz"));
    grid.vwr.codec = false;
    assert!(!grid.ui.try_update_clipboard_from_string(&mut grid.vwr, "x"));
    assert!(!grid.ui.has_clipboard_contents());
}

#[test]
fn decode_errors_skip_cells_and_rows_or_give_up() {
    let mut grid = Grid::new(2, abc());
    grid.select(&[((0, 0), (0, 0))]);
    assert!(grid.ui.try_update_clipboard_from_string(
        &mut grid.vwr,
        "!cell\tp\nq\t!row\nr\ts"
    ));
    grid.act(UiAction::PasteInPlace);
    assert_eq!(
        grid.rows(),
        vec![row(&["a0", "p"]), row(&["b0", "b1"]), row(&["r", "s"])]
    );
    assert!(!grid.ui.try_update_clipboard_from_string(&mut grid.vwr, "x\n!abort"));
}

#[test]
fn text_falls_on_visible_columns() {
    let mut grid = Grid::new(3, vec![row(&["a", "b", "c"])]);
    grid.push(Command::SetVisibleColumns(vec![ColumnIdx(2), ColumnIdx(0)]));
    grid.frame();
    grid.select(&[((0, 0), (0, 0))]);
    assert!(grid.ui.try_update_clipboard_from_string(&mut grid.vwr, "x\ty"));
    grid.act(UiAction::PasteInPlace);
    assert_eq!(grid.rows(), vec![row(&["y", "b", "x"])]);
}

/* ------------------------------ what the viewer's answers lead to ----------------------------- */

#[test]
fn text_without_cells_is_read_whatever_the_codec_does() {
    let mut grid = Grid::new(2, abc());
    let mut codec = Codec { columns: 2 };
    // Without a selected cell nothing is read.
    assert!(!grid.ui.read_clipboard_text(&mut codec, "\n"));
    grid.select(&[((0, 0), (0, 0))]);
    assert!(grid.ui.read_clipboard_text(&mut codec, "\n\r\n"));
    assert!(grid.ui.has_clipboard_contents());
    // Where there are cells the codec decides.
    assert!(!grid.ui.read_clipboard_text(&mut codec, "!abort"));
    assert!(grid.ui.read_clipboard_text(&mut codec, "x"));
    assert!(!grid.ui.read_clipboard_text(&mut codec, "x\ty\tz"));
}

#[test]
fn start_editing_follows_the_answer() {
    let mut grid = Grid::new(2, abc());
    grid.ui.set_interactive_cell(VisRowPos(1), VisColumnPos(1));
    assert!(grid.ui.start_editing_if(&grid.table, &mut grid.vwr, false).is_empty());
    let commands = grid.ui.start_editing_if(&grid.table, &mut grid.vwr, true);
    assert_eq!(commands.len(), 1);
    match &commands[0] {
        Command::CcEditStart(at, column, value) => {
            assert_eq!(*at, RowIdx(1));
            assert_eq!(*column, VisColumnPos(1));
            assert_eq!(**value, row(&["b0", "b1"]));
        }
        _ => panic!("another command"),
    }
}

#[test]
fn removal_names_the_confirmed_rows_in_store_order() {
    let rows = vec![row(&["d", "0"]), row(&["c", "1"]), row(&["b", "2"]), row(&["a", "3"])];
    let mut grid = Grid::new(2, rows);
    grid.push(Command::SetColumnSort(vec![(ColumnIdx(0), IsAscending(true))]));
    grid.frame();
    grid.select(&[((0, 0), (2, 0))]);
    let selected = grid.ui.collect_selected_rows();
    assert_eq!(selected, vec![VisRowPos(0), VisRowPos(1), VisRowPos(2)]);
    match grid.ui.removal_of(&grid.table, &selected, &vec![true, false, true]) {
        Command::RemoveRow(removed) => assert_eq!(removed, vec![RowIdx(1), RowIdx(3)]),
        _ => panic!("another command"),
    }
    match grid.ui.removal_of(&grid.table, &selected, &vec![false, false, false]) {
        Command::RemoveRow(removed) => assert!(removed.is_empty()),
        _ => panic!("another command"),
    }
}

#[test]
fn insertion_goes_before_the_interactive_row_or_to_the_end() {
    let mut grid = Grid::new(2, abc());
    grid.ui.set_interactive_cell(VisRowPos(2), VisColumnPos(0));
    match grid.ui.insertion_of(&grid.table, vec![row(&["x", "y"])]) {
        Command::InsertRows(at, rows) => {
            assert_eq!(at, RowIdx(2));
            assert_eq!(rows, vec![row(&["x", "y"])]);
        }
        _ => panic!("another command"),
    }
    grid.push(Command::SetColumnSort(vec![(ColumnIdx(0), IsAscending(false))]));
    grid.frame();
    match grid.ui.insertion_of(&grid.table, vec![]) {
        Command::InsertRows(at, rows) => {
            assert_eq!(at, RowIdx(3));
            assert!(rows.is_empty());
        }
        _ => panic!("another command"),
    }
}

/// A codec that keeps a list of what it was asked to read.
struct Recorder {
    asked: Vec<(String, usize)>,
    made: usize,
}

impl RowCodec<Row> for Recorder {
    type DeserializeError = ();

    fn create_empty_decoded_row(&mut self) -> Row {
        self.made += 1;
        vec![String::new(); 3]
    }

    fn encode_column(&mut self, src_row: &Row, column: usize, dst: &mut String) {
        dst.push_str(&src_row[column]);
    }

    fn decode_column(
        &mut self,
        src_data: &str,
        column: usize,
        dst_row: &mut Row,
    ) -> Result<(), DecodeErrorBehavior> {
        self.asked.push((src_data.to_owned(), column));
        Codec { columns: 3 }.decode_column(src_data, column, dst_row)
    }
}

fn asked(cells: &[(&str, usize)]) -> Vec<(String, usize)> {
    cells.iter().map(|(text, column)| (text.to_string(), *column)).collect()
}

#[test]
fn the_codec_is_asked_cell_after_cell_until_it_skips_or_gives_up() {
    let rows = vec![row(&["a", "b", "c"]), row(&["d", "e", "f"]), row(&["g", "h", "i"])];
    let mut grid = Grid::new(3, rows.clone());
    grid.select(&[((0, 1), (0, 1))]);
    // The text begins at the second column: its third column falls outside.
    let mut codec = Recorder { asked: vec![], made: 0 };
    assert!(grid.ui.read_clipboard_text(&mut codec, "p\tq\tr\n!row\ts\n!cell\tt"));
    assert_eq!(codec.asked, asked(&[("p", 1), ("q", 2), ("!row", 1), ("!cell", 1), ("t", 2)]));
    assert_eq!(codec.made, 3);
    grid.ui.set_interactive_cell(VisRowPos(0), VisColumnPos(0));
    grid.act(UiAction::PasteInPlace);
    // The skipped row leaves its place empty; the skipped cell leaves its cell.
    let pasted = vec![row(&["a", "p", "q"]), row(&["d", "e", "f"]), row(&["g", "h", "t"])];
    assert_eq!(grid.rows(), pasted);

    // After `Abort` nothing more is asked, and what was read before stays.
    let mut codec = Recorder { asked: vec![], made: 0 };
    assert!(!grid.ui.read_clipboard_text(&mut codec, "x\t!abort\ny\tz"));
    assert_eq!(codec.asked, asked(&[("x", 1), ("!abort", 2)]));
    assert!(grid.ui.has_clipboard_contents());
    grid.act(UiAction::Undo);
    assert_eq!(grid.rows(), rows);
    grid.act(UiAction::PasteInPlace);
    assert_eq!(grid.rows(), pasted);
}

#[test]
fn skipped_rows_keep_their_place_in_the_text() {
    let mut grid = Grid::new(2, abc());
    grid.select(&[((0, 0), (0, 0))]);
    let mut codec = Recorder { asked: vec![], made: 0 };
    assert!(grid.ui.read_clipboard_text(&mut codec, "p\t!row\nq\n!cell\tr"));
    assert_eq!(codec.asked, asked(&[("p", 0), ("!row", 1), ("q", 0), ("!cell", 0), ("r", 1)]));
    grid.act(UiAction::PasteInPlace);
    assert_eq!(grid.rows(), vec![row(&["a0", "a1"]), row(&["q", "b1"]), row(&["c0", "r"])]);
}

#[test]
fn without_a_codec_nothing_is_read_and_the_clipboard_stays() {
    let mut grid = Grid::new(2, abc());
    grid.select(&[((0, 0), (0, 0))]);
    assert!(!grid.ui.read_clipboard_if(None::<Codec>, "x"));
    assert!(!grid.ui.has_clipboard_contents());
    assert!(grid.ui.read_clipboard_if(Some(Codec { columns: 2 }), "x\ty"));
    assert!(grid.ui.has_clipboard_contents());
    assert!(!grid.ui.read_clipboard_if(None::<Codec>, "z"));
    assert!(grid.ui.has_clipboard_contents());
    grid.act(UiAction::PasteInPlace);
    assert_eq!(grid.rows()[0], row(&["x", "y"]));
}

#[test]
fn pasted_columns_fall_on_visible_columns_from_the_first_on() {
    let mut grid = Grid::new(3, vec![row(&["a", "b", "c"])]);
    grid.push(Command::SetVisibleColumns(vec![ColumnIdx(2), ColumnIdx(0)]));
    grid.frame();
    assert_eq!(grid.ui.paste_target(0, 0), Some(ColumnIdx(2)));
    assert_eq!(grid.ui.paste_target(0, 1), Some(ColumnIdx(0)));
    assert_eq!(grid.ui.paste_target(1, 0), Some(ColumnIdx(0)));
    assert_eq!(grid.ui.paste_target(1, 1), None);
    assert_eq!(grid.ui.paste_target(2, 0), None);
    assert_eq!(grid.ui.paste_target(usize::MAX, usize::MAX), None);
}

#[test]
fn a_frame_begins_with_what_the_viewer_answered() {
    let mut grid = Grid::new(2, abc());
    grid.push(Command::SetColumnSort(vec![(ColumnIdx(1), IsAscending(false))]));
    // The rows are sorted anew in the second frame after a write; let that pass.
    for _ in 0..3 {
        grid.frame();
    }
    assert!(grid.ui.is_same_viewer(7, 2));
    assert!(!grid.ui.is_same_viewer(7, 3));
    assert!(!grid.ui.is_same_viewer(8, 2));

    // The same viewer: the state stays, a changed filter asks for the rows anew.
    grid.ui.begin_frame(7, 2, 0, &vec![true]);
    assert!(!grid.ui.cc_is_dirty());
    assert!(grid.ui.has_undo());
    grid.ui.begin_frame(7, 2, 5, &vec![true]);
    assert!(grid.ui.cc_is_dirty());
    assert_eq!(grid.ui.sort(), &[(ColumnIdx(1), IsAscending(false))]);
    // A sort key that can no longer be sorted by is dropped.
    grid.ui.begin_frame(7, 2, 5, &vec![false]);
    assert!(grid.ui.sort().is_empty());

    // Another number of columns: the state is made anew.
    grid.ui.begin_frame(7, 3, 5, &vec![]);
    assert_eq!(grid.ui.num_columns(), 3);
    assert_eq!(grid.ui.vis_cols(), &vec![ColumnIdx(0), ColumnIdx(1), ColumnIdx(2)]);
    assert!(grid.ui.sort().is_empty());
    assert!(!grid.ui.has_undo());
    assert!(!grid.ui.has_redo());
    assert!(!grid.ui.has_clipboard_contents());
    assert!(!grid.ui.is_editing());
    assert!(grid.selection().is_empty());
    assert!(grid.ui.cc_is_dirty());
}

#[test]
fn a_changed_column_count_resets_the_state() {
    let mut grid = Grid::new(2, abc());
    grid.push(Command::SetRowValue(RowIdx(0), Box::new(row(&["z", "z"]))));
    assert!(grid.ui.has_undo());
    grid.vwr.columns = 1;
    grid.ui.validate_identity(&mut grid.vwr, 7);
    assert_eq!(grid.ui.num_columns(), 1);
    assert_eq!(grid.ui.vis_cols(), &vec![ColumnIdx(0)]);
    assert!(!grid.ui.has_undo());
    assert!(grid.ui.cc_is_dirty());
}

#[test]
fn the_viewer_is_asked_about_the_rows_that_are_displayed() {
    let rows = vec![row(&["c", "0"]), row(&["a", "1"]), row(&["b", "2"])];
    let mut grid = Grid::new(2, rows);
    grid.push(Command::SetColumnSort(vec![(ColumnIdx(0), IsAscending(true))]));
    grid.frame();
    assert_eq!(grid.ui.shown_row(&grid.table, VisRowPos(0)), &row(&["a", "1"]));
    assert_eq!(grid.ui.shown_row(&grid.table, VisRowPos(2)), &row(&["c", "0"]));
    let (column, at, value) = grid.ui.edit_request(&grid.table, VisLinearIdx(3));
    assert_eq!((column, at), (1, 1));
    assert_eq!(value, &row(&["b", "2"]));
}

#[test]
fn a_dropped_gesture_selects_nothing() {
    let mut grid = Grid::new(2, abc());
    grid.ui.cci_sel_update(VisLinearIdx(3));
    assert!(grid.ui.has_cci_selection());
    grid.ui.cci_drop_selection();
    assert!(!grid.ui.has_cci_selection());
    assert!(grid.ui.cci_take_selection(Modifiers::none()).is_none());
}

/* --------------------------------- what the viewer is asked ---------------------------------- */

impl Grid {
    /// What the viewer was asked since the last call.
    fn asked(&mut self) -> Vec<String> {
        std::mem::take(&mut self.vwr.asked)
    }
}

#[test]
fn a_frame_asks_about_the_sort_keys_and_about_every_row() {
    let mut grid = Grid::new(2, abc());
    grid.push(Command::SetColumnSort(vec![
        (ColumnIdx(1), IsAscending(true)),
        (ColumnIdx(0), IsAscending(false)),
    ]));
    grid.asked();
    grid.frame();
    assert_eq!(
        grid.asked(),
        vec![
            "sortable 1",
            "sortable 0",
            r#"filter ["a0", "a1"]"#,
            r#"filter ["b0", "b1"]"#,
            r#"filter ["c0", "c1"]"#,
        ]
    );
}

#[test]
fn a_stored_layout_is_asked_about_by_its_sort_keys() {
    let mut ui: UiState<Row> = UiState::default();
    let mut vwr = Viewer::new(3);
    ui.validate_identity(&mut vwr, 7);
    vwr.asked.clear();
    let stored = PersistData {
        num_columns: 3,
        vis_cols: vec![ColumnIdx(2), ColumnIdx(0)],
        sort: vec![(ColumnIdx(2), IsAscending(true)), (ColumnIdx(1), IsAscending(false))],
    };
    ui.validate_persistency(Some(stored), &mut vwr);
    assert_eq!(vwr.asked, vec!["sortable 2", "sortable 1"]);
}

#[test]
fn codecs_are_asked_for_by_their_direction() {
    let mut grid = Grid::new(2, abc());
    grid.select(&[((0, 0), (0, 0))]);
    grid.asked();
    assert!(grid.ui.try_update_clipboard_from_string(&mut grid.vwr, "x"));
    assert_eq!(grid.asked(), vec!["codec false"]);
    assert!(grid.act(UiAction::CopySelection).is_some());
    assert_eq!(grid.asked(), vec![r#"copy ["a0", "a1"]"#, "codec true"]);
}

#[test]
fn writes_are_asked_about_with_the_row_as_it_is_and_the_row_to_write_from() {
    let rows = vec![row(&["c", "0"]), row(&["a", "1"]), row(&["b", "2"])];
    let mut grid = Grid::new(2, rows);
    grid.select(&[((1, 1), (1, 1))]);
    grid.act(UiAction::CopySelection);
    grid.ui.set_interactive_cell(VisRowPos(2), VisColumnPos(1));
    grid.asked();
    grid.act(UiAction::PasteInPlace);
    assert_eq!(
        grid.asked(),
        vec![
            r#"editable 1 2 ["b", "2"]"#.to_owned(),
            r#"write ["b", "2"] ["a", "1"] 1 Paste"#.to_owned(),
        ]
    );
    assert_eq!(grid.rows()[2], row(&["b", "1"]));
}

#[test]
fn cleared_cells_take_their_value_from_a_row_made_for_that() {
    let mut grid = Grid::new(2, abc());
    grid.select(&[((1, 0), (1, 0))]);
    grid.asked();
    grid.act(UiAction::DeleteSelection);
    assert_eq!(
        grid.asked(),
        vec![
            "empty DeletionDefault".to_owned(),
            r#"editable 0 1 ["b0", "b1"]"#.to_owned(),
            r#"write ["b0", "b1"] ["", ""] 0 Clear"#.to_owned(),
        ]
    );
    assert_eq!(grid.rows()[1], row(&["", "b1"]));
}

#[test]
fn rows_are_asked_about_as_they_are_displayed() {
    let rows = vec![row(&["c", "0"]), row(&["a", "1"]), row(&["b", "2"])];
    let mut grid = Grid::new(2, rows);
    grid.push(Command::SetColumnSort(vec![(ColumnIdx(0), IsAscending(true))]));
    grid.frame();
    grid.select(&[((0, 0), (1, 0))]);
    grid.asked();
    grid.act(UiAction::DeleteRow);
    assert_eq!(grid.asked(), vec![r#"delete ["a", "1"]"#, r#"delete ["b", "2"]"#]);
    assert_eq!(grid.rows(), vec![row(&["c", "0"])]);
    grid.act(UiAction::Undo);
    grid.frame();
    grid.select(&[((2, 1), (2, 1))]);
    grid.ui.set_interactive_cell(VisRowPos(2), VisColumnPos(1));
    grid.asked();
    grid.act(UiAction::SelectionStartEditing);
    assert_eq!(grid.asked(), vec![r#"editable 1 2 ["c", "0"]"#]);
    grid.act(UiAction::CancelEdition);
    grid.select(&[((1, 0), (1, 0))]);
    grid.asked();
    grid.act(UiAction::DuplicateRow);
    assert_eq!(grid.asked(), vec![r#"insert ["b", "2"]"#]);
}
