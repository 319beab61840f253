use egui_data_table::command::Command;
use egui_data_table::guards::{commands_fit, rects_fit};
use egui_data_table::index::{
    ColumnIdx, RowIdx, RowSlabIndex, VisColumnPos, VisLinearIdx, VisSelection,
};
use egui_data_table::state::UiState;
use egui_data_table::viewer::{CellOrder, DecodeErrorBehavior, RowCodec, RowViewer};
use egui_data_table::{DataTable, UiAction};

struct Codec;

impl RowCodec<u8> for Codec {
    type DeserializeError = ();

    fn create_empty_decoded_row(&mut self) -> u8 {
        0
    }

    fn encode_column(&mut self, src_row: &u8, _column: usize, dst: &mut String) {
        dst.push_str(&src_row.to_string());
    }

    fn decode_column(
        &mut self,
        src_data: &str,
        _column: usize,
        dst_row: &mut u8,
    ) -> Result<(), DecodeErrorBehavior> {
        *dst_row = src_data.parse().map_err(|_| DecodeErrorBehavior::SkipCell)?;
        Ok(())
    }
}

struct Viewer;

impl RowViewer<u8> for Viewer {
    type Codec = Codec;

    fn num_columns(&mut self) -> usize {
        2
    }

    fn try_create_codec(&mut self, _is_encoding: bool) -> Option<Codec> {
        Some(Codec)
    }

    fn compare_cell(&self, a: &u8, b: &u8, _column: usize) -> CellOrder {
        if a < b {
            CellOrder::Less
        } else if a > b {
            CellOrder::Greater
        } else {
            CellOrder::Equal
        }
    }

    fn set_cell_value(&mut self, src: &u8, dst: &mut u8, _column: usize) {
        *dst = *src;
    }

    fn new_empty_row(&mut self) -> u8 {
        0
    }

    fn clone_row(&mut self, row: &u8) -> u8 {
        *row
    }
}

fn grid(rows: Vec<u8>) -> (UiState<u8>, DataTable<u8>) {
    let mut ui = UiState::default();
    let table = DataTable::from_rows(rows);
    ui.validate_identity(&mut Viewer, 1);
    ui.validate_cc(&table, &mut Viewer);
    (ui, table)
}

#[test]
fn command_fits_the_rows_it_names() {
    let set: Command<u8> = Command::SetRowValue(RowIdx(2), Box::new(0));
    assert!(set.fits(3));
    assert!(!set.fits(2));
    let cells: Command<u8> = Command::SetCells {
        slab: vec![1],
        values: vec![(RowIdx(0), ColumnIdx(0), RowSlabIndex(0))],
    };
    assert!(cells.fits(1));
    assert!(!cells.fits(0));
    let bad_slab: Command<u8> = Command::SetCells {
        slab: vec![],
        values: vec![(RowIdx(0), ColumnIdx(0), RowSlabIndex(0))],
    };
    assert!(!bad_slab.fits(1));
    let insert: Command<u8> = Command::InsertRows(RowIdx(3), vec![1, 2]);
    assert!(insert.fits(3));
    assert!(!insert.fits(2));
    assert!(!insert.fits(usize::MAX - 1));
    assert_eq!(insert.row_count_after(3), 5);
    let remove: Command<u8> = Command::RemoveRow(vec![RowIdx(0), RowIdx(2)]);
    assert!(remove.fits(3));
    assert!(!remove.fits(2));
    assert_eq!(remove.row_count_after(3), 1);
    let unordered: Command<u8> = Command::RemoveRow(vec![RowIdx(2), RowIdx(0)]);
    assert!(!unordered.fits(3));
    let twice: Command<u8> = Command::RemoveRow(vec![RowIdx(1), RowIdx(1)]);
    assert!(!twice.fits(3));
}

#[test]
fn commands_fit_one_after_the_other() {
    let commands: Vec<Command<u8>> = vec![
        Command::InsertRows(RowIdx(0), vec![1, 2]),
        Command::SetRowValue(RowIdx(2), Box::new(0)),
        Command::RemoveRow(vec![RowIdx(0), RowIdx(1), RowIdx(2)]),
    ];
    assert!(commands_fit(&commands, 1));
    assert!(!commands_fit(&commands, 0));
    assert!(commands_fit(&Vec::<Command<u8>>::new(), 0));
}

#[test]
fn rectangles_fit_a_number_of_cells() {
    let sels = [VisSelection(VisLinearIdx(0), VisLinearIdx(3))];
    assert!(rects_fit(&sels, 4));
    assert!(!rects_fit(&sels, 3));
    assert!(rects_fit(&[], 0));
}

#[test]
fn state_tells_what_it_accepts() {
    let (mut ui, mut table) = grid(vec![1, 2, 3]);
    assert!(ui.has_room_for(3));
    assert!(!ui.has_room_for(usize::MAX / 2));
    assert!(ui.shows_rows_of(3));
    assert!(!ui.shows_rows_of(2));
    assert!(ui.selection_in_grid());
    assert!(ui.gesture_in_grid());
    assert!(ui.interactive_in_grid());
    assert!(ui.accepts(3, &Command::CcHideColumn(ColumnIdx(1))));
    assert!(!ui.accepts(3, &Command::CcHideColumn(ColumnIdx(5))));
    assert!(!ui.accepts(3, &Command::CcShowColumn { what: ColumnIdx(1), at: VisColumnPos(0) }));
    assert!(!ui.accepts(3, &Command::SetVisibleColumns(vec![])));
    assert!(!ui.accepts(3, &Command::SetVisibleColumns(vec![ColumnIdx(2)])));
    assert!(ui.accepts(3, &Command::SetVisibleColumns(vec![ColumnIdx(1)])));
    assert!(ui.accepts(3, &Command::CcReorderColumn { from: VisColumnPos(1), to: VisColumnPos(0) }));
    assert!(!ui.accepts(3, &Command::CcReorderColumn { from: VisColumnPos(2), to: VisColumnPos(0) }));
    assert!(ui.accepts(3, &Command::CcEditStart(RowIdx(1), VisColumnPos(1), Box::new(0))));
    assert!(!ui.accepts(3, &Command::CcEditStart(RowIdx(3), VisColumnPos(1), Box::new(0))));
    assert!(!ui.accepts(3, &Command::CcEditStart(RowIdx(1), VisColumnPos(2), Box::new(0))));
    let inside = vec![VisSelection(VisLinearIdx(5), VisLinearIdx(5))];
    let outside = vec![VisSelection(VisLinearIdx(5), VisLinearIdx(6))];
    assert!(ui.accepts(3, &Command::CcSetSelection(inside)));
    assert!(!ui.accepts(3, &Command::CcSetSelection(outside)));
    assert!(!ui.accepts(3, &Command::CcUpdateSystemClipboard(String::new())));
    assert!(!ui.accepts(3, &Command::SetRowValue(RowIdx(3), Box::new(0))));

    // A drag that leaves the grid is told.
    ui.cci_sel_update(VisLinearIdx(6));
    assert!(!ui.gesture_in_grid());

    // Undoing an insertion asks for the rows to be there.
    ui.push_new_command(&mut table, &mut Viewer, Command::InsertRows(RowIdx(3), vec![4]), 10);
    assert!(ui.undo_fits(4));
    assert!(!ui.undo_fits(3));
    assert!(ui.redo_fits(0));
    assert!(ui.undo(&mut table, &mut Viewer));
    assert!(ui.redo_fits(3));
    assert!(!ui.redo_fits(2));
    assert!(ui.undo_fits(0));
}

#[test]
fn state_tells_what_it_is_ready_for() {
    let (mut ui, mut table) = grid(vec![1, 2, 3]);
    for action in [
        UiAction::SelectionStartEditing,
        UiAction::Undo,
        UiAction::PasteInPlace,
        UiAction::PasteInsert,
        UiAction::DuplicateRow,
        UiAction::SelectAll,
    ] {
        assert!(ui.ready_for(3, action));
    }
    // The rows that are displayed have to be rows of the table.
    assert!(!ui.ready_for(2, UiAction::SelectAll));
    // Without a displayed row there is no cell to edit.
    table.replace(vec![]);
    ui.force_mark_dirty();
    ui.validate_cc(&table, &mut Viewer);
    assert!(!ui.ready_for(0, UiAction::SelectionStartEditing));
    assert!(!ui.ready_for(0, UiAction::DuplicateRow));
    assert!(ui.ready_for(0, UiAction::NavBottom));
}

#[test]
fn commands_that_change_the_rows_or_the_layout_are_recordable() {
    let sort: Command<u8> = Command::SetColumnSort(vec![]);
    assert!(sort.is_recordable(2));
    let remove: Command<u8> = Command::RemoveRow(vec![RowIdx(0)]);
    assert!(remove.is_recordable(2));
    let columns: Command<u8> = Command::SetVisibleColumns(vec![ColumnIdx(1), ColumnIdx(0)]);
    assert!(columns.is_recordable(2));
    assert!(!columns.is_recordable(1));
    let twice: Command<u8> = Command::SetVisibleColumns(vec![ColumnIdx(0), ColumnIdx(0)]);
    assert!(!twice.is_recordable(2));
    let none: Command<u8> = Command::SetVisibleColumns(vec![]);
    assert!(!none.is_recordable(2));
    let hide: Command<u8> = Command::CcHideColumn(ColumnIdx(0));
    assert!(!hide.is_recordable(2));
    let commit: Command<u8> = Command::CcCommitEdit;
    assert!(!commit.is_recordable(2));
}

#[test]
fn state_tells_whether_it_is_well_formed() {
    // Before the first frame there is no column to show.
    let blank: UiState<u8> = UiState::default();
    assert!(!blank.is_well_formed());
    assert!(blank.rows_are_indexed());
    assert!(blank.history_is_recordable());

    let (mut ui, mut table) = grid(vec![1, 2, 3]);
    assert!(ui.is_well_formed());
    ui.push_new_command(&mut table, &mut Viewer, Command::RemoveRow(vec![RowIdx(1)]), 10);
    ui.validate_cc(&table, &mut Viewer);
    assert!(ui.undo(&mut table, &mut Viewer));
    assert!(ui.is_well_formed());
    assert!(ui.history_is_recordable());
    assert!(ui.rows_are_indexed());

    // A displayed row that the index does not know.
    ui.cc_rows.push(RowIdx(7));
    assert!(!ui.rows_are_indexed());
    assert!(!ui.is_well_formed());
    ui.cc_rows.pop();
    assert!(ui.is_well_formed());
    // A row that is displayed twice.
    let first = ui.cc_rows[0];
    let last = ui.cc_rows.len() - 1;
    ui.cc_rows[last] = first;
    assert!(!ui.rows_are_indexed());
    // A row that the index knows and that is not displayed.
    ui.cc_rows.pop();
    assert!(!ui.rows_are_indexed());
}
