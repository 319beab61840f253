use egui_data_table::input::{Key, KeyboardShortcut, Modifiers};
use egui_data_table::viewer::{
    default_hotkeys, CellOrder, DecodeErrorBehavior, EmptyRowCreateContext, RowCodec, RowViewer,
    UiActionContext, UiCursorState,
};
use egui_data_table::UiAction;

fn context(cursor: UiCursorState) -> UiActionContext {
    UiActionContext::new(cursor)
}

struct Codec;

impl RowCodec<Vec<String>> for Codec {
    type DeserializeError = ();

    fn create_empty_decoded_row(&mut self) -> Vec<String> {
        vec![String::new(); 2]
    }

    fn encode_column(&mut self, src_row: &Vec<String>, column: usize, dst: &mut String) {
        dst.push_str(&src_row[column]);
    }

    fn decode_column(
        &mut self,
        src_data: &str,
        column: usize,
        dst_row: &mut Vec<String>,
    ) -> Result<(), DecodeErrorBehavior> {
        dst_row[column] = src_data.to_owned();
        Ok(())
    }
}

struct Viewer;

impl RowViewer<Vec<String>> for Viewer {
    type Codec = Codec;

    fn num_columns(&mut self) -> usize {
        2
    }

    fn try_create_codec(&mut self, _is_encoding: bool) -> Option<Codec> {
        Some(Codec)
    }

    fn compare_cell(&self, a: &Vec<String>, b: &Vec<String>, column: usize) -> CellOrder {
        match a[column].cmp(&b[column]) {
            std::cmp::Ordering::Less => CellOrder::Less,
            std::cmp::Ordering::Equal => CellOrder::Equal,
            std::cmp::Ordering::Greater => CellOrder::Greater,
        }
    }

    fn set_cell_value(&mut self, src: &Vec<String>, dst: &mut Vec<String>, column: usize) {
        dst[column] = src[column].clone();
    }

    fn new_empty_row(&mut self) -> Vec<String> {
        vec![String::new(); 2]
    }

    fn clone_row(&mut self, row: &Vec<String>) -> Vec<String> {
        row.clone()
    }
}

#[test]
fn viewer_defaults() {
    let mut v = Viewer;
    assert!(!v.is_sortable_column(0));
    assert!(v.filter_row(&vec![]));
    assert_eq!(v.row_filter_hash(), 0);
    assert_eq!(v.clone_row_for_insertion(&vec!["a".to_owned()]), vec!["a".to_owned()]);
    let keys = v.hotkeys(&context(UiCursorState::Editing));
    assert_eq!(keys.len(), 6);
}

#[test]
fn default_hotkeys_while_editing() {
    let keys = default_hotkeys(&context(UiCursorState::Editing));
    assert_eq!(keys.len(), 6);
    assert_eq!(
        keys[0],
        (KeyboardShortcut::new(Modifiers::none(), Key::Escape), UiAction::CommitEdition)
    );
    assert_eq!(
        keys[1],
        (KeyboardShortcut::new(Modifiers::ctrl(), Key::Escape), UiAction::CancelEdition)
    );
}

#[test]
fn default_hotkeys_while_selecting() {
    let keys = default_hotkeys(&context(UiCursorState::SelectOne));
    assert_eq!(keys.len(), 23);
    assert_eq!(keys[0], (KeyboardShortcut::new(Modifiers::ctrl(), Key::X), UiAction::CutSelection));
    assert_eq!(
        keys[2],
        (
            KeyboardShortcut::new(Modifiers::ctrl().plus(Modifiers::shift()), Key::V),
            UiAction::PasteInsert
        )
    );
    assert_eq!(keys[22], (KeyboardShortcut::new(Modifiers::none(), Key::End), UiAction::NavBottom));
}

#[test]
fn cursor_state_predicates() {
    assert!(UiCursorState::Idle.is_idle());
    assert!(!UiCursorState::Idle.is_selecting());
    assert!(UiCursorState::Editing.is_editing());
    assert!(UiCursorState::SelectOne.is_selecting());
    assert!(UiCursorState::SelectMany.is_selecting());
    assert!(!UiCursorState::SelectMany.is_editing());
}

#[test]
fn empty_rows_are_asked_for_by_purpose() {
    assert_eq!(EmptyRowCreateContext::for_cleared_cells(), EmptyRowCreateContext::DeletionDefault);
    assert_eq!(EmptyRowCreateContext::for_pasted_row(), EmptyRowCreateContext::InsertNewLine);
}
