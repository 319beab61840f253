//! What the grid asks of the application: how rows are made, copied, compared,
//! filtered and written as text.

use vstd::prelude::*;
use crate::input::{Key, KeyboardShortcut, Modifiers};

verus! {

/// What to do with a cell of pasted text that cannot be read.
#[derive(Default, Debug, Clone, Copy, PartialEq, Eq, Structural)]
pub enum DecodeErrorBehavior {
    /// Leave the cell out and go on.
    SkipCell,
    /// Leave the whole row out.
    SkipRow,
    /// Give the text up.
    #[default]
    Abort,
}

/// The outcome of comparing two rows by one column.
#[derive(Debug, Clone, Copy, PartialEq, Eq, Structural)]
pub enum CellOrder {
    Less,
    Equal,
    Greater,
}

impl CellOrder {
    /// The outcome with `Less` and `Greater` exchanged.
    pub open spec fn reversed(self) -> CellOrder {
        match self {
            CellOrder::Less => CellOrder::Greater,
            CellOrder::Equal => CellOrder::Equal,
            CellOrder::Greater => CellOrder::Less,
        }
    }

    /// Exchanges `Less` and `Greater`.
    pub fn reverse(self) -> (o: CellOrder)
        ensures
            o == self.reversed(),
    {
        match self {
            CellOrder::Less => CellOrder::Greater,
            CellOrder::Equal => CellOrder::Equal,
            CellOrder::Greater => CellOrder::Less,
        }
    }
}

/// Writes the cells of a row as text and reads them back. Any text can stand for a
/// cell; simple text travels best through a clipboard.
pub trait RowCodec<R> {
    type DeserializeError;

    /// A new row for cells to be read into.
    fn create_empty_decoded_row(&mut self) -> R;

    /// Writes one column of `src_row` to `dst`. A column that cannot be written
    /// leaves `dst` empty.
    fn encode_column(&mut self, src_row: &R, column: usize, dst: &mut String);

    /// Reads one column of `dst_row` from `src_data`.
    fn decode_column(&mut self, src_data: &str, column: usize, dst_row: &mut R) -> Result<
        (),
        DecodeErrorBehavior,
    >;
}

/// What the application tells the grid about its rows.
///
/// `clone_row`, `set_cell_value` and `compare_cell` are taken to depend on their
/// arguments alone: what they return has a name here, and the contracts of the
/// grid speak of the rows through these names.
pub trait RowViewer<R>: Sized {
    /// The codec that `try_create_codec` hands out.
    type Codec: RowCodec<R>;

    /// The row that `clone_row` returns for `row`.
    open spec fn row_copy(row: R) -> R {
        row
    }

    /// The row that `set_cell_value` leaves in `dst`.
    open spec fn cell_written(src: R, dst: R, column: usize) -> R {
        arbitrary()
    }

    /// The outcome of `compare_cell`.
    open spec fn cell_order(&self, row_a: R, row_b: R, column: usize) -> CellOrder {
        CellOrder::Equal
    }

    /// Number of columns. A change resets the grid's state, the undo history
    /// included.
    fn num_columns(&mut self) -> usize;

    /// A codec for copying to and pasting from text, if the viewer has one for the
    /// direction asked for. A codec is used in that one direction only.
    fn try_create_codec(&mut self, is_encoding: bool) -> Option<Self::Codec>;

    /// Whether the rows can be sorted by `column`.
    fn is_sortable_column(&mut self, column: usize) -> bool {
        false
    }

    /// Whether the cell may be edited.
    fn is_editable_cell(&mut self, column: usize, row: usize, row_value: &R) -> bool {
        true
    }

    /// Whether rows may be inserted through the grid.
    fn allow_row_insertions(&mut self) -> bool {
        true
    }

    /// Whether rows may be removed through the grid.
    fn allow_row_deletions(&mut self) -> bool {
        true
    }

    /// Compares two rows by `column`.
    fn compare_cell(&self, row_a: &R, row_b: &R, column: usize) -> (order: CellOrder)
        ensures
            order == self.cell_order(*row_a, *row_b, column),
    ;

    /// A number that changes whenever the filter changes.
    fn row_filter_hash(&mut self) -> u64 {
        0
    }

    /// Whether the row is shown.
    fn filter_row(&mut self, row: &R) -> bool {
        true
    }

    /// Copies `column` of `src` into `dst`.
    fn set_cell_value(&mut self, src: &R, dst: &mut R, column: usize)
        ensures
            *final(dst) == Self::cell_written(*src, *old(dst), column),
    ;

    /// Asked before a cell is written other than by its editor. `false` keeps the
    /// cell as it is.
    fn confirm_cell_write_by_ui(
        &mut self,
        current: &R,
        next: &R,
        column: usize,
        context: CellWriteContext,
    ) -> bool {
        true
    }

    /// Asked before a row is removed through the grid, but not by undo or redo.
    /// `false` keeps the row.
    fn confirm_row_deletion_by_ui(&mut self, row: &R) -> bool {
        true
    }

    /// A new empty row.
    fn new_empty_row(&mut self) -> R;

    /// A new empty row for the given use.
    fn new_empty_row_for(&mut self, context: EmptyRowCreateContext) -> R {
        self.new_empty_row()
    }

    /// A copy of `row`.
    fn clone_row(&mut self, row: &R) -> (copy: R)
        ensures
            copy == Self::row_copy(*row),
    ;

    /// A copy of `row` to be inserted as a new row.
    fn clone_row_for_insertion(&mut self, row: &R) -> R {
        self.clone_row(row)
    }

    /// A copy of `row` to be kept in the clipboard.
    fn clone_row_as_copied_base(&mut self, row: &R) -> R {
        self.clone_row(row)
    }

    /// Told when a cell becomes the highlighted one.
    fn on_highlight_cell(&mut self, row: &R, column: usize) {
    }

    /// Told which rows a change of the selection highlights and which it no longer
    /// does.
    fn on_highlight_change(&mut self, highlighted: &Vec<&R>, unhighlighted: &Vec<&R>) {
    }

    /// Told when a row has a new value.
    fn on_row_updated(&mut self, row_index: usize, new_row: &R, old_row: &R) {
    }

    /// Told when a row was inserted.
    fn on_row_inserted(&mut self, row_index: usize, row: &R) {
    }

    /// Told when a row is about to be removed.
    fn on_row_removed(&mut self, row_index: usize, row: &R) {
    }

    /// The shortcuts that hold in the given state.
    fn hotkeys(&mut self, context: &UiActionContext) -> Vec<(KeyboardShortcut, UiAction)> {
        default_hotkeys(context)
    }
}

/* ------------------------------------------- Context ------------------------------------------ */

/// Why a cell is written.
#[derive(Debug, Clone, Copy, PartialEq, Eq, Structural)]
#[non_exhaustive]
pub enum CellWriteContext {
    /// A value is pasted or duplicated from another row.
    Paste,
    /// The cell is cleared by a cut or a delete.
    Clear,
}

/// What a new empty row is for.
#[derive(Debug, Clone, Copy, PartialEq, Eq, Structural)]
#[non_exhaustive]
pub enum EmptyRowCreateContext {
    /// A template.
    Default,
    /// The empty value that deleted cells take.
    DeletionDefault,
    /// A row to be inserted.
    InsertNewLine,
}

impl EmptyRowCreateContext {
    /// What a viewer is told when it makes the row that cleared cells take their
    /// value from.
    pub fn for_cleared_cells() -> (context: EmptyRowCreateContext)
        ensures
            context == EmptyRowCreateContext::DeletionDefault,
    {
        EmptyRowCreateContext::DeletionDefault
    }

    /// What a viewer is told when it makes a row that pasted cells are written to
    /// before the row is put in.
    pub fn for_pasted_row() -> (context: EmptyRowCreateContext)
        ensures
            context == EmptyRowCreateContext::InsertNewLine,
    {
        EmptyRowCreateContext::InsertNewLine
    }
}

/* ------------------------------------------- Hotkeys ------------------------------------------ */

/// What shortcuts are chosen by.
#[derive(Debug, Clone, Copy)]
#[non_exhaustive]
pub struct UiActionContext {
    pub cursor: UiCursorState,
}

impl UiActionContext {
    /// The context of the given cursor state.
    pub fn new(cursor: UiCursorState) -> (context: UiActionContext)
        ensures
            context.cursor == cursor,
    {
        UiActionContext { cursor }
    }
}

/// What the cursor is doing.
#[derive(Debug, Clone, Copy, PartialEq, Eq, Structural)]
pub enum UiCursorState {
    Idle,
    Editing,
    SelectOne,
    SelectMany,
}

impl UiCursorState {
    pub fn is_idle(&self) -> (b: bool)
        ensures
            b == (*self == UiCursorState::Idle),
    {
        matches!(self, Self::Idle)
    }

    pub fn is_editing(&self) -> (b: bool)
        ensures
            b == (*self == UiCursorState::Editing),
    {
        matches!(self, Self::Editing)
    }

    pub fn is_selecting(&self) -> (b: bool)
        ensures
            b == (*self == UiCursorState::SelectOne || *self == UiCursorState::SelectMany),
    {
        matches!(self, Self::SelectOne | Self::SelectMany)
    }
}

/* ----------------------------------------- Ui Actions ----------------------------------------- */

/// What the user asks for.
#[derive(Debug, Clone, Copy, PartialEq, Eq, Hash, Structural)]
#[non_exhaustive]
pub enum UiAction {
    SelectionStartEditing,
    CancelEdition,
    CommitEdition,
    CommitEditionAndMove(MoveDirection),
    Undo,
    Redo,
    MoveSelection(MoveDirection),
    CopySelection,
    CutSelection,
    PasteInPlace,
    PasteInsert,
    DuplicateRow,
    DeleteSelection,
    DeleteRow,
    NavPageDown,
    NavPageUp,
    NavTop,
    NavBottom,
    SelectionDuplicateValues,
    SelectAll,
}

#[derive(Debug, Clone, Copy, PartialEq, Eq, Hash, Structural)]
pub enum MoveDirection {
    Up,
    Down,
    Left,
    Right,
}

/// One line of a shortcut table.
pub open spec fn hotkey(modifiers: Modifiers, key: Key, action: UiAction) -> (
    KeyboardShortcut,
    UiAction,
) {
    (KeyboardShortcut { modifiers, logical_key: key }, action)
}

/// The shortcuts while a cell is edited.
pub open spec fn editing_hotkeys() -> Seq<(KeyboardShortcut, UiAction)> {
    let none = Modifiers::none_spec();
    let ctrl = Modifiers { ctrl: true, ..none };
    let shift = Modifiers { shift: true, ..none };
    seq![
        hotkey(none, Key::Escape, UiAction::CommitEdition),
        hotkey(ctrl, Key::Escape, UiAction::CancelEdition),
        hotkey(shift, Key::Enter, UiAction::CommitEditionAndMove(MoveDirection::Up)),
        hotkey(ctrl, Key::Enter, UiAction::CommitEditionAndMove(MoveDirection::Down)),
        hotkey(shift, Key::Tab, UiAction::CommitEditionAndMove(MoveDirection::Left)),
        hotkey(none, Key::Tab, UiAction::CommitEditionAndMove(MoveDirection::Right)),
    ]
}

/// The shortcuts while no cell is edited. Where two of them fit a key press, the
/// earlier one is meant.
pub open spec fn selecting_hotkeys() -> Seq<(KeyboardShortcut, UiAction)> {
    let none = Modifiers::none_spec();
    let ctrl = Modifiers { ctrl: true, ..none };
    let alt = Modifiers { alt: true, ..none };
    let shift = Modifiers { shift: true, ..none };
    let ctrl_shift = Modifiers { ctrl: true, shift: true, ..none };
    seq![
        hotkey(ctrl, Key::X, UiAction::CutSelection),
        hotkey(ctrl, Key::C, UiAction::CopySelection),
        hotkey(ctrl_shift, Key::V, UiAction::PasteInsert),
        hotkey(ctrl, Key::V, UiAction::PasteInPlace),
        hotkey(ctrl, Key::Y, UiAction::Redo),
        hotkey(ctrl, Key::Z, UiAction::Undo),
        hotkey(none, Key::Enter, UiAction::SelectionStartEditing),
        hotkey(none, Key::ArrowUp, UiAction::MoveSelection(MoveDirection::Up)),
        hotkey(none, Key::ArrowDown, UiAction::MoveSelection(MoveDirection::Down)),
        hotkey(none, Key::ArrowLeft, UiAction::MoveSelection(MoveDirection::Left)),
        hotkey(none, Key::ArrowRight, UiAction::MoveSelection(MoveDirection::Right)),
        hotkey(shift, Key::V, UiAction::PasteInsert),
        hotkey(alt, Key::V, UiAction::PasteInsert),
        hotkey(ctrl_shift, Key::D, UiAction::DuplicateRow),
        hotkey(ctrl, Key::D, UiAction::SelectionDuplicateValues),
        hotkey(ctrl, Key::A, UiAction::SelectAll),
        hotkey(ctrl, Key::Delete, UiAction::DeleteRow),
        hotkey(none, Key::Delete, UiAction::DeleteSelection),
        hotkey(none, Key::Backspace, UiAction::DeleteSelection),
        hotkey(none, Key::PageUp, UiAction::NavPageUp),
        hotkey(none, Key::PageDown, UiAction::NavPageDown),
        hotkey(none, Key::Home, UiAction::NavTop),
        hotkey(none, Key::End, UiAction::NavBottom),
    ]
}

/// The shortcuts of the grid, in the order in which they are tried.
pub fn default_hotkeys(context: &UiActionContext) -> (keys: Vec<(KeyboardShortcut, UiAction)>)
    ensures
        context.cursor == UiCursorState::Editing ==> keys@ == editing_hotkeys(),
        context.cursor != UiCursorState::Editing ==> keys@ == selecting_hotkeys(),
{
    let c = context.cursor;

    let none = Modifiers::none();
    let ctrl = Modifiers::ctrl();
    let alt = Modifiers::alt();
    let shift = Modifiers::shift();
    let ctrl_shift = ctrl.plus(shift);

    let mut keys: Vec<(KeyboardShortcut, UiAction)> = Vec::new();
    if c.is_editing() {
        keys.push((KeyboardShortcut::new(none, Key::Escape), UiAction::CommitEdition));
        keys.push((KeyboardShortcut::new(ctrl, Key::Escape), UiAction::CancelEdition));
        keys.push(
            (KeyboardShortcut::new(shift, Key::Enter), UiAction::CommitEditionAndMove(MoveDirection::Up)),
        );
        keys.push(
            (KeyboardShortcut::new(ctrl, Key::Enter), UiAction::CommitEditionAndMove(MoveDirection::Down)),
        );
        keys.push(
            (KeyboardShortcut::new(shift, Key::Tab), UiAction::CommitEditionAndMove(MoveDirection::Left)),
        );
        keys.push(
            (KeyboardShortcut::new(none, Key::Tab), UiAction::CommitEditionAndMove(MoveDirection::Right)),
        );
        assert(keys@ =~= editing_hotkeys());
    } else {
        keys.push((KeyboardShortcut::new(ctrl, Key::X), UiAction::CutSelection));
        keys.push((KeyboardShortcut::new(ctrl, Key::C), UiAction::CopySelection));
        keys.push((KeyboardShortcut::new(ctrl_shift, Key::V), UiAction::PasteInsert));
        keys.push((KeyboardShortcut::new(ctrl, Key::V), UiAction::PasteInPlace));
        keys.push((KeyboardShortcut::new(ctrl, Key::Y), UiAction::Redo));
        keys.push((KeyboardShortcut::new(ctrl, Key::Z), UiAction::Undo));
        keys.push((KeyboardShortcut::new(none, Key::Enter), UiAction::SelectionStartEditing));
        keys.push((KeyboardShortcut::new(none, Key::ArrowUp), UiAction::MoveSelection(MoveDirection::Up)));
        keys.push(
            (KeyboardShortcut::new(none, Key::ArrowDown), UiAction::MoveSelection(MoveDirection::Down)),
        );
        keys.push(
            (KeyboardShortcut::new(none, Key::ArrowLeft), UiAction::MoveSelection(MoveDirection::Left)),
        );
        keys.push(
            (KeyboardShortcut::new(none, Key::ArrowRight), UiAction::MoveSelection(MoveDirection::Right)),
        );
        keys.push((KeyboardShortcut::new(shift, Key::V), UiAction::PasteInsert));
        keys.push((KeyboardShortcut::new(alt, Key::V), UiAction::PasteInsert));
        keys.push((KeyboardShortcut::new(ctrl_shift, Key::D), UiAction::DuplicateRow));
        keys.push((KeyboardShortcut::new(ctrl, Key::D), UiAction::SelectionDuplicateValues));
        keys.push((KeyboardShortcut::new(ctrl, Key::A), UiAction::SelectAll));
        keys.push((KeyboardShortcut::new(ctrl, Key::Delete), UiAction::DeleteRow));
        keys.push((KeyboardShortcut::new(none, Key::Delete), UiAction::DeleteSelection));
        keys.push((KeyboardShortcut::new(none, Key::Backspace), UiAction::DeleteSelection));
        keys.push((KeyboardShortcut::new(none, Key::PageUp), UiAction::NavPageUp));
        keys.push((KeyboardShortcut::new(none, Key::PageDown), UiAction::NavPageDown));
        keys.push((KeyboardShortcut::new(none, Key::Home), UiAction::NavTop));
        keys.push((KeyboardShortcut::new(none, Key::End), UiAction::NavBottom));
        assert(keys@ =~= selecting_hotkeys());
    }
    keys
}

} // verus!
