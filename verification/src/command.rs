//! The commands that change the grid, and what each of them does to the rows.
//!
//! Commands whose name begins with `Cc` only touch the grid's own state or are
//! turned into another command; they never enter the undo history. The others are
//! applied to the rows and recorded, each with the commands that undo it.

use vstd::prelude::*;
use crate::index::{ColumnIdx, IsAscending, RowIdx, RowSlabIndex, VisColumnPos, VisSelection};
use crate::viewer::{CellWriteContext, RowViewer};

verus! {

/// One cell to be written: the row, the column, and which row of the slab the value
/// is taken from.
pub type CellWrite = (RowIdx, ColumnIdx, RowSlabIndex);

/// A change that the grid is asked to make.
pub enum Command<R> {
    CcHideColumn(ColumnIdx),
    CcShowColumn { what: ColumnIdx, at: VisColumnPos },
    CcReorderColumn { from: VisColumnPos, to: VisColumnPos },
    SetColumnSort(Vec<(ColumnIdx, IsAscending)>),
    SetVisibleColumns(Vec<ColumnIdx>),
    CcSetSelection(Vec<VisSelection>),
    SetRowValue(RowIdx, Box<R>),
    CcSetCells { slab: Vec<R>, values: Vec<CellWrite>, context: CellWriteContext },
    SetCells { slab: Vec<R>, values: Vec<CellWrite> },
    InsertRows(RowIdx, Vec<R>),
    RemoveRow(Vec<RowIdx>),
    CcEditStart(RowIdx, VisColumnPos, Box<R>),
    CcCancelEdit,
    CcCommitEdit,
    CcUpdateSystemClipboard(String),
}

/// A command as a mathematical value.
pub enum CommandModel<R> {
    CcHideColumn(ColumnIdx),
    CcShowColumn { what: ColumnIdx, at: VisColumnPos },
    CcReorderColumn { from: VisColumnPos, to: VisColumnPos },
    SetColumnSort(Seq<(ColumnIdx, IsAscending)>),
    SetVisibleColumns(Seq<ColumnIdx>),
    CcSetSelection(Seq<VisSelection>),
    SetRowValue(RowIdx, R),
    CcSetCells { slab: Seq<R>, values: Seq<CellWrite>, context: CellWriteContext },
    SetCells { slab: Seq<R>, values: Seq<CellWrite> },
    InsertRows(RowIdx, Seq<R>),
    RemoveRow(Seq<RowIdx>),
    CcEditStart(RowIdx, VisColumnPos, R),
    CcCancelEdit,
    CcCommitEdit,
    CcUpdateSystemClipboard(Seq<char>),
}

impl<R> View for Command<R> {
    type V = CommandModel<R>;

    open spec fn view(&self) -> CommandModel<R> {
        match *self {
            Command::CcHideColumn(column) => CommandModel::CcHideColumn(column),
            Command::CcShowColumn { what, at } => CommandModel::CcShowColumn { what, at },
            Command::CcReorderColumn { from, to } => CommandModel::CcReorderColumn { from, to },
            Command::SetColumnSort(sort) => CommandModel::SetColumnSort(sort@),
            Command::SetVisibleColumns(columns) => CommandModel::SetVisibleColumns(columns@),
            Command::CcSetSelection(selection) => CommandModel::CcSetSelection(selection@),
            Command::SetRowValue(row, value) => CommandModel::SetRowValue(row, *value),
            Command::CcSetCells { slab, values, context } => CommandModel::CcSetCells {
                slab: slab@,
                values: values@,
                context,
            },
            Command::SetCells { slab, values } => CommandModel::SetCells {
                slab: slab@,
                values: values@,
            },
            Command::InsertRows(at, rows) => CommandModel::InsertRows(at, rows@),
            Command::RemoveRow(rows) => CommandModel::RemoveRow(rows@),
            Command::CcEditStart(row, column, value) => CommandModel::CcEditStart(
                row,
                column,
                *value,
            ),
            Command::CcCancelEdit => CommandModel::CcCancelEdit,
            Command::CcCommitEdit => CommandModel::CcCommitEdit,
            Command::CcUpdateSystemClipboard(text) => CommandModel::CcUpdateSystemClipboard(text@),
        }
    }
}

} // verus!
