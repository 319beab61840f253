//! The stateful engine behind an interactive data grid: which rows are shown and in
//! what order, what is selected or being edited, an undo history of the commands that
//! changed the rows, and the tab-separated text that cells are copied and pasted as.

pub mod actions;
pub mod cache;
pub mod cells;
pub mod clipboard;
pub mod command;
pub mod engine;
pub mod grouping;
pub mod guards;
pub mod history;
pub mod index;
pub mod input;
pub mod laws;
pub mod selection;
pub mod seqs;
pub mod sorting;
pub mod state;
pub mod table;
pub mod tsv;
pub mod viewer;

pub use table::DataTable;
pub use viewer::{RowViewer, UiAction};
