//! Spreadsheet pipeline engine: tables of text cells, step operations
//! (filter, pivot, calculate, sort, dedupe, side-by-side, lookups), the
//! runtime that chains steps, and the text formulas of exported templates.

pub mod text;
pub mod models;
pub mod excel_io;
pub mod numbers;
pub mod ops;
pub mod dedupe;
pub mod sort;
pub mod pivot;
pub mod calculate;
pub mod engine;
pub mod writer;
pub mod commands;
pub mod template;
pub mod folder;
pub mod sheet;
pub mod dates;
pub mod folder_run;
pub mod shell_menu;
pub mod schemes;
pub mod scan;
pub mod formula;

pub use folder_run::{FolderRunRequest, PendingFolderRun};
