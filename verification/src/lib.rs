//! A reactive spreadsheet calculation core.
//!
//! The library maintains a fixed rectangular grid of 32-bit integer cells
//! together with one formula record per cell and a dependency graph between
//! cells.  Editing a cell re-parses the command, rewires the graph, and
//! re-evaluates every downstream cell in topological order, propagating the
//! `ERR` sentinel (`i32::MIN`).  An edit that would close a dependency cycle
//! is rejected and rolled back, leaving the observable state unchanged.

pub mod display;
pub mod functions;
pub mod graph;
pub mod input_parser;
pub mod laws;
pub mod recalc;
pub mod scrolling;
pub mod spreadsheet;

pub use display::{column_index_to_name, int_to_string, render_spreadsheet, value_to_string};
pub use functions::{avg_func, max_func, min_func, sleep_func, standard_dev_func, sum_func};
pub use graph::{add_formula, arith, delete_edge, Formula, Graph};
pub use input_parser::parser as parse_input;
pub use input_parser::{cell_parser, parse_range, parser, CellRange};
pub use recalc::{recalculate, topological_sort};
pub use scrolling::{scroll_down, scroll_left, scroll_right, scroll_to, scroll_up, scroller};
pub use spreadsheet::{initialize_spreadsheet, Spreadsheet};
