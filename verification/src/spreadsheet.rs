//! The spreadsheet state: cell values, formula records, dependency graph
//! and viewport origin, together with its well-formedness invariant.

use crate::graph::{is_source, Formula, Graph};
use crate::recalc::{eval_formula, formula_ok};
use vstd::prelude::*;

verus! {

/// The core spreadsheet model: a `rows` x `cols` grid of `i32` cells with
/// dependency tracking.
///
/// - `arr`: flat row-major storage of cell values
/// - `graph`: dependency graph driving recalculation
/// - `formula_array`: the formula record of each cell
/// - `curr_x`, `curry`: viewport origin used by the scrolling helpers
/// - `output_disabled`: whether the surrounding loop should suppress output
pub struct Spreadsheet {
    pub rows: usize,
    pub cols: usize,
    pub arr: Vec<i32>,
    pub graph: Graph,
    pub formula_array: Vec<Formula>,
    pub output_disabled: bool,
    pub curr_x: usize,
    pub curry: usize,
}

/// Well-formedness of the three stores alone, independent of the viewport
/// and of the dimension bounds:
/// - values and records have one entry per cell, and the cell count fits
///   the index type of formula operands;
/// - every formula record is well formed and never refers to its own cell;
/// - the dependency edges are exactly those implied by the records;
/// - every cell value equals its record evaluated against the current
///   values.
pub open spec fn stores_wf(
    cols: int,
    arr: Seq<i32>,
    graph: crate::graph::Graph,
    farr: Seq<Formula>,
) -> bool {
    &&& 1 <= cols <= i32::MAX
    &&& farr.len() == arr.len()
    &&& arr.len() <= i32::MAX
    &&& graph.wf(arr.len() as int)
    &&& forall|c: int|
        0 <= c < arr.len() ==> formula_ok(#[trigger] farr[c], c, arr.len() as int, cols)
    &&& crate::recalc::coherent_with(graph.adj@, farr, cols)
    &&& forall|c: int|
        0 <= c < arr.len() ==> #[trigger] arr[c] == eval_formula(farr[c], c, arr, cols)
}

impl Spreadsheet {
    /// The number of cells.
    pub open spec fn size(&self) -> int {
        self.rows * self.cols
    }

    /// The sheet invariant, maintained by every edit:
    /// - the stores have one entry per cell and the dimensions are within
    ///   the supported bounds;
    /// - every formula record is well formed and never refers to its own
    ///   cell (so no self-edge exists);
    /// - the dependency edges are exactly those implied by the formula
    ///   records: no stale edge, no missing edge;
    /// - every cell value equals its record evaluated against the current
    ///   values.
    pub open spec fn wf(&self) -> bool {
        &&& 1 <= self.rows <= 1000
        &&& 1 <= self.cols <= 18278
        &&& self.arr@.len() == self.size()
        &&& stores_wf(self.cols as int, self.arr@, self.graph, self.formula_array@)
    }
}

/// Create a sheet of the given dimensions with every cell `0` and every
/// record the constant `0`.
pub fn initialize_spreadsheet(rows: usize, cols: usize) -> (sheet: Spreadsheet)
    requires
        1 <= rows <= 1000,
        1 <= cols <= 18278,
    ensures
        sheet.wf(),
        sheet.rows == rows,
        sheet.cols == cols,
        sheet.arr@.len() == rows * cols,
        forall|c: int| 0 <= c < rows * cols ==> (#[trigger] sheet.arr@[c]) == 0,
        forall|c: int|
            0 <= c < rows * cols ==> (#[trigger] sheet.formula_array@[c]) == (Formula {
                op_type: 0,
                p1: 0,
                p2: 0,
            }),
        sheet.curr_x == 0,
        sheet.curry == 0,
        sheet.output_disabled == false,
{
    proof {
        vstd::arithmetic::mul::lemma_mul_upper_bound(rows as int, 1000, cols as int, 18278);
        vstd::arithmetic::mul::lemma_mul_nonnegative(rows as int, cols as int);
        vstd::arithmetic::mul::lemma_mul_inequality(1, rows as int, cols as int);
    }
    let total_cells = rows * cols;
    let arr: Vec<i32> = vec![0; total_cells];
    let formula_array: Vec<Formula> = vec![Formula { op_type: 0, p1: 0, p2: 0 }; total_cells];
    let graph = Graph::new(total_cells);
    proof {
        assert forall|s: int, d: int| !crate::graph::adj_has(graph.adj@, s, d) by {
            assert(!graph.has_edge(s, d));
        }
    }
    Spreadsheet {
        rows,
        cols,
        arr,
        graph,
        formula_array,
        output_disabled: false,
        curr_x: 0,
        curry: 0,
    }
}

} // verus!
