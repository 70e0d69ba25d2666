//! The function commands: `MIN`, `MAX`, `AVG`, `SUM`, `STDEV` over a range,
//! and `SLEEP`.
//!
//! Each function takes the whole command text (`DST=NAME(ARG)`), the sheet
//! dimensions, the position of the `=`, and the three stores, and applies
//! the edit transactionally: it parses the destination and the argument,
//! installs the record and its dependency edges, and recalculates
//! downstream.  It returns `false`, with values and records unchanged, when
//! the text is malformed, a cell is out of range, the range is decreasing,
//! rectangular, or contains the destination, or the edit would close a
//! cycle.
//!
//! `SLEEP` only records its duration; the caller owns the blocking side
//! effect.

use crate::graph::{Formula, Graph};
use crate::input_parser::{
    edit_outcome, run_range_func, run_sleep_func, spec_agg_f, spec_cell_id, spec_sleep_f,
};
use crate::spreadsheet::stores_wf;
use vstd::prelude::*;

verus! {

/// The shared contract of the five range aggregates, with op code `op`.
pub open spec fn agg_func_post(
    txt: Seq<char>,
    cols: int,
    rows: int,
    eq: int,
    oldarr: Seq<i32>,
    oldfarr: Seq<Formula>,
    newarr: Seq<i32>,
    newfarr: Seq<Formula>,
    newadj: Seq<Vec<usize>>,
    op: int,
    r: bool,
) -> bool {
    let dst = spec_cell_id(txt.take(eq), cols, rows);
    let fo = if dst == -1 {
        Option::<Formula>::None
    } else {
        spec_agg_f(txt.skip(eq + 1), dst, cols, rows, op)
    };
    match fo {
        None => !r && newarr == oldarr && newfarr == oldfarr,
        Some(f) => edit_outcome(r, oldarr, oldfarr, newarr, newfarr, newadj, cols, dst, f),
    }
}

/// Apply a `MIN` range command.
pub fn min_func(
    txt: &str,
    cols: i32,
    rows: i32,
    eq: usize,
    arr: &mut Vec<i32>,
    g: &mut Graph,
    farr: &mut Vec<Formula>,
) -> (r: bool)
    requires
        stores_wf(cols as int, old(arr)@, *old(g), old(farr)@),
        1 <= rows,
        rows * cols <= old(arr)@.len(),
        eq < txt@.len(),
    ensures
        stores_wf(cols as int, final(arr)@, *final(g), final(farr)@),
        final(arr)@.len() == old(arr)@.len(),
        agg_func_post(
            txt@,
            cols as int,
            rows as int,
            eq as int,
            old(arr)@,
            old(farr)@,
            final(arr)@,
            final(farr)@,
            final(g).adj@,
            9,
            r,
        ),
{
    run_range_func(txt, cols, rows, eq, arr, g, farr, 9)
}

/// Apply a `MAX` range command.
pub fn max_func(
    txt: &str,
    cols: i32,
    rows: i32,
    eq: usize,
    arr: &mut Vec<i32>,
    g: &mut Graph,
    farr: &mut Vec<Formula>,
) -> (r: bool)
    requires
        stores_wf(cols as int, old(arr)@, *old(g), old(farr)@),
        1 <= rows,
        rows * cols <= old(arr)@.len(),
        eq < txt@.len(),
    ensures
        stores_wf(cols as int, final(arr)@, *final(g), final(farr)@),
        final(arr)@.len() == old(arr)@.len(),
        agg_func_post(
            txt@,
            cols as int,
            rows as int,
            eq as int,
            old(arr)@,
            old(farr)@,
            final(arr)@,
            final(farr)@,
            final(g).adj@,
            10,
            r,
        ),
{
    run_range_func(txt, cols, rows, eq, arr, g, farr, 10)
}

/// Apply an `AVG` range command (integer average, truncated).
pub fn avg_func(
    txt: &str,
    cols: i32,
    rows: i32,
    eq: usize,
    arr: &mut Vec<i32>,
    g: &mut Graph,
    farr: &mut Vec<Formula>,
) -> (r: bool)
    requires
        stores_wf(cols as int, old(arr)@, *old(g), old(farr)@),
        1 <= rows,
        rows * cols <= old(arr)@.len(),
        eq < txt@.len(),
    ensures
        stores_wf(cols as int, final(arr)@, *final(g), final(farr)@),
        final(arr)@.len() == old(arr)@.len(),
        agg_func_post(
            txt@,
            cols as int,
            rows as int,
            eq as int,
            old(arr)@,
            old(farr)@,
            final(arr)@,
            final(farr)@,
            final(g).adj@,
            11,
            r,
        ),
{
    run_range_func(txt, cols, rows, eq, arr, g, farr, 11)
}

/// Apply a `SUM` range command.
pub fn sum_func(
    txt: &str,
    cols: i32,
    rows: i32,
    eq: usize,
    arr: &mut Vec<i32>,
    g: &mut Graph,
    farr: &mut Vec<Formula>,
) -> (r: bool)
    requires
        stores_wf(cols as int, old(arr)@, *old(g), old(farr)@),
        1 <= rows,
        rows * cols <= old(arr)@.len(),
        eq < txt@.len(),
    ensures
        stores_wf(cols as int, final(arr)@, *final(g), final(farr)@),
        final(arr)@.len() == old(arr)@.len(),
        agg_func_post(
            txt@,
            cols as int,
            rows as int,
            eq as int,
            old(arr)@,
            old(farr)@,
            final(arr)@,
            final(farr)@,
            final(g).adj@,
            12,
            r,
        ),
{
    run_range_func(txt, cols, rows, eq, arr, g, farr, 12)
}

/// Apply a `STDEV` range command (integer standard deviation, rounded to
/// nearest).
pub fn standard_dev_func(
    txt: &str,
    cols: i32,
    rows: i32,
    eq: usize,
    arr: &mut Vec<i32>,
    g: &mut Graph,
    farr: &mut Vec<Formula>,
) -> (r: bool)
    requires
        stores_wf(cols as int, old(arr)@, *old(g), old(farr)@),
        1 <= rows,
        rows * cols <= old(arr)@.len(),
        eq < txt@.len(),
    ensures
        stores_wf(cols as int, final(arr)@, *final(g), final(farr)@),
        final(arr)@.len() == old(arr)@.len(),
        agg_func_post(
            txt@,
            cols as int,
            rows as int,
            eq as int,
            old(arr)@,
            old(farr)@,
            final(arr)@,
            final(farr)@,
            final(g).adj@,
            13,
            r,
        ),
{
    run_range_func(txt, cols, rows, eq, arr, g, farr, 13)
}

/// Apply a `SLEEP` command: record the duration (a literal, or the current
/// value of the argument cell) as the destination's value.  The caller is
/// responsible for actually blocking when the committed duration is
/// positive.
pub fn sleep_func(
    txt: &str,
    cols: i32,
    rows: i32,
    eq: usize,
    arr: &mut Vec<i32>,
    g: &mut Graph,
    farr: &mut Vec<Formula>,
) -> (r: bool)
    requires
        stores_wf(cols as int, old(arr)@, *old(g), old(farr)@),
        1 <= rows,
        rows * cols <= old(arr)@.len(),
        eq < txt@.len(),
    ensures
        stores_wf(cols as int, final(arr)@, *final(g), final(farr)@),
        final(arr)@.len() == old(arr)@.len(),
        ({
            let dst = spec_cell_id(txt@.take(eq as int), cols as int, rows as int);
            let fo = if dst == -1 {
                Option::<Formula>::None
            } else {
                spec_sleep_f(txt@.skip(eq as int + 1), dst, cols as int, rows as int, old(arr)@)
            };
            match fo {
                None => !r && final(arr)@ == old(arr)@ && final(farr)@ == old(farr)@,
                Some(f) => edit_outcome(
                    r,
                    old(arr)@,
                    old(farr)@,
                    final(arr)@,
                    final(farr)@,
                    final(g).adj@,
                    cols as int,
                    dst,
                    f,
                ),
            }
        }),
{
    run_sleep_func(txt, cols, rows, eq, arr, g, farr)
}

} // verus!
