//! Viewport movement over the sheet: page scrolls and direct jumps.

use crate::display::{scroll_step, scroller_display};
use crate::input_parser::{cell_parser, spec_cell_id};
use crate::spreadsheet::Spreadsheet;
use vstd::prelude::*;
use vstd::string::StrSliceExecFns;

verus! {

/// Jump the viewport origin directly to the given row and column.
pub fn scroll_to(spreadsheet: &mut Spreadsheet, row: usize, col: usize)
    ensures
        final(spreadsheet).curr_x == col,
        final(spreadsheet).curry == row,
        final(spreadsheet).rows == old(spreadsheet).rows,
        final(spreadsheet).cols == old(spreadsheet).cols,
        final(spreadsheet).arr@ == old(spreadsheet).arr@,
        final(spreadsheet).formula_array@ == old(spreadsheet).formula_array@,
        old(spreadsheet).wf() ==> final(spreadsheet).wf(),
{
    spreadsheet.curr_x = col;
    spreadsheet.curry = row;
}

/// The prefix introducing a jump command.
pub open spec fn jump_prefix() -> Seq<char> {
    "scroll_to "@
}

/// Where a command moves the viewport origin: `scroll_to CELL` jumps to
/// the named cell (and is ignored when the name is invalid); `w`, `a`,
/// `s`, `d` pan by ten; anything else is ignored.
pub open spec fn spec_scroll(
    cmd: Seq<char>,
    x: int,
    y: int,
    cols: int,
    rows: int,
) -> (int, int) {
    if cmd.len() >= 10 && cmd.take(10) =~= jump_prefix() {
        let idx = spec_cell_id(cmd.skip(10), cols, rows);
        if idx >= 0 {
            (crate::graph::col_of(idx, cols), crate::graph::row_of(idx, cols))
        } else {
            (x, y)
        }
    } else {
        scroll_step(cmd, x, y, cols, rows)
    }
}

/// Handle one viewport command: a `scroll_to CELL` jump, or a `w`, `a`,
/// `s`, `d` pan.
#[verifier::loop_isolation(false)]
pub fn scroller(cmd: &str, spreadsheet: &mut Spreadsheet)
    requires
        old(spreadsheet).wf(),
    ensures
        final(spreadsheet).wf(),
        final(spreadsheet).rows == old(spreadsheet).rows,
        final(spreadsheet).cols == old(spreadsheet).cols,
        final(spreadsheet).arr@ == old(spreadsheet).arr@,
        final(spreadsheet).formula_array@ == old(spreadsheet).formula_array@,
        ({
            let step = spec_scroll(
                cmd@,
                old(spreadsheet).curr_x as int,
                old(spreadsheet).curry as int,
                old(spreadsheet).cols as int,
                old(spreadsheet).rows as int,
            );
            final(spreadsheet).curr_x == step.0 && final(spreadsheet).curry == step.1
        }),
{
    let len = cmd.unicode_len();
    let mut is_jump = false;
    if len >= 10 {
        let head = cmd.substring_char(0, 10);
        proof {
            assert(head@ =~= cmd@.take(10));
            reveal_strlit("scroll_to ");
        }
        if head.unicode_len() == 10 {
            let mut matches_prefix = true;
            let ghost p = jump_prefix();
            let c0 = head.get_char(0);
            let c1 = head.get_char(1);
            let c2 = head.get_char(2);
            let c3 = head.get_char(3);
            let c4 = head.get_char(4);
            let c5 = head.get_char(5);
            let c6 = head.get_char(6);
            let c7 = head.get_char(7);
            let c8 = head.get_char(8);
            let c9 = head.get_char(9);
            matches_prefix = c0 == 's' && c1 == 'c' && c2 == 'r' && c3 == 'o' && c4 == 'l' && c5
                == 'l' && c6 == '_' && c7 == 't' && c8 == 'o' && c9 == ' ';
            proof {
                if matches_prefix {
                    assert(head@ =~= jump_prefix());
                } else {
                    assert(!(head@ =~= jump_prefix()));
                }
            }
            is_jump = matches_prefix;
        }
    } else {
        proof {
            assert(!(cmd@.len() >= 10));
        }
    }
    if is_jump {
        let cell = cmd.substring_char(10, len);
        proof {
            assert(cell@ =~= cmd@.skip(10));
            vstd::arithmetic::mul::lemma_mul_upper_bound(
                spreadsheet.rows as int,
                1000,
                spreadsheet.cols as int,
                18278,
            );
            vstd::arithmetic::mul::lemma_mul_nonnegative(
                spreadsheet.rows as int,
                spreadsheet.cols as int,
            );
        }
        let idx = cell_parser(
            cell,
            spreadsheet.cols as i32,
            spreadsheet.rows as i32,
        );
        if idx >= 0 {
            let iu = idx as usize;
            let row = iu / spreadsheet.cols;
            let col = iu % spreadsheet.cols;
            proof {
                crate::graph::lemma_cell_decompose(idx as int, spreadsheet.cols as int);
            }
            scroll_to(spreadsheet, row, col);
        }
    } else {
        scroller_display(
            cmd,
            &spreadsheet.arr,
            &mut spreadsheet.curr_x,
            &mut spreadsheet.curry,
            spreadsheet.cols,
            spreadsheet.rows,
            &mut spreadsheet.graph,
        );
    }
}

/// Scroll up by one page (ten rows).
pub fn scroll_up(spreadsheet: &mut Spreadsheet)
    ensures
        final(spreadsheet).curry == if old(spreadsheet).curry < 10 {
            0int
        } else {
            old(spreadsheet).curry - 10
        },
        final(spreadsheet).curr_x == old(spreadsheet).curr_x,
        final(spreadsheet).rows == old(spreadsheet).rows,
        final(spreadsheet).cols == old(spreadsheet).cols,
        final(spreadsheet).arr@ == old(spreadsheet).arr@,
        final(spreadsheet).formula_array@ == old(spreadsheet).formula_array@,
        old(spreadsheet).wf() ==> final(spreadsheet).wf(),
{
    if spreadsheet.curry < 10 {
        spreadsheet.curry = 0;
    } else {
        spreadsheet.curry = spreadsheet.curry - 10;
    }
}

/// Scroll down by one page, stopping at the last row.
pub fn scroll_down(spreadsheet: &mut Spreadsheet)
    ensures
        final(spreadsheet).curry as int == old(spreadsheet).curry + (if old(spreadsheet).rows
            >= old(spreadsheet).curry + 10 {
            let rem = old(spreadsheet).rows - (old(spreadsheet).curry + 10);
            if rem < 10 {
                rem
            } else {
                10int
            }
        } else {
            0int
        }),
        final(spreadsheet).curr_x == old(spreadsheet).curr_x,
        final(spreadsheet).rows == old(spreadsheet).rows,
        final(spreadsheet).cols == old(spreadsheet).cols,
        final(spreadsheet).arr@ == old(spreadsheet).arr@,
        final(spreadsheet).formula_array@ == old(spreadsheet).formula_array@,
        old(spreadsheet).wf() ==> final(spreadsheet).wf(),
{
    let remaining = if spreadsheet.rows >= spreadsheet.curry && spreadsheet.rows
        - spreadsheet.curry >= 10 {
        spreadsheet.rows - spreadsheet.curry - 10
    } else {
        0
    };
    let step = if remaining < 10 {
        remaining
    } else {
        10
    };
    spreadsheet.curry = spreadsheet.curry + step;
}

/// Scroll left by one page (ten columns).
pub fn scroll_left(spreadsheet: &mut Spreadsheet)
    ensures
        final(spreadsheet).curr_x == if old(spreadsheet).curr_x < 10 {
            0int
        } else {
            old(spreadsheet).curr_x - 10
        },
        final(spreadsheet).curry == old(spreadsheet).curry,
        final(spreadsheet).rows == old(spreadsheet).rows,
        final(spreadsheet).cols == old(spreadsheet).cols,
        final(spreadsheet).arr@ == old(spreadsheet).arr@,
        final(spreadsheet).formula_array@ == old(spreadsheet).formula_array@,
        old(spreadsheet).wf() ==> final(spreadsheet).wf(),
{
    if spreadsheet.curr_x < 10 {
        spreadsheet.curr_x = 0;
    } else {
        spreadsheet.curr_x = spreadsheet.curr_x - 10;
    }
}

/// Scroll right by one page, stopping at the last column.
pub fn scroll_right(spreadsheet: &mut Spreadsheet)
    ensures
        final(spreadsheet).curr_x as int == old(spreadsheet).curr_x + (if old(spreadsheet).cols
            >= old(spreadsheet).curr_x + 10 {
            let rem = old(spreadsheet).cols - (old(spreadsheet).curr_x + 10);
            if rem < 10 {
                rem
            } else {
                10int
            }
        } else {
            0int
        }),
        final(spreadsheet).curry == old(spreadsheet).curry,
        final(spreadsheet).rows == old(spreadsheet).rows,
        final(spreadsheet).cols == old(spreadsheet).cols,
        final(spreadsheet).arr@ == old(spreadsheet).arr@,
        final(spreadsheet).formula_array@ == old(spreadsheet).formula_array@,
        old(spreadsheet).wf() ==> final(spreadsheet).wf(),
{
    let remaining = if spreadsheet.cols >= spreadsheet.curr_x && spreadsheet.cols
        - spreadsheet.curr_x >= 10 {
        spreadsheet.cols - spreadsheet.curr_x - 10
    } else {
        0
    };
    let step = if remaining < 10 {
        remaining
    } else {
        10
    };
    spreadsheet.curr_x = spreadsheet.curr_x + step;
}

} // verus!
