//! Presentation helpers: spreadsheet-style column names, plain-text
//! rendering of values and formula records, and the keyboard viewport
//! scroller.

use crate::graph::{Formula, Graph, ERR};
use vstd::prelude::*;
use vstd::string::StrSliceExecFns;
use vstd::string::StringExecFns;

verus! {

/// The letter for one base-26 digit: `0 -> 'A'`, ..., `25 -> 'Z'`.
pub open spec fn col_letter(k: int) -> char {
    (('A' as u8) + k as u8) as char
}

/// The spreadsheet-style name of a zero-based column index: `0 -> "A"`,
/// `25 -> "Z"`, `26 -> "AA"`, `701 -> "ZZ"`, `702 -> "AAA"`, ...
pub open spec fn col_name(col: int) -> Seq<char>
    decreases col,
{
    if col < 26 {
        seq![col_letter(col)]
    } else {
        col_name(col / 26 - 1).push(col_letter(col % 26))
    }
}

/// Relies on `String::push`: appends exactly one character.
#[verifier::external_body]
fn push_char(s: &mut String, c: char)
    ensures
        final(s)@ == old(s)@.push(c),
{
    s.push(c);
}

/// Convert a zero-based column index into its spreadsheet name.
pub fn column_index_to_name(col: usize) -> (r: String)
    ensures
        r@ == col_name(col as int),
    decreases col,
{
    if col < 26 {
        let c = (('A' as u8) + col as u8) as char;
        let mut s = String::new();
        push_char(&mut s, c);
        proof {
            assert(s@ =~= col_name(col as int));
        }
        s
    } else {
        let mut s = column_index_to_name(col / 26 - 1);
        let c = (('A' as u8) + (col % 26) as u8) as char;
        push_char(&mut s, c);
        s
    }
}

/// The decimal digits of a nonnegative number.
pub open spec fn nat_digits(v: int) -> Seq<char>
    decreases v,
{
    if v < 10 {
        seq![(('0' as u8) + v as u8) as char]
    } else {
        nat_digits(v / 10).push((('0' as u8) + (v % 10) as u8) as char)
    }
}

/// The decimal rendering of a value, with a leading `-` when negative.
pub open spec fn int_text(v: int) -> Seq<char> {
    if v < 0 {
        seq!['-'] + nat_digits(-v)
    } else {
        nat_digits(v)
    }
}

/// Render a nonnegative number below `2^63` in decimal.
fn nat_to_string(v: u64) -> (r: String)
    ensures
        r@ == nat_digits(v as int),
    decreases v,
{
    if v < 10 {
        let c = (('0' as u8) + v as u8) as char;
        let mut s = String::new();
        push_char(&mut s, c);
        proof {
            assert(s@ =~= nat_digits(v as int));
        }
        s
    } else {
        let mut s = nat_to_string(v / 10);
        let c = (('0' as u8) + (v % 10) as u8) as char;
        push_char(&mut s, c);
        s
    }
}

/// Render a value in decimal, with a leading `-` when negative.
pub fn int_to_string(v: i32) -> (r: String)
    ensures
        r@ == int_text(v as int),
{
    if v < 0 {
        let m: u64 = (-(v as i64)) as u64;
        let mut s = String::new();
        push_char(&mut s, '-');
        let digits = nat_to_string(m);
        s.append(digits.as_str());
        proof {
            assert(s@ =~= int_text(v as int));
        }
        s
    } else {
        nat_to_string(v as u64)
    }
}

/// Render a cell value the way the sheet displays it: the `ERR` sentinel
/// as the literal `ERR`, every other value in decimal.
pub open spec fn cell_text(v: i32) -> Seq<char> {
    if v == ERR {
        "ERR"@
    } else {
        int_text(v as int)
    }
}

/// Render a cell value for display.
pub fn value_to_string(v: i32) -> (r: String)
    ensures
        r@ == cell_text(v),
{
    if v == i32::MIN {
        String::from_str("ERR")
    } else {
        int_to_string(v)
    }
}

/// The plain-text form of a formula record.
pub open spec fn formula_text(f: Formula) -> Seq<char> {
    "Formula { op_type: "@ + int_text(f.op_type as int) + ", p1: "@ + int_text(f.p1 as int)
        + ", p2: "@ + int_text(f.p2 as int) + " }"@
}

impl Formula {
    /// Render the record as text, field by field.
    pub fn render(&self) -> (r: String)
        ensures
            r@ == formula_text(*self),
    {
        let mut s = String::from_str("Formula { op_type: ");
        let t1 = int_to_string(self.op_type);
        s.append(t1.as_str());
        s.append(", p1: ");
        let t2 = int_to_string(self.p1);
        s.append(t2.as_str());
        s.append(", p2: ");
        let t3 = int_to_string(self.p2);
        s.append(t3.as_str());
        s.append(" }");
        s
    }
}

/// Where a one-key pan moves the viewport origin `(x, y)` on a
/// `rows` x `cols` sheet: `w`/`s` move up/down by ten rows, `a`/`d` left
/// and right by ten columns, clamped to the sheet; anything else leaves
/// the origin alone.
pub open spec fn scroll_step(cmd: Seq<char>, x: int, y: int, cols: int, rows: int) -> (int, int) {
    if cmd =~= "w"@ {
        (x, if y < 10 {
            0int
        } else {
            y - 10
        })
    } else if cmd =~= "d"@ {
        let remaining = if cols >= x + 10 {
            cols - (x + 10)
        } else {
            0int
        };
        (
            if remaining == 0 {
                x
            } else if remaining < 10 {
                x + remaining
            } else {
                x + 10
            },
            y,
        )
    } else if cmd =~= "a"@ {
        (
            if x < 10 {
                0int
            } else {
                x - 10
            },
            y,
        )
    } else if cmd =~= "s"@ {
        let remaining = if rows >= y + 10 {
            rows - (y + 10)
        } else {
            0int
        };
        (
            x,
            if remaining == 0 {
                y
            } else if remaining < 10 {
                y + remaining
            } else {
                y + 10
            },
        )
    } else {
        (x, y)
    }
}

/// Pan the viewport origin by one keyboard command (`w`, `a`, `s`, `d`);
/// any other command, including a `scroll_to` jump (which is resolved by
/// the caller), leaves the origin alone.
pub fn scroller_display(
    cmd: &str,
    _arr: &Vec<i32>,
    curr_x: &mut usize,
    curry: &mut usize,
    cols: usize,
    rows: usize,
    _graph: &mut Graph,
)
    ensures
        ({
            let step = scroll_step(
                cmd@,
                *old(curr_x) as int,
                *old(curry) as int,
                cols as int,
                rows as int,
            );
            *final(curr_x) == step.0 && *final(curry) == step.1
        }),
        final(_graph).adj@ == old(_graph).adj@,
{
    let len = cmd.unicode_len();
    if len != 1 {
        proof {
            assert(!(cmd@ =~= "w"@)) by {
                reveal_strlit("w");
            }
            assert(!(cmd@ =~= "a"@)) by {
                reveal_strlit("a");
            }
            assert(!(cmd@ =~= "s"@)) by {
                reveal_strlit("s");
            }
            assert(!(cmd@ =~= "d"@)) by {
                reveal_strlit("d");
            }
        }
        return ;
    }
    let c = cmd.get_char(0);
    proof {
        reveal_strlit("w");
        reveal_strlit("a");
        reveal_strlit("s");
        reveal_strlit("d");
        assert(cmd@ =~= seq![cmd@[0]]);
    }
    if c == 'w' {
        if *curry < 10 {
            *curry = 0;
        } else {
            *curry = *curry - 10;
        }
    } else if c == 'd' {
        let remaining = if cols >= *curr_x && cols - *curr_x >= 10 {
            cols - *curr_x - 10
        } else {
            0
        };
        if remaining == 0 {
        } else if remaining < 10 {
            *curr_x = *curr_x + remaining;
        } else {
            *curr_x = *curr_x + 10;
        }
    } else if c == 'a' {
        if *curr_x < 10 {
            *curr_x = 0;
        } else {
            *curr_x = *curr_x - 10;
        }
    } else if c == 's' {
        let remaining = if rows >= *curry && rows - *curry >= 10 {
            rows - *curry - 10
        } else {
            0
        };
        if remaining == 0 {
        } else if remaining < 10 {
            *curry = *curry + remaining;
        } else {
            *curry = *curry + 10;
        }
    }
}


/// One table-header entry per column, left to right.
pub open spec fn header_cells(c: int) -> Seq<char>
    decreases c,
{
    if c <= 0 {
        Seq::empty()
    } else {
        header_cells(c - 1) + "<th style=\"padding: 5px;\">"@ + col_name(c - 1) + "</th>"@
    }
}

/// One table cell: an input field tagged with its cell name and showing
/// its value.
pub open spec fn td_text(vals: Seq<i32>, cols: int, row: int, col: int) -> Seq<char> {
    "<td style=\"padding: 5px;\">\n                    <input type=\"text\"\n                           data-cell=\""@
        + col_name(col) + int_text(row + 1)
        + "\"\n                           value=\""@ + cell_text(vals[row * cols + col])
        + "\"\n                           style=\"width: 100px; border: none; text-align: center;\"\n                           onblur=\"handleCellBlur(event)\"\n                           onkeyup=\"handleCellKeyup(event)\" />\n                   </td>"@
}

/// The cells of one table row, columns `0..c`.
pub open spec fn row_tds(vals: Seq<i32>, cols: int, row: int, c: int) -> Seq<char>
    decreases c,
{
    if c <= 0 {
        Seq::empty()
    } else {
        row_tds(vals, cols, row, c - 1) + td_text(vals, cols, row, c - 1)
    }
}

/// One table row: its 1-based number, then its cells.
pub open spec fn tr_text(vals: Seq<i32>, cols: int, row: int) -> Seq<char> {
    "<tr><th style=\"padding: 5px;\">"@ + int_text(row + 1) + "</th>"@ + row_tds(
        vals,
        cols,
        row,
        cols,
    ) + "</tr>"@
}

/// The table rows `0..r`.
pub open spec fn all_trs(vals: Seq<i32>, cols: int, r: int) -> Seq<char>
    decreases r,
{
    if r <= 0 {
        Seq::empty()
    } else {
        all_trs(vals, cols, r - 1) + tr_text(vals, cols, r - 1)
    }
}

/// The whole sheet as an HTML table inside a scrollable container.
pub open spec fn render_text(vals: Seq<i32>, cols: int, rows: int) -> Seq<char> {
    "\n        <div id=\"scroll-container\"\n             style=\"max-width: 1020px; max-height: 600px; overflow: auto; border: 1px solid #ccc;\">\n    "@
        + "<table border=\"1\" style=\"border-collapse:collapse;\">"@ + "<tr><th></th>"@
        + header_cells(cols) + "</tr>"@ + all_trs(vals, cols, rows) + "</table>"@ + "</div>"@
}

/// Render the entire sheet as an HTML table in a scrollable container:
/// column-letter headers, 1-based row numbers, and one input field per
/// cell tagged `data-cell="A1"` and showing the cell's value (`ERR` for
/// the sentinel).  The two viewport arguments are accepted for signature
/// compatibility; the whole sheet is rendered.
#[verifier::loop_isolation(false)]
#[verifier::rlimit(100)]
#[verifier::spinoff_prover]
pub fn render_spreadsheet(
    _curr_x: usize,
    _curr_y: usize,
    arr: &Vec<i32>,
    cols: usize,
    rows: usize,
) -> (r: String)
    requires
        rows * cols <= arr@.len(),
    ensures
        r@ == render_text(arr@, cols as int, rows as int),
{
    let mut output = String::new();
    output.append(
        "\n        <div id=\"scroll-container\"\n             style=\"max-width: 1020px; max-height: 600px; overflow: auto; border: 1px solid #ccc;\">\n    ",
    );
    output.append("<table border=\"1\" style=\"border-collapse:collapse;\">");
    output.append("<tr><th></th>");
    let ghost pre = output@;
    let mut col: usize = 0;
    while col < cols
        invariant
            col <= cols,
            output@ == pre + header_cells(col as int),
        decreases cols - col,
    {
        output.append("<th style=\"padding: 5px;\">");
        let name = column_index_to_name(col);
        output.append(name.as_str());
        output.append("</th>");
        proof {
            assert(output@ =~= pre + header_cells(col as int + 1));
        }
        col = col + 1;
    }
    output.append("</tr>");
    let ghost mid = output@;
    proof {
        assert(mid =~= pre + header_cells(cols as int) + "</tr>"@);
    }
    let mut row: usize = 0;
    while row < rows
        invariant
            row <= rows,
            rows * cols <= arr@.len(),
            output@ == mid + all_trs(arr@, cols as int, row as int),
        decreases rows - row,
    {
        let ghost rowpre = output@;
        output.append("<tr><th style=\"padding: 5px;\">");
        let row_num = nat_to_string((row + 1) as u64);
        output.append(row_num.as_str());
        output.append("</th>");
        proof {
            assert((row + 1) as u64 as int == row as int + 1);
            assert(int_text(row as int + 1) == nat_digits(row as int + 1));
        }
        let ghost cellpre = output@;
        let mut col2: usize = 0;
        proof {
            vstd::arithmetic::mul::lemma_mul_inequality(row as int + 1, rows as int, cols as int);
            vstd::arithmetic::mul::lemma_mul_is_distributive_add_other_way(
                cols as int,
                row as int,
                1,
            );
            assert(row * cols + cols <= rows * cols);
        }
        while col2 < cols
            invariant
                col2 <= cols,
                row < rows,
                rows * cols <= arr@.len(),
                row * cols + cols <= rows * cols,
                output@ == cellpre + row_tds(arr@, cols as int, row as int, col2 as int),
            decreases cols - col2,
        {
            proof {
                broadcast use vstd::std_specs::vec::axiom_spec_len;

                assert(vstd::std_specs::vec::spec_vec_len(arr) == arr@.len());
            }
            let idx = row * cols + col2;
            assert(idx < arr@.len());
            output.append(
                "<td style=\"padding: 5px;\">\n                    <input type=\"text\"\n                           data-cell=\"",
            );
            let name = column_index_to_name(col2);
            output.append(name.as_str());
            let row_text = nat_to_string((row + 1) as u64);
            output.append(row_text.as_str());
            output.append("\"\n                           value=\"");
            let val_text = value_to_string(arr[idx]);
            output.append(val_text.as_str());
            output.append(
                "\"\n                           style=\"width: 100px; border: none; text-align: center;\"\n                           onblur=\"handleCellBlur(event)\"\n                           onkeyup=\"handleCellKeyup(event)\" />\n                   </td>",
            );
            proof {
                assert((row + 1) as u64 as int == row as int + 1);
                assert(int_text(row as int + 1) == nat_digits(row as int + 1));
                assert(output@ =~= cellpre + row_tds(
                    arr@,
                    cols as int,
                    row as int,
                    col2 as int + 1,
                ));
            }
            col2 = col2 + 1;
        }
        output.append("</tr>");
        proof {
            assert(output@ =~= rowpre + tr_text(arr@, cols as int, row as int));
            assert(output@ =~= mid + all_trs(arr@, cols as int, row as int + 1));
        }
        row = row + 1;
    }
    output.append("</table>");
    output.append("</div>");
    proof {
        assert(output@ =~= render_text(arr@, cols as int, rows as int));
    }
    output
}

} // verus!
