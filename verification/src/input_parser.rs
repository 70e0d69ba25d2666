//! Parsing and execution of cell assignment commands of the form `DST=EXPR`.
//!
//! `EXPR` can be a literal integer, a single (optionally negated) cell
//! reference, a binary arithmetic expression over cells and literals, or a
//! function call (`MIN`, `MAX`, `AVG`, `SUM`, `STDEV` over a range, or
//! `SLEEP`).  The entry point [`parser`] applies one command to the sheet
//! transactionally: a command that fails to parse, names a cell outside the
//! sheet, refers to the destination itself, or would close a dependency
//! cycle is rejected with a nonzero code and leaves every cell value and
//! formula record unchanged.

use crate::graph::{add_formula, delete_edge, is_source, Formula, Graph};
use crate::recalc::{
    coherent_with, edit_cycles, eval_formula, formula_ok, has_cycle_from, lemma_cycle_transfer,
    lemma_eval_frame, lemma_reaches_refl, lemma_reaches_step, reaches, recalculate,
};
use crate::spreadsheet::Spreadsheet;
use vstd::prelude::*;
use vstd::string::StrSliceExecFns;

verus! {

/// An uppercase ASCII letter.
pub open spec fn is_upper(c: char) -> bool {
    'A' <= c <= 'Z'
}

/// An ASCII digit.
pub open spec fn is_digit_ch(c: char) -> bool {
    '0' <= c <= '9'
}

/// Scan a cell name left to right: letters accumulate a 1-based column
/// number in base 26, digits a 1-based row number in base 10; a letter
/// after a digit or any other character fails.
pub open spec fn cell_scan(s: Seq<char>, i: int, col: int, row: int, seen_digit: bool) -> Option<
    (int, int),
>
    decreases s.len() - i,
{
    if i < 0 || i >= s.len() {
        Some((col, row))
    } else if is_upper(s[i]) {
        if seen_digit {
            None
        } else {
            cell_scan(s, i + 1, col * 26 + (s[i] as int - 'A' as int + 1), row, false)
        }
    } else if is_digit_ch(s[i]) {
        cell_scan(s, i + 1, col, row * 10 + (s[i] as int - '0' as int), true)
    } else {
        None
    }
}

/// The cell index named by `s` on a `rows` x `cols` sheet, or `-1` when the
/// name is malformed or out of bounds.
pub open spec fn spec_cell_id(s: Seq<char>, cols: int, rows: int) -> int {
    match cell_scan(s, 0, 0, 0, false) {
        None => -1,
        Some((col, row)) => {
            let c0 = col - 1;
            let r0 = row - 1;
            if c0 < 0 || r0 < 0 || c0 >= cols || r0 >= rows {
                -1
            } else {
                r0 * cols + c0
            }
        },
    }
}

/// A successful scan never shrinks the accumulated column or row.
proof fn lemma_cell_scan_mono(s: Seq<char>, i: int, col: int, row: int, seen_digit: bool)
    requires
        0 <= col,
        0 <= row,
    ensures
        match cell_scan(s, i, col, row, seen_digit) {
            Some((c, r)) => c >= col && r >= row,
            None => true,
        },
    decreases s.len() - i,
{
    if 0 <= i < s.len() {
        if is_upper(s[i]) && !seen_digit {
            lemma_cell_scan_mono(s, i + 1, col * 26 + (s[i] as int - 'A' as int + 1), row, false);
        } else if is_digit_ch(s[i]) {
            lemma_cell_scan_mono(s, i + 1, col, row * 10 + (s[i] as int - '0' as int), true);
        }
    }
}

/// Parse a cell name such as `B3` into its index `row * cols + col` (both
/// zero-based), returning `-1` for a malformed or out-of-range name.
#[verifier::loop_isolation(false)]
pub fn cell_parser(s: &str, cols: i32, rows: i32) -> (r: i32)
    requires
        0 <= cols,
        0 <= rows,
        rows * cols <= i32::MAX,
    ensures
        r == spec_cell_id(s@, cols as int, rows as int),
        r == -1 || (0 <= r < rows * cols),
{
    let len = s.unicode_len();
    let mut i: usize = 0;
    let mut col: u64 = 0;
    let mut row: u64 = 0;
    let mut seen_digit: bool = false;
    if cols <= 0 || rows <= 0 {
        proof {
            lemma_cell_scan_mono(s@, 0, 0, 0, false);
        }
        return -1;
    }
    while i < len
        invariant
            i <= len,
            len == s@.len(),
            0 < cols,
            0 < rows,
            col <= cols as u64,
            row <= rows as u64,
            cell_scan(s@, 0, 0, 0, false) == cell_scan(
                s@,
                i as int,
                col as int,
                row as int,
                seen_digit,
            ),
        decreases len - i,
    {
        let c = s.get_char(i);
        if c >= 'A' && c <= 'Z' {
            if seen_digit {
                return -1;
            }
            let v: u64 = (c as u32) as u64 - 64;
            proof {
                assert(1 <= v <= 26);
            }
            let newcol = col * 26 + v;
            if newcol > cols as u64 {
                proof {
                    lemma_cell_scan_mono(
                        s@,
                        i + 1,
                        newcol as int,
                        row as int,
                        false,
                    );
                }
                return -1;
            }
            col = newcol;
        } else if c >= '0' && c <= '9' {
            let d: u64 = (c as u32) as u64 - 48;
            let newrow = row * 10 + d;
            if newrow > rows as u64 {
                proof {
                    lemma_cell_scan_mono(
                        s@,
                        i + 1,
                        col as int,
                        newrow as int,
                        true,
                    );
                }
                return -1;
            }
            row = newrow;
            seen_digit = true;
        } else {
            return -1;
        }
        i = i + 1;
    }
    if col == 0 || row == 0 {
        return -1;
    }
    let c0 = (col - 1) as i64;
    let r0 = (row - 1) as i64;
    proof {
        assert(c0 < cols as i64);
        assert(r0 < rows as i64);
        vstd::arithmetic::mul::lemma_mul_inequality(r0 as int, rows as int - 1, cols as int);
        vstd::arithmetic::mul::lemma_mul_nonnegative(r0 as int, cols as int);
        assert((rows as int - 1) * cols as int == rows as int * cols as int - cols as int) by {
            vstd::arithmetic::mul::lemma_mul_is_distributive_sub_other_way(
                cols as int,
                rows as int,
                1,
            );
        }
    }
    (r0 * (cols as i64) + c0) as i32
}


/// First index at or after `i` holding `ch`, or `-1`.
pub open spec fn find_from(s: Seq<char>, i: int, ch: char) -> int
    decreases s.len() - i,
{
    if i < 0 || i >= s.len() {
        -1
    } else if s[i] == ch {
        i
    } else {
        find_from(s, i + 1, ch)
    }
}

/// First index at or after `i` holding an arithmetic operator, or `-1`.
pub open spec fn find_op_from(s: Seq<char>, i: int) -> int
    decreases s.len() - i,
{
    if i < 0 || i >= s.len() {
        -1
    } else if is_op_char(s[i]) {
        i
    } else {
        find_op_from(s, i + 1)
    }
}

/// One of the four arithmetic operator characters.
pub open spec fn is_op_char(c: char) -> bool {
    c == '+' || c == '-' || c == '*' || c == '/'
}

/// Value of a digit-only run from `i` on, `None` on any other character.
pub open spec fn digits_val(s: Seq<char>, i: int, acc: int) -> Option<int>
    decreases s.len() - i,
{
    if i < 0 || i >= s.len() {
        Some(acc)
    } else if is_digit_ch(s[i]) {
        digits_val(s, i + 1, acc * 10 + (s[i] as int - '0' as int))
    } else {
        None
    }
}

/// The integer literal denoted by `s` (digits only, no sign), or `None`
/// when `s` is empty, holds a non-digit, or exceeds `i32::MAX`.
pub open spec fn spec_literal(s: Seq<char>) -> Option<int> {
    if s.len() == 0 {
        None
    } else {
        match digits_val(s, 0, 0) {
            None => None,
            Some(v) => if v > i32::MAX as int {
                None
            } else {
                Some(v)
            },
        }
    }
}

/// A digit run never shrinks its accumulator.
proof fn lemma_digits_mono(s: Seq<char>, i: int, acc: int)
    requires
        0 <= acc,
    ensures
        match digits_val(s, i, acc) {
            Some(v) => v >= acc,
            None => true,
        },
    decreases s.len() - i,
{
    if 0 <= i < s.len() && is_digit_ch(s[i]) {
        lemma_digits_mono(s, i + 1, acc * 10 + (s[i] as int - '0' as int));
    }
}

/// Parse a digit-only string into its value, rejecting values above
/// `i32::MAX`.
#[verifier::loop_isolation(false)]
fn parse_literal(s: &str, from: usize) -> (r: Option<i32>)
    requires
        from <= s@.len(),
    ensures
        match r {
            Some(v) => spec_literal(s@.skip(from as int)) == Some(v as int) && v >= 0,
            None => spec_literal(s@.skip(from as int)) is None,
        },
{
    let ghost t = s@.skip(from as int);
    let len = s.unicode_len();
    if from >= len {
        return None;
    }
    let mut i: usize = from;
    let mut acc: u64 = 0;
    while i < len
        invariant
            from <= i <= len,
            len == s@.len(),
            acc <= i32::MAX as u64,
            digits_val(t, 0, 0) == digits_val(t, i - from, acc as int),
        decreases len - i,
    {
        let c = s.get_char(i);
        proof {
            assert(t[i - from] == s@[i as int]);
        }
        if c >= '0' && c <= '9' {
            let d: u64 = (c as u32) as u64 - 48;
            let newacc = acc * 10 + d;
            if newacc > i32::MAX as u64 {
                proof {
                    lemma_digits_mono(t, i + 1 - from, newacc as int);
                }
                return None;
            }
            acc = newacc;
        } else {
            return None;
        }
        i = i + 1;
    }
    Some(acc as i32)
}

/// Find the first occurrence of `ch` in `s`, as an index.
#[verifier::loop_isolation(false)]
fn find_char(s: &str, ch: char) -> (r: Option<usize>)
    ensures
        match r {
            Some(k) => find_from(s@, 0, ch) == k as int && k < s@.len(),
            None => find_from(s@, 0, ch) == -1,
        },
{
    let len = s.unicode_len();
    let mut i: usize = 0;
    while i < len
        invariant
            i <= len,
            len == s@.len(),
            find_from(s@, 0, ch) == find_from(s@, i as int, ch),
        decreases len - i,
    {
        if s.get_char(i) == ch {
            return Some(i);
        }
        i = i + 1;
    }
    None
}

/// Find the first arithmetic operator at or after `from`.
#[verifier::loop_isolation(false)]
fn find_op(s: &str, from: usize) -> (r: Option<usize>)
    requires
        from <= s@.len(),
    ensures
        match r {
            Some(k) => find_op_from(s@, from as int) == k as int && from <= k < s@.len(),
            None => find_op_from(s@, from as int) == -1,
        },
{
    let len = s.unicode_len();
    let mut i: usize = from;
    while i < len
        invariant
            from <= i <= len,
            len == s@.len(),
            find_op_from(s@, from as int) == find_op_from(s@, i as int),
        decreases len - i,
    {
        let c = s.get_char(i);
        if c == '+' || c == '-' || c == '*' || c == '/' {
            return Some(i);
        }
        i = i + 1;
    }
    None
}

/// A parsed inclusive range of cells.
pub struct CellRange {
    pub start_row: usize,
    pub end_row: usize,
    pub start_col: usize,
    pub end_col: usize,
}

/// The endpoints of the range denoted by `s` (`A:B` with exactly one colon,
/// both endpoints valid cells, non-decreasing in row and, on one row, in
/// column), or `None`.
pub open spec fn spec_range(s: Seq<char>, cols: int, rows: int) -> Option<(int, int)> {
    let k = find_from(s, 0, ':');
    if k < 0 {
        None
    } else if find_from(s, k + 1, ':') >= 0 {
        None
    } else {
        let a = spec_cell_id(s.take(k), cols, rows);
        let b = spec_cell_id(s.skip(k + 1), cols, rows);
        if a == -1 || b == -1 {
            None
        } else if crate::graph::row_of(a, cols) > crate::graph::row_of(b, cols) || (
        crate::graph::row_of(a, cols) == crate::graph::row_of(b, cols) && crate::graph::col_of(
            a,
            cols,
        ) > crate::graph::col_of(b, cols)) {
            None
        } else {
            Some((a, b))
        }
    }
}

/// Split a range text `A:B` into its zero-based corner coordinates.
/// Exactly one colon must appear, both endpoints must name cells of the
/// sheet, and the range must be non-decreasing: start row before end row,
/// or on one row with start column at or before end column.
#[verifier::loop_isolation(false)]
pub fn parse_range(range: &str, cols: usize, rows: usize) -> (r: Option<CellRange>)
    requires
        1 <= cols,
        1 <= rows,
        rows * cols <= i32::MAX,
    ensures
        match r {
            Some(cr) => {
                &&& spec_range(range@, cols as int, rows as int) matches Some((a, b))
                &&& cr.start_row == crate::graph::row_of(
                    spec_range(range@, cols as int, rows as int)->Some_0.0,
                    cols as int,
                )
                &&& cr.start_col == crate::graph::col_of(
                    spec_range(range@, cols as int, rows as int)->Some_0.0,
                    cols as int,
                )
                &&& cr.end_row == crate::graph::row_of(
                    spec_range(range@, cols as int, rows as int)->Some_0.1,
                    cols as int,
                )
                &&& cr.end_col == crate::graph::col_of(
                    spec_range(range@, cols as int, rows as int)->Some_0.1,
                    cols as int,
                )
            },
            None => spec_range(range@, cols as int, rows as int) is None,
        },
{
    let len = range.unicode_len();
    let ko = find_char(range, ':');
    if ko.is_none() {
        return None;
    }
    let k = ko.unwrap();
    let first = range.substring_char(0, k);
    let second = range.substring_char(k + 1, len);
    proof {
        assert(first@ =~= range@.take(k as int));
        assert(second@ =~= range@.skip(k as int + 1));
        vstd::arithmetic::mul::lemma_mul_inequality(1, rows as int, cols as int);
        vstd::arithmetic::mul::lemma_mul_is_commutative(rows as int, cols as int);
        vstd::arithmetic::mul::lemma_mul_inequality(1, cols as int, rows as int);
    }
    let rest = find_char(second, ':');
    if rest.is_some() {
        proof {
            lemma_find_shift(range@, k as int + 1, ':');
            lemma_find_bounds(range@, k as int + 1, ':');
        }
        return None;
    }
    proof {
        lemma_find_shift(range@, k as int + 1, ':');
        lemma_find_bounds(range@, k as int + 1, ':');
    }
    let a = cell_parser(first, cols as i32, rows as i32);
    let b = cell_parser(second, cols as i32, rows as i32);
    if a == -1 || b == -1 {
        return None;
    }
    let au = a as usize;
    let bu = b as usize;
    let sr = au / cols;
    let sc = au % cols;
    let er = bu / cols;
    let ec = bu % cols;
    proof {
        crate::graph::lemma_cell_decompose(a as int, cols as int);
        crate::graph::lemma_cell_decompose(b as int, cols as int);
    }
    if sr > er || (sr == er && sc > ec) {
        return None;
    }
    Some(CellRange { start_row: sr, end_row: er, start_col: sc, end_col: ec })
}

/// A successful search lands at or after the start position.
proof fn lemma_find_bounds(s: Seq<char>, i: int, ch: char)
    requires
        0 <= i,
    ensures
        find_from(s, i, ch) == -1 || i <= find_from(s, i, ch) < s.len(),
    decreases s.len() - i,
{
    if i < s.len() && s[i] != ch {
        lemma_find_bounds(s, i + 1, ch);
    }
}

/// Searching past position `i` matches searching in the suffix.
proof fn lemma_find_shift(s: Seq<char>, i: int, ch: char)
    requires
        0 <= i <= s.len(),
    ensures
        find_from(s, i, ch) == -1 <==> find_from(s.skip(i), 0, ch) == -1,
    decreases s.len() - i,
{
    lemma_find_shift_rec(s, i, i, ch);
}

proof fn lemma_find_shift_rec(s: Seq<char>, base: int, i: int, ch: char)
    requires
        0 <= base <= i <= s.len(),
    ensures
        find_from(s, i, ch) == -1 <==> find_from(s.skip(base), i - base, ch) == -1,
    decreases s.len() - i,
{
    if i < s.len() {
        assert(s.skip(base)[i - base] == s[i]);
        if s[i] != ch {
            lemma_find_shift_rec(s, base, i + 1, ch);
        }
    }
}


/// Apply one parsed edit transactionally: snapshot the destination's
/// record, detach its old edges, install the new record and edges,
/// recalculate downstream, and on cycle detection restore the record and
/// the old edges.  Returns `0` on success and `1` exactly when the edit
/// would close a dependency cycle; on rejection every cell value and
/// record is unchanged.
#[verifier::loop_isolation(false)]
#[verifier::rlimit(100)]
pub(crate) fn apply_edit(
    cols: usize,
    arr: &mut Vec<i32>,
    graph: &mut Graph,
    farr: &mut Vec<Formula>,
    dst: usize,
    op: i32,
    p1: i32,
    p2: i32,
) -> (code: i32)
    requires
        crate::spreadsheet::stores_wf(cols as int, old(arr)@, *old(graph), old(farr)@),
        dst < old(arr)@.len(),
        formula_ok(
            Formula { op_type: op, p1, p2 },
            dst as int,
            old(arr)@.len() as int,
            cols as int,
        ),
    ensures
        crate::spreadsheet::stores_wf(cols as int, final(arr)@, *final(graph), final(farr)@),
        final(arr)@.len() == old(arr)@.len(),
        code == 0 || code == 1,
        code == 1 <==> edit_cycles(
            old(farr)@,
            cols as int,
            dst as int,
            Formula { op_type: op, p1, p2 },
        ),
        code == 1 ==> final(arr)@ == old(arr)@ && final(farr)@ == old(farr)@,
        code == 0 ==> final(farr)@ == old(farr)@.update(dst as int, Formula { op_type: op, p1, p2 }),
        code == 0 ==> forall|c: int|
            0 <= c < old(arr)@.len() && !reaches(final(graph).adj@, dst as int, c)
                ==> final(arr)@[c] == old(arr)@[c],
{
    let ghost f = Formula { op_type: op, p1, p2 };
    let ghost n = old(arr)@.len() as int;
    let ghost oldfarr = farr@;
    let ghost oldarr = arr@;
    let oldf = farr[dst];
    // detach: afterwards no edge points at dst, everything else unchanged
    delete_edge(graph, dst, farr, cols);
    proof {
        assert forall|s: int, d: int|
            graph.has_edge(s, d) <==> (0 <= d < n && d != dst as int && #[trigger] is_source(
                oldfarr[d],
                cols as int,
                d,
                s,
            )) by {
            assert(crate::graph::adj_has(old(graph).adj@, s, d) == old(graph).has_edge(s, d));
        }
    }
    // apply the new record and its edges
    add_formula(graph, dst, p1, p2, op, farr, cols);
    proof {
        assert(farr@ == oldfarr.update(dst as int, f));
        assert(coherent_with(graph.adj@, farr@, cols as int)) by {
            assert forall|s: int, d: int|
                crate::graph::adj_has(graph.adj@, s, d) <==> (0 <= d < farr@.len()
                    && #[trigger] is_source(farr@[d], cols as int, d, s)) by {
                assert(crate::graph::adj_has(graph.adj@, s, d) == graph.has_edge(s, d));
            }
        }
        assert(forall|c: int|
            0 <= c < n ==> formula_ok(#[trigger] farr@[c], c, n, cols as int));
        assert forall|d: int, s: int|
            0 <= d < n && #[trigger] is_source(farr@[d], cols as int, d, s)
            implies crate::graph::adj_has(graph.adj@, s, d) by {}
    }
    let ghost gprime = graph.adj@;
    let okk = recalculate(graph, cols as i32, arr, dst, farr);
    if okk {
        proof {
            assert(graph.adj@ == gprime);
            assert(!edit_cycles(oldfarr, cols as int, dst as int, f)) by {
                assert(coherent_with(gprime, oldfarr.update(dst as int, f), cols as int));
                assert(!has_cycle_from(gprime, dst as int));
            }
            // the store invariant holds again
            assert forall|c: int| 0 <= c < n implies #[trigger] arr@[c] == eval_formula(
                farr@[c],
                c,
                arr@,
                cols as int,
            ) by {
                if reaches(gprime, dst as int, c) {
                } else {
                    assert(c != dst as int) by {
                        lemma_reaches_refl(gprime, dst as int);
                    }
                    assert(farr@[c] == oldfarr[c]);
                    assert(arr@[c] == oldarr[c]);
                    assert forall|s: int|
                        is_source(oldfarr[c], cols as int, c, s) implies 0 <= s < n && oldarr[s]
                        == arr@[s] by {
                        assert(crate::graph::adj_has(gprime, s, c));
                        assert(0 <= s < n) by {
                            let kk = choose|kk: int|
                                0 <= kk < gprime[s]@.len() && gprime[s]@[kk] == c as usize;
                            assert(graph.wf(n));
                        }
                        if reaches(gprime, dst as int, s) {
                            lemma_reaches_step(gprime, dst as int, s, c);
                        }
                    }
                    lemma_eval_frame(oldfarr[c], c, oldarr, arr@, cols as int, n);
                    assert(oldarr[c] == eval_formula(oldfarr[c], c, oldarr, cols as int));
                }
            }
        }
        0
    } else {
        // rollback: remove the new edges, reinstate the old record and edges
        proof {
            assert(arr@ == oldarr);
            assert(graph.adj@ == gprime);
            assert(edit_cycles(oldfarr, cols as int, dst as int, f)) by {
                assert(has_cycle_from(gprime, dst as int));
                assert forall|adj2: Seq<Vec<usize>>| #[trigger] coherent_with(
                    adj2,
                    oldfarr.update(dst as int, f),
                    cols as int,
                ) implies has_cycle_from(adj2, dst as int) by {
                    let farrp = oldfarr.update(dst as int, f);
                    assert forall|s: int, d: int| #[trigger] crate::graph::adj_has(gprime, s, d)
                        <==> #[trigger] crate::graph::adj_has(adj2, s, d) by {
                        assert(crate::graph::adj_has(gprime, s, d) <==> (0 <= d < farrp.len()
                            && is_source(farrp[d], cols as int, d, s)));
                        assert(crate::graph::adj_has(adj2, s, d) <==> (0 <= d < farrp.len()
                            && is_source(farrp[d], cols as int, d, s)));
                    }
                    lemma_cycle_transfer(gprime, adj2, dst as int);
                }
            }
        }
        delete_edge(graph, dst, farr, cols);
        proof {
            assert forall|s: int, d: int|
                graph.has_edge(s, d) <==> (0 <= d < n && d != dst as int
                    && #[trigger] is_source(oldfarr[d], cols as int, d, s)) by {}
        }
        add_formula(graph, dst, oldf.p1, oldf.p2, oldf.op_type, farr, cols);
        proof {
            assert(farr@ =~= oldfarr);
            assert(arr@ == oldarr);
            assert forall|s: int, d: int|
                graph.has_edge(s, d) <==> (0 <= d < n && #[trigger] is_source(
                    oldfarr[d],
                    cols as int,
                    d,
                    s,
                )) by {}
            assert(coherent_with(graph.adj@, farr@, cols as int)) by {
                assert forall|s: int, d: int|
                    crate::graph::adj_has(graph.adj@, s, d) <==> (0 <= d < farr@.len()
                        && #[trigger] is_source(farr@[d], cols as int, d, s)) by {
                    assert(crate::graph::adj_has(graph.adj@, s, d) == graph.has_edge(s, d));
                }
            }
        }
        1
    }
}

/// The abstract outcome of reading one command line.
pub enum CommandSpec {
    /// No `=` or no recognizable right-hand shape: code `-1`.
    NotACommand,
    /// A recognized shape that fails to parse, names a cell outside the
    /// sheet, or refers to the destination itself: code `1`.
    Malformed,
    /// A well-formed edit: store the record at the destination cell.
    Edit(int, Formula),
}

/// The right-hand side is a plain value: after an optional sign, only
/// digits and uppercase letters.
pub open spec fn rhs_is_val(rhs: Seq<char>) -> bool {
    rhs.len() > 0 && {
        let st = if rhs[0] == '+' || rhs[0] == '-' {
            1int
        } else {
            0int
        };
        forall|i: int| st <= i < rhs.len() ==> is_digit_ch(#[trigger] rhs[i]) || is_upper(rhs[i])
    }
}

/// Operator character to the cell-op-literal code `1..=4`.
pub open spec fn spec_optype(c: char) -> int {
    if c == '+' {
        1int
    } else if c == '-' {
        2int
    } else if c == '*' {
        3int
    } else {
        4int
    }
}

/// Parse one arithmetic operand: an optionally signed cell name (the sign
/// is ignored, the record stores the plain cell) or an optionally signed
/// integer literal.  `true` marks a cell.
pub open spec fn spec_operand(tok: Seq<char>, cols: int, rows: int) -> Option<(bool, int)> {
    if tok.len() == 0 {
        None
    } else {
        let neg = tok[0] == '-';
        let st = if tok[0] == '+' || tok[0] == '-' {
            1int
        } else {
            0int
        };
        let rest = tok.skip(st);
        if rest.len() > 0 && is_upper(rest[0]) {
            let c = spec_cell_id(rest, cols, rows);
            if c == -1 {
                None
            } else {
                Some((true, c))
            }
        } else {
            match spec_literal(rest) {
                None => None,
                Some(v) => Some((false, if neg { -v } else { v })),
            }
        }
    }
}

/// The record for a value command `DST=[sign](cell|literal)`.
pub open spec fn spec_value_f(rhs: Seq<char>, dst: int, cols: int, rows: int) -> Option<Formula> {
    let neg = rhs[0] == '-';
    let st = if rhs[0] == '+' || rhs[0] == '-' {
        1int
    } else {
        0int
    };
    let rest = rhs.skip(st);
    if rest.len() > 0 && is_upper(rest[0]) {
        let src = spec_cell_id(rest, cols, rows);
        if src == -1 || src == dst {
            None
        } else if neg {
            Some(Formula { op_type: 3, p1: src as i32, p2: -1i32 })
        } else {
            Some(Formula { op_type: 1, p1: src as i32, p2: 0 })
        }
    } else {
        match spec_literal(rest) {
            None => None,
            Some(v) => Some(
                Formula {
                    op_type: 0,
                    p1: (if neg {
                        -v
                    } else {
                        v
                    }) as i32,
                    p2: 0,
                },
            ),
        }
    }
}

/// The record for an arithmetic command `DST=LEFT op RIGHT`.  A
/// literal-and-literal pair folds to a constant; a literal paired with a
/// cell is normalized to the cell-op-literal shape, the cell stored first.
pub open spec fn spec_arth_f(rhs: Seq<char>, dst: int, cols: int, rows: int) -> Option<Formula> {
    let opi = find_op_from(rhs, 0);
    let opc = rhs[opi];
    let lt = rhs.take(opi);
    let rt = rhs.skip(opi + 1);
    match (spec_operand(lt, cols, rows), spec_operand(rt, cols, rows)) {
        (Some((lc, lv)), Some((rc, rv))) => {
            let base = spec_optype(opc);
            if lc && rc {
                if lv == dst || rv == dst {
                    None
                } else {
                    Some(Formula { op_type: (base + 4) as i32, p1: lv as i32, p2: rv as i32 })
                }
            } else if lc {
                if lv == dst {
                    None
                } else {
                    Some(Formula { op_type: base as i32, p1: lv as i32, p2: rv as i32 })
                }
            } else if rc {
                if rv == dst {
                    None
                } else {
                    Some(Formula { op_type: base as i32, p1: rv as i32, p2: lv as i32 })
                }
            } else {
                Some(
                    Formula {
                        op_type: 0,
                        p1: crate::graph::arith_spec(lv as i32, rv as i32, opc),
                        p2: 0,
                    },
                )
            }
        },
        _ => None,
    }
}

/// The aggregate names, as character sequences.
pub open spec fn func_code(name: Seq<char>) -> int {
    if name =~= seq!['M', 'I', 'N'] {
        9int
    } else if name =~= seq!['M', 'A', 'X'] {
        10int
    } else if name =~= seq!['A', 'V', 'G'] {
        11int
    } else if name =~= seq!['S', 'U', 'M'] {
        12int
    } else if name =~= seq!['S', 'T', 'D', 'E', 'V'] {
        13int
    } else if name =~= seq!['S', 'L', 'E', 'E', 'P'] {
        14int
    } else {
        0int
    }
}

/// The corners of a range argument `A:B` between the first parentheses:
/// both must name cells, the range must be non-decreasing, lie on a single
/// row or column, and not contain the destination.
pub open spec fn spec_agg_inside(inside: Seq<char>, dst: int, cols: int, rows: int) -> Option<
    (int, int),
> {
    let k = find_from(inside, 0, ':');
    if k < 0 {
        None
    } else {
        let a = spec_cell_id(inside.take(k), cols, rows);
        let b = spec_cell_id(inside.skip(k + 1), cols, rows);
        if a == -1 || b == -1 {
            None
        } else if crate::graph::row_of(a, cols) > crate::graph::row_of(b, cols) || (
        crate::graph::row_of(a, cols) == crate::graph::row_of(b, cols) && crate::graph::col_of(
            a,
            cols,
        ) > crate::graph::col_of(b, cols)) {
            None
        } else if !crate::graph::range_is_line(a, b, cols) {
            None
        } else if crate::graph::in_range(a, b, cols, dst) {
            None
        } else {
            Some((a, b))
        }
    }
}

/// The record for a range aggregate with code `op` in `9..=13`, parsed
/// from the text between the first parentheses of the right-hand side.
/// Text after the closing parenthesis is ignored.
pub open spec fn spec_agg_f(rhs: Seq<char>, dst: int, cols: int, rows: int, op: int) -> Option<
    Formula,
> {
    let open_i = find_from(rhs, 0, '(');
    let close_i = find_from(rhs, 0, ')');
    if open_i < 0 || close_i < open_i + 2 {
        None
    } else {
        match spec_agg_inside(rhs.subrange(open_i + 1, close_i), dst, cols, rows) {
            None => None,
            Some((a, b)) => Some(Formula { op_type: op as i32, p1: a as i32, p2: b as i32 }),
        }
    }
}

/// The record for a `SLEEP` command: the argument is a cell reference
/// (whose current value becomes the stored duration) or a signed literal.
pub open spec fn spec_sleep_f(
    rhs: Seq<char>,
    dst: int,
    cols: int,
    rows: int,
    arr: Seq<i32>,
) -> Option<Formula> {
    let open_i = find_from(rhs, 0, '(');
    let close_i = find_from(rhs, 0, ')');
    if open_i < 0 || close_i < open_i + 2 {
        None
    } else {
        let inside = rhs.subrange(open_i + 1, close_i);
        let refc = spec_cell_id(inside, cols, rows);
        if refc != -1 {
            if refc == dst {
                None
            } else {
                Some(Formula { op_type: 14, p1: refc as i32, p2: arr[refc] })
            }
        } else {
            if inside.len() == 0 {
                None
            } else {
                let neg = inside[0] == '-';
                let st = if inside[0] == '+' || inside[0] == '-' {
                    1int
                } else {
                    0int
                };
                match spec_literal(inside.skip(st)) {
                    None => None,
                    Some(v) => Some(
                        Formula {
                            op_type: 14,
                            p1: dst as i32,
                            p2: (if neg {
                                -v
                            } else {
                                v
                            }) as i32,
                        },
                    ),
                }
            }
        }
    }
}

/// The record for a function command `DST=NAME(ARG)`.
pub open spec fn spec_func_f(
    rhs: Seq<char>,
    dst: int,
    cols: int,
    rows: int,
    arr: Seq<i32>,
) -> Option<Formula> {
    let open_i = find_from(rhs, 0, '(');
    let op = if open_i < 0 {
        0int
    } else {
        func_code(rhs.take(open_i))
    };
    if op == 0 {
        None
    } else if op == 14 {
        spec_sleep_f(rhs, dst, cols, rows, arr)
    } else {
        spec_agg_f(rhs, dst, cols, rows, op)
    }
}

/// The outcome of one command line on a `rows` x `cols` sheet whose values
/// are `arr`.
pub open spec fn spec_command(s: Seq<char>, rows: int, cols: int, arr: Seq<i32>) -> CommandSpec {
    let eq = find_from(s, 0, '=');
    if eq < 0 {
        CommandSpec::NotACommand
    } else {
        let rhs = s.skip(eq + 1);
        let dst = spec_cell_id(s.take(eq), cols, rows);
        let isf = find_from(rhs, 0, '(') >= 0;
        let isv = !isf && rhs_is_val(rhs);
        let isa = !isf && !isv && find_op_from(rhs, 0) >= 0;
        if !isf && !isv && !isa {
            CommandSpec::NotACommand
        } else if dst == -1 {
            CommandSpec::Malformed
        } else {
            let fo = if isv {
                spec_value_f(rhs, dst, cols, rows)
            } else if isa {
                spec_arth_f(rhs, dst, cols, rows)
            } else {
                spec_func_f(rhs, dst, cols, rows, arr)
            };
            match fo {
                None => CommandSpec::Malformed,
                Some(f) => CommandSpec::Edit(dst, f),
            }
        }
    }
}

/// A non-decreasing pair of corners orders the cell indices.
proof fn lemma_range_order(a: int, b: int, cols: int)
    requires
        cols >= 1,
        0 <= a,
        0 <= b,
        crate::graph::row_of(a, cols) < crate::graph::row_of(b, cols) || (crate::graph::row_of(
            a,
            cols,
        ) == crate::graph::row_of(b, cols) && crate::graph::col_of(a, cols) <= crate::graph::col_of(
            b,
            cols,
        )),
    ensures
        a <= b,
{
    let ra = crate::graph::row_of(a, cols);
    let rb = crate::graph::row_of(b, cols);
    crate::graph::lemma_cell_decompose(a, cols);
    crate::graph::lemma_cell_decompose(b, cols);
    if ra < rb {
        assert(ra * cols + cols <= rb * cols) by {
            vstd::arithmetic::mul::lemma_mul_inequality(ra + 1, rb, cols);
            vstd::arithmetic::mul::lemma_mul_is_distributive_add_other_way(cols, ra, 1);
        }
    }
}


/// Right-hand-side classification: a plain value after an optional sign.
#[verifier::loop_isolation(false)]
fn rhs_val_exec(rhs: &str) -> (b: bool)
    ensures
        b == rhs_is_val(rhs@),
{
    let len = rhs.unicode_len();
    if len == 0 {
        return false;
    }
    let c0 = rhs.get_char(0);
    let st: usize = if c0 == '+' || c0 == '-' {
        1
    } else {
        0
    };
    let mut i: usize = st;
    while i < len
        invariant
            st <= i <= len,
            len == rhs@.len(),
            forall|k: int| st <= k < i ==> is_digit_ch(#[trigger] rhs@[k]) || is_upper(rhs@[k]),
        decreases len - i,
    {
        let c = rhs.get_char(i);
        if !((c >= '0' && c <= '9') || (c >= 'A' && c <= 'Z')) {
            return false;
        }
        i = i + 1;
    }
    true
}

/// Parse one arithmetic operand; `true` marks a cell index, `false` a
/// literal value.
#[verifier::loop_isolation(false)]
fn parse_operand_exec(tok: &str, cols: i32, rows: i32) -> (r: Option<(bool, i32)>)
    requires
        1 <= cols,
        1 <= rows,
        rows * cols <= i32::MAX,
    ensures
        match r {
            Some((c, v)) => spec_operand(tok@, cols as int, rows as int) == Some((c, v as int)) && (
            c ==> 0 <= v < rows * cols),
            None => spec_operand(tok@, cols as int, rows as int) is None,
        },
{
    let len = tok.unicode_len();
    if len == 0 {
        return None;
    }
    let c0 = tok.get_char(0);
    let neg = c0 == '-';
    let st: usize = if c0 == '+' || c0 == '-' {
        1
    } else {
        0
    };
    let rest = tok.substring_char(st, len);
    proof {
        assert(rest@ =~= tok@.skip(st as int));
    }
    let rlen = rest.unicode_len();
    if rlen > 0 {
        let r0 = rest.get_char(0);
        if r0 >= 'A' && r0 <= 'Z' {
            let c = cell_parser(rest, cols, rows);
            if c == -1 {
                return None;
            }
            return Some((true, c));
        }
    }
    match parse_literal(rest, 0) {
        None => {
            proof {
                assert(rest@.skip(0) =~= rest@);
            }
            None
        },
        Some(v) => {
            proof {
                assert(rest@.skip(0) =~= rest@);
            }
            if neg {
                Some((false, -v))
            } else {
                Some((false, v))
            }
        },
    }
}

/// Recognize an aggregate or `SLEEP` name between positions `from` and
/// `to`.
#[verifier::loop_isolation(false)]
fn name_code_exec(s: &str, to: usize) -> (code: i32)
    requires
        to <= s@.len(),
    ensures
        code == func_code(s@.take(to as int)),
{
    let ghost name = s@.take(to as int);
    if to == 3 {
        let a = s.get_char(0);
        let b = s.get_char(1);
        let c = s.get_char(2);
        proof {
            assert(name.len() == 3);
            assert(name[0] == s@[0] && name[1] == s@[1] && name[2] == s@[2]);
            if a == 'M' && b == 'I' && c == 'N' {
                assert(name =~= seq!['M', 'I', 'N']);
            }
            if a == 'M' && b == 'A' && c == 'X' {
                assert(name =~= seq!['M', 'A', 'X']);
            }
            if a == 'A' && b == 'V' && c == 'G' {
                assert(name =~= seq!['A', 'V', 'G']);
            }
            if a == 'S' && b == 'U' && c == 'M' {
                assert(name =~= seq!['S', 'U', 'M']);
            }
            assert(!(name =~= seq!['S', 'T', 'D', 'E', 'V']));
            assert(!(name =~= seq!['S', 'L', 'E', 'E', 'P']));
        }
        if a == 'M' && b == 'I' && c == 'N' {
            9
        } else if a == 'M' && b == 'A' && c == 'X' {
            10
        } else if a == 'A' && b == 'V' && c == 'G' {
            11
        } else if a == 'S' && b == 'U' && c == 'M' {
            12
        } else {
            proof {
                assert(!(name =~= seq!['M', 'I', 'N']));
                assert(!(name =~= seq!['M', 'A', 'X']));
                assert(!(name =~= seq!['A', 'V', 'G']));
                assert(!(name =~= seq!['S', 'U', 'M']));
            }
            0
        }
    } else if to == 5 {
        let a = s.get_char(0);
        let b = s.get_char(1);
        let c = s.get_char(2);
        let d = s.get_char(3);
        let e = s.get_char(4);
        proof {
            assert(name.len() == 5);
            assert(name[0] == s@[0] && name[1] == s@[1] && name[2] == s@[2] && name[3] == s@[3]
                && name[4] == s@[4]);
            assert(!(name =~= seq!['M', 'I', 'N']));
            assert(!(name =~= seq!['M', 'A', 'X']));
            assert(!(name =~= seq!['A', 'V', 'G']));
            assert(!(name =~= seq!['S', 'U', 'M']));
            if a == 'S' && b == 'T' && c == 'D' && d == 'E' && e == 'V' {
                assert(name =~= seq!['S', 'T', 'D', 'E', 'V']);
            }
            if a == 'S' && b == 'L' && c == 'E' && d == 'E' && e == 'P' {
                assert(name =~= seq!['S', 'L', 'E', 'E', 'P']);
            }
        }
        if a == 'S' && b == 'T' && c == 'D' && d == 'E' && e == 'V' {
            13
        } else if a == 'S' && b == 'L' && c == 'E' && d == 'E' && e == 'P' {
            14
        } else {
            proof {
                assert(!(name =~= seq!['S', 'T', 'D', 'E', 'V']));
                assert(!(name =~= seq!['S', 'L', 'E', 'E', 'P']));
            }
            0
        }
    } else {
        proof {
            assert(name.len() == to as int);
            assert(!(name =~= seq!['M', 'I', 'N']));
            assert(!(name =~= seq!['M', 'A', 'X']));
            assert(!(name =~= seq!['A', 'V', 'G']));
            assert(!(name =~= seq!['S', 'U', 'M']));
            assert(!(name =~= seq!['S', 'T', 'D', 'E', 'V']));
            assert(!(name =~= seq!['S', 'L', 'E', 'E', 'P']));
        }
        0
    }
}


/// What one attempted edit did: rejected edits leave the stores unchanged,
/// committed ones update the destination's record and only recalculated
/// (reachable) cells.
pub open spec fn edit_outcome(
    r_ok: bool,
    oldarr: Seq<i32>,
    oldfarr: Seq<Formula>,
    newarr: Seq<i32>,
    newfarr: Seq<Formula>,
    newadj: Seq<Vec<usize>>,
    cols: int,
    dst: int,
    f: Formula,
) -> bool {
    &&& (r_ok <==> !edit_cycles(oldfarr, cols, dst, f))
    &&& (!r_ok ==> newarr == oldarr && newfarr == oldfarr)
    &&& (r_ok ==> newfarr == oldfarr.update(dst, f))
    &&& (r_ok ==> forall|c: int|
        0 <= c < oldarr.len() && !reaches(newadj, dst, c) ==> newarr[c] == oldarr[c])
}

/// Parse and apply a range-aggregate command (`op` in `9..=13`): the text
/// before position `eq` names the destination, the range between the first
/// parentheses after it supplies the sources.  Rejections (including a
/// would-be cycle) leave the stores unchanged.
#[verifier::loop_isolation(false)]
pub(crate) fn run_range_func(
    txt: &str,
    cols: i32,
    rows: i32,
    eq: usize,
    arr: &mut Vec<i32>,
    g: &mut Graph,
    farr: &mut Vec<Formula>,
    op: i32,
) -> (r: bool)
    requires
        crate::spreadsheet::stores_wf(cols as int, old(arr)@, *old(g), old(farr)@),
        1 <= rows,
        rows * cols <= old(arr)@.len(),
        9 <= op <= 13,
        eq < txt@.len(),
    ensures
        crate::spreadsheet::stores_wf(cols as int, final(arr)@, *final(g), final(farr)@),
        final(arr)@.len() == old(arr)@.len(),
        ({
            let dst = spec_cell_id(txt@.take(eq as int), cols as int, rows as int);
            let fo = if dst == -1 {
                Option::<Formula>::None
            } else {
                spec_agg_f(txt@.skip(eq as int + 1), dst, cols as int, rows as int, op as int)
            };
            match fo {
                None => !r && final(arr)@ == old(arr)@ && final(farr)@ == old(farr)@,
                Some(f) => edit_outcome(
                    r,
                    old(arr)@,
                    old(farr)@,
                    final(arr)@,
                    final(farr)@,
                    final(g).adj@,
                    cols as int,
                    spec_cell_id(txt@.take(eq as int), cols as int, rows as int),
                    f,
                ),
            }
        }),
{
    let ghost n = arr@.len();
    let len = txt.unicode_len();
    let prefix = txt.substring_char(0, eq);
    proof {
        assert(prefix@ =~= txt@.take(eq as int));
    }
    let dst = cell_parser(prefix, cols, rows);
    if dst == -1 {
        return false;
    }
    let dstu = dst as usize;
    let rhs = txt.substring_char(eq + 1, len);
    proof {
        assert(rhs@ =~= txt@.skip(eq as int + 1));
    }
    let open_o = find_char(rhs, '(');
    if open_o.is_none() {
        return false;
    }
    let open_i = open_o.unwrap();
    let close_o = find_char(rhs, ')');
    if close_o.is_none() {
        return false;
    }
    let close_i = close_o.unwrap();
    if close_i < open_i + 2 {
        return false;
    }
    let inside = rhs.substring_char(open_i + 1, close_i);
    proof {
        assert(inside@ =~= rhs@.subrange(open_i as int + 1, close_i as int));
    }
    let ko = find_char(inside, ':');
    if ko.is_none() {
        return false;
    }
    let k = ko.unwrap();
    let ilen = inside.unicode_len();
    let a_str = inside.substring_char(0, k);
    let b_str = inside.substring_char(k + 1, ilen);
    proof {
        assert(a_str@ =~= inside@.take(k as int));
        assert(b_str@ =~= inside@.skip(k as int + 1));
    }
    let a = cell_parser(a_str, cols, rows);
    let b = cell_parser(b_str, cols, rows);
    if a == -1 || b == -1 {
        return false;
    }
    let au = a as usize;
    let bu = b as usize;
    let cu = cols as usize;
    let sr = au / cu;
    let sc = au % cu;
    let er = bu / cu;
    let ec = bu % cu;
    let dr = dstu / cu;
    let dc = dstu % cu;
    proof {
        crate::graph::lemma_cell_decompose(a as int, cols as int);
        crate::graph::lemma_cell_decompose(b as int, cols as int);
        crate::graph::lemma_cell_decompose(dst as int, cols as int);
    }
    if sr > er || (sr == er && sc > ec) {
        return false;
    }
    if sr != er && sc != ec {
        return false;
    }
    let inr: bool = if sc == ec {
        dc == sc && sr <= dr && dr <= er
    } else {
        dr == sr && sc <= dc && dc <= ec
    };
    if inr {
        return false;
    }
    proof {
        lemma_range_order(a as int, b as int, cols as int);
        assert(formula_ok(
            Formula { op_type: op, p1: a, p2: b },
            dst as int,
            n as int,
            cols as int,
        ));
    }
    let code = apply_edit(cu, arr, g, farr, dstu, op, a, b);
    code == 0
}

/// Parse and apply a `SLEEP` command: the argument is a cell (the stored
/// duration is its current value) or a signed literal.  The library does
/// not block; the caller owns the timing side effect.
#[verifier::loop_isolation(false)]
pub(crate) fn run_sleep_func(
    txt: &str,
    cols: i32,
    rows: i32,
    eq: usize,
    arr: &mut Vec<i32>,
    g: &mut Graph,
    farr: &mut Vec<Formula>,
) -> (r: bool)
    requires
        crate::spreadsheet::stores_wf(cols as int, old(arr)@, *old(g), old(farr)@),
        1 <= rows,
        rows * cols <= old(arr)@.len(),
        eq < txt@.len(),
    ensures
        crate::spreadsheet::stores_wf(cols as int, final(arr)@, *final(g), final(farr)@),
        final(arr)@.len() == old(arr)@.len(),
        ({
            let dst = spec_cell_id(txt@.take(eq as int), cols as int, rows as int);
            let fo = if dst == -1 {
                Option::<Formula>::None
            } else {
                spec_sleep_f(
                    txt@.skip(eq as int + 1),
                    dst,
                    cols as int,
                    rows as int,
                    old(arr)@,
                )
            };
            match fo {
                None => !r && final(arr)@ == old(arr)@ && final(farr)@ == old(farr)@,
                Some(f) => edit_outcome(
                    r,
                    old(arr)@,
                    old(farr)@,
                    final(arr)@,
                    final(farr)@,
                    final(g).adj@,
                    cols as int,
                    spec_cell_id(txt@.take(eq as int), cols as int, rows as int),
                    f,
                ),
            }
        }),
{
    let ghost n = arr@.len();
    let len = txt.unicode_len();
    let prefix = txt.substring_char(0, eq);
    proof {
        assert(prefix@ =~= txt@.take(eq as int));
    }
    let dst = cell_parser(prefix, cols, rows);
    if dst == -1 {
        return false;
    }
    let dstu = dst as usize;
    let rhs = txt.substring_char(eq + 1, len);
    proof {
        assert(rhs@ =~= txt@.skip(eq as int + 1));
    }
    let open_o = find_char(rhs, '(');
    if open_o.is_none() {
        return false;
    }
    let open_i = open_o.unwrap();
    let close_o = find_char(rhs, ')');
    if close_o.is_none() {
        return false;
    }
    let close_i = close_o.unwrap();
    if close_i < open_i + 2 {
        return false;
    }
    let inside = rhs.substring_char(open_i + 1, close_i);
    proof {
        assert(inside@ =~= rhs@.subrange(open_i as int + 1, close_i as int));
    }
    let refc = cell_parser(inside, cols, rows);
    if refc != -1 {
        if refc == dst {
            return false;
        }
        let secs = arr[refc as usize];
        let code = apply_edit(cols as usize, arr, g, farr, dstu, 14, refc, secs);
        code == 0
    } else {
        let ilen = inside.unicode_len();
        if ilen == 0 {
            return false;
        }
        let c0 = inside.get_char(0);
        let neg = c0 == '-';
        let st: usize = if c0 == '+' || c0 == '-' {
            1
        } else {
            0
        };
        match parse_literal(inside, st) {
            None => false,
            Some(v) => {
                let secs = if neg {
                    -v
                } else {
                    v
                };
                let code = apply_edit(cols as usize, arr, g, farr, dstu, 14, dst, secs);
                code == 0
            },
        }
    }
}


/// Apply one command line to the sheet.
///
/// Returns `0` when the edit committed (recalculation completed without a
/// cycle), `1` when a recognized command shape was rejected (bad cell,
/// bad range, bad literal, self-reference, or a would-be cycle), and `-1`
/// when the line is not a command.  On any nonzero return every cell value
/// and formula record is unchanged.
#[verifier::loop_isolation(false)]
#[verifier::rlimit(60)]
pub fn parser(sheet: &mut Spreadsheet, txt: &str) -> (code: i32)
    requires
        old(sheet).wf(),
    ensures
        final(sheet).wf(),
        final(sheet).rows == old(sheet).rows,
        final(sheet).cols == old(sheet).cols,
        final(sheet).curr_x == old(sheet).curr_x,
        final(sheet).curry == old(sheet).curry,
        final(sheet).output_disabled == old(sheet).output_disabled,
        match spec_command(
            txt@,
            old(sheet).rows as int,
            old(sheet).cols as int,
            old(sheet).arr@,
        ) {
            CommandSpec::NotACommand => code == -1 && final(sheet).arr@ == old(sheet).arr@
                && final(sheet).formula_array@ == old(sheet).formula_array@,
            CommandSpec::Malformed => code == 1 && final(sheet).arr@ == old(sheet).arr@
                && final(sheet).formula_array@ == old(sheet).formula_array@,
            CommandSpec::Edit(dst, f) => (code == 0 || code == 1) && edit_outcome(
                code == 0,
                old(sheet).arr@,
                old(sheet).formula_array@,
                final(sheet).arr@,
                final(sheet).formula_array@,
                final(sheet).graph.adj@,
                old(sheet).cols as int,
                dst,
                f,
            ),
        },
{
    let cols = sheet.cols as i32;
    let rows = sheet.rows as i32;
    proof {
        vstd::arithmetic::mul::lemma_mul_inequality(1, sheet.rows as int, sheet.cols as int);
        vstd::arithmetic::mul::lemma_mul_is_commutative(sheet.rows as int, sheet.cols as int);
        vstd::arithmetic::mul::lemma_mul_inequality(1, sheet.cols as int, sheet.rows as int);
        assert(sheet.rows as int * sheet.cols as int <= i32::MAX);
    }
    let ghost n = sheet.arr@.len();
    let eqo = find_char(txt, '=');
    if eqo.is_none() {
        return -1;
    }
    let eq = eqo.unwrap();
    let len = txt.unicode_len();
    let rhs = txt.substring_char(eq + 1, len);
    proof {
        assert(rhs@ =~= txt@.skip(eq as int + 1));
    }
    let isf = find_char(rhs, '(').is_some();
    let isv = !isf && rhs_val_exec(rhs);
    let isa = !isf && !isv && find_op(rhs, 0).is_some();
    if !isf && !isv && !isa {
        return -1;
    }
    let prefix = txt.substring_char(0, eq);
    proof {
        assert(prefix@ =~= txt@.take(eq as int));
    }
    let dst = cell_parser(prefix, cols, rows);
    if dst == -1 {
        return 1;
    }
    let dstu = dst as usize;
    let cu = sheet.cols;
    if isv {
        let rlen = rhs.unicode_len();
        let c0 = rhs.get_char(0);
        let neg = c0 == '-';
        let st: usize = if c0 == '-' || c0 == '+' {
            1
        } else {
            0
        };
        let rest = rhs.substring_char(st, rlen);
        proof {
            assert(rest@ =~= rhs@.skip(st as int));
        }
        let restlen = rest.unicode_len();
        let mut is_cell = false;
        if restlen > 0 {
            let r0 = rest.get_char(0);
            if r0 >= 'A' && r0 <= 'Z' {
                is_cell = true;
            }
        }
        if is_cell {
            let src = cell_parser(rest, cols, rows);
            if src == -1 || src == dst {
                return 1;
            }
            let op: i32 = if neg {
                3
            } else {
                1
            };
            let p2: i32 = if neg {
                -1
            } else {
                0
            };
            let code = apply_edit(
                cu,
                &mut sheet.arr,
                &mut sheet.graph,
                &mut sheet.formula_array,
                dstu,
                op,
                src,
                p2,
            );
            code
        } else {
            match parse_literal(rest, 0) {
                None => {
                    proof {
                        assert(rest@.skip(0) =~= rest@);
                    }
                    1
                },
                Some(v) => {
                    proof {
                        assert(rest@.skip(0) =~= rest@);
                    }
                    let p1: i32 = if neg {
                        -v
                    } else {
                        v
                    };
                    let code = apply_edit(
                        cu,
                        &mut sheet.arr,
                        &mut sheet.graph,
                        &mut sheet.formula_array,
                        dstu,
                        0,
                        p1,
                        0,
                    );
                    code
                },
            }
        }
    } else if isa {
        let opi = find_op(rhs, 0).unwrap();
        let rlen = rhs.unicode_len();
        let opc = rhs.get_char(opi);
        let lt = rhs.substring_char(0, opi);
        let rt = rhs.substring_char(opi + 1, rlen);
        proof {
            assert(lt@ =~= rhs@.take(opi as int));
            assert(rt@ =~= rhs@.skip(opi as int + 1));
        }
        let lo = parse_operand_exec(lt, cols, rows);
        if lo.is_none() {
            return 1;
        }
        let ro = parse_operand_exec(rt, cols, rows);
        if ro.is_none() {
            return 1;
        }
        let (lc, lv) = lo.unwrap();
        let (rc, rv) = ro.unwrap();
        let base: i32 = if opc == '+' {
            1
        } else if opc == '-' {
            2
        } else if opc == '*' {
            3
        } else {
            4
        };
        if lc && rc {
            if lv == dst || rv == dst {
                return 1;
            }
            apply_edit(
                cu,
                &mut sheet.arr,
                &mut sheet.graph,
                &mut sheet.formula_array,
                dstu,
                base + 4,
                lv,
                rv,
            )
        } else if lc {
            if lv == dst {
                return 1;
            }
            apply_edit(
                cu,
                &mut sheet.arr,
                &mut sheet.graph,
                &mut sheet.formula_array,
                dstu,
                base,
                lv,
                rv,
            )
        } else if rc {
            if rv == dst {
                return 1;
            }
            apply_edit(
                cu,
                &mut sheet.arr,
                &mut sheet.graph,
                &mut sheet.formula_array,
                dstu,
                base,
                rv,
                lv,
            )
        } else {
            let value = crate::graph::arith(lv, rv, opc);
            apply_edit(
                cu,
                &mut sheet.arr,
                &mut sheet.graph,
                &mut sheet.formula_array,
                dstu,
                0,
                value,
                0,
            )
        }
    } else {
        let open_i = find_char(rhs, '(').unwrap();
        let fcode = name_code_exec(rhs, open_i);
        if fcode == 0 {
            return 1;
        }
        if fcode == 14 {
            let ok = run_sleep_func(
                txt,
                cols,
                rows,
                eq,
                &mut sheet.arr,
                &mut sheet.graph,
                &mut sheet.formula_array,
            );
            if ok {
                0
            } else {
                1
            }
        } else {
            let ok = run_range_func(
                txt,
                cols,
                rows,
                eq,
                &mut sheet.arr,
                &mut sheet.graph,
                &mut sheet.formula_array,
                fcode,
            );
            if ok {
                0
            } else {
                1
            }
        }
    }
}

} // verus!
