//! Topological recalculation of the cells downstream of an edited cell.
//!
//! `topological_sort` finds every cell reachable from the edited cell over
//! dependency edges and orders them so that each cell comes after all of its
//! reachable in-neighbours, or reports a cycle.  `recalculate` re-evaluates
//! the ordered cells from their formula records, propagating the `ERR`
//! sentinel.
//!
//! The evaluation semantics of a formula record is given by the spec
//! function [`eval_formula`]; range aggregates wrap on overflow, division by
//! zero yields `ERR`, and any `ERR` operand makes the result `ERR`.

use crate::graph::{
    adj_has, col_of, div_trunc, in_range, is_source, range_is_line, row_of, tdiv, Formula, Graph,
    ERR,
};
use vstd::prelude::*;

verus! {

/// Some value of the sequence is the `ERR` sentinel.
pub open spec fn seq_has_err(s: Seq<i32>) -> bool {
    exists|k: int| 0 <= k < s.len() && s[k] == ERR
}

/// Minimum of a sequence of values, `i32::MAX` when empty.
pub open spec fn seq_min_val(s: Seq<i32>) -> i32
    decreases s.len(),
{
    if s.len() == 0 {
        i32::MAX
    } else {
        let m = seq_min_val(s.drop_last());
        if s.last() < m {
            s.last()
        } else {
            m
        }
    }
}

/// Maximum of a sequence of values, `i32::MIN` when empty.
pub open spec fn seq_max_val(s: Seq<i32>) -> i32
    decreases s.len(),
{
    if s.len() == 0 {
        i32::MIN
    } else {
        let m = seq_max_val(s.drop_last());
        if s.last() > m {
            s.last()
        } else {
            m
        }
    }
}

/// Sum of a sequence with two's-complement wrapping.
pub open spec fn seq_sum_wrap(s: Seq<i32>) -> i32
    decreases s.len(),
{
    if s.len() == 0 {
        0
    } else {
        seq_sum_wrap(s.drop_last()).wrapping_add(s.last())
    }
}

/// Sum of squares of a sequence with two's-complement wrapping.
pub open spec fn seq_sumsq_wrap(s: Seq<i32>) -> i32
    decreases s.len(),
{
    if s.len() == 0 {
        0
    } else {
        seq_sumsq_wrap(s.drop_last()).wrapping_add(s.last().wrapping_mul(s.last()))
    }
}

/// The cells of one row segment, columns `c1..=c2`.
pub open spec fn row_cells(row: int, c1: int, c2: int, cols: int) -> Seq<int> {
    Seq::new(
        if c2 + 1 - c1 >= 0 {
            (c2 + 1 - c1) as nat
        } else {
            0
        },
        |k: int| row * cols + c1 + k,
    )
}

/// The cells of the rectangle rows `r1..=r2`, columns `c1..=c2`, row-major.
pub open spec fn rows_cells(r1: int, r2: int, c1: int, c2: int, cols: int) -> Seq<int>
    decreases r2 + 1 - r1,
{
    if r1 > r2 {
        Seq::empty()
    } else {
        row_cells(r1, c1, c2, cols) + rows_cells(r1 + 1, r2, c1, c2, cols)
    }
}

/// The cells spanned by the range `[p1, p2]`, row-major.
pub open spec fn rect_cells(p1: int, p2: int, cols: int) -> Seq<int> {
    rows_cells(row_of(p1, cols), row_of(p2, cols), col_of(p1, cols), col_of(p2, cols), cols)
}

/// The values of `vals` at the given cell indices.
pub open spec fn vals_at(vals: Seq<i32>, cells: Seq<int>) -> Seq<i32> {
    cells.map_values(|c: int| vals[c])
}

/// `r` is the integer nearest to the square root of `num / cnt` (ties round
/// up), characterized without rationals: for positive `r`,
/// `(r - 1/2)^2 <= num/cnt < (r + 1/2)^2`; zero when `num/cnt < 1/4`.
pub open spec fn is_round_sqrt(r: int, num: int, cnt: int) -> bool {
    &&& 0 <= r
    &&& (r == 0 ==> 4 * num < cnt)
    &&& (r >= 1 ==> (2 * r - 1) * (2 * r - 1) * cnt <= 4 * num)
    &&& 4 * num < (2 * r + 1) * (2 * r + 1) * cnt
}

/// The rounded square root of `num / cnt`.
pub open spec fn round_sqrt(num: int, cnt: int) -> int {
    choose|r: int| is_round_sqrt(r, num, cnt)
}

/// The integer standard deviation of a range with the given wrapped sum,
/// wrapped sum of squares and cell count: the square root of
/// `(sumsq - 2*avg*sum + avg^2*cnt) / cnt` with integer average, rounded to
/// nearest, clamped into the `i32` range.  A nonpositive numerator (possible
/// only when a sum wrapped) gives `0`.
pub open spec fn stdev_val(sum: i32, sumsq: i32, cnt: int) -> i32 {
    let avg = tdiv(sum as int, cnt);
    let num = sumsq - 2 * avg * sum + avg * avg * cnt;
    if num <= 0 {
        0
    } else {
        let r = round_sqrt(num, cnt);
        if r > i32::MAX {
            i32::MAX
        } else {
            r as i32
        }
    }
}

/// The record `f` stored at cell `c` is well formed for a sheet of `n`
/// cells and `cols` columns: a recognized operation, every referenced cell
/// inside the sheet, no reference to `c` itself, and ranges along a single
/// row or column.
pub open spec fn formula_ok(f: Formula, c: int, n: int, cols: int) -> bool {
    let op = f.op_type;
    &&& 0 <= op <= 14
    &&& (1 <= op <= 4 ==> 0 <= f.p1 < n && f.p1 != c)
    &&& (5 <= op <= 8 ==> 0 <= f.p1 < n && 0 <= f.p2 < n && f.p1 != c && f.p2 != c)
    &&& (9 <= op <= 13 ==> 0 <= f.p1 <= f.p2 < n && range_is_line(f.p1 as int, f.p2 as int, cols)
        && !in_range(f.p1 as int, f.p2 as int, cols, c))
    &&& (op == 14 ==> 0 <= f.p1 < n)
}

/// The value of the formula record `f` stored at cell `c`, evaluated
/// against the cell values `vals`.
pub open spec fn eval_formula(f: Formula, c: int, vals: Seq<i32>, cols: int) -> i32 {
    let op = f.op_type;
    if op == 0 {
        f.p1
    } else if 1 <= op <= 4 {
        let v1 = vals[f.p1 as int];
        let v2 = f.p2;
        if v1 == ERR {
            ERR
        } else if op == 1 {
            v1.wrapping_add(v2)
        } else if op == 2 {
            v1.wrapping_sub(v2)
        } else if op == 3 {
            v1.wrapping_mul(v2)
        } else if v2 == 0 {
            ERR
        } else {
            div_trunc(v1, v2)
        }
    } else if 5 <= op <= 8 {
        let v1 = vals[f.p1 as int];
        let v2 = vals[f.p2 as int];
        if v1 == ERR || v2 == ERR {
            ERR
        } else if op == 5 {
            v1.wrapping_add(v2)
        } else if op == 6 {
            v1.wrapping_sub(v2)
        } else if op == 7 {
            v1.wrapping_mul(v2)
        } else if v2 == 0 {
            ERR
        } else {
            div_trunc(v1, v2)
        }
    } else if 9 <= op <= 13 {
        let vs = vals_at(vals, rect_cells(f.p1 as int, f.p2 as int, cols));
        if vs.len() == 0 || seq_has_err(vs) {
            ERR
        } else if op == 9 {
            seq_min_val(vs)
        } else if op == 10 {
            seq_max_val(vs)
        } else if op == 11 {
            tdiv(seq_sum_wrap(vs) as int, vs.len() as int) as i32
        } else if op == 12 {
            seq_sum_wrap(vs)
        } else {
            stdev_val(seq_sum_wrap(vs), seq_sumsq_wrap(vs), vs.len() as int)
        }
    } else if op == 14 {
        if f.p1 == c {
            f.p2
        } else {
            vals[f.p1 as int]
        }
    } else {
        f.p1
    }
}

/// A walk in the dependency graph: consecutive entries are edges.
pub open spec fn is_walk(adj: Seq<Vec<usize>>, w: Seq<int>) -> bool {
    w.len() >= 1 && forall|i: int| 0 <= i < w.len() - 1 ==> adj_has(adj, #[trigger] w[i], w[i + 1])
}

/// Cell `to` is reachable from cell `from` over dependency edges (every
/// cell reaches itself).
pub open spec fn reaches(adj: Seq<Vec<usize>>, from: int, to: int) -> bool {
    exists|w: Seq<int>| is_walk(adj, w) && w.first() == from && w.last() == to
}

/// Every cell reaches itself.
pub proof fn lemma_reaches_refl(adj: Seq<Vec<usize>>, x: int)
    ensures
        reaches(adj, x, x),
{
    let w = seq![x];
    assert(is_walk(adj, w));
    assert(w.first() == x && w.last() == x);
}

/// Reachability extends along an edge.
pub proof fn lemma_reaches_step(adj: Seq<Vec<usize>>, a: int, b: int, c: int)
    requires
        reaches(adj, a, b),
        adj_has(adj, b, c),
    ensures
        reaches(adj, a, c),
{
    let w = choose|w: Seq<int>| is_walk(adj, w) && w.first() == a && w.last() == b;
    let w2 = w.push(c);
    assert(w2.last() == c);
    assert(w2.first() == a);
    assert forall|i: int| 0 <= i < w2.len() - 1 implies adj_has(adj, #[trigger] w2[i], w2[i + 1]) by {
        if i < w.len() - 1 {
            assert(adj_has(adj, w[i], w[i + 1]));
        } else {
            assert(w2[i] == w.last() && w2[i + 1] == c);
        }
    }
    assert(is_walk(adj, w2));
}

/// A set of cells that contains `start` and is closed under outgoing edges
/// contains everything reachable from `start`.
pub proof fn lemma_reachable_in_closed_set(adj: Seq<Vec<usize>>, start: int, t: int, s: Set<int>)
    requires
        s.contains(start),
        forall|u: int, v: int| s.contains(u) && adj_has(adj, u, v) ==> s.contains(v),
        reaches(adj, start, t),
    ensures
        s.contains(t),
{
    let w = choose|w: Seq<int>| is_walk(adj, w) && w.first() == start && w.last() == t;
    lemma_walk_stays(adj, start, s, w);
}

proof fn lemma_walk_stays(adj: Seq<Vec<usize>>, start: int, s: Set<int>, w: Seq<int>)
    requires
        s.contains(start),
        forall|u: int, v: int| s.contains(u) && adj_has(adj, u, v) ==> s.contains(v),
        is_walk(adj, w),
        w.first() == start,
    ensures
        s.contains(w.last()),
    decreases w.len(),
{
    if w.len() == 1 {
    } else {
        let w0 = w.drop_last();
        assert(is_walk(adj, w0));
        lemma_walk_stays(adj, start, s, w0);
        assert(adj_has(adj, w[w.len() - 2], w[w.len() - 1]));
        assert(w0.last() == w[w.len() - 2]);
    }
}

/// Evaluation reads only the cells that the record names as sources: two
/// value arrays that agree on every source of `f` give the same value.
pub proof fn lemma_eval_frame(
    f: Formula,
    c: int,
    vals1: Seq<i32>,
    vals2: Seq<i32>,
    cols: int,
    n: int,
)
    requires
        cols >= 1,
        0 < n,
        vals1.len() == n,
        vals2.len() == n,
        formula_ok(f, c, n, cols),
        forall|s: int| is_source(f, cols, c, s) ==> 0 <= s < n && vals1[s] == vals2[s],
    ensures
        eval_formula(f, c, vals1, cols) == eval_formula(f, c, vals2, cols),
{
    let op = f.op_type;
    if 1 <= op <= 4 {
        assert(is_source(f, cols, c, f.p1 as int));
    } else if 5 <= op <= 8 {
        assert(is_source(f, cols, c, f.p1 as int));
        assert(is_source(f, cols, c, f.p2 as int));
    } else if 9 <= op <= 13 {
        let cells = rect_cells(f.p1 as int, f.p2 as int, cols);
        lemma_rect_cells_in_range(f.p1 as int, f.p2 as int, cols);
        assert forall|k: int| 0 <= k < cells.len() implies vals1[#[trigger] cells[k]] == vals2[
            cells[k]
        ] by {
            assert(in_range(f.p1 as int, f.p2 as int, cols, cells[k]));
            assert(cells[k] != c);
            assert(is_source(f, cols, c, cells[k]));
        }
        assert(vals_at(vals1, cells) =~= vals_at(vals2, cells));
    } else if op == 14 {
        if f.p1 != c {
            assert(is_source(f, cols, c, f.p1 as int));
        }
    }
}

/// Every cell of a single-row or single-column range `[p1, p2]` lies in the
/// range (and hence between `p1` and `p2`).
pub proof fn lemma_rect_cells_in_range(p1: int, p2: int, cols: int)
    requires
        cols >= 1,
        0 <= p1 <= p2,
        range_is_line(p1, p2, cols),
    ensures
        forall|k: int|
            0 <= k < rect_cells(p1, p2, cols).len() ==> in_range(
                p1,
                p2,
                cols,
                #[trigger] rect_cells(p1, p2, cols)[k],
            ) && p1 <= rect_cells(p1, p2, cols)[k] <= p2,
{
    let r1 = row_of(p1, cols);
    let r2 = row_of(p2, cols);
    let c1 = col_of(p1, cols);
    let c2 = col_of(p2, cols);
    crate::graph::lemma_cell_decompose(p1, cols);
    crate::graph::lemma_cell_decompose(p2, cols);
    assert(r1 <= r2) by {
        vstd::arithmetic::div_mod::lemma_div_is_ordered(p1, p2, cols);
    }
    assert forall|k: int| 0 <= k < rect_cells(p1, p2, cols).len() implies in_range(
        p1,
        p2,
        cols,
        #[trigger] rect_cells(p1, p2, cols)[k],
    ) && p1 <= rect_cells(p1, p2, cols)[k] <= p2 by {
        lemma_rows_cells_member(r1, r2, c1, c2, cols, k);
        let s = rect_cells(p1, p2, cols)[k];
        let sr = row_of(s, cols);
        let sc = col_of(s, cols);
        if c1 == c2 {
            assert(in_range(p1, p2, cols, s));
            vstd::arithmetic::mul::lemma_mul_inequality(r1, sr, cols);
            vstd::arithmetic::mul::lemma_mul_inequality(sr, r2, cols);
            crate::graph::lemma_cell_decompose(s, cols);
        } else {
            assert(r1 == r2);
            assert(sr == r1 && c1 <= sc <= c2);
            assert(in_range(p1, p2, cols, s));
            crate::graph::lemma_cell_decompose(s, cols);
        }
    }
}

/// Each member of the rectangle cell list has a row in `r1..=r2`, a column
/// in `c1..=c2` (when `c1 <= c2 < cols`), and row-major position.
proof fn lemma_rows_cells_member(r1: int, r2: int, c1: int, c2: int, cols: int, k: int)
    requires
        cols >= 1,
        0 <= c1 < cols,
        0 <= c2 < cols,
        0 <= r1,
        0 <= k < rows_cells(r1, r2, c1, c2, cols).len(),
    ensures
        ({
            let s = rows_cells(r1, r2, c1, c2, cols)[k];
            &&& r1 <= row_of(s, cols) <= r2
            &&& c1 <= col_of(s, cols) <= c2
        }),
    decreases r2 + 1 - r1,
{
    let whole = rows_cells(r1, r2, c1, c2, cols);
    let head = row_cells(r1, c1, c2, cols);
    let tail = rows_cells(r1 + 1, r2, c1, c2, cols);
    assert(r1 <= r2);
    assert(whole == head + tail);
    if k < head.len() {
        assert(whole[k] == head[k]);
        let s = head[k];
        assert(s == r1 * cols + c1 + k);
        crate::graph::lemma_cell_compose(r1, c1 + k, cols);
    } else {
        assert(whole[k] == tail[k - head.len()]);
        lemma_rows_cells_member(r1 + 1, r2, c1, c2, cols, k - head.len());
    }
}

/// Number of occurrences of cell `v` in a dependent list.
pub open spec fn count_in_list(list: Seq<usize>, v: int) -> int
    decreases list.len(),
{
    if list.len() == 0 {
        0
    } else {
        count_in_list(list.drop_last(), v) + if list.last() as int == v {
            1int
        } else {
            0int
        }
    }
}

/// Number of edges into `v` from the sources in `srcs` that are not yet in
/// `done`, counted with multiplicity.
pub open spec fn pending_count(adj: Seq<Vec<usize>>, srcs: Seq<usize>, done: Set<int>, v: int) -> int
    decreases srcs.len(),
{
    if srcs.len() == 0 {
        0
    } else {
        pending_count(adj, srcs.drop_last(), done, v) + if done.contains(srcs.last() as int) {
            0int
        } else {
            count_in_list(adj[srcs.last() as int]@, v)
        }
    }
}

/// The set of cells named by a sequence.
pub open spec fn set_of(s: Seq<usize>) -> Set<int> {
    s.map_values(|u: usize| u as int).to_set()
}

proof fn lemma_set_of(s: Seq<usize>)
    ensures
        set_of(s).finite(),
        forall|x: int|
            set_of(s).contains(x) <==> exists|k: int| 0 <= k < s.len() && (#[trigger] s[k]) as int
                == x,
        s.no_duplicates() ==> set_of(s).len() == s.len(),
{
    let m = s.map_values(|u: usize| u as int);
    broadcast use vstd::seq_lib::group_seq_properties;

    assert(m.to_set().finite()) by {
        m.lemma_cardinality_of_set();
    }
    assert forall|x: int| set_of(s).contains(x) implies exists|k: int|
        0 <= k < s.len() && (#[trigger] s[k]) as int == x by {
        let k = choose|k: int| 0 <= k < m.len() && m[k] == x;
        assert(s[k] as int == x);
    }
    assert forall|x: int| (exists|k: int| 0 <= k < s.len() && (#[trigger] s[k]) as int == x)
        implies set_of(s).contains(x) by {
        let k = choose|k: int| 0 <= k < s.len() && s[k] as int == x;
        assert(m[k] == x);
        assert(m.contains(x));
    }
    if s.no_duplicates() {
        assert(m.no_duplicates()) by {
            assert forall|i: int, j: int| 0 <= i < m.len() && 0 <= j < m.len() && i != j implies m[i]
                != m[j] by {
                assert(s[i] != s[j]);
            }
        }
        m.unique_seq_to_set();
    }
}

/// A duplicate-free list of cells below `n` has at most `n` entries.
proof fn lemma_nodup_bounded_len(s: Seq<usize>, n: int)
    requires
        s.no_duplicates(),
        forall|k: int| 0 <= k < s.len() ==> (#[trigger] s[k]) < n,
        0 <= n,
    ensures
        s.len() <= n,
{
    lemma_set_of(s);
    vstd::set_lib::lemma_int_range(0, n);
    assert(set_of(s).subset_of(vstd::set_lib::set_int_range(0, n))) by {
        assert forall|x: int| set_of(s).contains(x) implies vstd::set_lib::set_int_range(
            0,
            n,
        ).contains(x) by {
            let k = choose|k: int| 0 <= k < s.len() && s[k] as int == x;
        }
    }
    vstd::set_lib::lemma_len_subset(set_of(s), vstd::set_lib::set_int_range(0, n));
}

proof fn lemma_count_bounds(list: Seq<usize>, v: int)
    ensures
        0 <= count_in_list(list, v) <= list.len(),
    decreases list.len(),
{
    if list.len() > 0 {
        lemma_count_bounds(list.drop_last(), v);
    }
}

proof fn lemma_count_pos(list: Seq<usize>, v: int)
    ensures
        count_in_list(list, v) >= 1 <==> exists|k: int|
            0 <= k < list.len() && (#[trigger] list[k]) as int == v,
    decreases list.len(),
{
    lemma_count_bounds(list, v);
    if list.len() > 0 {
        lemma_count_pos(list.drop_last(), v);
        lemma_count_bounds(list.drop_last(), v);
        if count_in_list(list, v) >= 1 {
            if list.last() as int != v {
                let k = choose|k: int|
                    0 <= k < list.drop_last().len() && (#[trigger] list.drop_last()[k]) as int == v;
                assert(list[k] as int == v);
            } else {
                assert(list[list.len() - 1] as int == v);
            }
        }
        if exists|k: int| 0 <= k < list.len() && (#[trigger] list[k]) as int == v {
            let k = choose|k: int| 0 <= k < list.len() && (#[trigger] list[k]) as int == v;
            if k < list.len() - 1 {
                assert(list.drop_last()[k] as int == v);
            }
        }
    }
}

proof fn lemma_pending_bounds(adj: Seq<Vec<usize>>, srcs: Seq<usize>, done: Set<int>, v: int)
    ensures
        0 <= pending_count(adj, srcs, done, v) <= srcs.len() * (usize::MAX as int),
    decreases srcs.len(),
{
    if srcs.len() == 0 {
    } else {
        lemma_pending_bounds(adj, srcs.drop_last(), done, v);
        let last = srcs.last();
        if !done.contains(last as int) {
            lemma_count_bounds(adj[last as int]@, v);
            assert(adj[last as int]@.len() <= usize::MAX as int) by {
                broadcast use vstd::std_specs::vec::axiom_spec_len;

                assert(adj[last as int].len() == adj[last as int]@.len());
            }
        }
        assert((srcs.len() - 1) * (usize::MAX as int) + (usize::MAX as int) == srcs.len() * (
        usize::MAX as int)) by {
            vstd::arithmetic::mul::lemma_mul_is_distributive_sub_other_way(
                usize::MAX as int,
                srcs.len() as int,
                1,
            );
        }
    }
}

/// Marking a source that the list does not name changes no pending count.
proof fn lemma_pending_absent(adj: Seq<Vec<usize>>, srcs: Seq<usize>, done: Set<int>, u: int, v: int)
    requires
        forall|k: int| 0 <= k < srcs.len() ==> (#[trigger] srcs[k]) as int != u,
    ensures
        pending_count(adj, srcs, done.insert(u), v) == pending_count(adj, srcs, done, v),
    decreases srcs.len(),
{
    if srcs.len() > 0 {
        lemma_pending_absent(adj, srcs.drop_last(), done, u, v);
        assert(srcs.last() as int != u);
    }
}

/// Marking a listed, unmarked source as done removes exactly its own edges
/// from the pending count.
proof fn lemma_pending_insert(adj: Seq<Vec<usize>>, srcs: Seq<usize>, done: Set<int>, u: usize, v: int)
    requires
        srcs.no_duplicates(),
        srcs.contains(u),
        !done.contains(u as int),
    ensures
        pending_count(adj, srcs, done.insert(u as int), v) == pending_count(adj, srcs, done, v)
            - count_in_list(adj[u as int]@, v),
    decreases srcs.len(),
{
    let rest = srcs.drop_last();
    if srcs.last() == u {
        assert(forall|k: int| 0 <= k < rest.len() ==> (#[trigger] rest[k]) != u);
        lemma_pending_absent(adj, rest, done, u as int, v);
    } else {
        assert(rest.contains(u)) by {
            let k = choose|k: int| 0 <= k < srcs.len() && srcs[k] == u;
            assert(rest[k] == u);
        }
        lemma_pending_insert(adj, rest, done, u, v);
        assert(srcs.last() as int != u as int);
    }
}

/// A listed, unmarked source keeps the pending count at or above its own
/// edge count.
proof fn lemma_pending_lower(adj: Seq<Vec<usize>>, srcs: Seq<usize>, done: Set<int>, w: usize, v: int)
    requires
        srcs.contains(w),
        !done.contains(w as int),
    ensures
        pending_count(adj, srcs, done, v) >= count_in_list(adj[w as int]@, v),
    decreases srcs.len(),
{
    let rest = srcs.drop_last();
    lemma_pending_bounds(adj, rest, done, v);
    if srcs.last() == w {
        lemma_count_bounds(adj[w as int]@, v);
    } else {
        assert(rest.contains(w)) by {
            let k = choose|k: int| 0 <= k < srcs.len() && srcs[k] == w;
            assert(rest[k] == w);
        }
        lemma_pending_lower(adj, rest, done, w, v);
        if !done.contains(srcs.last() as int) {
            lemma_count_bounds(adj[srcs.last() as int]@, v);
        }
    }
}

/// A positive pending count names an unmarked source with an edge to `v`.
proof fn lemma_pending_witness(adj: Seq<Vec<usize>>, srcs: Seq<usize>, done: Set<int>, v: int) -> (w: usize)
    requires
        pending_count(adj, srcs, done, v) > 0,
    ensures
        srcs.contains(w),
        !done.contains(w as int),
        count_in_list(adj[w as int]@, v) >= 1,
    decreases srcs.len(),
{
    let rest = srcs.drop_last();
    let last = srcs.last();
    if !done.contains(last as int) && count_in_list(adj[last as int]@, v) > 0 {
        last
    } else {
        lemma_count_bounds(adj[last as int]@, v);
        let w = lemma_pending_witness(adj, rest, done, v);
        assert(srcs.contains(w)) by {
            let k = choose|k: int| 0 <= k < rest.len() && rest[k] == w;
            assert(srcs[k] == w);
        }
        w
    }
}

/// A witness that the cells reachable from `start` contain a dependency
/// cycle: a nonempty set of reachable cells, each with an in-edge from the
/// set.
pub open spec fn cycle_witness(adj: Seq<Vec<usize>>, start: int, s: Set<int>) -> bool {
    &&& s.finite()
    &&& s.len() > 0
    &&& forall|v: int| #[trigger] s.contains(v) ==> reaches(adj, start, v)
    &&& forall|v: int| #[trigger]
        s.contains(v) ==> exists|u: int| s.contains(u) && adj_has(adj, u, v)
}

/// The cells reachable from `start` contain a cycle.
pub open spec fn has_cycle_from(adj: Seq<Vec<usize>>, start: int) -> bool {
    exists|s: Set<int>| cycle_witness(adj, start, s)
}

/// The contract of a successful sort: `order` lists exactly the cells
/// reachable from `start`, without duplicates, each after all of its
/// in-neighbours in the list.
pub open spec fn valid_topo_order(adj: Seq<Vec<usize>>, start: int, order: Seq<usize>, n: int) -> bool {
    &&& order.no_duplicates()
    &&& forall|k: int| 0 <= k < order.len() ==> (#[trigger] order[k]) < n
    &&& forall|c: usize| c < n ==> (order.contains(c) <==> reaches(adj, start, c as int))
    &&& forall|i: int, j: int|
        0 <= i < order.len() && 0 <= j < order.len() && adj_has(
            adj,
            order[i] as int,
            (#[trigger] order[j]) as int,
        ) ==> #[trigger] order[i] == order[i] && i < j
}

/// A valid topological order rules out any cycle among the reachable cells.
pub proof fn lemma_order_excludes_cycle(
    adj: Seq<Vec<usize>>,
    start: int,
    order: Seq<usize>,
    n: int,
    s: Set<int>,
)
    requires
        0 <= start < n,
        adj.len() == n,
        forall|i: int, k: int|
            0 <= i < n && 0 <= k < adj[i]@.len() ==> (#[trigger] adj[i]@[k]) < n,
        valid_topo_order(adj, start, order, n),
    ensures
        !cycle_witness(adj, start, s),
{
    if cycle_witness(adj, start, s) {
        assert forall|v: int| #[trigger] s.contains(v) implies 0 <= v < n by {
            lemma_reach_bounds(adj, start, v, n);
        }
        let v = s.choose();
        assert(s.contains(v)) by {
            if s.len() > 0 {
                vstd::set_lib::lemma_set_empty_equivalency_len(s);
            }
        }
        assert(reaches(adj, start, v));
        assert(order.contains(v as usize)) by {
            assert(v == (v as usize) as int);
        }
        let i = choose|i: int| 0 <= i < order.len() && order[i] == v as usize;
        lemma_no_cycle_member_at(adj, start, order, n, s, i);
        assert(false);
    }
}

proof fn lemma_no_cycle_member_at(
    adj: Seq<Vec<usize>>,
    start: int,
    order: Seq<usize>,
    n: int,
    s: Set<int>,
    i: int,
)
    requires
        0 <= start < n,
        valid_topo_order(adj, start, order, n),
        cycle_witness(adj, start, s),
        forall|v: int| #[trigger] s.contains(v) ==> 0 <= v < n,
        0 <= i < order.len(),
    ensures
        !s.contains(order[i] as int),
    decreases i,
{
    if s.contains(order[i] as int) {
        let u = choose|u: int| s.contains(u) && adj_has(adj, u, order[i] as int);
        assert(reaches(adj, start, u));
        assert(order.contains(u as usize)) by {
            assert(u == (u as usize) as int);
        }
        let j = choose|j: int| 0 <= j < order.len() && order[j] == u as usize;
        assert(adj_has(adj, order[j] as int, order[i] as int));
        assert(j < i);
        lemma_no_cycle_member_at(adj, start, order, n, s, j);
    }
}

/// Order every cell reachable from `start` after all of its reachable
/// in-neighbours (Kahn's algorithm over the reachable subgraph), or return
/// `None` exactly when the reachable cells contain a dependency cycle.
#[verifier::loop_isolation(false)]
#[verifier::rlimit(100)]
#[verifier::spinoff_prover]
pub fn topological_sort(graph: &Graph, start: usize, n: usize) -> (res: Option<Vec<usize>>)
    requires
        graph.wf(n as int),
        start < n,
    ensures
        match res {
            Some(order) => valid_topo_order(graph.adj@, start as int, order@, n as int)
                && !has_cycle_from(graph.adj@, start as int),
            None => has_cycle_from(graph.adj@, start as int),
        },
{
    let ghost adj = graph.adj@;
    let mut seen: Vec<bool> = vec![false; n];
    let mut indeg: Vec<u128> = vec![0u128; n];
    let mut queue: Vec<usize> = Vec::new();
    seen[start] = true;
    queue.push(start);
    proof {
        lemma_reaches_refl(adj, start as int);
        assert(queue@.take(0) =~= Seq::<usize>::empty());
        assert(queue@[0] == start);
        assert(queue@.contains(start));
        assert forall|c: usize| c < n implies (seen@[c as int] <==> queue@.contains(c)) by {
            if queue@.contains(c) {
                let k = choose|k: int| 0 <= k < queue@.len() && queue@[k] == c;
                assert(k == 0);
            }
        }
    }
    let mut qi: usize = 0;
    while qi < queue.len()
        invariant
            queue@.no_duplicates(),
            qi <= queue@.len(),
            forall|k: int| 0 <= k < queue@.len() ==> (#[trigger] queue@[k]) < n,
            seen@.len() == n,
            indeg@.len() == n,
            queue@.contains(start),
            forall|c: usize| c < n ==> (seen@[c as int] <==> queue@.contains(c)),
            forall|k: int|
                0 <= k < queue@.len() ==> reaches(adj, start as int, (#[trigger] queue@[k]) as int),
            forall|k: int, d: int|
                0 <= k < qi && #[trigger] adj_has(adj, (#[trigger] queue@[k]) as int, d) ==> 0 <= d
                    < n && queue@.contains(d as usize),
            forall|v: usize|
                v < n ==> indeg@[v as int] as int == pending_count(
                    adj,
                    queue@.take(qi as int),
                    Set::empty(),
                    v as int,
                ),
        decreases n - qi,
    {
        proof {
            lemma_nodup_bounded_len(queue@, n as int);
        }
        let u = queue[qi];
        let ghost qprev = queue@.take(qi as int);
        qi = qi + 1;
        let mut j: usize = 0;
        let deps_len = graph.adj[u].len();
        while j < deps_len
            invariant
                queue@.no_duplicates(),
                qi <= queue@.len(),
                j <= deps_len,
                deps_len == adj[u as int]@.len(),
                forall|k: int| 0 <= k < queue@.len() ==> (#[trigger] queue@[k]) < n,
                seen@.len() == n,
                indeg@.len() == n,
                queue@.contains(start),
                queue@.take(qi as int) == qprev.push(u),
                forall|c: usize| c < n ==> (seen@[c as int] <==> queue@.contains(c)),
                forall|k: int|
                    0 <= k < queue@.len() ==> reaches(
                        adj,
                        start as int,
                        (#[trigger] queue@[k]) as int,
                    ),
                forall|k: int, d: int|
                    0 <= k < qi - 1 && #[trigger] adj_has(adj, (#[trigger] queue@[k]) as int, d)
                        ==> 0 <= d < n && queue@.contains(d as usize),
                forall|l: int|
                    0 <= l < j ==> queue@.contains(#[trigger] adj[u as int]@[l]),
                forall|v: usize|
                    v < n ==> indeg@[v as int] as int == pending_count(adj, qprev, Set::empty(), v as int)
                        + count_in_list(adj[u as int]@.take(j as int), v as int),
            decreases deps_len - j,
        {
            let v = graph.adj[u][j];
            assert(v < n);
            proof {
                lemma_pending_bounds(adj, qprev, Set::empty(), v as int);
                lemma_count_bounds(adj[u as int]@.take(j as int), v as int);
                assert(qprev.len() <= n);
                assert(qprev.len() * (usize::MAX as int) <= (usize::MAX as int) * (
                usize::MAX as int)) by {
                    vstd::arithmetic::mul::lemma_mul_inequality(
                        qprev.len() as int,
                        usize::MAX as int,
                        usize::MAX as int,
                    );
                    vstd::arithmetic::mul::lemma_mul_is_commutative(
                        qprev.len() as int,
                        usize::MAX as int,
                    );
                }
                assert((usize::MAX as int) * (usize::MAX as int) + (usize::MAX as int) + 1
                    < u128::MAX as int) by {
                    assert((0xFFFF_FFFF_FFFF_FFFFint) * (0xFFFF_FFFF_FFFF_FFFFint)
                        + 0xFFFF_FFFF_FFFF_FFFFint + 1 < u128::MAX as int) by (nonlinear_arith);
                    if (usize::MAX as int) < 0xFFFF_FFFF_FFFF_FFFFint {
                        vstd::arithmetic::mul::lemma_mul_upper_bound(
                            usize::MAX as int,
                            0xFFFF_FFFF_FFFF_FFFFint,
                            usize::MAX as int,
                            0xFFFF_FFFF_FFFF_FFFFint,
                        );
                    }
                }
            }
            let ghost oldindeg = indeg@;
            indeg[v] = indeg[v] + 1;
            proof {
                assert(adj[u as int]@.take(j + 1).drop_last() =~= adj[u as int]@.take(j as int));
                assert forall|w: usize| w < n implies indeg@[w as int] as int == pending_count(
                    adj,
                    qprev,
                    Set::empty(),
                    w as int,
                ) + count_in_list(adj[u as int]@.take(j + 1), w as int) by {
                    assert(adj[u as int]@.take(j + 1).last() == adj[u as int]@[j as int]);
                    if w != v {
                        assert(indeg@[w as int] == oldindeg[w as int]);
                    }
                }
            }
            if !seen[v] {
                seen[v] = true;
                let ghost oldq = queue@;
                queue.push(v);
                proof {
                    assert(queue@.take(qi as int) =~= oldq.take(qi as int));
                    assert(queue@[queue@.len() - 1] == v);
                    assert forall|c: usize| c < n implies (seen@[c as int] <==> queue@.contains(
                        c,
                    )) by {
                        if c != v {
                            assert(oldq.contains(c) <==> queue@.contains(c)) by {
                                if queue@.contains(c) {
                                    let k = choose|k: int|
                                        0 <= k < queue@.len() && queue@[k] == c;
                                    assert(k < oldq.len());
                                    assert(oldq[k] == c);
                                } else {
                                }
                                if oldq.contains(c) {
                                    let k = choose|k: int| 0 <= k < oldq.len() && oldq[k] == c;
                                    assert(queue@[k] == c);
                                }
                            }
                        } else {
                            assert(queue@.contains(v));
                        }
                    }
                    assert(queue@.no_duplicates()) by {
                        assert(!oldq.contains(v));
                        assert forall|p: int, q: int|
                            0 <= p < queue@.len() && 0 <= q < queue@.len() && p != q implies queue@[p]
                            != queue@[q] by {
                            if p < oldq.len() && q == oldq.len() {
                                assert(oldq.contains(oldq[p]));
                            } else if q < oldq.len() && p == oldq.len() {
                                assert(oldq.contains(oldq[q]));
                            }
                        }
                    }
                    assert(reaches(adj, start as int, v as int)) by {
                        assert(reaches(adj, start as int, u as int));
                        assert(adj[u as int]@[j as int] == v);
                        assert(adj[u as int]@.contains(v));
                        assert(adj_has(adj, u as int, v as int));
                        lemma_reaches_step(adj, start as int, u as int, v as int);
                    }
                    assert forall|k: int|
                        0 <= k < queue@.len() implies reaches(
                        adj,
                        start as int,
                        (#[trigger] queue@[k]) as int,
                    ) by {
                        if k < oldq.len() {
                            assert(queue@[k] == oldq[k]);
                        }
                    }
                }
            } else {
                proof {
                    assert(queue@.contains(v));
                }
            }
            j = j + 1;
        }
        proof {
            assert(adj[u as int]@.take(deps_len as int) =~= adj[u as int]@);
            assert(queue@.take(qi as int).last() == u);
            assert(queue@.take(qi as int).drop_last() =~= qprev);
            assert forall|v: usize| v < n implies indeg@[v as int] as int == pending_count(
                adj,
                queue@.take(qi as int),
                Set::empty(),
                v as int,
            ) by {
                assert(pending_count(adj, queue@.take(qi as int), Set::empty(), v as int)
                    == pending_count(adj, qprev, Set::empty(), v as int) + count_in_list(
                    adj[u as int]@,
                    v as int,
                ));
            }
            assert forall|k: int, d: int|
                0 <= k < qi && #[trigger] adj_has(adj, (#[trigger] queue@[k]) as int, d) implies 0
                <= d < n && queue@.contains(d as usize) by {
                if k == qi - 1 {
                    assert(queue@[k] == u);
                    let kk = choose|kk: int|
                        0 <= kk < adj[u as int]@.len() && (#[trigger] adj[u as int]@[kk]) == d as usize;
                    assert(queue@.contains(adj[u as int]@[kk]));
                    assert(adj[u as int]@[kk] < n);
                }
            }
        }
    }
    // Kahn phase: peel off cells whose reachable in-degree is zero.
    let ghost found = queue@;
    let mut zq: Vec<usize> = Vec::new();
    let mut k: usize = 0;
    while k < queue.len()
        invariant
            k <= queue@.len(),
            zq@.no_duplicates(),
            forall|a: int| 0 <= a < zq@.len() ==> found.contains(#[trigger] zq@[a]),
            forall|a: int|
                0 <= a < zq@.len() ==> indeg@[(#[trigger] zq@[a]) as int] == 0,
            forall|b: int|
                0 <= b < k ==> (indeg@[(#[trigger] found[b]) as int] == 0 <==> zq@.contains(
                    found[b],
                )),
            forall|a: int|
                0 <= a < zq@.len() ==> exists|b: int| 0 <= b < k && found[b] == #[trigger] zq@[a],
        decreases queue@.len() - k,
    {
        let v = queue[k];
        if indeg[v] == 0 {
            proof {
                assert(!zq@.contains(v)) by {
                    if zq@.contains(v) {
                        let a = choose|a: int| 0 <= a < zq@.len() && zq@[a] == v;
                        let b = choose|b: int| 0 <= b < k && found[b] == zq@[a];
                        assert(found[b] == found[k as int]);
                    }
                }
            }
            let ghost oldz = zq@;
            zq.push(v);
            proof {
                assert(zq@[zq@.len() - 1] == v);
                assert(zq@.contains(v));
                assert(zq@.no_duplicates()) by {
                    assert forall|p: int, q: int|
                        0 <= p < zq@.len() && 0 <= q < zq@.len() && p != q implies zq@[p]
                        != zq@[q] by {
                        if p < oldz.len() && q == oldz.len() {
                            assert(oldz.contains(oldz[p]));
                        } else if q < oldz.len() && p == oldz.len() {
                            assert(oldz.contains(oldz[q]));
                        }
                    }
                }
                assert forall|a: int| 0 <= a < zq@.len() implies exists|b: int|
                    0 <= b < k + 1 && found[b] == #[trigger] zq@[a] by {
                    if a < oldz.len() {
                        let b = choose|b: int| 0 <= b < k && found[b] == zq@[a];
                    } else {
                        assert(found[k as int] == zq@[a]);
                    }
                }
                assert forall|b: int|
                    0 <= b < k + 1 implies (indeg@[(#[trigger] found[b]) as int] == 0
                    <==> zq@.contains(found[b])) by {
                    if b < k {
                        assert(oldz.contains(found[b]) <==> zq@.contains(found[b])) by {
                            if zq@.contains(found[b]) && !oldz.contains(found[b]) {
                                let a = choose|a: int|
                                    0 <= a < zq@.len() && zq@[a] == found[b];
                                assert(a == oldz.len());
                                assert(found[b] == v);
                            }
                            if oldz.contains(found[b]) {
                                let a = choose|a: int|
                                    0 <= a < oldz.len() && oldz[a] == found[b];
                                assert(zq@[a] == found[b]);
                            }
                        }
                    } else {
                        assert(found[b] == v);
                    }
                }
            }
        } else {
            proof {
                assert forall|b: int|
                    0 <= b < k + 1 implies (indeg@[(#[trigger] found[b]) as int] == 0
                    <==> zq@.contains(found[b])) by {}
            }
        }
        k = k + 1;
    }
    proof {
        assert(queue@.take(queue@.len() as int) =~= queue@);
        assert(zq@.take(0) =~= Seq::<usize>::empty());
        lemma_set_of(Seq::<usize>::empty());
        assert(set_of(zq@.take(0)) =~= Set::<int>::empty());
    }
    let mut zi: usize = 0;
    while zi < zq.len()
        invariant
            zi <= zq@.len(),
            zq@.no_duplicates(),
            zq@.take(zi as int).no_duplicates(),
            forall|a: int| 0 <= a < zq@.len() ==> found.contains(#[trigger] zq@[a]),
            forall|a: int| 0 <= a < zq@.len() ==> (#[trigger] zq@[a]) < n,
            indeg@.len() == n,
            forall|v: usize|
                v < n ==> indeg@[v as int] as int == pending_count(
                    adj,
                    found,
                    set_of(zq@.take(zi as int)),
                    v as int,
                ),
            forall|v: usize|
                found.contains(v) ==> (indeg@[v as int] == 0 <==> zq@.contains(v)),
            forall|jj: int, x: usize|
                0 <= jj < zi && found.contains(x) && #[trigger] adj_has(
                    adj,
                    x as int,
                    (#[trigger] zq@[jj]) as int,
                ) ==> set_of(zq@.take(jj)).contains(x as int),
        decreases n - zi,
    {
        proof {
            lemma_nodup_bounded_len(zq@, n as int);
        }
        let u = zq[zi];
        let ghost zprev = zq@.take(zi as int);
        let ghost done_old = set_of(zprev);
        proof {
            lemma_set_of(zprev);
            assert(!done_old.contains(u as int)) by {
                if done_old.contains(u as int) {
                    let kx = choose|kx: int| 0 <= kx < zprev.len() && zprev[kx] as int == u as int;
                    assert(zq@[kx] == zq@[zi as int]);
                }
            }
            // establish the in-neighbour property for position zi
            assert forall|x: usize|
                found.contains(x) && #[trigger] adj_has(adj, x as int, u as int) implies set_of(
                zprev,
            ).contains(x as int) by {
                if !done_old.contains(x as int) {
                    lemma_pending_lower(adj, found, done_old, x, u as int);
                    lemma_count_pos(adj[x as int]@, u as int);
                    assert(adj[x as int]@.contains(u));
                    assert(adj[x as int]@[choose|kk: int|
                        0 <= kk < adj[x as int]@.len() && adj[x as int]@[kk] == u] == u);
                    assert(count_in_list(adj[x as int]@, u as int) >= 1) by {
                        let kk = choose|kk: int|
                            0 <= kk < adj[x as int]@.len() && adj[x as int]@[kk] == u;
                        assert(adj[x as int]@[kk] as int == u as int);
                    }
                    assert(indeg@[u as int] as int >= 1);
                    assert(indeg@[u as int] == 0);
                }
            }
        }
        zi = zi + 1;
        proof {
            assert(zq@.take(zi as int).drop_last() =~= zprev);
            assert(zq@.take(zi as int).last() == u);
            lemma_set_of(zq@.take(zi as int));
            lemma_set_of(zprev);
            assert(set_of(zq@.take(zi as int)) =~= done_old.insert(u as int)) by {
                assert forall|x: int| set_of(zq@.take(zi as int)).contains(x) implies done_old.insert(
                    u as int,
                ).contains(x) by {
                    let kx = choose|kx: int|
                        0 <= kx < zq@.take(zi as int).len() && zq@.take(zi as int)[kx] as int == x;
                    if kx < zi - 1 {
                        assert(zprev[kx] as int == x);
                    }
                }
                assert forall|x: int| done_old.insert(u as int).contains(x) implies set_of(
                    zq@.take(zi as int),
                ).contains(x) by {
                    if x == u as int {
                        assert(zq@.take(zi as int)[zi - 1] as int == x);
                    } else {
                        let kx = choose|kx: int| 0 <= kx < zprev.len() && zprev[kx] as int == x;
                        assert(zq@.take(zi as int)[kx] as int == x);
                    }
                }
            }
        }
        let mut j: usize = 0;
        let deps_len = graph.adj[u].len();
        while j < deps_len
            invariant
                j <= deps_len,
                zi <= zq@.len(),
                deps_len == adj[u as int]@.len(),
                u == zq@[zi - 1],
                zq@.no_duplicates(),
                forall|a: int| 0 <= a < zq@.len() ==> found.contains(#[trigger] zq@[a]),
                forall|a: int| 0 <= a < zq@.len() ==> (#[trigger] zq@[a]) < n,
                indeg@.len() == n,
                zq@.take(zi as int) == zprev.push(u),
                forall|v: usize|
                    v < n ==> indeg@[v as int] as int == pending_count(adj, found, done_old, v as int)
                        - count_in_list(adj[u as int]@.take(j as int), v as int),
                forall|v: usize|
                    found.contains(v) ==> (indeg@[v as int] == 0 <==> zq@.contains(v)),
                forall|jj: int, x: usize|
                    0 <= jj < zi && found.contains(x) && #[trigger] adj_has(
                        adj,
                        x as int,
                        (#[trigger] zq@[jj]) as int,
                    ) ==> set_of(zq@.take(jj)).contains(x as int),
            decreases deps_len - j,
        {
            let v = graph.adj[u][j];
            assert(v < n);
            proof {
                assert(adj[u as int]@[j as int] == v);
                assert(found.contains(u)) by {
                    assert(zq@[zi - 1] == u);
                }
                assert(found.contains(v)) by {
                    let ku = choose|ku: int| 0 <= ku < found.len() && found[ku] == u;
                    assert(adj_has(adj, found[ku] as int, v as int)) by {
                        assert(adj[u as int]@.contains(v));
                    }
                }
                // v's count is still pending: u is not yet fully processed
                lemma_pending_lower(adj, found, done_old, u, v as int);
                lemma_count_bounds(adj[u as int]@.take(j as int), v as int);
                assert(count_in_list(adj[u as int]@.take(j as int), v as int) < count_in_list(
                    adj[u as int]@,
                    v as int,
                )) by {
                    lemma_count_take_lt(adj[u as int]@, j as int, v as int);
                }
                assert(indeg@[v as int] as int >= 1);
            }
            let ghost oldindeg = indeg@;
            indeg[v] = indeg[v] - 1;
            proof {
                assert(adj[u as int]@.take(j + 1).drop_last() =~= adj[u as int]@.take(j as int));
                assert forall|w: usize| w < n implies indeg@[w as int] as int == pending_count(
                    adj,
                    found,
                    done_old,
                    w as int,
                ) - count_in_list(adj[u as int]@.take(j + 1), w as int) by {
                    assert(adj[u as int]@.take(j + 1).last() == adj[u as int]@[j as int]);
                    if w != v {
                        assert(indeg@[w as int] == oldindeg[w as int]);
                    }
                }
            }
            if indeg[v] == 0 {
                let ghost oldz = zq@;
                zq.push(v);
                proof {
                    assert(!oldz.contains(v)) by {
                        assert(oldindeg[v as int] != 0);
                    }
                    assert(zq@.take(zi as int) =~= oldz.take(zi as int));
                    assert(zq@.no_duplicates()) by {
                        assert forall|p: int, q: int|
                            0 <= p < zq@.len() && 0 <= q < zq@.len() && p != q implies zq@[p]
                            != zq@[q] by {
                            if p < oldz.len() && q == oldz.len() {
                                assert(oldz.contains(oldz[p]));
                            } else if q < oldz.len() && p == oldz.len() {
                                assert(oldz.contains(oldz[q]));
                            }
                        }
                    }
                    assert forall|w: usize|
                        found.contains(w) implies (indeg@[w as int] == 0 <==> zq@.contains(w)) by {
                        if w == v {
                            assert(zq@[zq@.len() - 1] == v);
                        } else {
                            assert(oldz.contains(w) <==> zq@.contains(w)) by {
                                if zq@.contains(w) {
                                    let kx = choose|kx: int|
                                        0 <= kx < zq@.len() && zq@[kx] == w;
                                    assert(kx < oldz.len());
                                    assert(oldz[kx] == w);
                                }
                                if oldz.contains(w) {
                                    let kx = choose|kx: int| 0 <= kx < oldz.len() && oldz[kx] == w;
                                    assert(zq@[kx] == w);
                                }
                            }
                        }
                    }
                    assert forall|jj: int, x: usize|
                        0 <= jj < zi && found.contains(x) && #[trigger] adj_has(
                            adj,
                            x as int,
                            (#[trigger] zq@[jj]) as int,
                        ) implies set_of(zq@.take(jj)).contains(x as int) by {
                        assert(jj < oldz.len());
                        assert(zq@[jj] == oldz[jj]);
                        assert(zq@.take(jj) =~= oldz.take(jj));
                    }
                }
            }
            j = j + 1;
        }
        proof {
            assert(adj[u as int]@.take(deps_len as int) =~= adj[u as int]@);
            assert(zq@.take(zi as int) == zprev.push(u));
            lemma_set_of(zq@.take(zi as int));
            lemma_set_of(zprev);
            assert(set_of(zq@.take(zi as int)) =~= done_old.insert(u as int)) by {
                assert forall|x: int| set_of(zq@.take(zi as int)).contains(x) implies done_old.insert(
                    u as int,
                ).contains(x) by {
                    let kx = choose|kx: int|
                        0 <= kx < zq@.take(zi as int).len() && (#[trigger] zq@.take(zi as int)[kx])
                            as int == x;
                    if kx < zi - 1 {
                        assert(zprev[kx] as int == x);
                    }
                }
                assert forall|x: int| done_old.insert(u as int).contains(x) implies set_of(
                    zq@.take(zi as int),
                ).contains(x) by {
                    if x == u as int {
                        assert(zq@.take(zi as int)[zi - 1] as int == x);
                    } else {
                        let kx = choose|kx: int| 0 <= kx < zprev.len() && zprev[kx] as int == x;
                        assert(zq@.take(zi as int)[kx] as int == x);
                    }
                }
            }
            assert forall|v: usize| v < n implies indeg@[v as int] as int == pending_count(
                adj,
                found,
                set_of(zq@.take(zi as int)),
                v as int,
            ) by {
                assert(found.contains(u)) by {
                    assert(zq@[zi - 1] == u);
                }
                lemma_pending_insert(adj, found, done_old, u, v as int);
                assert(pending_count(adj, found, done_old.insert(u as int), v as int)
                    == pending_count(adj, found, set_of(zq@.take(zi as int)), v as int));
            }
        }
    }
    proof {
        lemma_nodup_bounded_len(zq@, n as int);
        lemma_nodup_bounded_len(found, n as int);
        lemma_set_of(zq@);
        lemma_set_of(found);
        assert(zq@.take(zq@.len() as int) =~= zq@);
        assert(set_of(zq@).subset_of(set_of(found))) by {
            assert forall|x: int| set_of(zq@).contains(x) implies set_of(found).contains(x) by {
                let kx = choose|kx: int| 0 <= kx < zq@.len() && zq@[kx] as int == x;
                assert(found.contains(zq@[kx]));
                let ky = choose|ky: int| 0 <= ky < found.len() && found[ky] == zq@[kx];
            }
        }
    }
    if zq.len() == queue.len() {
        proof {
            // the two duplicate-free lists of equal length name the same cells
            vstd::set_lib::lemma_len_subset(set_of(zq@), set_of(found));
            assert(set_of(zq@) =~= set_of(found)) by {
                if exists|x: int| set_of(found).contains(x) && !set_of(zq@).contains(x) {
                    let x = choose|x: int|
                        set_of(found).contains(x) && !set_of(zq@).contains(x);
                    assert(set_of(zq@).subset_of(set_of(found).remove(x)));
                    vstd::set_lib::lemma_len_subset(set_of(zq@), set_of(found).remove(x));
                    assert(set_of(found).remove(x).len() == set_of(found).len() - 1);
                }
            }
            assert forall|c: usize| c < n implies (zq@.contains(c) <==> reaches(
                adj,
                start as int,
                c as int,
            )) by {
                if zq@.contains(c) {
                    assert(found.contains(c));
                }
                if reaches(adj, start as int, c as int) {
                    assert(set_of(found).contains(c as int)) by {
                        lemma_reachable_in_closed_set(adj, start as int, c as int, set_of(found));
                        assert(set_of(found).contains(start as int)) by {
                            let kx = choose|kx: int|
                                0 <= kx < found.len() && found[kx] == start;
                            assert(found[kx] as int == start as int);
                        }
                        assert forall|uu: int, vv: int|
                            set_of(found).contains(uu) && adj_has(adj, uu, vv) implies set_of(
                            found,
                        ).contains(vv) by {
                            let kx = choose|kx: int|
                                0 <= kx < found.len() && found[kx] as int == uu;
                            assert(adj_has(adj, found[kx] as int, vv));
                            assert(found.contains(vv as usize));
                            let ky = choose|ky: int|
                                0 <= ky < found.len() && found[ky] == vv as usize;
                        }
                    }
                    assert(set_of(zq@).contains(c as int));
                    let kx = choose|kx: int| 0 <= kx < zq@.len() && zq@[kx] as int == c as int;
                    assert(zq@[kx] == c);
                }
            }
            assert forall|i: int, jx: int|
                0 <= i < zq@.len() && 0 <= jx < zq@.len() && adj_has(
                    adj,
                    zq@[i] as int,
                    (#[trigger] zq@[jx]) as int,
                ) implies #[trigger] zq@[i] == zq@[i] && i < jx by {
                assert(found.contains(zq@[i]));
                assert(set_of(zq@.take(jx)).contains(zq@[i] as int));
                lemma_set_of(zq@.take(jx));
                let kx = choose|kx: int|
                    0 <= kx < zq@.take(jx).len() && zq@.take(jx)[kx] as int == zq@[i] as int;
                assert(zq@[kx] == zq@[i]);
                assert(kx == i);
            }
            assert(valid_topo_order(adj, start as int, zq@, n as int));
            if has_cycle_from(adj, start as int) {
                let s = choose|s: Set<int>| cycle_witness(adj, start as int, s);
                lemma_order_excludes_cycle(adj, start as int, zq@, n as int, s);
            }
        }
        Some(zq)
    } else {
        proof {
            let leftover = set_of(found).difference(set_of(zq@));
            assert(zq@.len() < found.len()) by {
                vstd::set_lib::lemma_len_subset(set_of(zq@), set_of(found));
            }
            assert(leftover.len() > 0) by {
                if leftover.len() == 0 {
                    vstd::set_lib::lemma_set_empty_equivalency_len(leftover);
                    assert(set_of(found).subset_of(set_of(zq@))) by {
                        assert forall|x: int| set_of(found).contains(x) implies set_of(
                            zq@,
                        ).contains(x) by {
                            assert(!leftover.contains(x));
                        }
                    }
                    vstd::set_lib::lemma_len_subset(set_of(found), set_of(zq@));
                }
            }
            assert(cycle_witness(adj, start as int, leftover)) by {
                assert forall|v: int| #[trigger] leftover.contains(v) implies reaches(
                    adj,
                    start as int,
                    v,
                ) by {
                    let kx = choose|kx: int| 0 <= kx < found.len() && found[kx] as int == v;
                }
                assert forall|v: int| #[trigger] leftover.contains(v) implies exists|u: int|
                    leftover.contains(u) && adj_has(adj, u, v) by {
                    let kx = choose|kx: int| 0 <= kx < found.len() && found[kx] as int == v;
                    let vv = found[kx];
                    assert(!zq@.contains(vv)) by {
                        if zq@.contains(vv) {
                            let ky = choose|ky: int| 0 <= ky < zq@.len() && zq@[ky] == vv;
                            assert(set_of(zq@).contains(vv as int));
                        }
                    }
                    assert(indeg@[vv as int] != 0);
                    assert(indeg@[vv as int] as int == pending_count(
                        adj,
                        found,
                        set_of(zq@),
                        vv as int,
                    )) by {
                        assert(zq@.take(zq@.len() as int) =~= zq@);
                    }
                    lemma_pending_bounds(adj, found, set_of(zq@), vv as int);
                    let w = lemma_pending_witness(adj, found, set_of(zq@), vv as int);
                    assert(w < n) by {
                        let kw = choose|kw: int| 0 <= kw < found.len() && found[kw] == w;
                    }
                    assert(adj_has(adj, w as int, vv as int)) by {
                        lemma_count_pos(adj[w as int]@, vv as int);
                        let kk = choose|kk: int|
                            0 <= kk < adj[w as int]@.len() && (#[trigger] adj[w as int]@[kk]) as int
                                == vv as int;
                        assert(adj[w as int]@[kk] == vv);
                        assert(adj[w as int]@.contains(vv));
                    }
                    assert(leftover.contains(w as int)) by {
                        let kw = choose|kw: int| 0 <= kw < found.len() && found[kw] == w;
                        assert(found[kw] as int == w as int);
                        if set_of(zq@).contains(w as int) {
                            let kz = choose|kz: int|
                                0 <= kz < zq@.len() && zq@[kz] as int == w as int;
                            assert(zq@[kz] == w);
                            assert(zq@.contains(w));
                        }
                    }
                    assert(leftover.contains(w as int) && adj_has(adj, w as int, v));
                }
            }
        }
        None
    }
}

/// Everything reachable from a cell below `n` in a well-formed graph is
/// itself below `n`.
pub proof fn lemma_reach_bounds(adj: Seq<Vec<usize>>, start: int, t: int, n: int)
    requires
        adj.len() == n,
        forall|i: int, k: int|
            0 <= i < n && 0 <= k < adj[i]@.len() ==> (#[trigger] adj[i]@[k]) < n,
        0 <= start < n,
        reaches(adj, start, t),
    ensures
        0 <= t < n,
{
    let s = vstd::set_lib::set_int_range(0, n);
    assert forall|u: int, v: int| s.contains(u) && adj_has(adj, u, v) implies s.contains(v) by {
        let kk = choose|kk: int| 0 <= kk < adj[u]@.len() && adj[u]@[kk] == v as usize;
        assert(adj[u]@[kk] < n);
        assert((v as usize) as int == v);
    }
    lemma_reachable_in_closed_set(adj, start, t, s);
}

/// Count over a strict prefix stays strictly below the count over the whole
/// list when the next element is counted.
proof fn lemma_count_take_lt(list: Seq<usize>, j: int, v: int)
    requires
        0 <= j < list.len(),
        list[j] as int == v,
    ensures
        count_in_list(list.take(j), v) < count_in_list(list, v),
    decreases list.len(),
{
    if j == list.len() - 1 {
        assert(list.take(j) =~= list.drop_last());
        lemma_count_bounds(list.drop_last(), v);
    } else {
        lemma_count_take_lt(list.drop_last(), j, v);
        assert(list.drop_last().take(j) =~= list.take(j));
        lemma_count_bounds(list.drop_last(), v);
    }
}


/// Length of the rectangle cell list: rows times columns.
proof fn lemma_rows_cells_len(r1: int, r2: int, c1: int, c2: int, cols: int)
    requires
        c1 <= c2,
    ensures
        rows_cells(r1, r2, c1, c2, cols).len() == if r1 > r2 {
            0int
        } else {
            (r2 + 1 - r1) * (c2 + 1 - c1)
        },
    decreases r2 + 1 - r1,
{
    if r1 <= r2 {
        lemma_rows_cells_len(r1 + 1, r2, c1, c2, cols);
        assert((r2 + 1 - r1) * (c2 + 1 - c1) == (c2 + 1 - c1) + (r2 - r1) * (c2 + 1 - c1)) by {
            vstd::arithmetic::mul::lemma_mul_is_distributive_sub_other_way(
                c2 + 1 - c1,
                r2 + 1 - r1,
                1,
            );
        }
    }
}

/// A single-row or single-column range `[p1, p2]` spans at least one and at
/// most `p2 - p1 + 1` cells.
pub proof fn lemma_rect_cells_len(p1: int, p2: int, cols: int)
    requires
        cols >= 1,
        0 <= p1 <= p2,
        range_is_line(p1, p2, cols),
    ensures
        1 <= rect_cells(p1, p2, cols).len() <= p2 - p1 + 1,
{
    let r1 = row_of(p1, cols);
    let r2 = row_of(p2, cols);
    let c1 = col_of(p1, cols);
    let c2 = col_of(p2, cols);
    crate::graph::lemma_cell_decompose(p1, cols);
    crate::graph::lemma_cell_decompose(p2, cols);
    assert(r1 <= r2) by {
        vstd::arithmetic::div_mod::lemma_div_is_ordered(p1, p2, cols);
    }
    if c1 == c2 {
        lemma_rows_cells_len(r1, r2, c1, c2, cols);
        assert(rect_cells(p1, p2, cols).len() == (r2 + 1 - r1) * 1);
        assert((r2 + 1 - r1) * 1 == r2 + 1 - r1);
        assert(p2 - p1 == (r2 - r1) * cols) by {
            vstd::arithmetic::mul::lemma_mul_is_distributive_sub_other_way(cols, r2, r1);
        }
        assert(r2 - r1 <= (r2 - r1) * cols) by {
            if r2 - r1 >= 0 {
                vstd::arithmetic::mul::lemma_mul_inequality(1, cols, r2 - r1);
                vstd::arithmetic::mul::lemma_mul_is_commutative(r2 - r1, cols);
            }
        }
    } else {
        assert(r1 == r2);
        assert(c1 <= c2);
        lemma_rows_cells_len(r1, r2, c1, c2, cols);
        assert(rect_cells(p1, p2, cols).len() == 1 * (c2 + 1 - c1));
        assert(1 * (c2 + 1 - c1) == c2 + 1 - c1);
        assert(p2 - p1 == c2 - c1);
    }
}

/// Appending the last row: the rectangle over rows `r1..=r2` is the
/// rectangle over `r1..=r2-1` followed by row `r2`.
proof fn lemma_rows_cells_snoc(r1: int, r2: int, c1: int, c2: int, cols: int)
    requires
        r1 <= r2,
    ensures
        rows_cells(r1, r2, c1, c2, cols) == rows_cells(r1, r2 - 1, c1, c2, cols) + row_cells(
            r2,
            c1,
            c2,
            cols,
        ),
    decreases r2 - r1,
{
    if r1 == r2 {
        assert(rows_cells(r1, r2 - 1, c1, c2, cols) =~= Seq::empty());
        assert(rows_cells(r1 + 1, r2, c1, c2, cols) =~= Seq::empty());
        assert(rows_cells(r1, r2, c1, c2, cols) =~= rows_cells(r1, r2 - 1, c1, c2, cols)
            + row_cells(r2, c1, c2, cols));
    } else {
        lemma_rows_cells_snoc(r1 + 1, r2, c1, c2, cols);
        assert(rows_cells(r1, r2, c1, c2, cols) =~= rows_cells(r1, r2 - 1, c1, c2, cols)
            + row_cells(r2, c1, c2, cols));
    }
}

/// Appending one cell to a row segment.
proof fn lemma_row_cells_snoc(row: int, c1: int, c2: int, cols: int)
    requires
        c1 <= c2,
    ensures
        row_cells(row, c1, c2, cols) == row_cells(row, c1, c2 - 1, cols).push(row * cols + c2),
{
    assert(row_cells(row, c1, c2, cols) =~= row_cells(row, c1, c2 - 1, cols).push(
        row * cols + c2,
    ));
}

/// Reading the values of one more cell.
proof fn lemma_vals_at_push(vals: Seq<i32>, cells: Seq<int>, x: int)
    ensures
        vals_at(vals, cells.push(x)) == vals_at(vals, cells).push(vals[x]),
{
    assert(vals_at(vals, cells.push(x)) =~= vals_at(vals, cells).push(vals[x]));
}

/// Folding one more value into each running aggregate.
proof fn lemma_agg_push(s: Seq<i32>, x: i32)
    ensures
        seq_min_val(s.push(x)) == if x < seq_min_val(s) {
            x
        } else {
            seq_min_val(s)
        },
        seq_max_val(s.push(x)) == if x > seq_max_val(s) {
            x
        } else {
            seq_max_val(s)
        },
        seq_sum_wrap(s.push(x)) == seq_sum_wrap(s).wrapping_add(x),
        seq_sumsq_wrap(s.push(x)) == seq_sumsq_wrap(s).wrapping_add(x.wrapping_mul(x)),
        seq_has_err(s.push(x)) == (seq_has_err(s) || x == ERR),
{
    assert(s.push(x).drop_last() =~= s);
    assert(s.push(x).last() == x);
    if seq_has_err(s) {
        let k = choose|k: int| 0 <= k < s.len() && s[k] == ERR;
        assert(s.push(x)[k] == ERR);
    }
    if x == ERR {
        assert(s.push(x)[s.len() as int] == ERR);
    }
    if seq_has_err(s.push(x)) && !seq_has_err(s) && x != ERR {
        let k = choose|k: int| 0 <= k < s.push(x).len() && s.push(x)[k] == ERR;
        if k < s.len() {
            assert(s[k] == ERR);
        }
    }
}

/// Any two roundings of the same quotient agree.
proof fn lemma_round_sqrt_unique(r1: int, r2: int, num: int, cnt: int)
    requires
        cnt >= 1,
        is_round_sqrt(r1, num, cnt),
        is_round_sqrt(r2, num, cnt),
    ensures
        r1 == r2,
{
    if r1 < r2 {
        assert(r2 >= 1);
        assert((2 * r1 + 1) * (2 * r1 + 1) * cnt <= (2 * r2 - 1) * (2 * r2 - 1) * cnt)
            by (nonlinear_arith)
            requires
                0 <= r1 < r2,
                cnt >= 1,
        ;
        assert(false);
    }
    if r2 < r1 {
        assert(r1 >= 1);
        assert((2 * r2 + 1) * (2 * r2 + 1) * cnt <= (2 * r1 - 1) * (2 * r1 - 1) * cnt)
            by (nonlinear_arith)
            requires
                0 <= r2 < r1,
                cnt >= 1,
        ;
        assert(false);
    }
}


/// Largest `r` with `(2r-1)^2 <= t` (and `0` when `t == 0`), found by
/// binary search; `t` is the floor of `4*num / cnt`.
fn search_root(t: i128) -> (r: i128)
    requires
        0 <= t < 0x1_0000_0000_0000_0000_0000_0000i128,
    ensures
        0 <= r,
        r >= 1 ==> (2 * r - 1) * (2 * r - 1) <= t,
        (2 * r + 1) * (2 * r + 1) > t,
        r == 0 ==> t == 0,
{
    let mut lo: i128 = 0;
    let mut hi: i128 = 0x2_0000_0000_0000i128;
    proof {
        assert((2 * hi - 1) * (2 * hi - 1) > t) by (nonlinear_arith)
            requires
                hi == 0x2_0000_0000_0000i128,
                t < 0x1_0000_0000_0000_0000_0000_0000i128,
        ;
    }
    while lo + 1 < hi
        invariant
            0 <= lo < hi <= 0x2_0000_0000_0000i128,
            lo >= 1 ==> (2 * lo - 1) * (2 * lo - 1) <= t,
            lo == 0 ==> t == 0 || 0 < t,
            (2 * hi - 1) * (2 * hi - 1) > t,
        decreases hi - lo,
    {
        let mid = lo + (hi - lo) / 2;
        proof {
            assert(lo < mid < hi);
            assert((2 * mid - 1) * (2 * mid - 1) < 0x4_0000_0000_0000_0000_0000_0000_0000i128)
                by (nonlinear_arith)
                requires
                    0 < mid <= 0x2_0000_0000_0000i128,
            ;
            assert((2 * mid - 1) * (2 * mid - 1) >= 0) by (nonlinear_arith);
        }
        if (2 * mid - 1) * (2 * mid - 1) <= t {
            lo = mid;
        } else {
            hi = mid;
        }
    }
    proof {
        assert(hi == lo + 1);
        if lo == 0 {
            assert(hi == 1);
            assert((2 * hi - 1) * (2 * hi - 1) == 1) by (nonlinear_arith)
                requires
                    hi == 1i128,
            ;
            assert(t < 1);
        }
        assert((2 * lo + 1) * (2 * lo + 1) > t);
    }
    lo
}

/// The integer standard deviation of a range from its wrapped sum, wrapped
/// sum of squares and cell count.
fn stdev_exec(sum: i32, sumsq: i32, cnt: usize) -> (v: i32)
    requires
        1 <= cnt <= i32::MAX,
    ensures
        v == stdev_val(sum, sumsq, cnt as int),
{
    let cnt_i = cnt as i32;
    let avg: i32 = crate::graph::div_trunc_exec(sum, cnt_i);
    proof {
        assert(avg == div_trunc(sum, cnt_i));
        assert(avg as int == tdiv(sum as int, cnt as int));
    }
    let a = avg as i128;
    let s = sum as i128;
    let q = sumsq as i128;
    let c = cnt as i128;
    proof {
        assert(-0x8000_0000i128 <= a <= 0x7FFF_FFFFi128);
        assert(-0x8000_0000i128 <= s <= 0x7FFF_FFFFi128);
        assert(-0x8000_0000_0000_0000i128 <= a * s <= 0x4000_0000_0000_0000i128)
            by (nonlinear_arith)
            requires
                -0x8000_0000i128 <= a <= 0x7FFF_FFFFi128,
                -0x8000_0000i128 <= s <= 0x7FFF_FFFFi128,
        ;
        assert(0 <= a * a <= 0x4000_0000_0000_0000i128) by (nonlinear_arith)
            requires
                -0x8000_0000i128 <= a <= 0x7FFF_FFFFi128,
        ;
    }
    let t2: i128 = 2 * (a * s);
    let aa: i128 = a * a;
    proof {
        assert(0 <= aa * c <= 0x2000_0000_0000_0000_0000_0000i128) by (nonlinear_arith)
            requires
                0 <= aa <= 0x4000_0000_0000_0000i128,
                1 <= c <= 0x8000_0000i128,
        ;
    }
    let t3: i128 = aa * c;
    let num: i128 = q - t2 + t3;
    proof {
        assert(num == sumsq as int - 2 * (avg as int) * (sum as int) + (avg as int) * (avg as int)
            * (cnt as int)) by {
            assert(t2 as int == 2 * (avg as int) * (sum as int)) by {
                vstd::arithmetic::mul::lemma_mul_is_associative(2, avg as int, sum as int);
            }
            assert(t3 as int == (avg as int) * (avg as int) * (cnt as int));
        }
    }
    if num <= 0 {
        proof {
            assert(stdev_val(sum, sumsq, cnt as int) == 0);
        }
        0
    } else {
        assert(num <= 0x2000_0000_0000_0000_8000_0000_0000i128);
        let fournum: i128 = 4 * num;
        let t: i128 = fournum / c;
        proof {
            vstd::arithmetic::div_mod::lemma_fundamental_div_mod(fournum as int, c as int);
            vstd::arithmetic::div_mod::lemma_mod_division_less_than_divisor(
                fournum as int,
                c as int,
            );
            vstd::arithmetic::div_mod::lemma_div_pos_is_pos(fournum as int, c as int);
            assert(t as int == (fournum as int) / (c as int));
            assert(t <= fournum) by {
                vstd::arithmetic::div_mod::lemma_div_nonincreasing(fournum as int, c as int);
            }
            assert(t < 0x1_0000_0000_0000_0000_0000_0000i128);
        }
        let r = search_root(t);
        proof {
            let numi = num as int;
            let cnti = cnt as int;
            let ti = t as int;
            // 4*num == c*t + rem with 0 <= rem < c
            assert(4 * numi == cnti * ti + (4 * numi) % cnti);
            let rem = (4 * numi) % cnti;
            assert(0 <= rem < cnti);
            if r >= 1 {
                assert((2 * r - 1) * (2 * r - 1) <= ti);
                assert((2 * r as int - 1) * (2 * r as int - 1) * cnti <= ti * cnti) by {
                    vstd::arithmetic::mul::lemma_mul_inequality(
                        (2 * r as int - 1) * (2 * r as int - 1),
                        ti,
                        cnti,
                    );
                }
                assert(ti * cnti <= 4 * numi) by {
                    vstd::arithmetic::mul::lemma_mul_is_commutative(ti, cnti);
                }
            }
            assert((2 * r as int + 1) * (2 * r as int + 1) >= ti + 1);
            assert((2 * r as int + 1) * (2 * r as int + 1) * cnti >= (ti + 1) * cnti) by {
                vstd::arithmetic::mul::lemma_mul_inequality(
                    ti + 1,
                    (2 * r as int + 1) * (2 * r as int + 1),
                    cnti,
                );
            }
            assert((ti + 1) * cnti == ti * cnti + cnti) by {
                vstd::arithmetic::mul::lemma_mul_is_distributive_add_other_way(cnti, ti, 1);
            }
            assert(4 * numi < (2 * r as int + 1) * (2 * r as int + 1) * cnti) by {
                vstd::arithmetic::mul::lemma_mul_is_commutative(ti, cnti);
            }
            if r == 0 {
                assert(ti == 0);
                vstd::arithmetic::div_mod::lemma_fundamental_div_mod(4 * numi, cnti);
                vstd::arithmetic::div_mod::lemma_mod_division_less_than_divisor(4 * numi, cnti);
                assert(4 * numi == cnti * ((4 * numi) / cnti) + (4 * numi) % cnti);
                assert((4 * numi) / cnti == ti);
                assert(cnti * 0 == 0) by (nonlinear_arith);
                assert(4 * numi < cnti);
            }
            assert(is_round_sqrt(r as int, numi, cnti));
            let rr = round_sqrt(numi, cnti);
            assert(is_round_sqrt(rr, numi, cnti));
            lemma_round_sqrt_unique(r as int, rr, numi, cnti);
        }
        if r > 0x7FFF_FFFFi128 {
            i32::MAX
        } else {
            r as i32
        }
    }
}

/// Evaluate a range aggregate (`op` in `9..=13`) over the cells of the
/// range `[p1, p2]` against the current values.
#[verifier::loop_isolation(false)]
#[verifier::rlimit(100)]
fn eval_range(op: i32, p1: i32, p2: i32, c: usize, arr: &Vec<i32>, cols: usize) -> (v: i32)
    requires
        cols >= 1,
        arr@.len() <= i32::MAX,
        c < arr@.len(),
        9 <= op <= 13,
        formula_ok(Formula { op_type: op, p1, p2 }, c as int, arr@.len() as int, cols as int),
    ensures
        v == eval_formula(Formula { op_type: op, p1, p2 }, c as int, arr@, cols as int),
{
    let n = arr.len();
    let start = p1 as usize;
    let end = p2 as usize;
    let sr = start / cols;
    let sc = start % cols;
    let er = end / cols;
    let ec = end % cols;
    proof {
        crate::graph::lemma_cell_decompose(p1 as int, cols as int);
        crate::graph::lemma_cell_decompose(p2 as int, cols as int);
        lemma_rect_cells_len(p1 as int, p2 as int, cols as int);
        assert(sr <= er) by {
            vstd::arithmetic::div_mod::lemma_div_is_ordered(p1 as int, p2 as int, cols as int);
        }
        if sr == er {
            assert(sc <= ec);
        } else {
            assert(sc == ec) by {
                if sc != ec {
                    assert(!range_is_line(p1 as int, p2 as int, cols as int));
                }
            }
        }
    }
    let ghost cells = rect_cells(p1 as int, p2 as int, cols as int);
    let mut cnt: usize = 0;
    let mut sum: i32 = 0;
    let mut sumsq: i32 = 0;
    let mut mn: i32 = i32::MAX;
    let mut mx: i32 = i32::MIN;
    let mut err: bool = false;
    let mut r: usize = sr;
    proof {
        assert(rows_cells(sr as int, sr as int - 1, sc as int, ec as int, cols as int)
            =~= Seq::<int>::empty());
        assert(vals_at(arr@, Seq::<int>::empty()) =~= Seq::<i32>::empty());
    }
    while r <= er
        invariant
            sr <= r <= er + 1,
            cnt == rows_cells(sr as int, r as int - 1, sc as int, ec as int, cols as int).len(),
            cnt <= p2 - p1 + 1,
            ({
                let done = rows_cells(sr as int, r as int - 1, sc as int, ec as int, cols as int);
                let vs = vals_at(arr@, done);
                &&& sum == seq_sum_wrap(vs)
                &&& sumsq == seq_sumsq_wrap(vs)
                &&& mn == seq_min_val(vs)
                &&& mx == seq_max_val(vs)
                &&& err == seq_has_err(vs)
            }),
        decreases er + 1 - r,
    {
        let mut cc: usize = sc;
        proof {
            assert(row_cells(r as int, sc as int, sc as int - 1, cols as int)
                =~= Seq::<int>::empty());
            assert(rows_cells(sr as int, r as int - 1, sc as int, ec as int, cols as int)
                + Seq::<int>::empty() =~= rows_cells(
                sr as int,
                r as int - 1,
                sc as int,
                ec as int,
                cols as int,
            ));
        }
        while cc <= ec
            invariant
                sc <= cc <= ec + 1,
                sr <= r <= er,
                cnt == (rows_cells(sr as int, r as int - 1, sc as int, ec as int, cols as int)
                    + row_cells(r as int, sc as int, cc as int - 1, cols as int)).len(),
                cnt <= p2 - p1 + 1,
                ({
                    let done = rows_cells(sr as int, r as int - 1, sc as int, ec as int, cols as int)
                        + row_cells(r as int, sc as int, cc as int - 1, cols as int);
                    let vs = vals_at(arr@, done);
                    &&& sum == seq_sum_wrap(vs)
                    &&& sumsq == seq_sumsq_wrap(vs)
                    &&& mn == seq_min_val(vs)
                    &&& mx == seq_max_val(vs)
                    &&& err == seq_has_err(vs)
                }),
            decreases ec + 1 - cc,
        {
            let ghost done = rows_cells(sr as int, r as int - 1, sc as int, ec as int, cols as int)
                + row_cells(r as int, sc as int, cc as int - 1, cols as int);
            proof {
                lemma_cells_prefix_len(
                    p1 as int,
                    p2 as int,
                    sr as int,
                    er as int,
                    sc as int,
                    ec as int,
                    cols as int,
                    r as int,
                    cc as int,
                );
                assert(r * cols + ec <= p2) by {
                    vstd::arithmetic::mul::lemma_mul_inequality(r as int, er as int, cols as int);
                    assert(er * cols + ec == p2);
                }
                crate::graph::lemma_cell_compose(r as int, cc as int, cols as int);
            }
            let idx = r * cols + cc;
            assert(idx <= end);
            assert(idx < n);
            let v = arr[idx];
            proof {
                let donenext = done.push(idx as int);
                assert(row_cells(r as int, sc as int, cc as int, cols as int) == row_cells(
                    r as int,
                    sc as int,
                    cc as int - 1,
                    cols as int,
                ).push(r as int * cols as int + cc as int)) by {
                    lemma_row_cells_snoc(r as int, sc as int, cc as int, cols as int);
                }
                assert(rows_cells(sr as int, r as int - 1, sc as int, ec as int, cols as int)
                    + row_cells(r as int, sc as int, cc as int, cols as int) =~= donenext);
                lemma_vals_at_push(arr@, done, idx as int);
                lemma_agg_push(vals_at(arr@, done), arr@[idx as int]);
            }
            if v == i32::MIN {
                err = true;
            }
            cnt = cnt + 1;
            sum = sum.wrapping_add(v);
            sumsq = sumsq.wrapping_add(v.wrapping_mul(v));
            if v < mn {
                mn = v;
            }
            if v > mx {
                mx = v;
            }
            cc = cc + 1;
        }
        proof {
            assert(row_cells(r as int, sc as int, ec as int, cols as int) == row_cells(
                r as int,
                sc as int,
                cc as int - 1,
                cols as int,
            ));
            lemma_rows_cells_snoc(sr as int, r as int, sc as int, ec as int, cols as int);
            assert(rows_cells(sr as int, r as int, sc as int, ec as int, cols as int)
                == rows_cells(sr as int, r as int - 1, sc as int, ec as int, cols as int)
                + row_cells(r as int, sc as int, ec as int, cols as int));
        }
        r = r + 1;
    }
    proof {
        assert(rows_cells(sr as int, er as int, sc as int, ec as int, cols as int) == cells);
        assert(cnt == cells.len());
        assert(cells.len() >= 1);
    }
    let ghost vs = vals_at(arr@, cells);
    if err || cnt == 0 {
        return ERR;
    }
    if op == 9 {
        mn
    } else if op == 10 {
        mx
    } else if op == 11 {
        let q = crate::graph::div_trunc_exec(sum, cnt as i32);
        proof {
            assert(q == div_trunc(sum, cnt as i32));
            assert(q as int == tdiv(seq_sum_wrap(vs) as int, vs.len() as int));
        }
        q
    } else if op == 12 {
        sum
    } else {
        stdev_exec(sum, sumsq, cnt)
    }
}

/// The running prefix of the rectangle walk never exceeds the cell count of
/// the range.
proof fn lemma_cells_prefix_len(
    p1: int,
    p2: int,
    sr: int,
    er: int,
    sc: int,
    ec: int,
    cols: int,
    r: int,
    cc: int,
)
    requires
        cols >= 1,
        0 <= p1 <= p2,
        sr == row_of(p1, cols),
        er == row_of(p2, cols),
        sc == col_of(p1, cols),
        ec == col_of(p2, cols),
        range_is_line(p1, p2, cols),
        sr <= r <= er,
        sc <= cc <= ec,
    ensures
        (rows_cells(sr, r - 1, sc, ec, cols) + row_cells(r, sc, cc - 1, cols)).len() < rect_cells(
            p1,
            p2,
            cols,
        ).len(),
{
    assert(sc <= ec) by {
        crate::graph::lemma_cell_decompose(p1, cols);
        crate::graph::lemma_cell_decompose(p2, cols);
        vstd::arithmetic::div_mod::lemma_div_is_ordered(p1, p2, cols);
        if sr == er {
        } else {
            assert(sc == ec) by {
                if sc != ec {
                    assert(!range_is_line(p1, p2, cols));
                }
            }
        }
    }
    let w = ec + 1 - sc;
    lemma_rows_cells_len(sr, r - 1, sc, ec, cols);
    lemma_rows_cells_len(sr, er, sc, ec, cols);
    assert(row_cells(r, sc, cc - 1, cols).len() == cc - sc);
    if r == sr {
        assert((rows_cells(sr, r - 1, sc, ec, cols)).len() == 0);
        assert(cc - sc < w);
        assert(rect_cells(p1, p2, cols).len() == (er + 1 - sr) * w);
        assert(w <= (er + 1 - sr) * w) by {
            vstd::arithmetic::mul::lemma_mul_inequality(1, er + 1 - sr, w);
        }
    } else {
        assert((rows_cells(sr, r - 1, sc, ec, cols)).len() == (r - sr) * w);
        assert((r - sr) * w + w <= (er + 1 - sr) * w) by {
            vstd::arithmetic::mul::lemma_mul_inequality(r - sr + 1, er + 1 - sr, w);
            vstd::arithmetic::mul::lemma_mul_is_distributive_add_other_way(w, r - sr, 1);
        }
        assert(cc - sc < w);
    }
}


/// Evaluate the formula record stored at cell `c` against the current
/// values.
fn eval_cell(f: Formula, c: usize, arr: &Vec<i32>, cols: usize) -> (v: i32)
    requires
        cols >= 1,
        arr@.len() <= i32::MAX,
        c < arr@.len(),
        formula_ok(f, c as int, arr@.len() as int, cols as int),
    ensures
        v == eval_formula(f, c as int, arr@, cols as int),
{
    let op = f.op_type;
    if op == 0 {
        f.p1
    } else if 1 <= op && op <= 4 {
        let v1 = arr[f.p1 as usize];
        let v2 = f.p2;
        if v1 == ERR {
            ERR
        } else if op == 1 {
            v1.wrapping_add(v2)
        } else if op == 2 {
            v1.wrapping_sub(v2)
        } else if op == 3 {
            v1.wrapping_mul(v2)
        } else if v2 == 0 {
            ERR
        } else {
            crate::graph::div_trunc_exec(v1, v2)
        }
    } else if 5 <= op && op <= 8 {
        let v1 = arr[f.p1 as usize];
        let v2 = arr[f.p2 as usize];
        if v1 == ERR || v2 == ERR {
            ERR
        } else if op == 5 {
            v1.wrapping_add(v2)
        } else if op == 6 {
            v1.wrapping_sub(v2)
        } else if op == 7 {
            v1.wrapping_mul(v2)
        } else if v2 == 0 {
            ERR
        } else {
            crate::graph::div_trunc_exec(v1, v2)
        }
    } else if 9 <= op && op <= 13 {
        eval_range(op, f.p1, f.p2, c, arr, cols)
    } else {
        if f.p1 as usize == c {
            f.p2
        } else {
            arr[f.p1 as usize]
        }
    }
}

/// Recompute, in dependency order, every cell reachable from `start_cell`,
/// writing the evaluated values into `arr`.  Returns `false`, with `arr`
/// untouched, exactly when the reachable cells contain a dependency cycle.
///
/// On success every reachable cell holds the value of its record evaluated
/// against the final array, and every other cell is unchanged.
#[verifier::loop_isolation(false)]
#[verifier::rlimit(60)]
pub fn recalculate(
    graph: &mut Graph,
    cols: i32,
    arr: &mut Vec<i32>,
    start_cell: usize,
    formula_array: &Vec<Formula>,
) -> (ok: bool)
    requires
        old(graph).wf(old(arr)@.len() as int),
        formula_array@.len() == old(arr)@.len(),
        old(arr)@.len() <= i32::MAX,
        start_cell < old(arr)@.len(),
        cols >= 1,
        forall|c: int|
            0 <= c < old(arr)@.len() ==> formula_ok(
                #[trigger] formula_array@[c],
                c,
                old(arr)@.len() as int,
                cols as int,
            ),
        forall|d: int, s: int|
            0 <= d < old(arr)@.len() && #[trigger] is_source(formula_array@[d], cols as int, d, s)
                ==> adj_has(old(graph).adj@, s, d),
    ensures
        final(graph).adj@ == old(graph).adj@,
        final(arr)@.len() == old(arr)@.len(),
        ok <==> !has_cycle_from(old(graph).adj@, start_cell as int),
        !ok ==> final(arr)@ == old(arr)@,
        ok ==> forall|c: int|
            0 <= c < final(arr)@.len() && reaches(old(graph).adj@, start_cell as int, c)
                ==> final(arr)@[c] == eval_formula(
                #[trigger] formula_array@[c],
                c,
                final(arr)@,
                cols as int,
            ),
        ok ==> forall|c: int|
            0 <= c < final(arr)@.len() && !reaches(old(graph).adj@, start_cell as int, c)
                ==> final(arr)@[c] == old(arr)@[c],
{
    let n = arr.len();
    let ghost adj = graph.adj@;
    let sorted_opt = topological_sort(graph, start_cell, n);
    match sorted_opt {
        None => false,
        Some(order) => {
            let m = order.len();
            let mut i: usize = 0;
            while i < m
                invariant
                    arr@.len() == n,
                    m == order@.len(),
                    i <= m,
                    forall|k: int|
                        0 <= k < i ==> arr@[(#[trigger] order@[k]) as int] == eval_formula(
                            formula_array@[order@[k] as int],
                            order@[k] as int,
                            arr@,
                            cols as int,
                        ),
                    forall|c: int|
                        0 <= c < n && !order@.contains(c as usize) ==> arr@[c] == old(arr)@[c],
                decreases m - i,
            {
                let cell = order[i];
                assert(cell < n);
                let v = eval_cell(formula_array[cell], cell, arr, cols as usize);
                let ghost pre = arr@;
                arr[cell] = v;
                proof {
                    assert(arr@ == pre.update(cell as int, v));
                    assert forall|k: int|
                        0 <= k < i + 1 implies arr@[(#[trigger] order@[k]) as int] == eval_formula(
                        formula_array@[order@[k] as int],
                        order@[k] as int,
                        arr@,
                        cols as int,
                    ) by {
                        let ck = order@[k] as int;
                        let fk = formula_array@[ck];
                        assert forall|s: int|
                            is_source(fk, cols as int, ck, s) implies 0 <= s < n && pre[s]
                            == arr@[s] by {
                            assert(adj_has(adj, s, ck));
                            assert(0 <= s < n) by {
                                let kk = choose|kk: int|
                                    0 <= kk < adj[s]@.len() && adj[s]@[kk] == ck as usize;
                                assert(graph.wf(n as int));
                            }
                            if s == cell as int {
                                // the edge cell -> order[k] puts order[k] after position i
                                assert(order@.contains(s as usize)) by {
                                    assert(order@[i as int] == cell);
                                }
                                assert(adj_has(adj, order@[i as int] as int, order@[k] as int));
                                assert(i < k);
                                assert(false);
                            }
                        }
                        lemma_eval_frame(fk, ck, pre, arr@, cols as int, n as int);
                        if k < i {
                            assert(pre[ck] == eval_formula(fk, ck, pre, cols as int));
                            assert(arr@[ck] == pre[ck]) by {
                                assert(ck != cell as int) by {
                                    if ck == cell as int {
                                        assert(order@[k] == order@[i as int]);
                                    }
                                }
                            }
                        } else {
                            assert(v == eval_formula(fk, ck, pre, cols as int));
                            assert(arr@[ck] == v);
                        }
                    }
                    assert forall|c: int|
                        0 <= c < n && !order@.contains(c as usize) implies arr@[c] == old(
                        arr,
                    )@[c] by {
                        if c == cell as int {
                            assert(order@.contains(cell));
                        }
                    }
                }
                i = i + 1;
            }
            proof {
                assert forall|c: int|
                    0 <= c < n && reaches(adj, start_cell as int, c) implies arr@[c]
                    == eval_formula(formula_array@[c], c, arr@, cols as int) by {
                    lemma_reach_bounds(adj, start_cell as int, c, n as int);
                    assert(order@.contains(c as usize));
                    let k = choose|k: int| 0 <= k < order@.len() && order@[k] == c as usize;
                    assert(arr@[order@[k] as int] == eval_formula(
                        formula_array@[order@[k] as int],
                        order@[k] as int,
                        arr@,
                        cols as int,
                    ));
                }
                assert forall|c: int|
                    0 <= c < n && !reaches(adj, start_cell as int, c) implies arr@[c] == old(
                    arr,
                )@[c] by {
                    if order@.contains(c as usize) {
                        assert(reaches(adj, start_cell as int, (c as usize) as int));
                    }
                }
            }
            true
        },
    }
}

/// Whether a graph holds exactly the edges implied by the formula records.
pub open spec fn coherent_with(adj: Seq<Vec<usize>>, farr: Seq<Formula>, cols: int) -> bool {
    forall|s: int, d: int|
        #![trigger adj_has(adj, s, d)]
        #![trigger is_source(farr[d], cols, d, s)]
        adj_has(adj, s, d) <==> (0 <= d < farr.len() && is_source(farr[d], cols, d, s))
}

/// Cycles from a start cell depend only on the edge set, not on the list
/// representation.
pub proof fn lemma_cycle_transfer(adj1: Seq<Vec<usize>>, adj2: Seq<Vec<usize>>, start: int)
    requires
        forall|s: int, d: int| #[trigger] adj_has(adj1, s, d) <==> #[trigger] adj_has(adj2, s, d),
        has_cycle_from(adj1, start),
    ensures
        has_cycle_from(adj2, start),
{
    let s = choose|s: Set<int>| cycle_witness(adj1, start, s);
    assert forall|v: int| #[trigger] s.contains(v) implies reaches(adj2, start, v) by {
        let w = choose|w: Seq<int>| is_walk(adj1, w) && w.first() == start && w.last() == v;
        assert(is_walk(adj2, w)) by {
            assert forall|i: int| 0 <= i < w.len() - 1 implies adj_has(
                adj2,
                #[trigger] w[i],
                w[i + 1],
            ) by {
                assert(adj_has(adj1, w[i], w[i + 1]));
            }
        }
    }
    assert forall|v: int| #[trigger] s.contains(v) implies exists|u: int|
        s.contains(u) && adj_has(adj2, u, v) by {
        let u = choose|u: int| s.contains(u) && adj_has(adj1, u, v);
        assert(s.contains(u) && adj_has(adj2, u, v));
    }
    assert(cycle_witness(adj2, start, s));
}

/// An edit that stores record `f` at cell `dst` would close a dependency
/// cycle: every graph coherent with the updated records has one.
pub open spec fn edit_cycles(farr: Seq<Formula>, cols: int, dst: int, f: Formula) -> bool {
    forall|adj: Seq<Vec<usize>>|
        #[trigger] coherent_with(adj, farr.update(dst, f), cols) ==> has_cycle_from(adj, dst)
}

} // verus!
