//! The laws of the calculation core that relate several operations, stated
//! and proved over the sheet invariant.
//!
//! The remaining guarantees live in contracts: the edge/record coherence
//! and self-edge freedom are part of [`crate::spreadsheet::Spreadsheet::wf`];
//! rejection leaving values and records byte-identical is an `ensures` of
//! [`crate::input_parser::parser`] (covering cycle rejection in particular);
//! and value/record coherence after success is part of `wf` again.

use crate::graph::{is_source, Formula, ERR};
use crate::recalc::{
    cycle_witness, eval_formula, formula_ok, has_cycle_from, lemma_eval_frame, reaches,
};
use crate::spreadsheet::Spreadsheet;
use vstd::prelude::*;

verus! {

/// Round trip of constants: after a committed assignment of the literal
/// `k` to cell `d` (so `d`'s record is the constant `k`), reading `d`
/// yields exactly `k`.
pub proof fn lemma_constant_round_trip(s: &Spreadsheet, d: int, k: i32)
    requires
        s.wf(),
        0 <= d < s.size(),
        s.formula_array@[d] == (Formula { op_type: 0, p1: k, p2: 0 }),
    ensures
        s.arr@[d] == k,
{
    assert(s.arr@[d] == eval_formula(s.formula_array@[d], d, s.arr@, s.cols as int));
}

/// Error propagation through arithmetic: when cell `b` holds the record
/// `a + lit` (cell-plus-literal), `b` shows `ERR` exactly when its source
/// `a` does, and the wrapped sum otherwise.  Repairing `a` to a defined
/// value therefore recomputes `b` to the defined arithmetic result.
pub proof fn lemma_error_propagation(s: &Spreadsheet, a: int, b: int, lit: i32)
    requires
        s.wf(),
        0 <= b < s.size(),
        s.formula_array@[b] == (Formula { op_type: 1, p1: a as i32, p2: lit }),
        0 <= a < s.size(),
        a <= i32::MAX,
    ensures
        s.arr@[a] == ERR ==> s.arr@[b] == ERR,
        s.arr@[a] != ERR ==> s.arr@[b] == s.arr@[a].wrapping_add(lit),
{
    assert(s.arr@[b] == eval_formula(s.formula_array@[b], b, s.arr@, s.cols as int));
}

/// Values are a function of the records: two well-formed sheets with the
/// same dimensions and the same formula records, whose values agree on
/// every cell not reachable from `d`, agree on every cell — provided the
/// cells reachable from `d` are acyclic, as they are after any committed
/// edit of `d`.
///
/// Idempotence of re-assigning the same literal follows: repeating `A=k`
/// leaves the records unchanged and touches only cells reachable from
/// `A`, so the state after the second edit equals the state after the
/// first.
pub proof fn lemma_values_determined(s1: &Spreadsheet, s2: &Spreadsheet, d: int)
    requires
        s1.wf(),
        s2.wf(),
        s1.rows == s2.rows,
        s1.cols == s2.cols,
        s1.formula_array@ == s2.formula_array@,
        0 <= d < s1.size(),
        !has_cycle_from(s1.graph.adj@, d),
        forall|c: int|
            0 <= c < s1.size() && !reaches(s1.graph.adj@, d, c) ==> s1.arr@[c] == s2.arr@[c],
    ensures
        s1.arr@ == s2.arr@,
{
    let n = s1.size();
    let cols = s1.cols as int;
    let adj1 = s1.graph.adj@;
    let adj2 = s2.graph.adj@;
    assert(s1.arr@.len() == n && s2.arr@.len() == n);
    let diff = vstd::set_lib::set_int_range(0, n).filter(
        |c: int| s1.arr@[c] != s2.arr@[c],
    );
    if s1.arr@ != s2.arr@ {
        assert(exists|c: int| 0 <= c < n && s1.arr@[c] != s2.arr@[c]) by {
            if forall|c: int| 0 <= c < n ==> s1.arr@[c] == s2.arr@[c] {
                assert(s1.arr@ =~= s2.arr@);
            }
        }
        let c0 = choose|c: int| 0 <= c < n && s1.arr@[c] != s2.arr@[c];
        assert(diff.contains(c0));
        vstd::set_lib::lemma_int_range(0, n);
        vstd::set_lib::set_int_range(0, n).lemma_len_filter(
            |c: int| s1.arr@[c] != s2.arr@[c],
        );
        assert(diff.finite());
        assert(diff.len() > 0) by {
            if diff.len() == 0 {
                vstd::set_lib::lemma_set_empty_equivalency_len(diff);
            }
        }
        // every differing cell has a differing source, so `diff` witnesses
        // a cycle among the reachable cells
        assert forall|c: int| #[trigger] diff.contains(c) implies reaches(adj1, d, c) by {
            if !reaches(adj1, d, c) {
                assert(s1.arr@[c] == s2.arr@[c]);
            }
        }
        assert forall|c: int| #[trigger] diff.contains(c) implies exists|u: int|
            diff.contains(u) && crate::graph::adj_has(adj1, u, c) by {
            let f = s1.formula_array@[c];
            assert(formula_ok(f, c, n, cols));
            assert(s1.arr@[c] == eval_formula(f, c, s1.arr@, cols));
            assert(s2.arr@[c] == eval_formula(f, c, s2.arr@, cols));
            if forall|u: int| #[trigger] is_source(f, cols, c, u) ==> 0 <= u < n && s1.arr@[u]
                == s2.arr@[u] {
                lemma_eval_frame(f, c, s1.arr@, s2.arr@, cols, n);
                assert(false);
            }
            let u = choose|u: int| #[trigger]
                is_source(f, cols, c, u) && !(0 <= u < n && s1.arr@[u] == s2.arr@[u]);
            assert(crate::graph::adj_has(adj1, u, c));
            assert(0 <= u < n) by {
                let kk = choose|kk: int| 0 <= kk < adj1[u]@.len() && adj1[u]@[kk] == c as usize;
                assert(s1.graph.wf(n));
            }
            assert(diff.contains(u));
        }
        assert(cycle_witness(adj1, d, diff));
        assert(false);
    }
}


/// The edge set matches the records exactly: an edge `s -> d` exists if
/// and only if the record stored at `d` names `s` as a source — no stale
/// edge, no missing edge.
pub proof fn lemma_edges_match_records(s: &Spreadsheet, u: int, d: int)
    requires
        s.wf(),
    ensures
        s.graph.has_edge(u, d) <==> (0 <= d < s.size() && is_source(
            s.formula_array@[d],
            s.cols as int,
            d,
            u,
        )),
{
    assert(crate::graph::adj_has(s.graph.adj@, u, d) == s.graph.has_edge(u, d));
}

/// No self-edge exists: no record names its own cell as a source, so no
/// cell depends on itself.
pub proof fn lemma_no_self_edge(s: &Spreadsheet, x: int)
    requires
        s.wf(),
    ensures
        !s.graph.has_edge(x, x),
{
    lemma_edges_match_records(s, x, x);
    if 0 <= x < s.size() {
        assert(formula_ok(s.formula_array@[x], x, s.size(), s.cols as int));
        assert(!is_source(s.formula_array@[x], s.cols as int, x, x));
    }
}

/// No record references a cell outside the sheet: every source of every
/// stored formula lies in `[0, rows*cols)`.
pub proof fn lemma_references_in_bounds(s: &Spreadsheet, c: int, u: int)
    requires
        s.wf(),
        0 <= c < s.size(),
        is_source(s.formula_array@[c], s.cols as int, c, u),
    ensures
        0 <= u < s.size(),
{
    lemma_edges_match_records(s, u, c);
    assert(s.graph.has_edge(u, c));
    let kk = choose|kk: int|
        0 <= kk < s.graph.adj@[u]@.len() && s.graph.adj@[u]@[kk] == c as usize;
    assert(s.graph.wf(s.size()));
}

} // verus!
