//! The per-cell formula record and the dependency graph between cells.
//!
//! An edge `src -> dst` means "when `src` changes, `dst` must be recomputed".
//! The graph stores, for every cell index, the list of its dependents.  The
//! edge set is always exactly the set of edges implied by the stored formula
//! records: `add_formula` installs a record together with its edges, and
//! `delete_edge` removes the edges implied by the record currently stored.

use vstd::prelude::*;

verus! {

/// The `ERR` sentinel: marks a cell whose evaluation failed.
pub const ERR: i32 = i32::MIN;

/// A recorded formula `(op_type, p1, p2)`.
///
/// - `0`: constant; `p1` is the value.
/// - `1..=4`: cell `+ - * /` literal; `p1` is the source cell, `p2` the literal.
/// - `5..=8`: cell `+ - * /` cell; `p1` and `p2` are the source cells.
/// - `9..=13`: `MIN`, `MAX`, `AVG`, `SUM`, `STDEV` over the range `[p1, p2]`.
/// - `14`: `SLEEP`; `p1` is the source cell, or the cell itself when the
///   duration is the literal `p2`.
#[derive(Copy, Clone, Debug, PartialEq, Eq, Structural)]
pub struct Formula {
    pub op_type: i32,
    pub p1: i32,
    pub p2: i32,
}

/// Dependents of every cell: `adj[src]` lists the cells to recompute when
/// `src` changes.  Lists are kept free of duplicates.
pub struct Graph {
    pub adj: Vec<Vec<usize>>,
}

/// Row of a cell index on a sheet with `cols` columns.
pub open spec fn row_of(idx: int, cols: int) -> int {
    idx / cols
}

/// Column of a cell index on a sheet with `cols` columns.
pub open spec fn col_of(idx: int, cols: int) -> int {
    idx % cols
}

/// The range `[p1, p2]` lies on a single row or a single column.
pub open spec fn range_is_line(p1: int, p2: int, cols: int) -> bool {
    col_of(p1, cols) == col_of(p2, cols) || row_of(p1, cols) == row_of(p2, cols)
}

/// Membership of cell `s` in the single-row or single-column range `[p1, p2]`.
/// A rectangular range (neither one row nor one column) has no members.
pub open spec fn in_range(p1: int, p2: int, cols: int, s: int) -> bool {
    if col_of(p1, cols) == col_of(p2, cols) {
        col_of(s, cols) == col_of(p1, cols) && row_of(p1, cols) <= row_of(s, cols) <= row_of(
            p2,
            cols,
        )
    } else if row_of(p1, cols) == row_of(p2, cols) {
        row_of(s, cols) == row_of(p1, cols) && col_of(p1, cols) <= col_of(s, cols) <= col_of(
            p2,
            cols,
        )
    } else {
        false
    }
}

/// Cell `s` is a source of the formula `f` stored at cell `dst`: the edge
/// `s -> dst` is implied by the record.  Range formulas never imply an edge
/// from the destination itself, and the self form of `SLEEP` implies none.
pub open spec fn is_source(f: Formula, cols: int, dst: int, s: int) -> bool {
    if 1 <= f.op_type <= 4 {
        s == f.p1
    } else if 5 <= f.op_type <= 8 {
        s == f.p1 || s == f.p2
    } else if 9 <= f.op_type <= 13 {
        in_range(f.p1 as int, f.p2 as int, cols, s) && s != dst
    } else if f.op_type == 14 {
        f.p1 != dst && s == f.p1
    } else {
        false
    }
}

impl Graph {
    /// All dependent lists exist for cells `0..n` and mention only cells
    /// below `n`, without duplicates.
    pub open spec fn wf(&self, n: int) -> bool {
        &&& self.adj@.len() == n
        &&& forall|i: int, k: int|
            0 <= i < n && 0 <= k < self.adj@[i]@.len() ==> (#[trigger] self.adj@[i]@[k]) < n
        &&& forall|i: int| 0 <= i < n ==> (#[trigger] self.adj@[i]@).no_duplicates()
    }

    /// The edge `src -> dst` is present.
    pub open spec fn has_edge(&self, src: int, dst: int) -> bool {
        0 <= src < self.adj@.len() && 0 <= dst <= usize::MAX && self.adj@[src]@.contains(
            dst as usize,
        )
    }

    /// Create a graph for `n` cells with no edges.
    ///
    /// The returned graph has one (empty) dependent list per cell.
    pub fn new(n: usize) -> (g: Graph)
        ensures
            g.wf(n as int),
            forall|s: int, d: int| !g.has_edge(s, d),
    {
        let mut adj: Vec<Vec<usize>> = Vec::new();
        let mut i: usize = 0;
        while i < n
            invariant
                i <= n,
                adj@.len() == i,
                forall|j: int| 0 <= j < i ==> (#[trigger] adj@[j]@).len() == 0,
            decreases n - i,
        {
            adj.push(Vec::new());
            i = i + 1;
        }
        Graph { adj }
    }
}

/// Append `x` to `v` unless it is already present, so that lists stay
/// duplicate-free.
fn push_unique(v: &mut Vec<usize>, x: usize)
    ensures
        forall|y: usize| final(v)@.contains(y) <==> old(v)@.contains(y) || y == x,
        old(v)@.no_duplicates() ==> final(v)@.no_duplicates(),
        forall|y: usize| final(v)@.contains(y) ==> y == x || old(v)@.contains(y),
{
    let mut i: usize = 0;
    let n = v.len();
    while i < n
        invariant
            i <= n,
            n == v@.len(),
            forall|k: int| 0 <= k < i ==> v@[k] != x,
        decreases n - i,
    {
        if v[i] == x {
            assert(v@.contains(x));
            return ;
        }
        i = i + 1;
    }
    assert(forall|k: int| 0 <= k < v@.len() ==> v@[k] != x);
    assert(!v@.contains(x));
    let ghost oldv = v@;
    v.push(x);
    assert forall|y: usize| v@.contains(y) implies oldv.contains(y) || y == x by {
        let k = choose|k: int| 0 <= k < v@.len() && v@[k] == y;
        if k < oldv.len() {
            assert(oldv[k] == y);
        }
    }
    assert forall|y: usize| oldv.contains(y) || y == x implies v@.contains(y) by {
        if oldv.contains(y) {
            let k = choose|k: int| 0 <= k < oldv.len() && oldv[k] == y;
            assert(v@[k] == y);
        } else {
            assert(v@[v@.len() - 1] == x);
        }
    }
    proof {
        if oldv.no_duplicates() {
            assert forall|p: int, q: int|
                0 <= p < v@.len() && 0 <= q < v@.len() && p != q implies v@[p] != v@[q] by {
                if p < oldv.len() && q < oldv.len() {
                    assert(oldv[p] == v@[p] && oldv[q] == v@[q]);
                } else if p < oldv.len() {
                    assert(oldv[p] == v@[p] && v@[q] == x);
                    assert(oldv.contains(oldv[p]));
                } else if q < oldv.len() {
                    assert(oldv[q] == v@[q] && v@[p] == x);
                    assert(oldv.contains(oldv[q]));
                }
            }
        }
    }
}

/// Return `v` with every occurrence of `x` removed, other elements kept.
fn without(v: &Vec<usize>, x: usize) -> (r: Vec<usize>)
    ensures
        forall|y: usize| r@.contains(y) <==> v@.contains(y) && y != x,
        v@.no_duplicates() ==> r@.no_duplicates(),
{
    let mut r: Vec<usize> = Vec::new();
    let n = v.len();
    let mut i: usize = 0;
    while i < n
        invariant
            i <= n,
            n == v@.len(),
            forall|k: int|
                0 <= k < r@.len() ==> (#[trigger] r@[k]) != x && exists|j: int|
                    0 <= j < i && v@[j] == r@[k],
            forall|j: int| 0 <= j < i ==> v@[j] == x || r@.contains(#[trigger] v@[j]),
            v@.no_duplicates() ==> r@.no_duplicates(),
        decreases n - i,
    {
        if v[i] != x {
            let ghost oldr = r@;
            r.push(v[i]);
            proof {
                assert(r@[r@.len() - 1] == v@[i as int]);
                assert(forall|k: int| 0 <= k < oldr.len() ==> r@[k] == oldr[k]);
                assert(forall|j: int| 0 <= j < i && oldr.contains(v@[j]) ==> r@.contains(
                    #[trigger] v@[j],
                ));
                assert(r@.contains(v@[i as int]));
                if v@.no_duplicates() {
                    assert forall|p: int, q: int|
                        0 <= p < r@.len() && 0 <= q < r@.len() && p != q implies r@[p] != r@[q] by {
                        if p < oldr.len() && q == oldr.len() {
                            let kp = choose|j: int| 0 <= j < i && v@[j] == r@[p];
                            assert(v@[kp] != v@[i as int]);
                        } else if q < oldr.len() && p == oldr.len() {
                            let kq = choose|j: int| 0 <= j < i && v@[j] == r@[q];
                            assert(v@[kq] != v@[i as int]);
                        }
                    }
                }
            }
        }
        i = i + 1;
    }
    proof {
        assert forall|y: usize| r@.contains(y) implies v@.contains(y) && y != x by {
            let k = choose|k: int| 0 <= k < r@.len() && r@[k] == y;
            let j = choose|j: int| 0 <= j < n && v@[j] == r@[k];
            assert(v@[j] == y);
        }
        assert forall|y: usize| v@.contains(y) && y != x implies r@.contains(y) by {
            let j = choose|j: int| 0 <= j < v@.len() && v@[j] == y;
            assert(v@[j] == x || r@.contains(v@[j]));
        }
    }
    r
}

/// A cell index decomposes into its row and column; the index is
/// nonnegative exactly when its row is.
pub proof fn lemma_cell_decompose(idx: int, cols: int)
    requires
        cols >= 1,
    ensures
        idx == row_of(idx, cols) * cols + col_of(idx, cols),
        0 <= col_of(idx, cols) < cols,
        0 <= idx <==> 0 <= row_of(idx, cols),
{
    vstd::arithmetic::div_mod::lemma_fundamental_div_mod(idx, cols);
    vstd::arithmetic::div_mod::lemma_mod_division_less_than_divisor(idx, cols);
    vstd::arithmetic::mul::lemma_mul_is_commutative(cols, row_of(idx, cols));
    if 0 <= idx {
        vstd::arithmetic::div_mod::lemma_div_pos_is_pos(idx, cols);
    }
    if 0 <= row_of(idx, cols) {
        vstd::arithmetic::mul::lemma_mul_nonnegative(row_of(idx, cols), cols);
    }
}

/// Composing a row and a column below `cols` yields a cell index with that
/// row and that column.
pub proof fn lemma_cell_compose(r: int, c: int, cols: int)
    requires
        cols >= 1,
        0 <= r,
        0 <= c < cols,
    ensures
        row_of(r * cols + c, cols) == r,
        col_of(r * cols + c, cols) == c,
{
    vstd::arithmetic::div_mod::lemma_fundamental_div_mod_converse(r * cols + c, cols, r, c);
}

/// Edge membership in a saved adjacency sequence.
pub open spec fn adj_has(adj: Seq<Vec<usize>>, src: int, dst: int) -> bool {
    0 <= src < adj.len() && 0 <= dst <= usize::MAX && adj[src]@.contains(dst as usize)
}

/// Install the single edge `src -> dst`, leaving every other edge alone.
fn install_edge(g: &mut Graph, src: usize, dst: usize)
    requires
        old(g).wf(old(g).adj@.len() as int),
        src < old(g).adj@.len(),
        dst < old(g).adj@.len(),
    ensures
        final(g).adj@.len() == old(g).adj@.len(),
        final(g).wf(final(g).adj@.len() as int),
        forall|s: int, d: int|
            final(g).has_edge(s, d) <==> old(g).has_edge(s, d) || (s == src as int && d
                == dst as int),
{
    let ghost n = g.adj@.len() as int;
    let ghost oldadj = g.adj@;
    push_unique(&mut g.adj[src], dst);
    proof {
        assert(g.adj@.len() == n);
        assert(forall|i: int| 0 <= i < n && i != src as int ==> g.adj@[i] == oldadj[i]);
        assert forall|i: int, k: int|
            0 <= i < n && 0 <= k < g.adj@[i]@.len() implies (#[trigger] g.adj@[i]@[k]) < n by {
            let y = g.adj@[i]@[k];
            assert(g.adj@[i]@.contains(y));
            if i == src as int {
                if y != dst {
                    assert(oldadj[i]@.contains(y));
                    let kk = choose|kk: int| 0 <= kk < oldadj[i]@.len() && oldadj[i]@[kk] == y;
                }
            } else {
                let kk = choose|kk: int| 0 <= kk < oldadj[i]@.len() && oldadj[i]@[kk] == y;
            }
        }
        assert forall|s: int, d: int|
            g.has_edge(s, d) <==> adj_has(oldadj, s, d) || (s == src as int && d == dst as int) by {
            if s == src as int && 0 <= d <= usize::MAX {
                assert(g.adj@[s]@.contains(d as usize) <==> oldadj[s]@.contains(d as usize) || d
                    as usize == dst);
            }
        }
    }
}

/// Remove the edge `src -> dst` (every occurrence), leaving every other edge
/// alone.
fn remove_edge(g: &mut Graph, src: usize, dst: usize)
    requires
        old(g).wf(old(g).adj@.len() as int),
        src < old(g).adj@.len(),
    ensures
        final(g).adj@.len() == old(g).adj@.len(),
        final(g).wf(final(g).adj@.len() as int),
        forall|s: int, d: int|
            final(g).has_edge(s, d) <==> old(g).has_edge(s, d) && !(s == src as int && d
                == dst as int),
{
    let ghost n = g.adj@.len() as int;
    let ghost oldadj = g.adj@;
    let filtered = without(&g.adj[src], dst);
    g.adj[src] = filtered;
    proof {
        assert(g.adj@.len() == n);
        assert(forall|i: int| 0 <= i < n && i != src as int ==> g.adj@[i] == oldadj[i]);
        assert forall|i: int, k: int|
            0 <= i < n && 0 <= k < g.adj@[i]@.len() implies (#[trigger] g.adj@[i]@[k]) < n by {
            let y = g.adj@[i]@[k];
            assert(g.adj@[i]@.contains(y));
            if i == src as int {
                assert(oldadj[i]@.contains(y));
                let kk = choose|kk: int| 0 <= kk < oldadj[i]@.len() && oldadj[i]@[kk] == y;
            } else {
                let kk = choose|kk: int| 0 <= kk < oldadj[i]@.len() && oldadj[i]@[kk] == y;
            }
        }
        assert forall|s: int, d: int|
            g.has_edge(s, d) <==> adj_has(oldadj, s, d) && !(s == src as int && d
                == dst as int) by {
            if s == src as int && 0 <= d <= usize::MAX {
                assert(g.adj@[s]@.contains(d as usize) <==> oldadj[s]@.contains(d as usize) && d
                    as usize != dst);
            }
        }
    }
}

/// The edge set that `add_formula` installs and `delete_edge` removes for a
/// record `f` stored at `dst`, described one installation step at a time for
/// the vertical range loop: the sources already handled after `r` rows.
pub open spec fn vert_prefix(p1: int, p2: int, cols: int, dst: int, row: int, s: int) -> bool {
    col_of(s, cols) == col_of(p1, cols) && row_of(p1, cols) <= row_of(s, cols) < row && s != dst
}

/// Horizontal analogue of `vert_prefix`: sources handled after `c` columns.
pub open spec fn horiz_prefix(p1: int, p2: int, cols: int, dst: int, col: int, s: int) -> bool {
    row_of(s, cols) == row_of(p1, cols) && col_of(p1, cols) <= col_of(s, cols) < col && s != dst
}

/// Install the record `Formula { op_type, p1, p2 }` at `cell` and add every
/// edge the record implies.  The edge set after the call is exactly the old
/// set plus `{ s -> cell : is_source(f, cols, cell, s) }`; no other cell's
/// record or edges change.  A rectangular range implies no edges.
#[verifier::loop_isolation(false)]
pub fn add_formula(
    graph: &mut Graph,
    cell: usize,
    p1: i32,
    p2: i32,
    op_type: i32,
    formula_array: &mut Vec<Formula>,
    cols: usize,
)
    requires
        old(graph).wf(old(formula_array)@.len() as int),
        cell < old(formula_array)@.len(),
        cols >= 1,
        1 <= op_type <= 4 ==> 0 <= p1 < old(formula_array)@.len(),
        5 <= op_type <= 8 ==> 0 <= p1 < old(formula_array)@.len() && 0 <= p2 < old(
            formula_array,
        )@.len(),
        9 <= op_type <= 13 ==> 0 <= p1 < old(formula_array)@.len() && 0 <= p2 < old(
            formula_array,
        )@.len(),
        op_type == 14 ==> 0 <= p1 < old(formula_array)@.len(),
    ensures
        final(formula_array)@ == old(formula_array)@.update(
            cell as int,
            Formula { op_type, p1, p2 },
        ),
        final(graph).wf(final(formula_array)@.len() as int),
        final(graph).adj@.len() == old(graph).adj@.len(),
        forall|s: int, d: int|
            final(graph).has_edge(s, d) <==> old(graph).has_edge(s, d) || (d == cell as int
                && is_source(Formula { op_type, p1, p2 }, cols as int, cell as int, s)),
{
    let ghost n = formula_array@.len() as int;
    let ghost f = Formula { op_type, p1, p2 };
    formula_array[cell] = Formula { op_type, p1, p2 };
    if 1 <= op_type && op_type <= 4 {
        install_edge(graph, p1 as usize, cell);
    } else if 5 <= op_type && op_type <= 8 {
        install_edge(graph, p1 as usize, cell);
        install_edge(graph, p2 as usize, cell);
        assert forall|s: int, d: int|
            graph.has_edge(s, d) <==> old(graph).has_edge(s, d) || (d == cell as int && is_source(
                f,
                cols as int,
                cell as int,
                s,
            )) by {}
    } else if 9 <= op_type && op_type <= 13 {
        let start = p1 as usize;
        let end = p2 as usize;
        let sr = start / cols;
        let sc = start % cols;
        let er = end / cols;
        let ec = end % cols;
        proof {
            lemma_cell_decompose(start as int, cols as int);
            lemma_cell_decompose(end as int, cols as int);
        }
        if sr != er && sc != ec {
            // rectangular range: record stored, no edges installed
            assert(forall|s: int|
                !is_source(f, cols as int, cell as int, s));
        } else if sc == ec {
            let mut r: usize = sr;
            while r <= er
                invariant
                    graph.wf(n),
                    graph.adj@.len() == n,
                    cell < n,
                    cols >= 1,
                    sr <= r,
                    0 <= p1 < n,
                    0 <= p2 < n,
                    sr == row_of(p1 as int, cols as int),
                    sc == col_of(p1 as int, cols as int),
                    er == row_of(p2 as int, cols as int),
                    ec == col_of(p2 as int, cols as int),
                    sc == ec,
                    r <= er + 1 || r == sr,
                    forall|s: int, d: int|
                        graph.has_edge(s, d) <==> old(graph).has_edge(s, d) || (d == cell as int
                            && vert_prefix(p1 as int, p2 as int, cols as int, cell as int, r as int, s)),
                decreases er + 1 - r,
            {
                proof {
                    lemma_cell_decompose(p2 as int, cols as int);
                    vstd::arithmetic::mul::lemma_mul_inequality(r as int, er as int, cols as int);
                    assert(er * cols + ec == p2);
                }
                let src = r * cols + sc;
                assert(src <= end);
                proof {
                    lemma_cell_compose(r as int, sc as int, cols as int);
                }
                if src != cell {
                    install_edge(graph, src, cell);
                }
                proof {
                    assert forall|s: int, d: int|
                        graph.has_edge(s, d) <==> old(graph).has_edge(s, d) || (d == cell as int
                            && vert_prefix(
                            p1 as int,
                            p2 as int,
                            cols as int,
                            cell as int,
                            r as int + 1,
                            s,
                        )) by {
                        if d == cell as int && vert_prefix(
                            p1 as int,
                            p2 as int,
                            cols as int,
                            cell as int,
                            r as int + 1,
                            s,
                        ) && !vert_prefix(
                            p1 as int,
                            p2 as int,
                            cols as int,
                            cell as int,
                            r as int,
                            s,
                        ) {
                            // the newly covered source is exactly row r
                            assert(row_of(s, cols as int) == r as int);
                            assert(col_of(s, cols as int) == sc as int);
                            lemma_cell_decompose(s, cols as int);
                            assert(s == src as int);
                        }
                    }
                }
                r = r + 1;
            }
            proof {
                assert(forall|s: int|
                    is_source(f, cols as int, cell as int, s) <==> vert_prefix(
                        p1 as int,
                        p2 as int,
                        cols as int,
                        cell as int,
                        r as int,
                        s,
                    ));
            }
        } else {
            let mut c: usize = sc;
            while c <= ec
                invariant
                    graph.wf(n),
                    graph.adj@.len() == n,
                    cell < n,
                    cols >= 1,
                    sc <= c,
                    0 <= p1 < n,
                    0 <= p2 < n,
                    sr == row_of(p1 as int, cols as int),
                    sc == col_of(p1 as int, cols as int),
                    er == row_of(p2 as int, cols as int),
                    ec == col_of(p2 as int, cols as int),
                    sr == er,
                    sc != ec,
                    c <= ec + 1 || c == sc,
                    forall|s: int, d: int|
                        graph.has_edge(s, d) <==> old(graph).has_edge(s, d) || (d == cell as int
                            && horiz_prefix(p1 as int, p2 as int, cols as int, cell as int, c as int, s)),
                decreases ec + 1 - c,
            {
                proof {
                    lemma_cell_decompose(p2 as int, cols as int);
                    assert(er * cols + ec == p2);
                }
                let src = sr * cols + c;
                assert(src <= end);
                proof {
                    lemma_cell_compose(sr as int, c as int, cols as int);
                }
                if src != cell {
                    install_edge(graph, src, cell);
                }
                proof {
                    assert forall|s: int, d: int|
                        graph.has_edge(s, d) <==> old(graph).has_edge(s, d) || (d == cell as int
                            && horiz_prefix(
                            p1 as int,
                            p2 as int,
                            cols as int,
                            cell as int,
                            c as int + 1,
                            s,
                        )) by {
                        if d == cell as int && horiz_prefix(
                            p1 as int,
                            p2 as int,
                            cols as int,
                            cell as int,
                            c as int + 1,
                            s,
                        ) && !horiz_prefix(
                            p1 as int,
                            p2 as int,
                            cols as int,
                            cell as int,
                            c as int,
                            s,
                        ) {
                            assert(row_of(s, cols as int) == sr as int);
                            assert(col_of(s, cols as int) == c as int);
                            lemma_cell_decompose(s, cols as int);
                            assert(s == src as int);
                        }
                    }
                }
                c = c + 1;
            }
            proof {
                assert(forall|s: int|
                    is_source(f, cols as int, cell as int, s) <==> horiz_prefix(
                        p1 as int,
                        p2 as int,
                        cols as int,
                        cell as int,
                        c as int,
                        s,
                    ));
            }
        }
    } else if op_type == 14 {
        if p1 as usize != cell {
            install_edge(graph, p1 as usize, cell);
        }
    }
}

/// Remove every edge implied by the record currently stored at `cell`,
/// leaving the record itself and all other edges in place.
#[verifier::loop_isolation(false)]
pub fn delete_edge(graph: &mut Graph, cell: usize, formula_array: &Vec<Formula>, cols: usize)
    requires
        old(graph).wf(formula_array@.len() as int),
        cell < formula_array@.len(),
        cols >= 1,
        ({
            let f = formula_array@[cell as int];
            &&& (1 <= f.op_type <= 8 ==> 0 <= f.p1 < formula_array@.len())
            &&& (5 <= f.op_type <= 8 ==> 0 <= f.p2 < formula_array@.len())
            &&& (9 <= f.op_type <= 13 ==> 0 <= f.p1 < formula_array@.len() && 0 <= f.p2
                < formula_array@.len())
            &&& (f.op_type == 14 ==> 0 <= f.p1 < formula_array@.len())
        }),
    ensures
        final(graph).wf(formula_array@.len() as int),
        final(graph).adj@.len() == old(graph).adj@.len(),
        forall|s: int, d: int|
            final(graph).has_edge(s, d) <==> old(graph).has_edge(s, d) && !(d == cell as int
                && is_source(formula_array@[cell as int], cols as int, cell as int, s)),
{
    let ghost n = formula_array@.len() as int;
    let f = formula_array[cell];
    let ghost fg = formula_array@[cell as int];
    let op_type = f.op_type;
    let p1 = f.p1;
    let p2 = f.p2;
    if 1 <= op_type && op_type <= 4 {
        remove_edge(graph, p1 as usize, cell);
    } else if 5 <= op_type && op_type <= 8 {
        remove_edge(graph, p1 as usize, cell);
        remove_edge(graph, p2 as usize, cell);
    } else if 9 <= op_type && op_type <= 13 {
        let start = p1 as usize;
        let end = p2 as usize;
        let sr = start / cols;
        let sc = start % cols;
        let er = end / cols;
        let ec = end % cols;
        proof {
            lemma_cell_decompose(start as int, cols as int);
            lemma_cell_decompose(end as int, cols as int);
        }
        if sr != er && sc != ec {
            assert(forall|s: int| !is_source(fg, cols as int, cell as int, s));
        } else if sc == ec {
            let mut r: usize = sr;
            while r <= er
                invariant
                    graph.wf(n),
                    graph.adj@.len() == n,
                    cell < n,
                    cols >= 1,
                    sr <= r,
                    0 <= p1 < n,
                    0 <= p2 < n,
                    sr == row_of(p1 as int, cols as int),
                    sc == col_of(p1 as int, cols as int),
                    er == row_of(p2 as int, cols as int),
                    ec == col_of(p2 as int, cols as int),
                    sc == ec,
                    r <= er + 1 || r == sr,
                    forall|s: int, d: int|
                        graph.has_edge(s, d) <==> old(graph).has_edge(s, d) && !(d == cell as int
                            && vert_prefix(p1 as int, p2 as int, cols as int, cell as int, r as int, s)),
                decreases er + 1 - r,
            {
                proof {
                    lemma_cell_decompose(p2 as int, cols as int);
                    vstd::arithmetic::mul::lemma_mul_inequality(r as int, er as int, cols as int);
                    assert(er * cols + ec == p2);
                }
                let src = r * cols + sc;
                assert(src <= end);
                proof {
                    lemma_cell_compose(r as int, sc as int, cols as int);
                }
                if src != cell {
                    remove_edge(graph, src, cell);
                }
                proof {
                    assert forall|s: int, d: int|
                        graph.has_edge(s, d) <==> old(graph).has_edge(s, d) && !(d == cell as int
                            && vert_prefix(
                            p1 as int,
                            p2 as int,
                            cols as int,
                            cell as int,
                            r as int + 1,
                            s,
                        )) by {
                        if d == cell as int && vert_prefix(
                            p1 as int,
                            p2 as int,
                            cols as int,
                            cell as int,
                            r as int + 1,
                            s,
                        ) && !vert_prefix(
                            p1 as int,
                            p2 as int,
                            cols as int,
                            cell as int,
                            r as int,
                            s,
                        ) {
                            assert(row_of(s, cols as int) == r as int);
                            assert(col_of(s, cols as int) == sc as int);
                            lemma_cell_decompose(s, cols as int);
                            assert(s == src as int);
                        }
                    }
                }
                r = r + 1;
            }
            proof {
                assert(forall|s: int|
                    is_source(fg, cols as int, cell as int, s) <==> vert_prefix(
                        p1 as int,
                        p2 as int,
                        cols as int,
                        cell as int,
                        r as int,
                        s,
                    ));
            }
        } else {
            let mut c: usize = sc;
            while c <= ec
                invariant
                    graph.wf(n),
                    graph.adj@.len() == n,
                    cell < n,
                    cols >= 1,
                    sc <= c,
                    0 <= p1 < n,
                    0 <= p2 < n,
                    sr == row_of(p1 as int, cols as int),
                    sc == col_of(p1 as int, cols as int),
                    er == row_of(p2 as int, cols as int),
                    ec == col_of(p2 as int, cols as int),
                    sr == er,
                    sc != ec,
                    c <= ec + 1 || c == sc,
                    forall|s: int, d: int|
                        graph.has_edge(s, d) <==> old(graph).has_edge(s, d) && !(d == cell as int
                            && horiz_prefix(p1 as int, p2 as int, cols as int, cell as int, c as int, s)),
                decreases ec + 1 - c,
            {
                proof {
                    lemma_cell_decompose(p2 as int, cols as int);
                    assert(er * cols + ec == p2);
                }
                let src = sr * cols + c;
                assert(src <= end);
                proof {
                    lemma_cell_compose(sr as int, c as int, cols as int);
                }
                if src != cell {
                    remove_edge(graph, src, cell);
                }
                proof {
                    assert forall|s: int, d: int|
                        graph.has_edge(s, d) <==> old(graph).has_edge(s, d) && !(d == cell as int
                            && horiz_prefix(
                            p1 as int,
                            p2 as int,
                            cols as int,
                            cell as int,
                            c as int + 1,
                            s,
                        )) by {
                        if d == cell as int && horiz_prefix(
                            p1 as int,
                            p2 as int,
                            cols as int,
                            cell as int,
                            c as int + 1,
                            s,
                        ) && !horiz_prefix(
                            p1 as int,
                            p2 as int,
                            cols as int,
                            cell as int,
                            c as int,
                            s,
                        ) {
                            assert(row_of(s, cols as int) == sr as int);
                            assert(col_of(s, cols as int) == c as int);
                            lemma_cell_decompose(s, cols as int);
                            assert(s == src as int);
                        }
                    }
                }
                c = c + 1;
            }
            proof {
                assert(forall|s: int|
                    is_source(fg, cols as int, cell as int, s) <==> horiz_prefix(
                        p1 as int,
                        p2 as int,
                        cols as int,
                        cell as int,
                        c as int,
                        s,
                    ));
            }
        }
    } else if op_type == 14 {
        if p1 as usize != cell {
            remove_edge(graph, p1 as usize, cell);
        }
    }
}

/// Perform one arithmetic step with two's-complement wrapping.  Division by
/// zero and unknown operators yield the `ERR` sentinel; `i32::MIN / -1`
/// wraps to `i32::MIN`.
pub open spec fn arith_spec(v1: i32, v2: i32, op: char) -> i32 {
    if op == '+' {
        v1.wrapping_add(v2)
    } else if op == '-' {
        v1.wrapping_sub(v2)
    } else if op == '*' {
        v1.wrapping_mul(v2)
    } else if op == '/' {
        if v2 == 0 {
            ERR
        } else {
            div_trunc(v1, v2)
        }
    } else {
        ERR
    }
}

/// Truncating (round-toward-zero) division of `a` by `b`, wrapping on the
/// single overflowing case `i32::MIN / -1`.
pub open spec fn div_trunc(a: i32, b: i32) -> i32 {
    if a == i32::MIN && b == -1 {
        i32::MIN
    } else {
        tdiv(a as int, b as int) as i32
    }
}

/// Truncating division on mathematical integers (`b != 0`).
pub open spec fn tdiv(a: int, b: int) -> int {
    let q = abs_int(a) / abs_int(b);
    if (a < 0) == (b < 0) {
        q
    } else {
        -q
    }
}

/// Absolute value on mathematical integers.
pub open spec fn abs_int(a: int) -> int {
    if a < 0 {
        -a
    } else {
        a
    }
}

/// Truncating division of two `i32` values, safe on every input with
/// `b != 0` (the overflowing case wraps, as the sheet's arithmetic does).
pub(crate) fn div_trunc_exec(a: i32, b: i32) -> (r: i32)
    requires
        b != 0,
    ensures
        r == div_trunc(a, b),
{
    if a == i32::MIN && b == -1 {
        return i32::MIN;
    }
    let ua: u32 = if a < 0 {
        (-(a as i64)) as u32
    } else {
        a as u32
    };
    let ub: u32 = if b < 0 {
        (-(b as i64)) as u32
    } else {
        b as u32
    };
    assert(ua as int == abs_int(a as int));
    assert(ub as int == abs_int(b as int));
    let uq: u32 = ua / ub;
    assert(uq as int == abs_int(a as int) / abs_int(b as int));
    if (a < 0) != (b < 0) {
        proof {
            vstd::arithmetic::div_mod::lemma_div_nonincreasing(ua as int, ub as int);
            assert(uq as int <= ua as int);
        }
        (-(uq as i64)) as i32
    } else {
        proof {
            vstd::arithmetic::div_mod::lemma_div_nonincreasing(ua as int, ub as int);
            assert(uq as int <= ua as int);
            if uq as int > i32::MAX as int {
                // only a == i32::MIN can have magnitude above i32::MAX, and
                // with equal signs its divisor magnitude is at least 2
                assert(a == i32::MIN);
                assert(b <= -2);
                vstd::arithmetic::div_mod::lemma_div_is_ordered_by_denominator(
                    ua as int,
                    2,
                    ub as int,
                );
                assert(ua as int / ub as int <= ua as int / 2);
            }
        }
        uq as i32
    }
}

/// Compute `v1 op v2` with wrapping two's-complement arithmetic.  Division
/// by zero and unrecognized operators return the `ERR` sentinel.
pub fn arith(v1: i32, v2: i32, op: char) -> (r: i32)
    ensures
        r == arith_spec(v1, v2, op),
{
    if op == '+' {
        v1.wrapping_add(v2)
    } else if op == '-' {
        v1.wrapping_sub(v2)
    } else if op == '*' {
        v1.wrapping_mul(v2)
    } else if op == '/' {
        if v2 != 0 {
            div_trunc_exec(v1, v2)
        } else {
            ERR
        }
    } else {
        ERR
    }
}

} // verus!
