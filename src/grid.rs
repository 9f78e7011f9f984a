//! The grid as a graph: where each cell sits in the row-major arena, and
//! which cells are its neighbors.

use vstd::arithmetic::div_mod::{lemma_fundamental_div_mod, lemma_fundamental_div_mod_converse};
use vstd::prelude::*;

use crate::board::{grid_wf, Board, BoardView};
use crate::posn::{adjacent, at, in_range_spec, surrounding_in_range_spec, surrounding_spec, Posn};

verus! {

broadcast use vstd::seq_lib::group_seq_properties;

/// The position of the `i`-th cell of a row-major grid with `cols` columns.
pub open spec fn posn_at(i: int, cols: int) -> Posn {
    at(i / cols, i % cols)
}

/// The row-major index of position `p` on a grid with `cols` columns.
pub open spec fn index_of(p: Posn, cols: int) -> int {
    p.row * cols + p.col
}

/// The row-major indices of the positions `ps`.
pub open spec fn to_indices(ps: Seq<Posn>, cols: int) -> Seq<usize> {
    ps.map_values(|q: Posn| index_of(q, cols) as usize)
}

/// A position on the grid has an index in the arena, and the index leads
/// back to it.
pub proof fn lemma_index_bounds(r: int, c: int, rows: int, cols: int)
    requires
        0 <= r < rows,
        0 <= c < cols,
    ensures
        0 <= r * cols + c < rows * cols,
        (r * cols + c) / cols == r,
        (r * cols + c) % cols == c,
{
    assert(0 <= r * cols + c < rows * cols) by (nonlinear_arith)
        requires
            0 <= r < rows,
            0 <= c < cols,
    ;
    lemma_fundamental_div_mod_converse(r * cols + c, cols, r, c);
}

/// Each index of the arena stands for a position on the grid whose index
/// it is.
pub proof fn lemma_posn_at_bounds(i: int, rows: int, cols: int)
    requires
        0 <= i < rows * cols,
        0 < cols,
        rows <= i32::MAX,
        cols <= i32::MAX,
    ensures
        0 <= i / cols < rows,
        0 <= i % cols < cols,
        in_range_spec(posn_at(i, cols), rows, cols),
        index_of(posn_at(i, cols), cols) == i,
{
    lemma_fundamental_div_mod(i, cols);
    let q = i / cols;
    assert(0 <= q < rows) by (nonlinear_arith)
        requires
            0 <= i < rows * cols,
            0 < cols,
            i == cols * q + (i % cols),
            0 <= i % cols < cols,
    ;
    assert(i == q * cols + i % cols) by (nonlinear_arith)
        requires
            i == cols * q + (i % cols),
    ;
}

/// The positions around `p` are exactly the positions adjacent to it.
pub proof fn lemma_surrounding_adjacent(p: Posn, q: Posn)
    requires
        i32::MIN < p.row < i32::MAX,
        i32::MIN < p.col < i32::MAX,
    ensures
        surrounding_spec(p).contains(q) <==> adjacent(p, q),
{
    let s = surrounding_spec(p);
    if adjacent(p, q) {
        let k = if q.row == p.row - 1 {
            q.col - p.col + 1
        } else if q.row == p.row {
            if q.col < p.col { 3int } else { 4int }
        } else {
            q.col - p.col + 6
        };
        assert(s[k] == q);
    }
    if s.contains(q) {
        let k = choose|k: int| 0 <= k < s.len() && s[k] == q;
        assert(adjacent(p, s[k]));
    }
}

/// Cell `j` is a neighbor of cell `i` exactly when their positions touch.
pub proof fn lemma_neighbor_iff_adjacent(v: BoardView, i: int, j: int)
    requires
        grid_wf(v),
        0 <= i < v.cells.len(),
        0 <= j < v.cells.len(),
    ensures
        v.cells[i].neighbors@.contains(j as usize) <==> adjacent(v.cells[i].posn, v.cells[j].posn),
{
    let rows = v.rows as int;
    let cols = v.cols as int;
    let p = v.cells[i].posn;
    let q = v.cells[j].posn;
    let pred = |x: Posn| in_range_spec(x, rows, cols);
    let s = surrounding_spec(p);
    let f = s.filter(pred);
    lemma_posn_at_bounds(i, rows, cols);
    lemma_posn_at_bounds(j, rows, cols);
    assert(v.cells[i].posn == posn_at(i, cols));
    assert(v.cells[j].posn == posn_at(j, cols));
    let nb = v.cells[i].neighbors@;
    assert(nb == to_indices(f, cols));
    if nb.contains(j as usize) {
        let k = choose|k: int| 0 <= k < nb.len() && nb[k] == j as usize;
        let x = f[k];
        s.lemma_filter_pred(pred, k);
        assert(f.contains(x));
        s.lemma_filter_contains_rev(pred, x);
        lemma_surrounding_adjacent(p, x);
        lemma_index_bounds(x.row as int, x.col as int, rows, cols);
        assert(index_of(x, cols) == j);
        assert(posn_at(j, cols) == x);
    }
    if adjacent(p, q) {
        lemma_surrounding_adjacent(p, q);
        let k = choose|k: int| 0 <= k < s.len() && s[k] == q;
        s.lemma_filter_contains(pred, k);
        let t = choose|t: int| 0 <= t < f.len() && f[t] == q;
        assert(nb[t] == index_of(q, cols) as usize);
    }
}

/// Neighbor symmetry: on every well-formed board, cell `j` is a neighbor of
/// cell `i` exactly when `i` is a neighbor of `j`.
pub proof fn lemma_neighbor_symmetry(b: &Board, i: int, j: int)
    requires
        b.wf(),
        0 <= i < b@.cells.len(),
        0 <= j < b@.cells.len(),
    ensures
        b@.cells[i].neighbors@.contains(j as usize) <==> b@.cells[j].neighbors@.contains(i as usize),
{
    lemma_neighbor_iff_adjacent(b@, i, j);
    lemma_neighbor_iff_adjacent(b@, j, i);
}

/// How many of the positions around `p` lie on the grid, counted one by one.
proof fn lemma_in_range_count(p: Posn, rows: int, cols: int)
    ensures
        surrounding_in_range_spec(p, rows, cols).len() == (if in_range_spec(surrounding_spec(p)[0], rows, cols) { 1int } else { 0 })
            + (if in_range_spec(surrounding_spec(p)[1], rows, cols) { 1int } else { 0 })
            + (if in_range_spec(surrounding_spec(p)[2], rows, cols) { 1int } else { 0 })
            + (if in_range_spec(surrounding_spec(p)[3], rows, cols) { 1int } else { 0 })
            + (if in_range_spec(surrounding_spec(p)[4], rows, cols) { 1int } else { 0 })
            + (if in_range_spec(surrounding_spec(p)[5], rows, cols) { 1int } else { 0 })
            + (if in_range_spec(surrounding_spec(p)[6], rows, cols) { 1int } else { 0 })
            + (if in_range_spec(surrounding_spec(p)[7], rows, cols) { 1int } else { 0 }),
{
    let s = surrounding_spec(p);
    let pred = |x: Posn| in_range_spec(x, rows, cols);
    assert(s.take(0) =~= Seq::<Posn>::empty());
    assert(Seq::<Posn>::empty().filter(pred) =~= Seq::<Posn>::empty()) by {
        reveal(Seq::filter);
    }
    assert(s.take(1) =~= s.take(0).push(s[0]));
    s.take(0).lemma_filter_push(s[0], pred);
    assert(s.take(2) =~= s.take(1).push(s[1]));
    s.take(1).lemma_filter_push(s[1], pred);
    assert(s.take(3) =~= s.take(2).push(s[2]));
    s.take(2).lemma_filter_push(s[2], pred);
    assert(s.take(4) =~= s.take(3).push(s[3]));
    s.take(3).lemma_filter_push(s[3], pred);
    assert(s.take(5) =~= s.take(4).push(s[4]));
    s.take(4).lemma_filter_push(s[4], pred);
    assert(s.take(6) =~= s.take(5).push(s[5]));
    s.take(5).lemma_filter_push(s[5], pred);
    assert(s.take(7) =~= s.take(6).push(s[6]));
    s.take(6).lemma_filter_push(s[6], pred);
    assert(s.take(8) =~= s.take(7).push(s[7]));
    s.take(7).lemma_filter_push(s[7], pred);
    assert(s.take(8) =~= s);
}

/// Neighbor cardinality: on a well-formed board of at least 3 by 3, a corner
/// cell has 3 neighbors, another cell on the edge 5, an inner cell 8.
pub proof fn lemma_neighbor_count(b: &Board, i: int)
    requires
        b.wf(),
        0 <= i < b@.cells.len(),
        b@.rows >= 3,
        b@.cols >= 3,
    ensures
        ({
            let p = b@.cells[i].posn;
            let on_row_edge = p.row == 0 || p.row == b@.rows - 1;
            let on_col_edge = p.col == 0 || p.col == b@.cols - 1;
            let n = b@.cells[i].neighbors@.len();
            &&& on_row_edge && on_col_edge ==> n == 3
            &&& on_row_edge != on_col_edge ==> n == 5
            &&& !on_row_edge && !on_col_edge ==> n == 8
        }),
{
    let v = b@;
    let rows = v.rows as int;
    let cols = v.cols as int;
    lemma_posn_at_bounds(i, rows, cols);
    assert(v.cells[i].posn == posn_at(i, cols));
    let p = v.cells[i].posn;
    lemma_in_range_count(p, rows, cols);
    assert(v.cells[i].neighbors@.len() == surrounding_in_range_spec(p, rows, cols).len());
}

} // verus!
