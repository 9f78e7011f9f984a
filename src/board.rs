//! The board engine: the arena of cells, the classification sets, and the
//! decisions of the play loop.

use rand::seq::IteratorRandom;
use vstd::prelude::*;

use crate::cell::{
    arena_valid, blank_nbrs, clue, exhausted, joins_workset, lemma_minus_contains,
    lemma_select_contains, lemma_select_neighbor, neighbors_valid, observed, remaining, to_flag,
    to_reveal, Cell, NeighborKind,
};
use crate::flood::{
    count_false, flood_covers, flood_done, flood_ready, lemma_count_false_update,
    lemma_flood_complete, prop_ok,
};
use crate::grid::{lemma_index_bounds, lemma_posn_at_bounds, posn_at, to_indices};
use crate::guess::{
    best_risk, count_true, in_base_pool, in_pool, lemma_best_source, lemma_pool_nonempty,
    unconstrained, unconstrained_upto,
};
use crate::info::{blank_token, is_mine_token};
use crate::posn::{in_range_spec, surrounding_in_range_spec, Posn};

verus! {

broadcast use vstd::seq_lib::group_seq_properties;

/// What a board is, as mathematics: its size, the mine count of the game,
/// the arena of cells and the four classification sets, each held as
/// membership by cell index.
pub struct BoardView {
    pub log: bool,
    pub mark_flags: bool,
    pub rows: nat,
    pub cols: nat,
    pub mines: nat,
    pub cells: Seq<Cell>,
    pub blank: Seq<bool>,
    pub bombs: Seq<bool>,
    pub numbers: Seq<bool>,
    pub workset: Seq<bool>,
}

/// The arena is the row-major grid of `rows` by `cols`, each cell wired to
/// the cells around it.
pub open spec fn grid_wf(v: BoardView) -> bool {
    &&& v.rows <= i32::MAX
    &&& v.cols <= i32::MAX
    &&& v.rows * v.cols <= usize::MAX
    &&& v.cells.len() == v.rows * v.cols
    &&& forall|i: int| 0 <= i < v.cells.len() ==> (#[trigger] v.cells[i]).posn == posn_at(i, v.cols as int)
    &&& forall|i: int|
        0 <= i < v.cells.len() ==> (#[trigger] v.cells[i]).neighbors@ == to_indices(
            surrounding_in_range_spec(v.cells[i].posn, v.rows as int, v.cols as int),
            v.cols as int,
        )
    &&& arena_valid(v.cells)
}

/// Cell `i` is in exactly one of `blank`, `bombs` and `numbers`; a workset
/// cell is an opened cell with a positive clue; the sets agree with the
/// cell's own state.
pub open spec fn classified(v: BoardView, i: int) -> bool {
    &&& v.blank[i] as int + v.bombs[i] as int + v.numbers[i] as int == 1
    &&& v.workset[i] ==> v.numbers[i] && clue(v.cells[i]) > 0
    &&& v.blank[i] ==> v.cells[i].state is Blank
    &&& v.bombs[i] <==> v.cells[i].state is Mine
    &&& v.cells[i].state is Number ==> v.numbers[i]
}

/// A well-formed board: the grid is wired and every cell is classified.
pub open spec fn view_wf(v: BoardView) -> bool {
    &&& grid_wf(v)
    &&& v.blank.len() == v.cells.len()
    &&& v.bombs.len() == v.cells.len()
    &&& v.numbers.len() == v.cells.len()
    &&& v.workset.len() == v.cells.len()
    &&& forall|i: int| 0 <= i < v.cells.len() ==> #[trigger] classified(v, i)
}

/// Every cell is blank with the blank token, in the `blank` set alone.
pub open spec fn is_fresh(v: BoardView) -> bool {
    forall|i: int|
        0 <= i < v.cells.len() ==> {
            &&& (#[trigger] v.cells[i]).state is Blank
            &&& v.cells[i].attribute@ == blank_token()
            &&& v.blank[i]
            &&& !v.bombs[i]
            &&& !v.numbers[i]
            &&& !v.workset[i]
        }
}

/// The board keeps its settings, its size and its wiring.
pub open spec fn same_grid(a: BoardView, b: BoardView) -> bool {
    &&& a.log == b.log
    &&& a.mark_flags == b.mark_flags
    &&& a.rows == b.rows
    &&& a.cols == b.cols
    &&& a.mines == b.mines
    &&& a.cells.len() == b.cells.len()
    &&& forall|i: int|
        0 <= i < a.cells.len() ==> (#[trigger] a.cells[i]).posn == b.cells[i].posn
            && a.cells[i].neighbors@ == b.cells[i].neighbors@
}

/// Cell `x` is flagged by some workset cell.
pub open spec fn board_flags(v: BoardView, x: usize) -> bool {
    exists|i: int| 0 <= i < v.cells.len() && v.workset[i] && #[trigger] to_flag(v.cells[i], v.cells, x)
}

/// Cell `x` is proved safe by some workset cell.
pub open spec fn board_reveals(v: BoardView, x: usize) -> bool {
    exists|i: int| 0 <= i < v.cells.len() && v.workset[i] && #[trigger] to_reveal(v.cells[i], v.cells, x)
}

/// The cells of `to_flag` are flagged and leave every set but `bombs`; the
/// others are as they were.
pub open spec fn flagged_from(a: BoardView, b: BoardView, to_flag: Seq<usize>) -> bool {
    &&& same_grid(a, b)
    &&& forall|i: int|
        0 <= i < a.cells.len() ==> if to_flag.contains(i as usize) {
            &&& (#[trigger] b.cells[i]).state is Mine
            &&& b.cells[i].attribute@ == a.cells[i].attribute@
            &&& !b.blank[i]
            &&& b.bombs[i]
            &&& !b.numbers[i]
            &&& !b.workset[i]
        } else {
            &&& b.cells[i].state == a.cells[i].state
            &&& b.cells[i].attribute@ == a.cells[i].attribute@
            &&& b.blank[i] == a.blank[i]
            &&& b.bombs[i] == a.bombs[i]
            &&& b.numbers[i] == a.numbers[i]
            &&& b.workset[i] == a.workset[i]
        }
}

/// Only the sets may differ between `a` and `b`.
pub open spec fn same_cells(a: BoardView, b: BoardView) -> bool {
    &&& same_grid(a, b)
    &&& forall|i: int|
        0 <= i < a.cells.len() ==> (#[trigger] b.cells[i]).state == a.cells[i].state
            && b.cells[i].attribute@ == a.cells[i].attribute@
}

pub proof fn lemma_grid_frame(a: BoardView, b: BoardView)
    requires
        grid_wf(a),
        same_grid(a, b),
    ensures
        grid_wf(b),
{
    assert forall|i: int| 0 <= i < b.cells.len() implies neighbors_valid(#[trigger] b.cells[i], b.cells) by {
        assert(neighbors_valid(a.cells[i], a.cells));
    }
    assert forall|i: int| 0 <= i < b.cells.len() implies (#[trigger] b.cells[i]).posn == posn_at(i, b.cols as int)
        && b.cells[i].neighbors@ == to_indices(
            surrounding_in_range_spec(b.cells[i].posn, b.rows as int, b.cols as int),
            b.cols as int,
        ) by {
        assert(a.cells[i].posn == posn_at(i, a.cols as int));
        assert(a.cells[i].posn == b.cells[i].posn);
    }
}

/// A to-flag or to-reveal result of a cell of the arena is a blank cell of
/// the arena.
pub proof fn lemma_deduced_blank(cells: Seq<Cell>, c: Cell, x: usize)
    requires
        arena_valid(cells),
        neighbors_valid(c, cells),
        to_flag(c, cells, x) || to_reveal(c, cells, x),
    ensures
        x < cells.len(),
        cells[x as int].state is Blank,
{
    let nz = crate::cell::clue_nbrs(c, cells);
    if blank_nbrs(c, cells).contains(x) {
        lemma_select_contains(c.neighbors@, cells, NeighborKind::Blank, x);
        let k = choose|k: int| 0 <= k < c.neighbors@.len() && c.neighbors@[k] == x;
    } else {
        let t = if to_flag(c, cells, x) && !crate::cell::exact_flag_applies(c, cells) {
            choose|t: int| 0 <= t < nz.len() && #[trigger] crate::cell::flagged_via(c, cells, t, x)
        } else {
            choose|t: int| 0 <= t < nz.len() && #[trigger] crate::cell::revealed_via(c, cells, t, x)
        };
        lemma_select_neighbor(c, cells, NeighborKind::Clue, t);
        let m = cells[nz[t] as int];
        assert(neighbors_valid(m, cells));
        lemma_minus_contains(blank_nbrs(m, cells), blank_nbrs(c, cells), x);
        lemma_select_contains(m.neighbors@, cells, NeighborKind::Blank, x);
        let k = choose|k: int| 0 <= k < m.neighbors@.len() && m.neighbors@[k] == x;
    }
}

/// `n` times `false`.
fn falses(n: usize) -> (r: Vec<bool>)
    ensures
        r@.len() == n,
        forall|i: int| 0 <= i < n ==> !#[trigger] r@[i],
{
    let mut v: Vec<bool> = Vec::new();
    let mut i: usize = 0;
    while i < n
        invariant
            i <= n,
            v@.len() == i,
            forall|k: int| 0 <= k < i ==> !#[trigger] v@[k],
        decreases n - i,
    {
        v.push(false);
        i = i + 1;
    }
    v
}

/// Sets the mark of every element of `xs`.
fn mark_all(marks: &mut Vec<bool>, xs: &Vec<usize>)
    requires
        forall|k: int| 0 <= k < xs@.len() ==> #[trigger] xs@[k] < old(marks)@.len(),
    ensures
        final(marks)@.len() == old(marks)@.len(),
        forall|i: usize|
            i < old(marks)@.len() ==> #[trigger] final(marks)@[i as int] == (old(marks)@[i as int]
                || xs@.contains(i)),
{
    let mut k: usize = 0;
    while k < xs.len()
        invariant
            k <= xs@.len(),
            marks@.len() == old(marks)@.len(),
            forall|k: int| 0 <= k < xs@.len() ==> #[trigger] xs@[k] < old(marks)@.len(),
            forall|i: usize|
                i < old(marks)@.len() ==> #[trigger] marks@[i as int] == (old(marks)@[i as int]
                    || xs@.take(k as int).contains(i)),
        decreases xs@.len() - k,
    {
        let x = xs[k];
        let ghost before = marks@;
        marks.set(x, true);
        proof {
            assert(xs@.take(k as int + 1) =~= xs@.take(k as int).push(x));
            assert forall|i: usize| i < old(marks)@.len() implies #[trigger] marks@[i as int] == (
            old(marks)@[i as int] || xs@.take(k as int + 1).contains(i)) by {
                if i != x {
                    assert(marks@[i as int] == before[i as int]);
                }
            }
        }
        k = k + 1;
    }
    assert(xs@.take(k as int) =~= xs@);
}

/// The indices whose mark is set, in increasing order.
pub fn collect_marked(marks: &Vec<bool>) -> (r: Vec<usize>)
    ensures
        r@.no_duplicates(),
        forall|x: usize| r@.contains(x) <==> x < marks@.len() && marks@[x as int],
{
    let mut out: Vec<usize> = Vec::new();
    let mut i: usize = 0;
    while i < marks.len()
        invariant
            i <= marks@.len(),
            out@.no_duplicates(),
            forall|t: int| 0 <= t < out@.len() ==> #[trigger] out@[t] < i,
            forall|x: usize| out@.contains(x) <==> x < i && marks@[x as int],
        decreases marks@.len() - i,
    {
        let ghost before = out@;
        if marks[i] {
            out.push(i);
            proof {
                assert forall|a: int, b: int| 0 <= a < b < out@.len() implies out@[a] != out@[b] by {
                    if b == out@.len() - 1 {
                        assert(before[a] < i);
                    } else {
                        assert(before[a] != before[b]);
                    }
                }
            }
        }
        i = i + 1;
    }
    out
}


/// What observing a cell during propagation came to.
#[derive(Clone, Copy, Debug, PartialEq, Eq, Structural)]
pub enum Observed {
    /// The cell stays blank.
    Unchanged,
    /// The cell opened with a clue and moved to `numbers`.
    Opened,
    /// The cell's mine went off; the board has been reset.
    Boom,
}

/// The state of one flood-fill: the cells still to look at and those
/// already looked at.
pub struct Propagation {
    frontier: Vec<usize>,
    visited: Vec<bool>,
}

pub struct PropagationView {
    pub frontier: Seq<usize>,
    pub visited: Seq<bool>,
}

impl View for Propagation {
    type V = PropagationView;

    closed spec fn view(&self) -> PropagationView {
        PropagationView { frontier: self.frontier@, visited: self.visited@ }
    }
}

/// The guess with the lowest risk: a probability `numer / denom` and the
/// cells that carry it.
pub struct Guess {
    pub numer: i128,
    pub denom: i128,
    pub pool: Vec<usize>,
}

/// What the engine asks the game to do next.
pub enum Move {
    /// No blank cell is left: the game is won.
    Done,
    /// These cells were flagged; mark them on the game.
    Flag(Vec<usize>),
    /// Click these cells, then propagate from them.
    Reveal(Vec<usize>),
    /// These were the last blank cells and now count as opened; click them.
    RevealAll(Vec<usize>),
    /// Nothing is certain: click this cell, then propagate from it.
    Guess(usize),
}

/// Relies on rand's `IteratorRandom::choose` over a slice iterator: it
/// returns one of the items, chosen at random, and `None` only when there
/// is none.
#[verifier::external_body]
fn choose_from(pool: &Vec<usize>) -> (r: Option<usize>)
    ensures
        r is None <==> pool@.len() == 0,
        r matches Some(x) ==> pool@.contains(x),
{
    pool.iter().choose(&mut rand::thread_rng()).copied()
}


/// `b` is `a` with every exhausted cell taken out of the workset.
pub open spec fn pruned(a: BoardView, b: BoardView) -> bool {
    &&& same_cells(a, b)
    &&& b.blank == a.blank
    &&& b.bombs == a.bombs
    &&& b.numbers == a.numbers
    &&& b.workset.len() == a.workset.len()
    &&& forall|i: int|
        0 <= i < a.cells.len() ==> #[trigger] b.workset[i] == (a.workset[i] && !exhausted(a.cells[i], a.cells))
}

pub open spec fn has_blank_spec(v: BoardView) -> bool {
    exists|i: int| 0 <= i < v.cells.len() && #[trigger] v.blank[i]
}

/// The cells whose membership is set.
pub open spec fn members(s: Seq<bool>) -> Set<int> {
    Set::new(|i: int| 0 <= i < s.len() && s[i])
}

/// Classification partition: on every well-formed board, `blank`, `bombs`
/// and `numbers` are pairwise disjoint and together hold every cell, and the
/// workset lies within `numbers`.
pub proof fn lemma_classification_partition(b: &Board)
    requires
        b.wf(),
    ensures
        members(b@.blank) + members(b@.bombs) + members(b@.numbers) == Set::new(
            |i: int| 0 <= i < b@.cells.len(),
        ),
        members(b@.blank).disjoint(members(b@.bombs)),
        members(b@.blank).disjoint(members(b@.numbers)),
        members(b@.bombs).disjoint(members(b@.numbers)),
        members(b@.workset).subset_of(members(b@.numbers)),
{
    let v = b@;
    assert forall|i: int| 0 <= i < v.cells.len() implies #[trigger] classified(v, i) by {}
    assert(members(v.blank) + members(v.bombs) + members(v.numbers) =~= Set::new(
        |i: int| 0 <= i < v.cells.len(),
    )) by {
        assert forall|i: int| 0 <= i < v.cells.len() implies (v.blank[i] || v.bombs[i] || v.numbers[i]) by {
            assert(classified(v, i));
        }
    }
    assert forall|i: int| members(v.blank).contains(i) implies !members(v.bombs).contains(i) by {
        assert(classified(v, i));
    }
    assert forall|i: int| members(v.blank).contains(i) implies !members(v.numbers).contains(i) by {
        assert(classified(v, i));
    }
    assert forall|i: int| members(v.bombs).contains(i) implies !members(v.numbers).contains(i) by {
        assert(classified(v, i));
    }
    assert forall|i: int| members(v.workset).contains(i) implies members(v.numbers).contains(i) by {
        assert(classified(v, i));
    }
}

/// A board of `rows` by `cols` cells and the classification of each.
pub struct Board {
    pub log: bool,
    pub mark_flags: bool,
    pub rows: usize,
    pub cols: usize,
    mines: usize,
    matrix: Vec<Cell>,
    blank: Vec<bool>,
    bombs: Vec<bool>,
    numbers: Vec<bool>,
    workset: Vec<bool>,
}

impl View for Board {
    type V = BoardView;

    closed spec fn view(&self) -> BoardView {
        BoardView {
            log: self.log,
            mark_flags: self.mark_flags,
            rows: self.rows as nat,
            cols: self.cols as nat,
            mines: self.mines as nat,
            cells: self.matrix@,
            blank: self.blank@,
            bombs: self.bombs@,
            numbers: self.numbers@,
            workset: self.workset@,
        }
    }
}

/// The row-major indices of the in-range positions `ps`.
fn indices_of(ps: &Vec<Posn>, rows: usize, cols: usize) -> (r: Vec<usize>)
    requires
        rows * cols <= usize::MAX,
        forall|k: int| 0 <= k < ps@.len() ==> in_range_spec(#[trigger] ps@[k], rows as int, cols as int),
    ensures
        r@ == to_indices(ps@, cols as int),
        forall|k: int| 0 <= k < r@.len() ==> #[trigger] r@[k] < rows * cols,
{
    let mut out: Vec<usize> = Vec::new();
    let mut k: usize = 0;
    while k < ps.len()
        invariant
            k <= ps@.len(),
            rows * cols <= usize::MAX,
            forall|k: int| 0 <= k < ps@.len() ==> in_range_spec(#[trigger] ps@[k], rows as int, cols as int),
            out@ == to_indices(ps@.take(k as int), cols as int),
            forall|t: int| 0 <= t < out@.len() ==> #[trigger] out@[t] < rows * cols,
        decreases ps@.len() - k,
    {
        let q = ps[k];
        proof {
            lemma_index_bounds(q.row as int, q.col as int, rows as int, cols as int);
        }
        out.push((q.row as usize) * cols + (q.col as usize));
        assert(to_indices(ps@.take(k as int + 1), cols as int) =~= out@);
        k = k + 1;
    }
    assert(ps@.take(k as int) =~= ps@);
    out
}

impl Board {
    pub open spec fn wf(&self) -> bool {
        view_wf(self@)
    }

    /// A fresh board of `rows` by `cols` cells for a game with `mines` mines.
    pub fn new(log: bool, mark_flags: bool, rows: usize, cols: usize, mines: usize) -> (r: Board)
        requires
            rows <= i32::MAX,
            cols <= i32::MAX,
            rows * cols <= usize::MAX,
        ensures
            r.wf(),
            is_fresh(r@),
            r@.rows == rows,
            r@.cols == cols,
            r@.mines == mines,
            r@.log == log,
            r@.mark_flags == mark_flags,
    {
        let mut board = Board {
            log,
            mark_flags,
            rows,
            cols,
            mines,
            matrix: Vec::new(),
            blank: Vec::new(),
            bombs: Vec::new(),
            numbers: Vec::new(),
            workset: Vec::new(),
        };
        board.init_fields_and_cells();
        board
    }

    /// Builds the arena: every cell blank, wired to the cells around it, and
    /// in the `blank` set.
    pub fn init_fields_and_cells(&mut self)
        requires
            old(self)@.rows <= i32::MAX,
            old(self)@.cols <= i32::MAX,
            old(self)@.rows * old(self)@.cols <= usize::MAX,
            old(self)@.cells.len() == 0,
            old(self)@.blank.len() == 0,
            old(self)@.bombs.len() == 0,
            old(self)@.numbers.len() == 0,
            old(self)@.workset.len() == 0,
        ensures
            final(self).wf(),
            is_fresh(final(self)@),
            final(self)@.rows == old(self)@.rows,
            final(self)@.cols == old(self)@.cols,
            final(self)@.mines == old(self)@.mines,
            final(self)@.log == old(self)@.log,
            final(self)@.mark_flags == old(self)@.mark_flags,
    {
        let n = self.rows * self.cols;
        let mut i: usize = 0;
        while i < n
            invariant
                n == self.rows * self.cols,
                self.rows == old(self).rows,
                self.cols == old(self).cols,
                self.mines == old(self).mines,
                self.log == old(self).log,
                self.mark_flags == old(self).mark_flags,
                self.rows <= i32::MAX,
                self.cols <= i32::MAX,
                self.rows * self.cols <= usize::MAX,
                i <= n,
                self.matrix@.len() == i,
                self.blank@.len() == i,
                self.bombs@.len() == i,
                self.numbers@.len() == i,
                self.workset@.len() == i,
                forall|k: int| 0 <= k < i ==> (#[trigger] self.matrix@[k]).posn == posn_at(k, self.cols as int),
                forall|k: int|
                    0 <= k < i ==> (#[trigger] self.matrix@[k]).neighbors@ == to_indices(
                        surrounding_in_range_spec(self.matrix@[k].posn, self.rows as int, self.cols as int),
                        self.cols as int,
                    ),
                forall|k: int|
                    0 <= k < i ==> (#[trigger] self.matrix@[k]).neighbors@.len() <= 8 && forall|t: int|
                        0 <= t < self.matrix@[k].neighbors@.len() ==> #[trigger] self.matrix@[k].neighbors@[t] < n,
                forall|k: int|
                    0 <= k < i ==> {
                        &&& (#[trigger] self.matrix@[k]).state is Blank
                        &&& self.matrix@[k].attribute@ == blank_token()
                        &&& self.blank@[k]
                        &&& !self.bombs@[k]
                        &&& !self.numbers@[k]
                        &&& !self.workset@[k]
                    },
            decreases n - i,
        {
            proof {
                lemma_posn_at_bounds(i as int, self.rows as int, self.cols as int);
            }
            let row = i / self.cols;
            let col = i % self.cols;
            let mut cell = Cell::new(row as i32, col as i32);
            let ps = cell.neighbors_posns(self.rows as i32, self.cols as i32);
            proof {
                let f = |q: Posn| in_range_spec(q, self.rows as int, self.cols as int);
                assert forall|k: int| 0 <= k < ps@.len() implies in_range_spec(
                    #[trigger] ps@[k],
                    self.rows as int,
                    self.cols as int,
                ) by {
                    crate::posn::surrounding_spec(cell.posn).lemma_filter_pred(f, k);
                }
                crate::posn::surrounding_spec(cell.posn).lemma_filter_len(f);
            }
            let nb = indices_of(&ps, self.rows, self.cols);
            cell.assign_neighbors(nb);
            self.matrix.push(cell);
            self.blank.push(true);
            self.bombs.push(false);
            self.numbers.push(false);
            self.workset.push(false);
            i = i + 1;
        }
        proof {
            let v = self@;
            assert forall|k: int| 0 <= k < v.cells.len() implies #[trigger] classified(v, k) by {
                assert(v.cells[k] == self.matrix@[k]);
            }
            assert forall|k: int| 0 <= k < v.cells.len() implies crate::cell::neighbors_valid(
                #[trigger] v.cells[k],
                v.cells,
            ) by {
                assert(v.cells[k] == self.matrix@[k]);
            }
        }
    }

    /// Back to a fresh game: every cell blank again, every set rebuilt with
    /// all cells in `blank`. The wiring stays.
    pub fn reset_game(&mut self)
        requires
            old(self).wf(),
        ensures
            final(self).wf(),
            is_fresh(final(self)@),
            same_grid(old(self)@, final(self)@),
    {
        let n = self.matrix.len();
        let mut i: usize = 0;
        while i < n
            invariant
                n == self.matrix@.len(),
                i <= n,
                same_grid(old(self)@, self@),
                self.blank@.len() == n,
                self.bombs@.len() == n,
                self.numbers@.len() == n,
                self.workset@.len() == n,
                forall|k: int|
                    0 <= k < i ==> {
                        &&& (#[trigger] self.matrix@[k]).state is Blank
                        &&& self.matrix@[k].attribute@ == blank_token()
                        &&& self.blank@[k]
                        &&& !self.bombs@[k]
                        &&& !self.numbers@[k]
                        &&& !self.workset@[k]
                    },
            decreases n - i,
        {
            self.matrix[i].reset();
            self.blank.set(i, true);
            self.bombs.set(i, false);
            self.numbers.set(i, false);
            self.workset.set(i, false);
            i = i + 1;
        }
        proof {
            lemma_grid_frame(old(self)@, self@);
            let v = self@;
            assert forall|k: int| 0 <= k < v.cells.len() implies #[trigger] classified(v, k) by {
                assert(v.cells[k] == self.matrix@[k]);
            }
        }
    }

    /// The cells that some workset cell proves to be mines, each once.
    pub fn get_cells_to_flag(&self) -> (r: Vec<usize>)
        requires
            self.wf(),
        ensures
            r@.no_duplicates(),
            forall|x: usize| r@.contains(x) <==> board_flags(self@, x),
            forall|k: int|
                0 <= k < r@.len() ==> #[trigger] r@[k] < self@.cells.len() && self@.cells[r@[k] as int].state is Blank,
    {
        let n = self.matrix.len();
        let mut marks = falses(n);
        let mut i: usize = 0;
        while i < n
            invariant
                self.wf(),
                n == self@.cells.len(),
                i <= n,
                marks@.len() == n,
                forall|x: usize|
                    x < n ==> (marks@[x as int] <==> exists|k: int|
                        0 <= k < i && self@.workset[k] && #[trigger] to_flag(self@.cells[k], self@.cells, x)),
            decreases n - i,
        {
            if self.workset[i] {
                proof {
                    assert(classified(self@, i as int));
                    assert(neighbors_valid(self@.cells[i as int], self@.cells));
                }
                let nb = self.matrix[i].get_neighbors_to_flag(&self.matrix);
                proof {
                    assert forall|k: int| 0 <= k < nb@.len() implies #[trigger] nb@[k] < marks@.len() by {
                        assert(nb@.contains(nb@[k]));
                        lemma_deduced_blank(self@.cells, self@.cells[i as int], nb@[k]);
                    }
                }
                mark_all(&mut marks, &nb);
            }
            proof {
                assert forall|x: usize| x < n implies (marks@[x as int] <==> exists|k: int|
                    0 <= k < i + 1 && self@.workset[k] && #[trigger] to_flag(self@.cells[k], self@.cells, x)) by {
                    if self@.workset[i as int] && to_flag(self@.cells[i as int], self@.cells, x) {
                        assert(0 <= i < i + 1);
                    }
                }
            }
            i = i + 1;
        }
        let r = collect_marked(&marks);
        proof {
            assert forall|x: usize| r@.contains(x) <==> board_flags(self@, x) by {
                if board_flags(self@, x) {
                    let k = choose|k: int|
                        0 <= k < self@.cells.len() && self@.workset[k] && #[trigger] to_flag(self@.cells[k], self@.cells, x);
                    assert(classified(self@, k));
                    lemma_deduced_blank(self@.cells, self@.cells[k], x);
                }
            }
            assert forall|k: int|
                0 <= k < r@.len() implies #[trigger] r@[k] < self@.cells.len() && self@.cells[r@[k] as int].state is Blank by {
                assert(r@.contains(r@[k]));
                let j = choose|j: int|
                    0 <= j < self@.cells.len() && self@.workset[j] && #[trigger] to_flag(self@.cells[j], self@.cells, r@[k]);
                assert(classified(self@, j));
                lemma_deduced_blank(self@.cells, self@.cells[j], r@[k]);
            }
        }
        r
    }

    /// Flags each cell of `to_flag`: from `blank` to `bombs`.
    pub fn flag_all(&mut self, to_flag: &Vec<usize>)
        requires
            old(self).wf(),
            to_flag@.no_duplicates(),
            forall|k: int|
                0 <= k < to_flag@.len() ==> #[trigger] to_flag@[k] < old(self)@.cells.len()
                    && old(self)@.cells[to_flag@[k] as int].state is Blank,
        ensures
            final(self).wf(),
            flagged_from(old(self)@, final(self)@, to_flag@),
    {
        let mut k: usize = 0;
        while k < to_flag.len()
            invariant
                k <= to_flag@.len(),
                to_flag@.no_duplicates(),
                forall|k: int|
                    0 <= k < to_flag@.len() ==> #[trigger] to_flag@[k] < old(self)@.cells.len()
                        && old(self)@.cells[to_flag@[k] as int].state is Blank,
                old(self).wf(),
                self.blank@.len() == old(self)@.cells.len(),
                self.bombs@.len() == old(self)@.cells.len(),
                self.numbers@.len() == old(self)@.cells.len(),
                self.workset@.len() == old(self)@.cells.len(),
                flagged_from(old(self)@, self@, to_flag@.take(k as int)),
            decreases to_flag@.len() - k,
        {
            let x = to_flag[k];
            proof {
                assert(!to_flag@.take(k as int).contains(x)) by {
                    if to_flag@.take(k as int).contains(x) {
                        let t = choose|t: int| 0 <= t < k && to_flag@.take(k as int)[t] == x;
                        assert(to_flag@[t] == to_flag@[k as int]);
                    }
                }
                assert(self@.cells[x as int] == self.matrix@[x as int]);
            }
            self.matrix[x].flag();
            self.blank.set(x, false);
            self.bombs.set(x, true);
            self.numbers.set(x, false);
            self.workset.set(x, false);
            proof {
                assert(to_flag@.take(k as int + 1) =~= to_flag@.take(k as int).push(x));
                let a = old(self)@;
                let b = self@;
                assert forall|i: int| 0 <= i < a.cells.len() implies (#[trigger] a.cells[i]).posn == b.cells[i].posn
                    && a.cells[i].neighbors@ == b.cells[i].neighbors@ by {
                    assert(b.cells[i] == self.matrix@[i]);
                }
            }
            k = k + 1;
        }
        proof {
            assert(to_flag@.take(k as int) =~= to_flag@);
            let a = old(self)@;
            let b = self@;
            lemma_grid_frame(a, b);
            assert forall|i: int| 0 <= i < b.cells.len() implies #[trigger] classified(b, i) by {
                assert(classified(a, i));
            }
        }
    }

    /// The cells that some workset cell proves safe, each once. Workset cells
    /// that are exhausted leave the workset.
    pub fn get_cells_to_reveal(&mut self) -> (r: Vec<usize>)
        requires
            old(self).wf(),
        ensures
            final(self).wf(),
            same_cells(old(self)@, final(self)@),
            r@.no_duplicates(),
            forall|x: usize| r@.contains(x) <==> board_reveals(old(self)@, x),
            forall|k: int|
                0 <= k < r@.len() ==> #[trigger] r@[k] < old(self)@.cells.len() && old(self)@.cells[r@[k] as int].state is Blank,
            final(self)@.blank == old(self)@.blank,
            final(self)@.bombs == old(self)@.bombs,
            final(self)@.numbers == old(self)@.numbers,
            forall|i: int|
                0 <= i < old(self)@.cells.len() ==> #[trigger] final(self)@.workset[i] == (old(self)@.workset[i]
                    && !exhausted(old(self)@.cells[i], old(self)@.cells)),
    {
        let n = self.matrix.len();
        let mut marks = falses(n);
        let mut i: usize = 0;
        while i < n
            invariant
                old(self).wf(),
                n == old(self)@.cells.len(),
                i <= n,
                marks@.len() == n,
                self.matrix@ == old(self)@.cells,
                self.log == old(self).log,
                self.mark_flags == old(self).mark_flags,
                self.rows == old(self).rows,
                self.cols == old(self).cols,
                self.mines == old(self).mines,
                self.blank@ == old(self)@.blank,
                self.bombs@ == old(self)@.bombs,
                self.numbers@ == old(self)@.numbers,
                self.workset@.len() == n,
                forall|k: int|
                    0 <= k < n ==> #[trigger] self.workset@[k] == if k < i {
                        old(self)@.workset[k] && !exhausted(old(self)@.cells[k], old(self)@.cells)
                    } else {
                        old(self)@.workset[k]
                    },
                forall|x: usize|
                    x < n ==> (marks@[x as int] <==> exists|k: int|
                        0 <= k < i && old(self)@.workset[k] && #[trigger] to_reveal(
                            old(self)@.cells[k],
                            old(self)@.cells,
                            x,
                        )),
            decreases n - i,
        {
            let ghost v = old(self)@;
            if self.workset[i] {
                proof {
                    assert(classified(v, i as int));
                    assert(neighbors_valid(v.cells[i as int], v.cells));
                }
                let (done, nb) = self.matrix[i].get_neighbors_to_reveal(&self.matrix);
                proof {
                    assert forall|k: int| 0 <= k < nb@.len() implies #[trigger] nb@[k] < marks@.len() by {
                        assert(nb@.contains(nb@[k]));
                        lemma_deduced_blank(v.cells, v.cells[i as int], nb@[k]);
                    }
                }
                if done {
                    self.workset.set(i, false);
                }
                mark_all(&mut marks, &nb);
            }
            proof {
                assert forall|x: usize| x < n implies (marks@[x as int] <==> exists|k: int|
                    0 <= k < i + 1 && v.workset[k] && #[trigger] to_reveal(v.cells[k], v.cells, x)) by {
                    if v.workset[i as int] && to_reveal(v.cells[i as int], v.cells, x) {
                        assert(0 <= i < i + 1);
                    }
                }
            }
            i = i + 1;
        }
        let r = collect_marked(&marks);
        proof {
            let v = old(self)@;
            assert forall|x: usize| r@.contains(x) <==> board_reveals(v, x) by {
                if board_reveals(v, x) {
                    let k = choose|k: int|
                        0 <= k < v.cells.len() && v.workset[k] && #[trigger] to_reveal(v.cells[k], v.cells, x);
                    assert(classified(v, k));
                    lemma_deduced_blank(v.cells, v.cells[k], x);
                }
            }
            assert forall|k: int|
                0 <= k < r@.len() implies #[trigger] r@[k] < v.cells.len() && v.cells[r@[k] as int].state is Blank by {
                assert(r@.contains(r@[k]));
                let j = choose|j: int|
                    0 <= j < v.cells.len() && v.workset[j] && #[trigger] to_reveal(v.cells[j], v.cells, r@[k]);
                assert(classified(v, j));
                lemma_deduced_blank(v.cells, v.cells[j], r@[k]);
            }
            let b = self@;
            assert forall|k: int| 0 <= k < b.cells.len() implies #[trigger] classified(b, k) by {
                assert(classified(v, k));
            }
        }
        r
    }

    /// When `to_reveal` is exactly the `blank` set, moves all of it to
    /// `numbers` at once and returns true: the game is over and the cells
    /// need only be clicked. Otherwise changes nothing and returns false.
    pub fn reveal_all(&mut self, to_reveal: &Vec<usize>) -> (r: bool)
        requires
            old(self).wf(),
            forall|k: int| 0 <= k < to_reveal@.len() ==> #[trigger] to_reveal@[k] < old(self)@.cells.len(),
        ensures
            final(self).wf(),
            same_cells(old(self)@, final(self)@),
            r == (forall|i: int|
                0 <= i < old(self)@.cells.len() ==> (to_reveal@.contains(i as usize)
                    <==> #[trigger] old(self)@.blank[i])),
            final(self)@.bombs == old(self)@.bombs,
            final(self)@.workset == old(self)@.workset,
            r ==> forall|i: int|
                0 <= i < old(self)@.cells.len() ==> !(#[trigger] final(self)@.blank[i])
                    && final(self)@.numbers[i] == (old(self)@.numbers[i] || old(self)@.blank[i]),
            !r ==> final(self)@ == old(self)@,
    {
        let n = self.matrix.len();
        let mut marks = falses(n);
        mark_all(&mut marks, to_reveal);
        let mut same = true;
        let mut i: usize = 0;
        while i < n
            invariant
                i <= n,
                n == self@.cells.len(),
                self.wf(),
                marks@.len() == n,
                forall|j: int| 0 <= j < n ==> #[trigger] marks@[j] == to_reveal@.contains(j as usize),
                same == forall|j: int| 0 <= j < i ==> (#[trigger] marks@[j] == self@.blank[j]),
            decreases n - i,
        {
            if marks[i] != self.blank[i] {
                same = false;
            }
            i = i + 1;
        }
        if !same {
            proof {
                let j = choose|j: int| 0 <= j < n && marks@[j] != self@.blank[j];
                assert(to_reveal@.contains(j as usize) != old(self)@.blank[j]);
            }
            return false;
        }
        assert forall|j: int| 0 <= j < n implies (to_reveal@.contains(j as usize)
            <==> #[trigger] old(self)@.blank[j]) by {
            assert(marks@[j] == self@.blank[j]);
        }
        let mut i: usize = 0;
        while i < n
            invariant
                i <= n,
                n == old(self)@.cells.len(),
                old(self).wf(),
                self.matrix@ == old(self)@.cells,
                self.log == old(self).log,
                self.mark_flags == old(self).mark_flags,
                self.rows == old(self).rows,
                self.cols == old(self).cols,
                self.mines == old(self).mines,
                self.bombs@ == old(self)@.bombs,
                self.workset@ == old(self)@.workset,
                self.blank@.len() == n,
                self.numbers@.len() == n,
                forall|j: int|
                    0 <= j < n ==> #[trigger] self.blank@[j] == (old(self)@.blank[j] && j >= i),
                forall|j: int|
                    0 <= j < n ==> #[trigger] self.numbers@[j] == (old(self)@.numbers[j] || (
                    old(self)@.blank[j] && j < i)),
            decreases n - i,
        {
            if self.blank[i] {
                self.blank.set(i, false);
                self.numbers.set(i, true);
            }
            i = i + 1;
        }
        proof {
            let v = old(self)@;
            let b = self@;
            assert forall|k: int| 0 <= k < b.cells.len() implies #[trigger] classified(b, k) by {
                assert(classified(v, k));
            }
        }
        true
    }

    /// Starts a flood-fill from `seeds`.
    pub fn start_update(&self, seeds: Vec<usize>) -> (r: Propagation)
        requires
            self.wf(),
            forall|k: int|
                0 <= k < seeds@.len() ==> #[trigger] seeds@[k] < self@.cells.len()
                    && self@.cells[seeds@[k] as int].state is Blank,
        ensures
            r@.frontier == seeds@,
            r@.visited.len() == self@.cells.len(),
            forall|i: int| 0 <= i < self@.cells.len() ==> !#[trigger] r@.visited[i],
            prop_ok(self@, r@),
    {
        Propagation { frontier: seeds, visited: falses(self.matrix.len()) }
    }

    /// Takes cells off the frontier until one that was not looked at yet
    /// turns up, marks it as looked at and returns it; `None` once the
    /// frontier runs out.
    pub fn next_to_observe(&self, prop: &mut Propagation) -> (r: Option<usize>)
        requires
            self.wf(),
            prop_ok(self@, old(prop)@),
        ensures
            prop_ok(self@, final(prop)@),
            match r {
                None => {
                    &&& final(prop)@.frontier.len() == 0
                    &&& final(prop)@.visited == old(prop)@.visited
                    &&& forall|t: int|
                        0 <= t < old(prop)@.frontier.len() ==> old(prop)@.visited[#[trigger] old(
                            prop,
                        )@.frontier[t] as int]
                },
                Some(i) => {
                    &&& i < self@.cells.len()
                    &&& !old(prop)@.visited[i as int]
                    &&& self@.cells[i as int].state is Blank
                    &&& final(prop)@.visited == old(prop)@.visited.update(i as int, true)
                    &&& final(prop)@.frontier.len() < old(prop)@.frontier.len()
                    &&& final(prop)@.frontier == old(prop)@.frontier.take(
                        final(prop)@.frontier.len() as int,
                    )
                    &&& old(prop)@.frontier[final(prop)@.frontier.len() as int] == i
                    &&& forall|t: int|
                        final(prop)@.frontier.len() < t < old(prop)@.frontier.len()
                            ==> old(prop)@.visited[#[trigger] old(prop)@.frontier[t] as int]
                },
            },
    {
        while prop.frontier.len() > 0
            invariant
                self.wf(),
                prop.visited@ == old(prop)@.visited,
                prop.frontier@.len() <= old(prop)@.frontier.len(),
                prop.frontier@ == old(prop)@.frontier.take(prop.frontier@.len() as int),
                prop_ok(self@, old(prop)@),
                forall|t: int|
                    prop.frontier@.len() <= t < old(prop)@.frontier.len()
                        ==> old(prop)@.visited[#[trigger] old(prop)@.frontier[t] as int],
            decreases prop.frontier@.len(),
        {
            let ghost before = prop.frontier@;
            let popped = prop.frontier.pop();
            if let Some(x) = popped {
                proof {
                    assert(prop.frontier@ =~= old(prop)@.frontier.take(prop.frontier@.len() as int));
                    assert(old(prop)@.frontier[prop.frontier@.len() as int] == x);
                }
                if !prop.visited[x] {
                    prop.visited.set(x, true);
                    proof {
                        assert forall|k: int| 0 <= k < prop@.frontier.len() implies #[trigger] prop@.frontier[k]
                            < self@.cells.len() && (prop@.visited[prop@.frontier[k] as int]
                            || self@.cells[prop@.frontier[k] as int].state is Blank) by {
                            assert(prop@.frontier[k] == old(prop)@.frontier[k]);
                        }
                    }
                    return Some(x);
                }
            }
        }
        proof {
            assert forall|k: int| 0 <= k < prop@.frontier.len() implies #[trigger] prop@.frontier[k]
                < self@.cells.len() && (prop@.visited[prop@.frontier[k] as int]
                || self@.cells[prop@.frontier[k] as int].state is Blank) by {}
        }
        None
    }

    /// Observes cell `i` with the token now rendered for it and applies the
    /// outcome: a clue moves the cell from `blank` to `numbers`, into the
    /// workset when it can still yield deductions, and puts its blank
    /// neighbors on the frontier; a mine resets the board and ends the
    /// propagation.
    pub fn observe_cell(&mut self, prop: &mut Propagation, i: usize, token: String) -> (r: Observed)
        requires
            old(self).wf(),
            prop_ok(old(self)@, old(prop)@),
            i < old(self)@.cells.len(),
            old(self)@.cells[i as int].state is Blank,
        ensures
            final(self).wf(),
            prop_ok(final(self)@, final(prop)@),
            same_grid(old(self)@, final(self)@),
            final(prop)@.visited == old(prop)@.visited.update(i as int, true),
            ({
                let st = observed(old(self)@.cells[i as int], token@);
                let a = old(self)@;
                let b = final(self)@;
                if st is Mine {
                    &&& r == Observed::Boom
                    &&& is_fresh(b)
                    &&& final(prop)@.frontier.len() == 0
                } else {
                    &&& b.cells[i as int].state == st
                    &&& b.cells[i as int].attribute@ == token@
                    &&& forall|j: int|
                        0 <= j < a.cells.len() && j != i ==> (#[trigger] b.cells[j]).state == a.cells[j].state
                            && b.cells[j].attribute@ == a.cells[j].attribute@
                    &&& b.bombs == a.bombs
                    &&& forall|j: int|
                        0 <= j < a.cells.len() && j != i ==> #[trigger] b.blank[j] == a.blank[j]
                            && b.numbers[j] == a.numbers[j] && b.workset[j] == a.workset[j]
                    &&& if st is Number {
                        &&& r == Observed::Opened
                        &&& !b.blank[i as int]
                        &&& b.numbers[i as int]
                        &&& b.workset[i as int] == (a.workset[i as int] || joins_workset(b.cells[i as int], b.cells))
                        &&& final(prop)@.frontier == old(prop)@.frontier + blank_nbrs(b.cells[i as int], b.cells)
                    } else {
                        &&& r == Observed::Unchanged
                        &&& b.blank == a.blank
                        &&& b.numbers == a.numbers
                        &&& b.workset == a.workset
                        &&& final(prop)@.frontier == old(prop)@.frontier
                    }
                }
            }),
    {
        let ghost a = self@;
        proof {
            assert(classified(a, i as int));
        }
        prop.visited.set(i, true);
        let (updated, boom) = self.matrix[i].update(token);
        proof {
            let b = self@;
            assert forall|j: int| 0 <= j < a.cells.len() implies (#[trigger] a.cells[j]).posn == b.cells[j].posn
                && a.cells[j].neighbors@ == b.cells[j].neighbors@ by {
                assert(b.cells[j] == self.matrix@[j]);
            }
            lemma_grid_frame(a, b);
        }
        if boom {
            self.blank.set(i, false);
            self.numbers.set(i, false);
            self.workset.set(i, false);
            self.bombs.set(i, true);
            proof {
                let b = self@;
                assert forall|k: int| 0 <= k < b.cells.len() implies #[trigger] classified(b, k) by {
                    assert(classified(a, k));
                }
            }
            self.reset_game();
            prop.frontier.clear();
            return Observed::Boom;
        }
        if updated {
            self.blank.set(i, false);
            self.numbers.set(i, true);
            proof {
                assert(neighbors_valid(self@.cells[i as int], self@.cells));
            }
            let mut nb = self.matrix[i].blank_neighbors(&self.matrix);
            let ghost added = nb@;
            if self.matrix[i].should_add_to_workset(&self.matrix) {
                self.workset.set(i, true);
            }
            prop.frontier.append(&mut nb);
            proof {
                let b = self@;
                assert forall|k: int| 0 <= k < added.len() implies #[trigger] added[k] < b.cells.len()
                    && b.cells[added[k] as int].state is Blank by {
                    lemma_select_neighbor(b.cells[i as int], b.cells, NeighborKind::Blank, k);
                }
                assert forall|k: int| 0 <= k < prop@.frontier.len() implies #[trigger] prop@.frontier[k]
                    < b.cells.len() && (prop@.visited[prop@.frontier[k] as int]
                    || b.cells[prop@.frontier[k] as int].state is Blank) by {
                    if k >= old(prop)@.frontier.len() {
                        assert(prop@.frontier[k] == added[k - old(prop)@.frontier.len()]);
                    } else {
                        assert(prop@.frontier[k] == old(prop)@.frontier[k]);
                    }
                }
                assert forall|k: int| 0 <= k < b.cells.len() implies #[trigger] classified(b, k) by {
                    assert(classified(a, k));
                }
            }
            Observed::Opened
        } else {
            proof {
                let b = self@;
                assert forall|k: int| 0 <= k < b.cells.len() implies #[trigger] classified(b, k) by {
                    assert(classified(a, k));
                }
                assert forall|k: int| 0 <= k < prop@.frontier.len() implies #[trigger] prop@.frontier[k]
                    < b.cells.len() && (prop@.visited[prop@.frontier[k] as int]
                    || b.cells[prop@.frontier[k] as int].state is Blank) by {
                    assert(prop@.frontier[k] == old(prop)@.frontier[k]);
                }
            }
            Observed::Unchanged
        }
    }

    /// Runs a whole flood-fill from `seeds`, where `tokens[i]` is what the
    /// game renders for cell `i`. Returns whether a mine went off, in which
    /// case the board has been reset. From no seed nothing happens. From a
    /// single cell showing 0, the whole region of cells showing 0 around it
    /// and their border open, provided no cell renders a mine and that
    /// region is still blank on the board.
    #[verifier::rlimit(60)]
    pub fn update_from(&mut self, seeds: Vec<usize>, tokens: &Vec<String>) -> (boom: bool)
        requires
            old(self).wf(),
            tokens@.len() == old(self)@.cells.len(),
            forall|k: int|
                0 <= k < seeds@.len() ==> #[trigger] seeds@[k] < old(self)@.cells.len()
                    && old(self)@.cells[seeds@[k] as int].state is Blank,
        ensures
            final(self).wf(),
            same_grid(old(self)@, final(self)@),
            boom ==> is_fresh(final(self)@),
            boom ==> exists|j: int| 0 <= j < tokens@.len() && is_mine_token(#[trigger] tokens@[j]@),
            !boom ==> exists|visited: Seq<bool>|
                #[trigger] flood_done(old(self)@, final(self)@, tokens@, visited) && forall|k: int|
                    0 <= k < seeds@.len() ==> visited[#[trigger] seeds@[k] as int],
            seeds@.len() == 0 ==> !boom && final(self)@ == old(self)@,
            seeds@.len() == 1 && flood_ready(old(self)@, tokens@, seeds@[0] as int) ==> !boom
                && forall|j: int|
                #[trigger] flood_covers(old(self)@, tokens@, seeds@[0] as int, j)
                    ==> final(self)@.cells[j].state is Number && !final(self)@.blank[j],
    {
        let ghost a = self@;
        let ghost seeds0 = seeds@;
        let ghost no_seeds = seeds@.len() == 0;
        let ghost ready = seeds@.len() == 1 && flood_ready(a, tokens@, seeds@[0] as int);
        let mut prop = self.start_update(seeds);
        loop
            invariant
                self.wf(),
                a == old(self)@,
                view_wf(a),
                prop_ok(self@, prop@),
                same_grid(a, self@),
                tokens@.len() == a.cells.len(),
                no_seeds ==> self@ == a && prop@.frontier.len() == 0,
                no_seeds == (seeds0.len() == 0),
                seeds0 == seeds@,
                ready == (seeds0.len() == 1 && flood_ready(a, tokens@, seeds0[0] as int)),
                forall|k: int| 0 <= k < seeds0.len() ==> #[trigger] seeds0[k] < a.cells.len(),
                forall|j: int|
                    0 <= j < a.cells.len() && #[trigger] prop@.visited[j] ==> self@.cells[j].state
                        == observed(a.cells[j], tokens@[j]@) && a.cells[j].state is Blank,
                forall|j: int|
                    0 <= j < a.cells.len() && !#[trigger] prop@.visited[j] ==> self@.cells[j].state
                        == a.cells[j].state && self@.cells[j].attribute@ == a.cells[j].attribute@,
                forall|j: int, y: int|
                    0 <= j < a.cells.len() && prop@.visited[j] && (#[trigger] self@.cells[j]).state is Number
                        && self@.cells[j].neighbors@.contains(y as usize) && 0 <= y < a.cells.len()
                        ==> prop@.visited[y] || prop@.frontier.contains(y as usize) || !((
                    #[trigger] self@.cells[y]).state is Blank),
                forall|k: int|
                    0 <= k < seeds0.len() ==> prop@.visited[#[trigger] seeds0[k] as int]
                        || prop@.frontier.contains(seeds0[k]),
            ensures
                prop@.frontier.len() == 0,
            decreases count_false(prop@.visited),
        {
            let ghost seen_before = prop@.visited;
            let ghost f0 = prop@.frontier;
            let ghost s0 = self@;
            let next = self.next_to_observe(&mut prop);
            match next {
                None => {
                    proof {
                        assert forall|y: usize| f0.contains(y) implies seen_before[y as int] by {
                            let t = choose|t: int| 0 <= t < f0.len() && f0[t] == y;
                        }
                    }
                    break;
                },
                Some(i) => {
                    proof {
                        lemma_count_false_update(seen_before, i as int);
                        assert(!no_seeds);
                    }
                    let ghost f1 = prop@.frontier;
                    let seen = self.observe_cell(&mut prop, i, tokens[i].clone());
                    proof {
                        assert(prop@.visited =~= seen_before.update(i as int, true));
                    }
                    if seen == Observed::Boom {
                        proof {
                            assert(is_mine_token(tokens@[i as int]@));
                            assert(!ready);
                            assert(seeds0 == seeds@);
                        }
                        return true;
                    }
                    proof {
                        let f2 = prop@.frontier;
                        let s2 = self@;
                        assert forall|y: usize| f1.contains(y) implies f2.contains(y) by {
                            let t = choose|t: int| 0 <= t < f1.len() && f1[t] == y;
                            assert(f2[t] == y);
                        }
                        assert forall|y: usize| f0.contains(y) implies f2.contains(y) || y == i
                            || seen_before[y as int] by {
                            let t = choose|t: int| 0 <= t < f0.len() && f0[t] == y;
                            if t < f1.len() {
                                assert(f1[t] == y);
                            }
                        }
                        assert forall|j: int, y: int|
                            0 <= j < a.cells.len() && prop@.visited[j] && (#[trigger] s2.cells[j]).state is Number
                                && s2.cells[j].neighbors@.contains(y as usize) && 0 <= y < a.cells.len()
                                implies prop@.visited[y] || f2.contains(y as usize) || !((
                            #[trigger] s2.cells[y]).state is Blank) by {
                            if j == i {
                                if s2.cells[y].state is Blank {
                                    lemma_select_contains(
                                        s2.cells[j].neighbors@,
                                        s2.cells,
                                        NeighborKind::Blank,
                                        y as usize,
                                    );
                                }
                            } else {
                                assert(s0.cells[j].neighbors@ == s2.cells[j].neighbors@);
                                assert(seen_before[j]);
                                assert(s0.cells[j].state is Number);
                            }
                        }
                    }
                },
            }
        }
        proof {
            let b = self@;
            assert(flood_done(a, b, tokens@, prop@.visited)) by {
                assert forall|j: int, y: int|
                    0 <= j < a.cells.len() && prop@.visited[j] && (#[trigger] b.cells[j]).state is Number
                        && b.cells[j].neighbors@.contains(y as usize) && 0 <= y < a.cells.len()
                        implies prop@.visited[y] || !((#[trigger] b.cells[y]).state is Blank) by {
                    assert(!prop@.frontier.contains(y as usize));
                }
            }
            assert forall|k: int| 0 <= k < seeds0.len() implies prop@.visited[#[trigger] seeds0[k] as int] by {
                assert(!prop@.frontier.contains(seeds0[k]));
            }
            if ready {
                let s = seeds0[0] as int;
                assert(prop@.visited[s]) by {
                    assert(!prop@.frontier.contains(seeds0[0]));
                }
                lemma_flood_complete(a, b, tokens@, prop@.visited, s);
            }
        }
        false
    }

    /// Whether some cell is still in the `blank` set.
    pub fn has_blank(&self) -> (r: bool)
        requires
            self.wf(),
        ensures
            r == exists|i: int| 0 <= i < self@.cells.len() && #[trigger] self@.blank[i],
    {
        let mut i: usize = 0;
        while i < self.blank.len()
            invariant
                i <= self@.blank.len(),
                forall|j: int| 0 <= j < i ==> !#[trigger] self@.blank[j],
                self.wf(),
            decreases self@.blank.len() - i,
        {
            if self.blank[i] {
                return true;
            }
            i = i + 1;
        }
        false
    }

    /// The guess of least risk: start from the unflagged mines spread over
    /// the unconstrained blank cells (or certainty over all blank cells when
    /// there are none), then let each workset cell whose remaining mines over
    /// blank neighbors is strictly lower take over.
    pub fn lowest_risk(&self) -> (r: Guess)
        requires
            self.wf(),
        ensures
            r.numer == best_risk(self@, self@.cells.len() as int).0,
            r.denom == best_risk(self@, self@.cells.len() as int).1,
            forall|x: usize| r.pool@.contains(x) <==> in_pool(self@, x),
    {
        let n = self.matrix.len();
        let ghost v = self@;
        let mut no_numbers: Vec<usize> = Vec::new();
        let mut flagged: usize = 0;
        let mut i: usize = 0;
        while i < n
            invariant
                self.wf(),
                v == self@,
                n == v.cells.len(),
                i <= n,
                flagged == count_true(v.bombs.take(i as int)),
                flagged <= i,
                no_numbers@.len() == unconstrained_upto(v, i as int),
                forall|x: usize| #[trigger] no_numbers@.contains(x) <==> x < i && unconstrained(v, x as int),
            decreases n - i,
        {
            proof {
                assert(v.bombs.take(i as int + 1).drop_last() =~= v.bombs.take(i as int));
                assert(classified(v, i as int));
                assert(neighbors_valid(v.cells[i as int], v.cells));
            }
            if self.bombs[i] {
                flagged = flagged + 1;
            }
            let ghost before = no_numbers@;
            let free = self.blank[i] && self.matrix[i].non_zero_number_neighbors(&self.matrix).len() == 0;
            assert(free == unconstrained(v, i as int));
            if free {
                no_numbers.push(i);
            }
            proof {
                assert forall|x: usize| no_numbers@.contains(x) <==> x < i + 1 && unconstrained(v, x as int) by {
                    assert(before.contains(x) <==> x < i && unconstrained(v, x as int));
                    if free {
                        assert(no_numbers@ == before.push(i));
                        assert(no_numbers@.contains(x) == (before.contains(x) || x == i));
                    } else {
                        assert(no_numbers@ == before);
                        if x == i {
                            assert(!unconstrained(v, i as int));
                        }
                    }
                }
            }
            i = i + 1;
        }
        proof {
            assert(v.bombs.take(n as int) =~= v.bombs);
        }
        assert(flagged == count_true(v.bombs));
        let mut numer: i128;
        let mut denom: i128;
        let mut pool: Vec<usize>;
        if no_numbers.len() > 0 {
            numer = self.mines as i128 - flagged as i128;
            denom = no_numbers.len() as i128;
            pool = no_numbers;
        } else {
            numer = 1;
            denom = 1;
            pool = collect_marked(&self.blank);
        }
        let mut source: usize = n;
        let mut i: usize = 0;
        while i < n
            invariant
                self.wf(),
                v == self@,
                n == v.cells.len(),
                i <= n,
                -0x1_0000_0000_0000_0000 <= numer <= 0x1_0000_0000_0000_0000,
                1 <= denom <= 0x1_0000_0000_0000_0000,
                numer == best_risk(v, i as int).0,
                denom == best_risk(v, i as int).1,
                best_risk(v, i as int).2 == if source == n { -1 } else { source as int },
                source == n || source < i,
                source < n ==> pool@ == blank_nbrs(v.cells[source as int], v.cells),
                source == n ==> forall|x: usize| pool@.contains(x) <==> in_base_pool(v, x),
            decreases n - i,
        {
            if self.workset[i] {
                proof {
                    assert(classified(v, i as int));
                    assert(neighbors_valid(v.cells[i as int], v.cells));
                }
                let bn = self.matrix[i].blank_neighbors(&self.matrix);
                if bn.len() > 0 {
                    let rem = self.matrix[i].bombs_remaining(&self.matrix) as i128;
                    let cnt = bn.len() as i128;
                    assert(-300 <= rem <= 300);
                    assert(1 <= cnt <= 8);
                    assert(-0x1_0000_0000_0000_0000 * 300 <= rem * denom <= 0x1_0000_0000_0000_0000 * 300)
                        by (nonlinear_arith)
                        requires
                            -300 <= rem <= 300,
                            1 <= denom <= 0x1_0000_0000_0000_0000,
                    ;
                    assert(-0x1_0000_0000_0000_0000 * 8 <= numer * cnt <= 0x1_0000_0000_0000_0000 * 8)
                        by (nonlinear_arith)
                        requires
                            -0x1_0000_0000_0000_0000 <= numer <= 0x1_0000_0000_0000_0000,
                            1 <= cnt <= 8,
                    ;
                    if rem * denom < numer * cnt {
                        numer = rem;
                        denom = cnt;
                        pool = bn;
                        source = i;
                    }
                }
            }
            i = i + 1;
        }
        Guess { numer, denom, pool }
    }

    /// Picks the cell to click when nothing is certain: one of the pool of
    /// least risk, at random; `None` when the pool is empty.
    pub fn reveal_random(&self) -> (r: Option<usize>)
        requires
            self.wf(),
        ensures
            r is None <==> forall|x: usize| !in_pool(self@, x),
            r matches Some(x) ==> in_pool(self@, x),
    {
        let guess = self.lowest_risk();
        let r = choose_from(&guess.pool);
        proof {
            if r is None {
                assert forall|x: usize| !in_pool(self@, x) by {
                    assert(!guess.pool@.contains(x));
                }
            } else {
                let x = r->Some_0;
                assert(guess.pool@.contains(x));
                assert(in_pool(self@, x));
            }
        }
        r
    }

    /// Decides the next move of the play loop. With no blank cell left the
    /// game is won. Else the cells that some workset cell proves to be mines
    /// are flagged. Else the cells proved safe are revealed, and exhausted
    /// cells leave the workset; when they are all the blank cells left, they
    /// count as opened at once. Else a cell of least risk is guessed.
    pub fn next_move(&mut self) -> (r: Move)
        requires
            old(self).wf(),
        ensures
            final(self).wf(),
            same_grid(old(self)@, final(self)@),
            match r {
                Move::Done => !has_blank_spec(old(self)@) && final(self)@ == old(self)@,
                Move::Flag(cells) => {
                    &&& has_blank_spec(old(self)@)
                    &&& cells@.len() > 0
                    &&& cells@.no_duplicates()
                    &&& forall|x: usize| cells@.contains(x) <==> board_flags(old(self)@, x)
                    &&& flagged_from(old(self)@, final(self)@, cells@)
                },
                Move::Reveal(cells) => {
                    &&& has_blank_spec(old(self)@)
                    &&& forall|x: usize| !board_flags(old(self)@, x)
                    &&& cells@.len() > 0
                    &&& cells@.no_duplicates()
                    &&& forall|x: usize| cells@.contains(x) <==> board_reveals(old(self)@, x)
                    &&& forall|k: int|
                        0 <= k < cells@.len() ==> #[trigger] cells@[k] < final(self)@.cells.len()
                            && final(self)@.cells[cells@[k] as int].state is Blank
                    &&& pruned(old(self)@, final(self)@)
                },
                Move::RevealAll(cells) => {
                    &&& has_blank_spec(old(self)@)
                    &&& forall|x: usize| !board_flags(old(self)@, x)
                    &&& cells@.no_duplicates()
                    &&& forall|x: usize| cells@.contains(x) <==> board_reveals(old(self)@, x)
                    &&& forall|i: int|
                        0 <= i < old(self)@.cells.len() ==> (cells@.contains(i as usize)
                            <==> #[trigger] old(self)@.blank[i])
                    &&& !has_blank_spec(final(self)@)
                },
                Move::Guess(c) => {
                    &&& has_blank_spec(old(self)@)
                    &&& forall|x: usize| !board_flags(old(self)@, x)
                    &&& forall|x: usize| !board_reveals(old(self)@, x)
                    &&& pruned(old(self)@, final(self)@)
                    &&& in_pool(final(self)@, c)
                    &&& c < final(self)@.cells.len()
                    &&& final(self)@.cells[c as int].state is Blank
                },
            },
    {
        if !self.has_blank() {
            return Move::Done;
        }
        let to_flag = self.get_cells_to_flag();
        if to_flag.len() > 0 {
            self.flag_all(&to_flag);
            return Move::Flag(to_flag);
        }
        proof {
            assert forall|x: usize| !board_flags(old(self)@, x) by {
                if board_flags(old(self)@, x) {
                    assert(to_flag@.contains(x));
                }
            }
        }
        let to_reveal = self.get_cells_to_reveal();
        if to_reveal.len() > 0 {
            if self.reveal_all(&to_reveal) {
                proof {
                    let b = self@;
                    assert forall|i: int| 0 <= i < b.cells.len() implies !#[trigger] b.blank[i] by {}
                }
                return Move::RevealAll(to_reveal);
            }
            return Move::Reveal(to_reveal);
        }
        proof {
            assert forall|x: usize| !board_reveals(old(self)@, x) by {
                if board_reveals(old(self)@, x) {
                    assert(to_reveal@.contains(x));
                }
            }
            lemma_pool_nonempty(self@);
        }
        match self.reveal_random() {
            Some(c) => {
                proof {
                    let v = self@;
                    let b = best_risk(v, v.cells.len() as int);
                    lemma_best_source(v, v.cells.len() as int);
                    if b.2 >= 0 {
                        assert(classified(v, b.2));
                        assert(neighbors_valid(v.cells[b.2], v.cells));
                        lemma_select_contains(v.cells[b.2].neighbors@, v.cells, NeighborKind::Blank, c);
                        let k = choose|k: int| 0 <= k < v.cells[b.2].neighbors@.len() && v.cells[b.2].neighbors@[k] == c;
                    } else {
                        assert(classified(v, c as int));
                    }
                }
                Move::Guess(c)
            },
            None => Move::Done,
        }
    }

    /// The mine count of the game.
    pub fn mines(&self) -> (r: usize)
        ensures
            r == self@.mines,
    {
        self.mines
    }

    /// The number of cells.
    pub fn cell_count(&self) -> (r: usize)
        requires
            self.wf(),
        ensures
            r == self@.cells.len(),
    {
        self.matrix.len()
    }

    /// Cell `i` of the arena.
    pub fn cell(&self, i: usize) -> (r: &Cell)
        requires
            i < self@.cells.len(),
        ensures
            *r == self@.cells[i as int],
    {
        &self.matrix[i]
    }

    /// The index of the cell at (`row`, `col`).
    pub fn index_at(&self, row: usize, col: usize) -> (r: usize)
        requires
            self.wf(),
            row < self@.rows,
            col < self@.cols,
        ensures
            r == row * self@.cols + col,
            r < self@.cells.len(),
            self@.cells[r as int].posn == (Posn { row: row as i32, col: col as i32 }),
    {
        proof {
            lemma_index_bounds(row as int, col as int, self.rows as int, self.cols as int);
            assert(self@.cells[row * self.cols + col] == self.matrix@[row * self.cols + col]);
        }
        row * self.cols + col
    }

    /// Whether cell `i` is in the `blank` set.
    pub fn is_blank(&self, i: usize) -> (r: bool)
        requires
            self.wf(),
            i < self@.cells.len(),
        ensures
            r == self@.blank[i as int],
    {
        self.blank[i]
    }

    /// Whether cell `i` is in the `bombs` set.
    pub fn is_bomb(&self, i: usize) -> (r: bool)
        requires
            self.wf(),
            i < self@.cells.len(),
        ensures
            r == self@.bombs[i as int],
    {
        self.bombs[i]
    }

    /// Whether cell `i` is in the `numbers` set.
    pub fn is_number(&self, i: usize) -> (r: bool)
        requires
            self.wf(),
            i < self@.cells.len(),
        ensures
            r == self@.numbers[i as int],
    {
        self.numbers[i]
    }

    /// Whether cell `i` is in the workset.
    pub fn in_workset(&self, i: usize) -> (r: bool)
        requires
            self.wf(),
            i < self@.cells.len(),
        ensures
            r == self@.workset[i as int],
    {
        self.workset[i]
    }

    /// The cells of the `blank` set, in increasing order.
    pub fn blank_cells(&self) -> (r: Vec<usize>)
        requires
            self.wf(),
        ensures
            r@.no_duplicates(),
            forall|x: usize| r@.contains(x) <==> x < self@.cells.len() && self@.blank[x as int],
    {
        collect_marked(&self.blank)
    }

    /// The cells of the `bombs` set, in increasing order.
    pub fn bomb_cells(&self) -> (r: Vec<usize>)
        requires
            self.wf(),
        ensures
            r@.no_duplicates(),
            forall|x: usize| r@.contains(x) <==> x < self@.cells.len() && self@.bombs[x as int],
    {
        collect_marked(&self.bombs)
    }
}

} // verus!
