//! The guess made when no deduction applies: the risk of each candidate
//! pool, the pool of least risk, and what is known of that risk.

use vstd::prelude::*;

use crate::board::{classified, has_blank_spec, view_wf, Board, BoardView};
use crate::cell::{
    blank_nbrs, clue_nbrs, consistent_with, lemma_blank_mines_bound, lemma_mine_count_split,
    neighbors_valid, remaining,
};

verus! {

/// How many entries of `s` are set.
pub open spec fn count_true(s: Seq<bool>) -> nat
    decreases s.len(),
{
    if s.len() == 0 {
        0
    } else {
        count_true(s.drop_last()) + if s.last() { 1nat } else { 0nat }
    }
}

/// A blank cell with no opened neighbor showing a positive clue: nothing is
/// known about it.
pub open spec fn unconstrained(v: BoardView, i: int) -> bool {
    v.blank[i] && clue_nbrs(v.cells[i], v.cells).len() == 0
}

/// How many of the first `k` cells are unconstrained.
pub open spec fn unconstrained_upto(v: BoardView, k: int) -> nat
    decreases k,
{
    if k <= 0 {
        0
    } else {
        unconstrained_upto(v, k - 1) + if unconstrained(v, k - 1) { 1nat } else { 0nat }
    }
}

/// The starting guess, as (mines, cells): the mines not yet flagged spread
/// over the unconstrained cells, or certainty when there are none.
pub open spec fn base_risk(v: BoardView) -> (int, int) {
    let free = unconstrained_upto(v, v.cells.len() as int);
    if free > 0 {
        (v.mines - count_true(v.bombs), free as int)
    } else {
        (1, 1)
    }
}

/// Workset cell `i` offers a guess among its blank neighbors.
pub open spec fn offers_guess(v: BoardView, i: int) -> bool {
    v.workset[i] && blank_nbrs(v.cells[i], v.cells).len() > 0
}

/// The lowest risk over the base guess and the first `k` cells, as
/// (mines, cells, source): source is -1 for the base guess, else the workset
/// cell whose blank neighbors carry it. A later cell takes over only when
/// strictly lower.
pub open spec fn best_risk(v: BoardView, k: int) -> (int, int, int)
    decreases k,
{
    if k <= 0 {
        (base_risk(v).0, base_risk(v).1, -1)
    } else {
        let prev = best_risk(v, k - 1);
        let i = k - 1;
        let m = remaining(v.cells[i], v.cells);
        let c = blank_nbrs(v.cells[i], v.cells).len() as int;
        if offers_guess(v, i) && m * prev.1 < prev.0 * c {
            (m, c, i)
        } else {
            prev
        }
    }
}

/// `x` is in the pool of the starting guess: the unconstrained cells, or
/// all blank cells when there are none.
pub open spec fn in_base_pool(v: BoardView, x: usize) -> bool {
    if unconstrained_upto(v, v.cells.len() as int) > 0 {
        x < v.cells.len() && unconstrained(v, x as int)
    } else {
        x < v.cells.len() && v.blank[x as int]
    }
}

/// `x` is in the pool that the lowest risk was found for.
pub open spec fn in_pool(v: BoardView, x: usize) -> bool {
    let b = best_risk(v, v.cells.len() as int);
    if b.2 >= 0 {
        blank_nbrs(v.cells[b.2], v.cells).contains(x)
    } else {
        in_base_pool(v, x)
    }
}

/// The lowest risk comes from the starting guess or from an earlier workset
/// cell that offers a guess.
pub proof fn lemma_best_source(v: BoardView, k: int)
    requires
        0 <= k <= v.cells.len(),
    ensures
        best_risk(v, k).2 == -1 || (0 <= best_risk(v, k).2 < k && offers_guess(v, best_risk(v, k).2)),
    decreases k,
{
    if k > 0 {
        lemma_best_source(v, k - 1);
    }
}

/// A positive count of unconstrained cells has a witness.
pub proof fn lemma_unconstrained_exists(v: BoardView, k: int)
    requires
        0 <= k <= v.cells.len(),
        unconstrained_upto(v, k) > 0,
    ensures
        exists|x: int| 0 <= x < k && #[trigger] unconstrained(v, x),
    decreases k,
{
    if !unconstrained(v, k - 1) {
        lemma_unconstrained_exists(v, k - 1);
        let x = choose|x: int| 0 <= x < k - 1 && #[trigger] unconstrained(v, x);
        assert(0 <= x < k);
    }
}

/// While a blank cell is left, the guess pool is not empty.
pub proof fn lemma_pool_nonempty(v: BoardView)
    requires
        view_wf(v),
        has_blank_spec(v),
    ensures
        exists|x: usize| #[trigger] in_pool(v, x),
{
    let n = v.cells.len() as int;
    lemma_best_source(v, n);
    let b = best_risk(v, n);
    if b.2 >= 0 {
        let nb = blank_nbrs(v.cells[b.2], v.cells);
        assert(nb.contains(nb[0]));
        assert(in_pool(v, nb[0]));
    } else if unconstrained_upto(v, n) > 0 {
        lemma_unconstrained_exists(v, n);
        let x = choose|x: int| 0 <= x < n && #[trigger] unconstrained(v, x);
        assert(in_pool(v, x as usize));
    } else {
        let x = choose|i: int| 0 <= i < n && #[trigger] v.blank[i];
        assert(in_pool(v, x as usize));
    }
}

/// The board agrees with the mine layout `layout`: its cells do, and the
/// game's mine count is the layout's.
pub open spec fn board_consistent(v: BoardView, layout: Seq<bool>) -> bool {
    consistent_with(v.cells, layout) && v.mines == count_true(layout)
}

/// From `m / c < pm / pc <= bm / bc`, with positive denominators, follows
/// `m / c < bm / bc`.
proof fn lemma_frac_trans(m: int, c: int, pm: int, pc: int, bm: int, bc: int)
    requires
        c > 0,
        pc > 0,
        bc > 0,
        m * pc < pm * c,
        pm * bc <= bm * pc,
    ensures
        m * bc < bm * c,
{
    assert(m * pc * bc < pm * c * bc) by (nonlinear_arith)
        requires
            m * pc < pm * c,
            bc > 0,
    ;
    assert(pm * bc * c <= bm * pc * c) by (nonlinear_arith)
        requires
            pm * bc <= bm * pc,
            c > 0,
    ;
    assert(m * bc * pc < bm * c * pc) by (nonlinear_arith)
        requires
            m * pc * bc < pm * c * bc,
            pm * bc * c <= bm * pc * c,
    ;
    assert(m * bc < bm * c) by (nonlinear_arith)
        requires
            m * bc * pc < bm * c * pc,
            pc > 0,
    ;
}

/// Workset cell `i` offers a ratio strictly lower than the starting guess.
pub open spec fn beats_base(v: BoardView, i: int) -> bool {
    offers_guess(v, i) && remaining(v.cells[i], v.cells) * base_risk(v).1 < base_risk(v).0 * (blank_nbrs(
        v.cells[i],
        v.cells,
    ).len() as int)
}

/// The running minimum over the first `k` cells, against the starting guess.
proof fn lemma_best_risk_order(v: BoardView, k: int)
    requires
        0 <= k <= v.cells.len(),
    ensures
        best_risk(v, k).1 > 0,
        best_risk(v, k).0 * base_risk(v).1 <= base_risk(v).0 * best_risk(v, k).1,
        (exists|i: int| 0 <= i < k && #[trigger] beats_base(v, i)) ==> best_risk(v, k).0 * base_risk(v).1
            < base_risk(v).0 * best_risk(v, k).1,
        (forall|i: int| 0 <= i < k ==> !#[trigger] beats_base(v, i)) ==> best_risk(v, k) == (
            base_risk(v).0,
            base_risk(v).1,
            -1int,
        ),
    decreases k,
{
    let base = base_risk(v);
    if k > 0 {
        lemma_best_risk_order(v, k - 1);
        let prev = best_risk(v, k - 1);
        let i = k - 1;
        let m = remaining(v.cells[i], v.cells);
        let c = blank_nbrs(v.cells[i], v.cells).len() as int;
        if offers_guess(v, i) && m * prev.1 < prev.0 * c {
            lemma_frac_trans(m, c, prev.0, prev.1, base.0, base.1);
            assert(beats_base(v, i));
        } else {
            if beats_base(v, i) {
                if forall|j: int| 0 <= j < k - 1 ==> !#[trigger] beats_base(v, j) {
                    assert(prev == (base.0, base.1, -1int));
                    assert(false);
                }
            }
            if exists|j: int| 0 <= j < k && #[trigger] beats_base(v, j) {
                if !beats_base(v, i) {
                    let j = choose|j: int| 0 <= j < k && #[trigger] beats_base(v, j);
                    assert(0 <= j < k - 1);
                }
            }
        }
    }
}

/// Guess-phase bounds: the lowest risk never exceeds the starting guess,
/// and equals it exactly when no workset cell offers a strictly lower ratio
/// of remaining mines to blank neighbors.
pub proof fn lemma_guess_bounds(b: &Board)
    requires
        b.wf(),
    ensures
        ({
            let best = best_risk(b@, b@.cells.len() as int);
            let base = base_risk(b@);
            &&& best.1 > 0
            &&& best.0 * base.1 <= base.0 * best.1
            &&& (best.0 * base.1 == base.0 * best.1) <==> forall|i: int|
                0 <= i < b@.cells.len() ==> !#[trigger] beats_base(b@, i)
        }),
{
    lemma_best_risk_order(b@, b@.cells.len() as int);
}

/// Fewer set entries where each set entry of `a` is set in `b`.
proof fn lemma_count_true_le(a: Seq<bool>, b: Seq<bool>)
    requires
        a.len() == b.len(),
        forall|i: int| 0 <= i < a.len() && #[trigger] a[i] ==> b[i],
    ensures
        count_true(a) <= count_true(b),
    decreases a.len(),
{
    if a.len() > 0 {
        lemma_count_true_le(a.drop_last(), b.drop_last());
    }
}

/// The running minimum stays in [0, 1] when every ratio that takes part is.
proof fn lemma_best_in_unit(v: BoardView, k: int)
    requires
        0 <= k <= v.cells.len(),
        0 <= base_risk(v).0 <= base_risk(v).1,
        forall|i: int|
            0 <= i < v.cells.len() && #[trigger] offers_guess(v, i) ==> 0 <= remaining(v.cells[i], v.cells)
                <= blank_nbrs(v.cells[i], v.cells).len(),
    ensures
        0 <= best_risk(v, k).0 <= best_risk(v, k).1,
    decreases k,
{
    if k > 0 {
        lemma_best_in_unit(v, k - 1);
    }
}

/// Guess-phase bounds, continued: on a board that agrees with a mine layout,
/// the lowest risk is a probability in [0, 1] whenever the starting guess
/// is, that is, whenever the unflagged mines do not outnumber the
/// unconstrained cells.
pub proof fn lemma_guess_in_unit(b: &Board, layout: Seq<bool>)
    requires
        b.wf(),
        board_consistent(b@, layout),
        base_risk(b@).0 <= base_risk(b@).1,
    ensures
        0 <= best_risk(b@, b@.cells.len() as int).0 <= best_risk(b@, b@.cells.len() as int).1,
{
    let v = b@;
    assert forall|i: int| 0 <= i < v.bombs.len() && #[trigger] v.bombs[i] implies layout[i] by {
        assert(classified(v, i));
    }
    lemma_count_true_le(v.bombs, layout);
    assert forall|i: int|
        0 <= i < v.cells.len() && #[trigger] offers_guess(v, i) implies 0 <= remaining(v.cells[i], v.cells)
            <= blank_nbrs(v.cells[i], v.cells).len() by {
        assert(classified(v, i));
        let s = v.cells[i].neighbors@;
        assert(neighbors_valid(v.cells[i], v.cells));
        lemma_mine_count_split(s, v.cells, layout);
        lemma_blank_mines_bound(s, v.cells, layout);
    }
    lemma_best_in_unit(v, v.cells.len() as int);
}

} // verus!
