//! Flood-fill propagation seen as mathematics: what a propagation in
//! progress may hold, what a finished one leaves behind, and why it opens a
//! whole region of cells showing 0 together with its border.

use vstd::prelude::*;

use crate::board::{classified, same_grid, view_wf, BoardView, PropagationView};
use crate::cell::{observed, Cell};
use crate::info::{blank_token, is_mine_token, lemma_blank_token_no_clue, open_token, token_clue};

verus! {

/// The propagation fits the board: frontier cells are cells of the board, and
/// those not yet looked at are blank.
pub open spec fn prop_ok(v: BoardView, p: PropagationView) -> bool {
    &&& p.visited.len() == v.cells.len()
    &&& forall|k: int|
        0 <= k < p.frontier.len() ==> #[trigger] p.frontier[k] < v.cells.len() && (p.visited[p.frontier[k] as int]
            || v.cells[p.frontier[k] as int].state is Blank)
}

/// How many entries of `s` are unset: in a propagation, the cells not yet
/// looked at.
pub open spec fn count_false(s: Seq<bool>) -> nat
    decreases s.len(),
{
    if s.len() == 0 {
        0
    } else {
        count_false(s.drop_last()) + if s.last() { 0nat } else { 1nat }
    }
}

/// Setting an unset entry leaves one fewer unset.
pub proof fn lemma_count_false_update(s: Seq<bool>, i: int)
    requires
        0 <= i < s.len(),
        !s[i],
    ensures
        count_false(s.update(i, true)) + 1 == count_false(s),
    decreases s.len(),
{
    let t = s.update(i, true);
    if i < s.len() - 1 {
        assert(t.drop_last() =~= s.drop_last().update(i, true));
        lemma_count_false_update(s.drop_last(), i);
    } else {
        assert(t.drop_last() =~= s.drop_last());
    }
}

/// Cell `j` shows a clue of 0 in `tokens`.
pub open spec fn shows_zero(tokens: Seq<String>, j: int) -> bool {
    tokens[j]@ == open_token(0)
}

/// `path` walks from `s` through neighboring cells that all show 0.
pub open spec fn zero_walk(v: BoardView, tokens: Seq<String>, s: int, path: Seq<int>) -> bool {
    &&& path.len() > 0
    &&& path[0] == s
    &&& forall|t: int|
        0 <= t < path.len() ==> 0 <= #[trigger] path[t] < v.cells.len() && shows_zero(tokens, path[t])
    &&& forall|t: int|
        0 < t < path.len() ==> v.cells[path[t - 1]].neighbors@.contains(#[trigger] path[t] as usize)
}

/// `j` is in the connected region of cells showing 0 around `s`.
pub open spec fn in_zero_region(v: BoardView, tokens: Seq<String>, s: int, j: int) -> bool {
    exists|path: Seq<int>| #[trigger] zero_walk(v, tokens, s, path) && path.last() == j
}

/// `j` is in the zero region around `s` or borders it.
pub open spec fn flood_covers(v: BoardView, tokens: Seq<String>, s: int, j: int) -> bool {
    0 <= j < v.cells.len() && (in_zero_region(v, tokens, s, j) || exists|y: int|
        0 <= y < v.cells.len() && #[trigger] in_zero_region(v, tokens, s, y)
            && v.cells[y].neighbors@.contains(j as usize))
}

/// The setting of a single reveal: no cell renders a mine, every blank
/// cell still holds the blank token, and the region around `s` with its
/// border is blank on the board and shows clues in `tokens`.
pub open spec fn flood_ready(v: BoardView, tokens: Seq<String>, s: int) -> bool {
    &&& forall|j: int| 0 <= j < v.cells.len() ==> !is_mine_token(#[trigger] tokens[j]@)
    &&& forall|j: int|
        0 <= j < v.cells.len() && (#[trigger] v.cells[j]).state is Blank ==> v.cells[j].attribute@
            == blank_token()
    &&& forall|j: int|
        #[trigger] flood_covers(v, tokens, s, j) ==> v.cells[j].state is Blank && token_clue(
            tokens[j]@,
        ) is Some
}

/// A blank cell holding the blank token opens with the clue of a clue token.
pub proof fn lemma_observed_opens(c: Cell, t: Seq<char>)
    requires
        c.state is Blank,
        c.attribute@ == blank_token(),
        token_clue(t) is Some,
        !is_mine_token(t),
    ensures
        observed(c, t) is Number,
{
    lemma_blank_token_no_clue();
}

/// What a flood-fill that ran out without a mine leaves behind, seen from
/// the board `a` before it and `b` after it, with `visited` the cells it
/// looked at.
pub open spec fn flood_done(a: BoardView, b: BoardView, tokens: Seq<String>, visited: Seq<bool>) -> bool {
    &&& visited.len() == a.cells.len()
    &&& forall|j: int|
        0 <= j < a.cells.len() && #[trigger] visited[j] ==> b.cells[j].state == observed(
            a.cells[j],
            tokens[j]@,
        ) && a.cells[j].state is Blank
    &&& forall|j: int|
        0 <= j < a.cells.len() && !#[trigger] visited[j] ==> b.cells[j].state == a.cells[j].state
    &&& forall|j: int, y: int|
        0 <= j < a.cells.len() && visited[j] && (#[trigger] b.cells[j]).state is Number && b.cells[j].neighbors@.contains(
            y as usize,
        ) && 0 <= y < a.cells.len() ==> visited[y] || !((#[trigger] b.cells[y]).state is Blank)
}

proof fn lemma_zero_walk_opened(
    a: BoardView,
    b: BoardView,
    tokens: Seq<String>,
    visited: Seq<bool>,
    s: int,
    path: Seq<int>,
)
    requires
        view_wf(a),
        same_grid(a, b),
        tokens.len() == a.cells.len(),
        flood_ready(a, tokens, s),
        flood_done(a, b, tokens, visited),
        0 <= s < a.cells.len(),
        visited[s],
        zero_walk(a, tokens, s, path),
    ensures
        visited[path.last()],
        b.cells[path.last()].state is Number,
    decreases path.len(),
{
    let j = path.last();
    assert(0 <= path[path.len() - 1] < a.cells.len());
    assert(in_zero_region(a, tokens, s, j));
    assert(flood_covers(a, tokens, s, j));
    if path.len() > 1 {
        let p = path.drop_last();
        assert forall|t: int| 0 < t < p.len() implies a.cells[p[t - 1]].neighbors@.contains(
            #[trigger] p[t] as usize,
        ) by {
            assert(p[t] == path[t]);
            assert(p[t - 1] == path[t - 1]);
        }
        assert forall|t: int| 0 <= t < p.len() implies 0 <= #[trigger] p[t] < a.cells.len()
            && shows_zero(tokens, p[t]) by {
            assert(p[t] == path[t]);
        }
        lemma_zero_walk_opened(a, b, tokens, visited, s, p);
        let y = p.last();
        assert(a.cells[path[path.len() - 2]].neighbors@.contains(path[path.len() - 1] as usize));
        assert(b.cells[y].neighbors@ == a.cells[y].neighbors@);
        if !visited[j] {
            assert(!(b.cells[j].state is Blank));
            assert(false);
        }
    }
    lemma_observed_opens(a.cells[j], tokens[j]@);
}

/// Flood-fill completeness, from what the flood-fill leaves behind: every
/// cell of the zero region around `s` and of its border is opened.
pub proof fn lemma_flood_complete(
    a: BoardView,
    b: BoardView,
    tokens: Seq<String>,
    visited: Seq<bool>,
    s: int,
)
    requires
        view_wf(a),
        view_wf(b),
        same_grid(a, b),
        tokens.len() == a.cells.len(),
        flood_ready(a, tokens, s),
        flood_done(a, b, tokens, visited),
        0 <= s < a.cells.len(),
        visited[s],
    ensures
        forall|j: int|
            #[trigger] flood_covers(a, tokens, s, j) ==> b.cells[j].state is Number && !b.blank[j],
{
    assert forall|j: int| #[trigger] flood_covers(a, tokens, s, j) implies b.cells[j].state is Number
        && !b.blank[j] by {
        if in_zero_region(a, tokens, s, j) {
            let path = choose|path: Seq<int>| #[trigger] zero_walk(a, tokens, s, path) && path.last() == j;
            lemma_zero_walk_opened(a, b, tokens, visited, s, path);
        } else {
            let y = choose|y: int|
                0 <= y < a.cells.len() && #[trigger] in_zero_region(a, tokens, s, y)
                    && a.cells[y].neighbors@.contains(j as usize);
            let path = choose|path: Seq<int>| #[trigger] zero_walk(a, tokens, s, path) && path.last() == y;
            lemma_zero_walk_opened(a, b, tokens, visited, s, path);
            assert(b.cells[y].neighbors@ == a.cells[y].neighbors@);
            if !visited[j] {
                assert(!(b.cells[j].state is Blank));
                assert(false);
            }
            lemma_observed_opens(a.cells[j], tokens[j]@);
        }
        assert(classified(b, j));
    }
}

} // verus!
