//! One square: its state, and the deduction rules read off its neighbors.

use vstd::prelude::*;

use crate::info::{
    blank_token, get_reps, is_mine, is_mine_token, lookup_rep, rep_of, to_digit, token_clue,
};
use crate::posn::{surrounding_in_range_spec, Posn};

verus! {

broadcast use vstd::seq_lib::group_seq_properties;

/// What is known of one square.
#[derive(Clone, Copy, Debug, PartialEq, Eq, Structural)]
pub enum CellState {
    /// Not opened and not flagged.
    Blank,
    /// Opened, showing how many of its neighbors hold a mine.
    Number(u8),
    /// Flagged as a mine, or a mine that went off.
    Mine,
}

/// One square of the grid. Its neighbors are indices into the arena of
/// cells that the board owns.
#[derive(Debug)]
pub struct Cell {
    pub state: CellState,
    /// The last render token observed for the square.
    pub attribute: String,
    pub posn: Posn,
    pub neighbors: Vec<usize>,
}

/// A way to pick neighbors by their state.
#[derive(Clone, Copy, Debug, PartialEq, Eq, Structural)]
pub enum NeighborKind {
    Mine,
    Blank,
    /// Opened with a positive clue.
    Clue,
}

/// The clue of an opened cell; 0 for any other.
pub open spec fn clue(c: Cell) -> int {
    match c.state {
        CellState::Number(n) => n as int,
        _ => 0,
    }
}

/// `c` is of the kind asked for.
pub open spec fn of_kind(c: Cell, kind: NeighborKind) -> bool {
    match kind {
        NeighborKind::Mine => c.state is Mine,
        NeighborKind::Blank => c.state is Blank,
        NeighborKind::Clue => clue(c) > 0,
    }
}

/// The indices of `s` whose cell is of `kind`, in order.
pub open spec fn select(s: Seq<usize>, cells: Seq<Cell>, kind: NeighborKind) -> Seq<usize> {
    s.filter(|j: usize| of_kind(cells[j as int], kind))
}

/// The elements of `a` that are not in `b`, in order.
pub open spec fn minus(a: Seq<usize>, b: Seq<usize>) -> Seq<usize> {
    a.filter(|x: usize| !b.contains(x))
}

/// Every neighbor of `c` is a cell of the arena, and there are at most 8.
pub open spec fn neighbors_valid(c: Cell, cells: Seq<Cell>) -> bool {
    &&& c.neighbors@.len() <= 8
    &&& forall|k: int| 0 <= k < c.neighbors@.len() ==> #[trigger] c.neighbors@[k] < cells.len()
}

/// Every cell of the arena has valid neighbors.
pub open spec fn arena_valid(cells: Seq<Cell>) -> bool {
    forall|i: int| 0 <= i < cells.len() ==> neighbors_valid(#[trigger] cells[i], cells)
}

pub open spec fn bomb_nbrs(c: Cell, cells: Seq<Cell>) -> Seq<usize> {
    select(c.neighbors@, cells, NeighborKind::Mine)
}

pub open spec fn blank_nbrs(c: Cell, cells: Seq<Cell>) -> Seq<usize> {
    select(c.neighbors@, cells, NeighborKind::Blank)
}

pub open spec fn clue_nbrs(c: Cell, cells: Seq<Cell>) -> Seq<usize> {
    select(c.neighbors@, cells, NeighborKind::Clue)
}

/// Mines around `c` that no flag accounts for yet.
pub open spec fn remaining(c: Cell, cells: Seq<Cell>) -> int {
    clue(c) - bomb_nbrs(c, cells).len()
}

/// Blank cells around `m` that are not around `c`.
pub open spec fn flag_diff(c: Cell, m: Cell, cells: Seq<Cell>) -> Seq<usize> {
    minus(blank_nbrs(m, cells), blank_nbrs(c, cells))
}

/// The subset flag rule with clue neighbor `m`: the blank cells that only `m`
/// sees must hold all of the mines that `m` needs beyond those of `c`.
pub open spec fn subset_flag_by(c: Cell, m: Cell, cells: Seq<Cell>) -> bool {
    flag_diff(c, m, cells).len() == remaining(m, cells) - remaining(c, cells)
}

/// The subset reveal rule with clue neighbor `m`: the blank cells of `c` are
/// among those of `m` and both need the same number of mines, so the rest of
/// `m`'s blank cells are safe.
pub open spec fn subset_reveal_by(c: Cell, m: Cell, cells: Seq<Cell>) -> bool {
    &&& forall|y: usize| blank_nbrs(c, cells).contains(y) ==> blank_nbrs(m, cells).contains(y)
    &&& remaining(c, cells) == remaining(m, cells)
}

/// `x` is a mine by the subset flag rule applied to `c` with its `t`-th clue
/// neighbor.
pub open spec fn flagged_via(c: Cell, cells: Seq<Cell>, t: int, x: usize) -> bool {
    let m = cells[clue_nbrs(c, cells)[t] as int];
    subset_flag_by(c, m, cells) && flag_diff(c, m, cells).contains(x)
}

/// `x` is safe by the subset reveal rule applied to `c` with its `t`-th clue
/// neighbor.
pub open spec fn revealed_via(c: Cell, cells: Seq<Cell>, t: int, x: usize) -> bool {
    let m = cells[clue_nbrs(c, cells)[t] as int];
    subset_reveal_by(c, m, cells) && flag_diff(c, m, cells).contains(x)
}

/// `x` is a mine by the subset flag rule applied to `c`.
pub open spec fn subset_flags(c: Cell, cells: Seq<Cell>, x: usize) -> bool {
    exists|t: int| 0 <= t < clue_nbrs(c, cells).len() && #[trigger] flagged_via(c, cells, t, x)
}

/// `x` is safe by the subset reveal rule applied to `c`.
pub open spec fn subset_reveals(c: Cell, cells: Seq<Cell>, x: usize) -> bool {
    exists|t: int| 0 <= t < clue_nbrs(c, cells).len() && #[trigger] revealed_via(c, cells, t, x)
}

/// The exact flag rule applies: as many blank neighbors as mines still needed.
pub open spec fn exact_flag_applies(c: Cell, cells: Seq<Cell>) -> bool {
    blank_nbrs(c, cells).len() == remaining(c, cells)
}

/// `x` is what `get_neighbors_to_flag` hands out for `c`.
pub open spec fn to_flag(c: Cell, cells: Seq<Cell>, x: usize) -> bool {
    if exact_flag_applies(c, cells) {
        blank_nbrs(c, cells).contains(x)
    } else {
        subset_flags(c, cells, x)
    }
}

/// Every mine around `c` is flagged: `c` has nothing more to tell.
pub open spec fn exhausted(c: Cell, cells: Seq<Cell>) -> bool {
    clue(c) == bomb_nbrs(c, cells).len()
}

/// `x` is what `get_neighbors_to_reveal` hands out for `c`.
pub open spec fn to_reveal(c: Cell, cells: Seq<Cell>, x: usize) -> bool {
    if exhausted(c, cells) {
        blank_nbrs(c, cells).contains(x)
    } else {
        subset_reveals(c, cells, x)
    }
}

/// An opened cell with a positive clue and a blank neighbor: it can still
/// yield deductions.
pub open spec fn joins_workset(c: Cell, cells: Seq<Cell>) -> bool {
    clue(c) > 0 && blank_nbrs(c, cells).len() > 0
}

/// What observing a blank cell with a fresh token does to it.
pub open spec fn observed(c: Cell, token: Seq<char>) -> CellState {
    if token == c.attribute@ {
        c.state
    } else if is_mine_token(token) {
        CellState::Mine
    } else {
        match token_clue(token) {
            Some(d) => CellState::Number(d as u8),
            None => c.state,
        }
    }
}

/// Membership in a filtered sequence.
pub proof fn lemma_filter_contains_iff(s: Seq<usize>, p: spec_fn(usize) -> bool, x: usize)
    ensures
        s.filter(p).contains(x) <==> s.contains(x) && p(x),
{
    if s.filter(p).contains(x) {
        s.lemma_filter_contains_rev(p, x);
        let i = choose|i: int| 0 <= i < s.filter(p).len() && s.filter(p)[i] == x;
        s.lemma_filter_pred(p, i);
    }
    if s.contains(x) && p(x) {
        let i = choose|i: int| 0 <= i < s.len() && s[i] == x;
        s.lemma_filter_contains(p, i);
    }
}

/// Whether `v` holds `x`.
pub fn contains(v: &Vec<usize>, x: usize) -> (r: bool)
    ensures
        r == v@.contains(x),
{
    let mut k: usize = 0;
    while k < v.len()
        invariant
            k <= v@.len(),
            forall|t: int| 0 <= t < k ==> v@[t] != x,
        decreases v@.len() - k,
    {
        if v[k] == x {
            return true;
        }
        k = k + 1;
    }
    false
}

/// The elements of `a` that are not in `b`, in order.
pub fn difference(a: &Vec<usize>, b: &Vec<usize>) -> (r: Vec<usize>)
    ensures
        r@ == minus(a@, b@),
{
    let mut out: Vec<usize> = Vec::new();
    let mut k: usize = 0;
    while k < a.len()
        invariant
            k <= a@.len(),
            out@ == minus(a@.take(k as int), b@),
        decreases a@.len() - k,
    {
        proof {
            assert(a@.take(k as int + 1) =~= a@.take(k as int).push(a@[k as int]));
            a@.take(k as int).lemma_filter_push(a@[k as int], |x: usize| !b@.contains(x));
        }
        if !contains(b, a[k]) {
            out.push(a[k]);
        }
        k = k + 1;
    }
    assert(a@.take(k as int) =~= a@);
    out
}

/// An element of `select(s, ..)` is an element of `s` of the kind asked for.
pub proof fn lemma_select_elem(s: Seq<usize>, cells: Seq<Cell>, kind: NeighborKind, t: int)
    requires
        0 <= t < select(s, cells, kind).len(),
    ensures
        s.contains(select(s, cells, kind)[t]),
        of_kind(cells[select(s, cells, kind)[t] as int], kind),
{
    let p = |j: usize| of_kind(cells[j as int], kind);
    s.lemma_filter_pred(p, t);
    assert(s.filter(p).contains(s.filter(p)[t]));
    s.lemma_filter_contains_rev(p, s.filter(p)[t]);
}

/// A neighbor picked by kind is a cell of the arena.
pub proof fn lemma_select_neighbor(c: Cell, cells: Seq<Cell>, kind: NeighborKind, t: int)
    requires
        neighbors_valid(c, cells),
        0 <= t < select(c.neighbors@, cells, kind).len(),
    ensures
        select(c.neighbors@, cells, kind)[t] < cells.len(),
        of_kind(cells[select(c.neighbors@, cells, kind)[t] as int], kind),
{
    lemma_select_elem(c.neighbors@, cells, kind, t);
    let j = select(c.neighbors@, cells, kind)[t];
    let k = choose|k: int| 0 <= k < c.neighbors@.len() && c.neighbors@[k] == j;
    assert(c.neighbors@[k] < cells.len());
}

/// Membership in `select(s, ..)`.
pub proof fn lemma_select_contains(s: Seq<usize>, cells: Seq<Cell>, kind: NeighborKind, x: usize)
    ensures
        select(s, cells, kind).contains(x) <==> s.contains(x) && of_kind(cells[x as int], kind),
{
    lemma_filter_contains_iff(s, |j: usize| of_kind(cells[j as int], kind), x);
}

/// Membership in `minus(a, b)`.
pub proof fn lemma_minus_contains(a: Seq<usize>, b: Seq<usize>, x: usize)
    ensures
        minus(a, b).contains(x) <==> a.contains(x) && !b.contains(x),
{
    lemma_filter_contains_iff(a, |y: usize| !b.contains(y), x);
}

/// Whether every element of `a` is in `b`.
pub fn is_subset(a: &Vec<usize>, b: &Vec<usize>) -> (r: bool)
    ensures
        r == forall|y: usize| a@.contains(y) ==> b@.contains(y),
{
    let mut k: usize = 0;
    while k < a.len()
        invariant
            k <= a@.len(),
            forall|t: int| 0 <= t < k ==> b@.contains(#[trigger] a@[t]),
        decreases a@.len() - k,
    {
        if !contains(b, a[k]) {
            assert(a@.contains(a@[k as int]));
            return false;
        }
        k = k + 1;
    }
    assert forall|y: usize| a@.contains(y) implies b@.contains(y) by {
        let t = choose|t: int| 0 <= t < a@.len() && a@[t] == y;
        assert(b@.contains(a@[t]));
    }
    true
}

/// The number of indices in `s` that hold a mine in the layout `mines`.
pub open spec fn mine_count(s: Seq<usize>, mines: Seq<bool>) -> nat {
    s.filter(|j: usize| mines[j as int]).len()
}

/// The indices in `s` of blank cells that hold a mine in the layout `mines`.
pub open spec fn blank_mines(s: Seq<usize>, cells: Seq<Cell>, mines: Seq<bool>) -> Seq<usize> {
    s.filter(|j: usize| of_kind(cells[j as int], NeighborKind::Blank) && mines[j as int])
}

/// The cells agree with the mine layout `mines`: every flag is on a mine,
/// and every opened cell is free of one and shows how many mines touch it.
pub open spec fn consistent_with(cells: Seq<Cell>, mines: Seq<bool>) -> bool {
    &&& mines.len() == cells.len()
    &&& arena_valid(cells)
    &&& forall|i: int| 0 <= i < cells.len() && (#[trigger] cells[i]).state is Mine ==> mines[i]
    &&& forall|i: int|
        0 <= i < cells.len() && (#[trigger] cells[i]).state is Number ==> !mines[i] && clue(
            cells[i],
        ) == mine_count(cells[i].neighbors@, mines)
}

/// The mines among `s` are those on blank cells plus the flagged ones:
/// flags sit on mines and opened cells hold none.
pub proof fn lemma_mine_count_split(s: Seq<usize>, cells: Seq<Cell>, mines: Seq<bool>)
    requires
        consistent_with(cells, mines),
        forall|k: int| 0 <= k < s.len() ==> #[trigger] s[k] < cells.len(),
    ensures
        mine_count(s, mines) == blank_mines(s, cells, mines).len() + select(
            s,
            cells,
            NeighborKind::Mine,
        ).len(),
    decreases s.len(),
{
    if s.len() > 0 {
        let t = s.drop_last();
        let j = s.last();
        assert(s =~= t.push(j));
        lemma_mine_count_split(t, cells, mines);
        t.lemma_filter_push(j, |j: usize| mines[j as int]);
        t.lemma_filter_push(
            j,
            |j: usize| of_kind(cells[j as int], NeighborKind::Blank) && mines[j as int],
        );
        t.lemma_filter_push(j, |j: usize| of_kind(cells[j as int], NeighborKind::Mine));
        assert(cells[j as int].state is Number ==> !mines[j as int]);
    }
}

/// The blank cells of `s` that hold mines are at most all of them; when
/// they are all of them, or none, each blank cell of `s` holds a mine, or
/// none does.
pub proof fn lemma_blank_mines_bound(s: Seq<usize>, cells: Seq<Cell>, mines: Seq<bool>)
    ensures
        blank_mines(s, cells, mines).len() <= select(s, cells, NeighborKind::Blank).len(),
        blank_mines(s, cells, mines).len() == select(s, cells, NeighborKind::Blank).len()
            ==> forall|x: usize|
            s.contains(x) && (#[trigger] cells[x as int]).state is Blank ==> mines[x as int],
        blank_mines(s, cells, mines).len() == 0 ==> forall|x: usize|
            s.contains(x) && (#[trigger] cells[x as int]).state is Blank ==> !mines[x as int],
    decreases s.len(),
{
    if s.len() > 0 {
        let t = s.drop_last();
        let j = s.last();
        assert(s =~= t.push(j));
        lemma_blank_mines_bound(t, cells, mines);
        t.lemma_filter_push(
            j,
            |j: usize| of_kind(cells[j as int], NeighborKind::Blank) && mines[j as int],
        );
        t.lemma_filter_push(j, |j: usize| of_kind(cells[j as int], NeighborKind::Blank));
        assert forall|x: usize| s.contains(x) implies x == j || t.contains(x) by {
            let k = choose|k: int| 0 <= k < s.len() && s[k] == x;
            if k < t.len() {
                assert(t[k] == x);
            }
        }
    }
}

/// Exact flag soundness: on cells that agree with a mine layout, when a clue
/// cell has exactly as many blank neighbors as mines still needed, every
/// cell it flags holds a mine.
pub proof fn lemma_exact_flag_sound(cells: Seq<Cell>, mines: Seq<bool>, i: int)
    requires
        consistent_with(cells, mines),
        0 <= i < cells.len(),
        cells[i].state is Number,
        exact_flag_applies(cells[i], cells),
    ensures
        forall|x: usize| to_flag(cells[i], cells, x) ==> mines[x as int],
{
    let c = cells[i];
    let s = c.neighbors@;
    assert(neighbors_valid(c, cells));
    lemma_mine_count_split(s, cells, mines);
    lemma_blank_mines_bound(s, cells, mines);
    assert forall|x: usize| to_flag(c, cells, x) implies mines[x as int] by {
        lemma_select_contains(s, cells, NeighborKind::Blank, x);
    }
}

/// Exact reveal soundness: on cells that agree with a mine layout, when all
/// the mines around a clue cell are flagged, every cell it reveals is safe.
pub proof fn lemma_exact_reveal_sound(cells: Seq<Cell>, mines: Seq<bool>, i: int)
    requires
        consistent_with(cells, mines),
        0 <= i < cells.len(),
        cells[i].state is Number,
        exhausted(cells[i], cells),
    ensures
        forall|x: usize| to_reveal(cells[i], cells, x) ==> !mines[x as int],
{
    let c = cells[i];
    let s = c.neighbors@;
    assert(neighbors_valid(c, cells));
    lemma_mine_count_split(s, cells, mines);
    lemma_blank_mines_bound(s, cells, mines);
    assert forall|x: usize| to_reveal(c, cells, x) implies !mines[x as int] by {
        lemma_select_contains(s, cells, NeighborKind::Blank, x);
    }
}

impl Cell {
    /// A blank cell at (`row`, `col`) whose neighbors are not wired yet.
    pub fn new(row: i32, col: i32) -> (r: Cell)
        ensures
            r.state is Blank,
            r.attribute@ == blank_token(),
            r.posn == (Posn { row, col }),
            r.neighbors@.len() == 0,
    {
        Cell {
            state: CellState::Blank,
            attribute: String::from_str("square blank"),
            posn: Posn::new(row, col),
            neighbors: Vec::new(),
        }
    }

    /// Wires the neighbors; this happens once, while the grid is built.
    pub fn assign_neighbors(&mut self, neighbors: Vec<usize>)
        requires
            old(self).neighbors@.len() == 0,
        ensures
            final(self).neighbors@ == neighbors@,
            final(self).state == old(self).state,
            final(self).attribute@ == old(self).attribute@,
            final(self).posn == old(self).posn,
    {
        self.neighbors = neighbors;
    }

    /// Marks a blank cell as a mine.
    pub fn flag(&mut self)
        requires
            old(self).state is Blank,
        ensures
            final(self).state is Mine,
            final(self).attribute@ == old(self).attribute@,
            final(self).posn == old(self).posn,
            final(self).neighbors@ == old(self).neighbors@,
    {
        self.state = CellState::Mine;
    }

    /// Reads the clue off the stored token, when it is a clue token.
    pub fn to_number(&mut self)
        requires
            rep_of(old(self).attribute@) is Some,
        ensures
            final(self).state == (match token_clue(old(self).attribute@) {
                Some(d) => CellState::Number(d as u8),
                None => old(self).state,
            }),
            final(self).attribute@ == old(self).attribute@,
            final(self).posn == old(self).posn,
            final(self).neighbors@ == old(self).neighbors@,
    {
        let reps = get_reps();
        let rep = lookup_rep(&reps, &self.attribute);
        if let Some(c) = rep {
            if let Some(d) = to_digit(c) {
                self.state = CellState::Number(d);
            }
        }
    }

    /// Back to blank, as on a fresh game; the neighbors stay.
    pub fn reset(&mut self)
        ensures
            final(self).state is Blank,
            final(self).attribute@ == blank_token(),
            final(self).posn == old(self).posn,
            final(self).neighbors@ == old(self).neighbors@,
    {
        self.state = CellState::Blank;
        self.attribute = String::from_str("square blank");
    }

    fn neighbors_of_kind(&self, cells: &Vec<Cell>, kind: NeighborKind) -> (r: Vec<usize>)
        requires
            neighbors_valid(*self, cells@),
        ensures
            r@ == select(self.neighbors@, cells@, kind),
    {
        let mut out: Vec<usize> = Vec::new();
        let mut k: usize = 0;
        while k < self.neighbors.len()
            invariant
                k <= self.neighbors@.len(),
                neighbors_valid(*self, cells@),
                out@ == select(self.neighbors@.take(k as int), cells@, kind),
            decreases self.neighbors@.len() - k,
        {
            let j = self.neighbors[k];
            proof {
                assert(self.neighbors@.take(k as int + 1) =~= self.neighbors@.take(k as int).push(j));
                self.neighbors@.take(k as int).lemma_filter_push(
                    j,
                    |j: usize| of_kind(cells@[j as int], kind),
                );
            }
            let picked = match kind {
                NeighborKind::Mine => matches!(cells[j].state, CellState::Mine),
                NeighborKind::Blank => matches!(cells[j].state, CellState::Blank),
                NeighborKind::Clue => match cells[j].state {
                    CellState::Number(n) => n > 0,
                    _ => false,
                },
            };
            if picked {
                out.push(j);
            }
            k = k + 1;
        }
        assert(self.neighbors@.take(k as int) =~= self.neighbors@);
        out
    }

    /// The neighbors flagged as mines.
    pub fn bomb_neighbors(&self, cells: &Vec<Cell>) -> (r: Vec<usize>)
        requires
            neighbors_valid(*self, cells@),
        ensures
            r@ == bomb_nbrs(*self, cells@),
    {
        self.neighbors_of_kind(cells, NeighborKind::Mine)
    }

    /// The neighbors that are neither opened nor flagged.
    pub fn blank_neighbors(&self, cells: &Vec<Cell>) -> (r: Vec<usize>)
        requires
            neighbors_valid(*self, cells@),
        ensures
            r@ == blank_nbrs(*self, cells@),
    {
        self.neighbors_of_kind(cells, NeighborKind::Blank)
    }

    /// The neighbors opened with a positive clue.
    pub fn non_zero_number_neighbors(&self, cells: &Vec<Cell>) -> (r: Vec<usize>)
        requires
            neighbors_valid(*self, cells@),
        ensures
            r@ == clue_nbrs(*self, cells@),
    {
        self.neighbors_of_kind(cells, NeighborKind::Clue)
    }

    /// The clue of an opened cell.
    pub fn get_number(&self) -> (r: i32)
        requires
            self.state is Number,
        ensures
            r == clue(*self),
    {
        match self.state {
            CellState::Number(n) => n as i32,
            _ => 0,
        }
    }

    /// The clue less the flagged neighbors.
    pub fn bombs_remaining(&self, cells: &Vec<Cell>) -> (r: i32)
        requires
            self.state is Number,
            neighbors_valid(*self, cells@),
        ensures
            r == remaining(*self, cells@),
    {
        self.get_number() - self.bomb_neighbors(cells).len() as i32
    }

    /// Whether the cell belongs in the workset.
    pub fn should_add_to_workset(&self, cells: &Vec<Cell>) -> (r: bool)
        requires
            neighbors_valid(*self, cells@),
        ensures
            r == joins_workset(*self, cells@),
    {
        let positive = match self.state {
            CellState::Number(n) => n > 0,
            _ => false,
        };
        positive && self.blank_neighbors(cells).len() > 0
    }

    /// The cells that the subset flag rule proves to be mines.
    pub fn get_more_to_flag(&self, cells: &Vec<Cell>) -> (r: Vec<usize>)
        requires
            self.state is Number,
            neighbors_valid(*self, cells@),
            arena_valid(cells@),
        ensures
            forall|x: usize| r@.contains(x) <==> subset_flags(*self, cells@, x),
    {
        let mut pattern_flag: Vec<usize> = Vec::new();
        let own_blank = self.blank_neighbors(cells);
        let own_remaining = self.bombs_remaining(cells);
        let nz = self.non_zero_number_neighbors(cells);
        let mut k: usize = 0;
        while k < nz.len()
            invariant
                k <= nz@.len(),
                self.state is Number,
                neighbors_valid(*self, cells@),
                arena_valid(cells@),
                nz@ == clue_nbrs(*self, cells@),
                own_blank@ == blank_nbrs(*self, cells@),
                own_remaining == remaining(*self, cells@),
                forall|x: usize|
                    pattern_flag@.contains(x) <==> exists|t: int|
                        0 <= t < k && #[trigger] flagged_via(*self, cells@, t, x),
            decreases nz@.len() - k,
        {
            let m = nz[k];
            proof {
                lemma_select_neighbor(*self, cells@, NeighborKind::Clue, k as int);
            }
            let other = cells[m].blank_neighbors(cells);
            let mut diff = difference(&other, &own_blank);
            let theirs = cells[m].bombs_remaining(cells);
            let ghost before = pattern_flag@;
            let take = diff.len() as i64 == theirs as i64 - own_remaining as i64;
            let ghost d = diff@;
            if take {
                pattern_flag.append(&mut diff);
            }
            proof {
                assert forall|x: usize|
                    pattern_flag@.contains(x) <==> exists|t: int|
                        0 <= t < k + 1 && #[trigger] flagged_via(*self, cells@, t, x) by {
                    if take {
                        assert(pattern_flag@ == before + d);
                    }
                    if flagged_via(*self, cells@, k as int, x) {
                        assert(0 <= k < k + 1);
                    }
                    if exists|t: int| 0 <= t < k + 1 && #[trigger] flagged_via(*self, cells@, t, x) {
                        let t = choose|t: int| 0 <= t < k + 1 && #[trigger] flagged_via(*self, cells@, t, x);
                        if t < k {
                            assert(before.contains(x));
                        }
                    }
                }
            }
            k = k + 1;
        }
        pattern_flag
    }

    /// The cells that the subset reveal rule proves to be safe.
    pub fn get_more_to_reveal(&self, cells: &Vec<Cell>) -> (r: Vec<usize>)
        requires
            self.state is Number,
            neighbors_valid(*self, cells@),
            arena_valid(cells@),
        ensures
            forall|x: usize| r@.contains(x) <==> subset_reveals(*self, cells@, x),
    {
        let mut pattern_reveal: Vec<usize> = Vec::new();
        let this_blank = self.blank_neighbors(cells);
        let own_remaining = self.bombs_remaining(cells);
        let nz = self.non_zero_number_neighbors(cells);
        let mut k: usize = 0;
        while k < nz.len()
            invariant
                k <= nz@.len(),
                self.state is Number,
                neighbors_valid(*self, cells@),
                arena_valid(cells@),
                nz@ == clue_nbrs(*self, cells@),
                this_blank@ == blank_nbrs(*self, cells@),
                own_remaining == remaining(*self, cells@),
                forall|x: usize|
                    pattern_reveal@.contains(x) <==> exists|t: int|
                        0 <= t < k && #[trigger] revealed_via(*self, cells@, t, x),
            decreases nz@.len() - k,
        {
            let m = nz[k];
            proof {
                lemma_select_neighbor(*self, cells@, NeighborKind::Clue, k as int);
            }
            let other_blank = cells[m].blank_neighbors(cells);
            let ghost before = pattern_reveal@;
            let take = is_subset(&this_blank, &other_blank)
                && own_remaining == cells[m].bombs_remaining(cells);
            let mut diff = difference(&other_blank, &this_blank);
            let ghost d = diff@;
            if take {
                pattern_reveal.append(&mut diff);
            }
            proof {
                assert forall|x: usize|
                    pattern_reveal@.contains(x) <==> exists|t: int|
                        0 <= t < k + 1 && #[trigger] revealed_via(*self, cells@, t, x) by {
                    if take {
                        assert(pattern_reveal@ == before + d);
                    }
                    if revealed_via(*self, cells@, k as int, x) {
                        assert(0 <= k < k + 1);
                    }
                    if exists|t: int| 0 <= t < k + 1 && #[trigger] revealed_via(*self, cells@, t, x) {
                        let t = choose|t: int| 0 <= t < k + 1 && #[trigger] revealed_via(*self, cells@, t, x);
                        if t < k {
                            assert(before.contains(x));
                        }
                    }
                }
            }
            k = k + 1;
        }
        pattern_reveal
    }

    /// The neighbors proved to be mines: all blank neighbors when the exact
    /// rule applies, else what the subset rule gives.
    pub fn get_neighbors_to_flag(&self, cells: &Vec<Cell>) -> (r: Vec<usize>)
        requires
            self.state is Number,
            neighbors_valid(*self, cells@),
            arena_valid(cells@),
        ensures
            forall|x: usize| r@.contains(x) <==> to_flag(*self, cells@, x),
    {
        let blank_neighbors = self.blank_neighbors(cells);
        if blank_neighbors.len() as i64 == self.bombs_remaining(cells) as i64 {
            blank_neighbors
        } else {
            self.get_more_to_flag(cells)
        }
    }

    /// Whether the cell is exhausted, and the neighbors proved safe: all
    /// blank neighbors when it is, else what the subset rule gives.
    pub fn get_neighbors_to_reveal(&self, cells: &Vec<Cell>) -> (r: (bool, Vec<usize>))
        requires
            self.state is Number,
            neighbors_valid(*self, cells@),
            arena_valid(cells@),
        ensures
            r.0 == exhausted(*self, cells@),
            forall|x: usize| r.1@.contains(x) <==> to_reveal(*self, cells@, x),
    {
        if self.get_number() == self.bomb_neighbors(cells).len() as i32 {
            (true, self.blank_neighbors(cells))
        } else {
            (false, self.get_more_to_reveal(cells))
        }
    }

    /// The positions of the neighbors on a grid of `rows` by `cols`.
    pub fn neighbors_posns(&self, rows: i32, cols: i32) -> (r: Vec<Posn>)
        requires
            i32::MIN < self.posn.row < i32::MAX,
            i32::MIN < self.posn.col < i32::MAX,
        ensures
            r@ == surrounding_in_range_spec(self.posn, rows as int, cols as int),
    {
        self.posn.surrounding_in_range(rows, cols)
    }

    /// Observes the cell with the token now rendered for it. Returns
    /// (`updated`, `boom`): `updated` when it opened with a clue, `boom` when
    /// its mine went off. An unchanged token changes nothing.
    pub fn update(&mut self, token: String) -> (r: (bool, bool))
        requires
            old(self).state is Blank,
        ensures
            final(self).state == observed(*old(self), token@),
            final(self).attribute@ == token@,
            final(self).posn == old(self).posn,
            final(self).neighbors@ == old(self).neighbors@,
            r.0 == (final(self).state is Number),
            r.1 == (final(self).state is Mine),
    {
        if token == self.attribute {
            return (false, false);
        }
        self.attribute = token;
        if is_mine(&self.attribute) {
            self.state = CellState::Mine;
            return (false, true);
        }
        let reps = get_reps();
        if lookup_rep(&reps, &self.attribute).is_some() {
            self.to_number();
        }
        (matches!(self.state, CellState::Number(_)), false)
    }
}

} // verus!
