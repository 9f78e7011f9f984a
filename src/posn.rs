//! Positions on the grid and the positions around them.

use vstd::prelude::*;

verus! {

/// A 0-indexed (row, column) position on the grid.
#[derive(Clone, Copy, Debug, PartialEq, Eq, Hash, Structural)]
pub struct Posn {
    pub row: i32,
    pub col: i32,
}

/// `q` is one of the eight positions that touch `p` (orthogonally or diagonally).
pub open spec fn adjacent(p: Posn, q: Posn) -> bool {
    &&& p != q
    &&& -1 <= q.row - p.row <= 1
    &&& -1 <= q.col - p.col <= 1
}

/// `p` lies on a grid of `rows` by `cols`.
pub open spec fn in_range_spec(p: Posn, rows: int, cols: int) -> bool {
    0 <= p.row < rows && 0 <= p.col < cols
}

/// The position at (`row`, `col`).
pub open spec fn at(row: int, col: int) -> Posn {
    Posn { row: row as i32, col: col as i32 }
}

/// The eight positions around `p`, row by row, left to right.
pub open spec fn surrounding_spec(p: Posn) -> Seq<Posn> {
    let r = p.row as int;
    let c = p.col as int;
    seq![
        at(r - 1, c - 1), at(r - 1, c), at(r - 1, c + 1),
        at(r, c - 1), at(r, c + 1),
        at(r + 1, c - 1), at(r + 1, c), at(r + 1, c + 1),
    ]
}

/// The positions around `p` that lie on a grid of `rows` by `cols`, in the
/// order of `surrounding_spec`.
pub open spec fn surrounding_in_range_spec(p: Posn, rows: int, cols: int) -> Seq<Posn> {
    surrounding_spec(p).filter(|q: Posn| in_range_spec(q, rows, cols))
}

/// How many of the 3 by 3 block around `p` (read row by row) come before
/// offset (`i`, `j`), leaving out `p` itself.
spec fn slot(i: int, j: int) -> int {
    if 3 * i + j > 4 { 3 * i + j - 1 } else { 3 * i + j }
}

/// The character of decimal digit `d`.
pub open spec fn digit_char(d: nat) -> char {
    if d == 0 { '0' }
    else if d == 1 { '1' }
    else if d == 2 { '2' }
    else if d == 3 { '3' }
    else if d == 4 { '4' }
    else if d == 5 { '5' }
    else if d == 6 { '6' }
    else if d == 7 { '7' }
    else if d == 8 { '8' }
    else { '9' }
}

/// Decimal digits of `n`, most significant first, without leading zeros.
pub open spec fn digits(n: nat) -> Seq<char>
    decreases n,
{
    if n < 10 {
        seq![digit_char(n)]
    } else {
        digits(n / 10) + seq![digit_char(n % 10)]
    }
}

/// Decimal form of `v`, with a leading '-' when negative.
pub open spec fn decimal(v: int) -> Seq<char> {
    if v < 0 { seq!['-'] + digits((-v) as nat) } else { digits(v as nat) }
}

/// The one-character string of decimal digit `d`.
fn digit_str(d: u64) -> (r: &'static str)
    requires
        d < 10,
    ensures
        r@ == seq![digit_char(d as nat)],
{
    proof {
        reveal_strlit("0");
        reveal_strlit("1");
        reveal_strlit("2");
        reveal_strlit("3");
        reveal_strlit("4");
        reveal_strlit("5");
        reveal_strlit("6");
        reveal_strlit("7");
        reveal_strlit("8");
        reveal_strlit("9");
    }
    if d == 0 { "0" }
    else if d == 1 { "1" }
    else if d == 2 { "2" }
    else if d == 3 { "3" }
    else if d == 4 { "4" }
    else if d == 5 { "5" }
    else if d == 6 { "6" }
    else if d == 7 { "7" }
    else if d == 8 { "8" }
    else { "9" }
}

/// Appends the decimal digits of `n`.
fn push_digits(s: &mut String, n: u64)
    ensures
        final(s)@ == old(s)@ + digits(n as nat),
    decreases n,
{
    if n >= 10 {
        push_digits(s, n / 10);
    }
    s.append(digit_str(n % 10));
    assert(final(s)@ =~= old(s)@ + digits(n as nat));
}

/// Appends the decimal form of `v`.
fn push_decimal(s: &mut String, v: i64)
    requires
        v > i64::MIN,
    ensures
        final(s)@ == old(s)@ + decimal(v as int),
{
    if v < 0 {
        s.append("-");
        proof { reveal_strlit("-"); }
        push_digits(s, (-v) as u64);
        assert(final(s)@ =~= old(s)@ + decimal(v as int));
    } else {
        push_digits(s, v as u64);
    }
}

impl Posn {
    pub fn new(row: i32, col: i32) -> (r: Posn)
        ensures
            r.row == row,
            r.col == col,
    {
        Posn { row, col }
    }

    /// Renders the position as `Posn(row = R, col = C)`.
    pub fn to_string(&self) -> (r: String)
        ensures
            r@ == "Posn(row = "@ + decimal(self.row as int) + ", col = "@ + decimal(self.col as int)
                + ")"@,
    {
        let mut s = String::from_str("Posn(row = ");
        push_decimal(&mut s, self.row as i64);
        s.append(", col = ");
        push_decimal(&mut s, self.col as i64);
        s.append(")");
        s
    }

    /// Renders the position as 1-based `(column, row)`, the way a player
    /// names a square.
    pub fn coords(&self) -> (r: String)
        ensures
            r@ == "("@ + decimal(self.col + 1) + ", "@ + decimal(self.row + 1) + ")"@,
    {
        let mut s = String::from_str("(");
        push_decimal(&mut s, self.col as i64 + 1);
        s.append(", ");
        push_decimal(&mut s, self.row as i64 + 1);
        s.append(")");
        s
    }

    /// Whether the position lies on a grid of `rows` by `cols`.
    pub fn in_range(&self, rows: i32, cols: i32) -> (r: bool)
        ensures
            r == in_range_spec(*self, rows as int, cols as int),
    {
        self.row >= 0 && self.row < rows && self.col >= 0 && self.col < cols
    }

    /// The eight positions around this one, row by row, whether or not they
    /// lie on any grid.
    pub fn surrounding(&self) -> (r: Vec<Posn>)
        requires
            i32::MIN < self.row < i32::MAX,
            i32::MIN < self.col < i32::MAX,
        ensures
            r@ == surrounding_spec(*self),
    {
        let mut positions: Vec<Posn> = Vec::new();
        let mut i: i32 = 0;
        while i < 3
            invariant
                0 <= i <= 3,
                i32::MIN < self.row < i32::MAX,
                i32::MIN < self.col < i32::MAX,
                positions@ == surrounding_spec(*self).take(slot(i as int, 0)),
            decreases 3 - i,
        {
            let row = self.row - 1 + i;
            let mut j: i32 = 0;
            while j < 3
                invariant
                    0 <= i < 3,
                    0 <= j <= 3,
                    row == self.row - 1 + i,
                    i32::MIN < self.row < i32::MAX,
                    i32::MIN < self.col < i32::MAX,
                    positions@ == surrounding_spec(*self).take(slot(i as int, j as int)),
                decreases 3 - j,
            {
                let col = self.col - 1 + j;
                if row != self.row || col != self.col {
                    let ghost before = positions@;
                    positions.push(Posn::new(row, col));
                    assert(surrounding_spec(*self).take(slot(i as int, j as int + 1)) =~= before.push(
                        Posn { row, col },
                    ));
                }
                j = j + 1;
            }
            i = i + 1;
        }
        assert(positions@ =~= surrounding_spec(*self));
        positions
    }

    /// The positions around this one that lie on a grid of `rows` by `cols`:
    /// 3 at a corner, 5 along an edge, 8 inside.
    pub fn surrounding_in_range(&self, rows: i32, cols: i32) -> (r: Vec<Posn>)
        requires
            i32::MIN < self.row < i32::MAX,
            i32::MIN < self.col < i32::MAX,
        ensures
            r@ == surrounding_in_range_spec(*self, rows as int, cols as int),
    {
        let all = self.surrounding();
        let mut test: Vec<Posn> = Vec::new();
        let mut k: usize = 0;
        while k < all.len()
            invariant
                k <= all@.len(),
                all@ == surrounding_spec(*self),
                test@ == all@.take(k as int).filter(|q: Posn| in_range_spec(q, rows as int, cols as int)),
            decreases all@.len() - k,
        {
            proof {
                assert(all@.take(k as int + 1) =~= all@.take(k as int).push(all@[k as int]));
                all@.take(k as int).lemma_filter_push(
                    all@[k as int],
                    |q: Posn| in_range_spec(q, rows as int, cols as int),
                );
            }
            if all[k].in_range(rows, cols) {
                test.push(all[k]);
            }
            k = k + 1;
        }
        assert(all@.take(k as int) =~= all@);
        test
    }
}

} // verus!
