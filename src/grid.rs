use vstd::prelude::*;
use crate::digit::{Cell, Digit, NB_CELL, NB_DIGIT, BLOCK_SIDE, cell_value};

verus! {

/// Row of a position, counted from the top.
pub open spec fn row_of(p: int) -> int {
    p / NB_DIGIT as int
}

/// Column of a position, counted from the left.
pub open spec fn col_of(p: int) -> int {
    p % NB_DIGIT as int
}

/// Block of a position, blocks being numbered row by row.
pub open spec fn block_of(p: int) -> int {
    (row_of(p) / BLOCK_SIDE as int) * BLOCK_SIDE as int + col_of(p) / BLOCK_SIDE as int
}

/// Two positions share a row, a column or a block.
pub open spec fn shares_unit(p: int, q: int) -> bool {
    row_of(p) == row_of(q) || col_of(p) == col_of(q) || block_of(p) == block_of(q)
}

/// Digit `d` may stand at `p`: no other position sharing a row, a column or a
/// block with `p` holds it.
pub open spec fn can_accept_spec(g: Seq<Cell>, d: Digit, p: int) -> bool {
    forall|q: int| 0 <= q < NB_CELL && q != p && shares_unit(p, q) ==> #[trigger] g[q] != Some(d)
}

/// No digit is repeated within a row, a column or a block.
pub open spec fn consistent(g: Seq<Cell>) -> bool {
    forall|p: int|
        0 <= p < NB_CELL && (#[trigger] g[p]) is Some ==> can_accept_spec(g, g[p]->0, p)
}

/// Every cell holds a digit.
pub open spec fn full(g: Seq<Cell>) -> bool {
    forall|p: int| 0 <= p < NB_CELL ==> (#[trigger] g[p]) is Some
}

/// The cells of a grid, row by row; a consistent grid may still have no
/// completion.
#[derive(Clone, Debug, PartialEq, Eq)]
pub struct Grid {
    pub data: [Cell; NB_CELL],
}

impl View for Grid {
    type V = Seq<Cell>;

    open spec fn view(&self) -> Seq<Cell> {
        self.data@
    }
}

/// Where a position stands: its row and column, and the block they give.
pub proof fn lemma_position(q: int)
    requires
        0 <= q < NB_CELL,
    ensures
        q == row_of(q) * 4 + col_of(q),
        0 <= row_of(q) < 4,
        0 <= col_of(q) < 4,
        row_of(q) / 2 * 2 <= row_of(q) < row_of(q) / 2 * 2 + 2,
        col_of(q) / 2 * 2 <= col_of(q) < col_of(q) / 2 * 2 + 2,
        0 <= row_of(q) / 2 < 2,
        0 <= col_of(q) / 2 < 2,
        block_of(q) == row_of(q) / 2 * 2 + col_of(q) / 2,
{
    assert(q == 0 || q == 1 || q == 2 || q == 3 || q == 4 || q == 5 || q == 6 || q == 7 || q == 8
        || q == 9 || q == 10 || q == 11 || q == 12 || q == 13 || q == 14 || q == 15);
}

/// `lemma_position` for every position at once.
pub proof fn lemma_positions()
    ensures
        forall|q: int|
            #![trigger row_of(q)]
            #![trigger col_of(q)]
            #![trigger block_of(q)]
            0 <= q < NB_CELL ==> {
                &&& q == row_of(q) * 4 + col_of(q)
                &&& 0 <= row_of(q) < 4
                &&& 0 <= col_of(q) < 4
                &&& row_of(q) / 2 * 2 <= row_of(q) < row_of(q) / 2 * 2 + 2
                &&& col_of(q) / 2 * 2 <= col_of(q) < col_of(q) / 2 * 2 + 2
                &&& 0 <= row_of(q) / 2 < 2
                &&& 0 <= col_of(q) / 2 < 2
                &&& block_of(q) == row_of(q) / 2 * 2 + col_of(q) / 2
            },
{
    assert forall|q: int| 0 <= q < NB_CELL implies {
        &&& q == row_of(q) * 4 + col_of(q)
        &&& 0 <= row_of(q) < 4
        &&& 0 <= col_of(q) < 4
        &&& row_of(q) / 2 * 2 <= row_of(q) < row_of(q) / 2 * 2 + 2
        &&& col_of(q) / 2 * 2 <= col_of(q) < col_of(q) / 2 * 2 + 2
        &&& 0 <= row_of(q) / 2 < 2
        &&& 0 <= col_of(q) / 2 < 2
        &&& block_of(q) == row_of(q) / 2 * 2 + col_of(q) / 2
    } by {
        lemma_position(q);
    }
}

/// The cell that a small integer stands for: 0 is empty, `k` the `k`-th digit.
pub open spec fn cell_of_u8(v: u8) -> Cell {
    if v == 1 {
        Some(Digit::One)
    } else if v == 2 {
        Some(Digit::Two)
    } else if v == 3 {
        Some(Digit::Three)
    } else if v == 4 {
        Some(Digit::Four)
    } else {
        None
    }
}

fn cell_from_u8(v: u8) -> (r: Cell)
    requires
        v as int <= NB_DIGIT,
    ensures
        r == cell_of_u8(v),
        cell_value(r) == v as int,
{
    match v {
        1 => Some(Digit::One),
        2 => Some(Digit::Two),
        3 => Some(Digit::Three),
        4 => Some(Digit::Four),
        _ => None,
    }
}

fn u8_of_cell(c: Cell) -> (r: u8)
    ensures
        r as int == cell_value(c),
{
    match c {
        None => 0,
        Some(Digit::One) => 1,
        Some(Digit::Two) => 2,
        Some(Digit::Three) => 3,
        Some(Digit::Four) => 4,
    }
}

/// The positions `0..n`, for running a step `n` times.
pub fn times(n: usize) -> (r: core::ops::Range<usize>)
    ensures
        r.start == 0,
        r.end == n,
{
    0..n
}

/// Whether the cell holds exactly `d`.
fn holds(c: Cell, d: Digit) -> (r: bool)
    ensures
        r == (c == Some(d)),
{
    match c {
        Some(x) => x == d,
        None => false,
    }
}

impl Grid {
    pub fn empty() -> (r: Grid)
        ensures
            r@ == Seq::new(NB_CELL as nat, |i: int| None::<Digit>),
    {
        let r = Grid { data: [None; NB_CELL] };
        assert(r@ =~= Seq::new(NB_CELL as nat, |i: int| None::<Digit>));
        r
    }

    /// The grid written as small integers, row by row: 0 for an empty cell,
    /// `k` for the `k`-th digit.
    pub fn from_u8s(array: [u8; NB_CELL]) -> (r: Grid)
        requires
            forall|i: int| 0 <= i < NB_CELL ==> array[i] as int <= NB_DIGIT,
        ensures
            r@ == Seq::new(NB_CELL as nat, |i: int| cell_of_u8(array[i])),
    {
        let mut data: [Cell; NB_CELL] = [None; NB_CELL];
        let mut i: usize = 0;
        while i < NB_CELL
            invariant
                i <= NB_CELL,
                forall|k: int| 0 <= k < NB_CELL ==> array[k] as int <= NB_DIGIT,
                forall|k: int| 0 <= k < i ==> data@[k] == cell_of_u8(array[k]),
            decreases NB_CELL - i,
        {
            data[i] = cell_from_u8(array[i]);
            i = i + 1;
        }
        let r = Grid { data };
        assert(r@ =~= Seq::new(NB_CELL as nat, |i: int| cell_of_u8(array[i])));
        r
    }

    /// The cells as small integers, row by row: 0 for an empty cell, `k` for
    /// the `k`-th digit.
    pub fn to_u8s(&self) -> (r: [u8; NB_CELL])
        ensures
            forall|i: int| 0 <= i < NB_CELL ==> r[i] as int == cell_value(self@[i]),
    {
        let mut r: [u8; NB_CELL] = [0u8; NB_CELL];
        let mut i: usize = 0;
        while i < NB_CELL
            invariant
                i <= NB_CELL,
                forall|k: int| 0 <= k < i ==> r[k] as int == cell_value(self@[k]),
            decreases NB_CELL - i,
        {
            r[i] = u8_of_cell(self.data[i]);
            i = i + 1;
        }
        r
    }

    /// A copy of the grid that shares nothing with it.
    pub fn duplicate(&self) -> (r: Grid)
        ensures
            r@ == self@,
    {
        Grid { data: self.data }
    }

    /// Whether `d` may be placed at `pos`: the row, the column and the block of
    /// `pos` are scanned, `pos` itself left out.
    pub fn can_accept_digit_at_pos(&self, d: Digit, pos: usize) -> (r: bool)
        requires
            pos < NB_CELL,
        ensures
            r == can_accept_spec(self@, d, pos as int),
    {
        let ghost g = self@;
        let ghost p = pos as int;
        proof {
            lemma_positions();
        }
        // row
        let first_in_row: usize = pos / NB_DIGIT * NB_DIGIT;
        let mut column: usize = 0;
        while column < NB_DIGIT
            invariant
                first_in_row == row_of(p) * 4,
                pos < NB_CELL,
                p == pos as int,
                g == self@,
                column <= NB_DIGIT,
                forall|q: int| 0 <= q < NB_CELL && q != p && row_of(q) == row_of(p) && col_of(q) < column
                    ==> #[trigger] g[q] != Some(d),
            decreases NB_DIGIT - column,
        {
            proof {
                lemma_positions();
                lemma_position(p);
            }
            let q = first_in_row + column;
            if q != pos && holds(self.data[q], d) {
                assert(!can_accept_spec(self@, d, p)) by {
                    lemma_position(q as int);
                    assert(self@[q as int] == Some(d));
                    assert(row_of(q as int) == row_of(p));
                    assert(shares_unit(p, q as int));
                }
                return false;
            }
            column = column + 1;
        }
        proof {
            lemma_positions();
        }
        // column
        let first_in_column: usize = pos % NB_DIGIT;
        let mut line: usize = 0;
        while line < NB_DIGIT
            invariant
                first_in_column == col_of(p),
                pos < NB_CELL,
                p == pos as int,
                g == self@,
                line <= NB_DIGIT,
                forall|q: int| 0 <= q < NB_CELL && q != p && row_of(q) == row_of(p)
                    ==> #[trigger] g[q] != Some(d),
                forall|q: int| 0 <= q < NB_CELL && q != p && col_of(q) == col_of(p) && row_of(q) < line
                    ==> #[trigger] g[q] != Some(d),
            decreases NB_DIGIT - line,
        {
            proof {
                lemma_positions();
                lemma_position(p);
            }
            let q = first_in_column + line * NB_DIGIT;
            if q != pos && holds(self.data[q], d) {
                assert(!can_accept_spec(self@, d, p)) by {
                    lemma_position(q as int);
                    assert(self@[q as int] == Some(d));
                    assert(col_of(q as int) == col_of(p));
                    assert(shares_unit(p, q as int));
                }
                return false;
            }
            line = line + 1;
        }
        proof {
            lemma_positions();
        }
        // block
        let first_line: usize = pos / NB_DIGIT / BLOCK_SIDE * BLOCK_SIDE;
        let first_column: usize = pos % NB_DIGIT / BLOCK_SIDE * BLOCK_SIDE;
        let mut y: usize = 0;
        while y < BLOCK_SIDE
            invariant
                first_line == row_of(p) / 2 * 2,
                first_column == col_of(p) / 2 * 2,
                pos < NB_CELL,
                p == pos as int,
                g == self@,
                y <= BLOCK_SIDE,
                forall|q: int| 0 <= q < NB_CELL && q != p && row_of(q) == row_of(p)
                    ==> #[trigger] g[q] != Some(d),
                forall|q: int| 0 <= q < NB_CELL && q != p && col_of(q) == col_of(p)
                    ==> #[trigger] g[q] != Some(d),
                forall|q: int| 0 <= q < NB_CELL && q != p && block_of(q) == block_of(p)
                    && row_of(q) < first_line + y ==> #[trigger] g[q] != Some(d),
            decreases BLOCK_SIDE - y,
        {
            proof {
                lemma_positions();
            }
            let mut x: usize = 0;
            while x < BLOCK_SIDE
                invariant
                    first_line == row_of(p) / 2 * 2,
                    first_column == col_of(p) / 2 * 2,
                    pos < NB_CELL,
                    p == pos as int,
                p == pos as int,
                    g == self@,
                    y < BLOCK_SIDE,
                    x <= BLOCK_SIDE,
                    forall|q: int| 0 <= q < NB_CELL && q != p && row_of(q) == row_of(p)
                        ==> #[trigger] g[q] != Some(d),
                    forall|q: int| 0 <= q < NB_CELL && q != p && col_of(q) == col_of(p)
                        ==> #[trigger] g[q] != Some(d),
                    forall|q: int| 0 <= q < NB_CELL && q != p && block_of(q) == block_of(p)
                        && row_of(q) < first_line + y ==> #[trigger] g[q] != Some(d),
                    forall|q: int| 0 <= q < NB_CELL && q != p && block_of(q) == block_of(p)
                        && row_of(q) == first_line + y && col_of(q) < first_column + x
                        ==> #[trigger] g[q] != Some(d),
                decreases BLOCK_SIDE - x,
            {
                proof {
                lemma_positions();
                lemma_position(p);
            }
            let q = (first_line + y) * NB_DIGIT + first_column + x;
                if q != pos && holds(self.data[q], d) {
                    assert(!can_accept_spec(self@, d, p)) by {
                    lemma_position(q as int);
                    assert(self@[q as int] == Some(d));
                        assert(block_of(q as int) == block_of(p));
                        assert(shares_unit(p, q as int));
                    }
                    return false;
                }
                x = x + 1;
            }
            y = y + 1;
        }
        proof {
            lemma_positions();
        }
        true
    }
}

} // verus!
