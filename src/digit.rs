use vstd::prelude::*;

verus! {

/// Side of one block of the grid.
pub const BLOCK_SIDE: usize = 2;

/// Number of symbols, which is also the side of the grid.
pub const NB_DIGIT: usize = 4;

/// Number of cells of the grid.
pub const NB_CELL: usize = 16;

/// One symbol of the closed, ordered alphabet a cell may hold.
#[derive(Debug, Clone, Copy, PartialEq, Eq, Structural)]
pub enum Digit {
    One,
    Two,
    Three,
    Four,
}

/// A cell is either empty or holds one digit.
pub type Cell = Option<Digit>;

impl Digit {
    /// The rank of the digit in the alphabet, from 1 to `NB_DIGIT`.
    pub open spec fn value(self) -> int {
        match self {
            Digit::One => 1,
            Digit::Two => 2,
            Digit::Three => 3,
            Digit::Four => 4,
        }
    }

    pub fn to_char(&self) -> (c: char)
        ensures
            c == digit_char(*self),
    {
        match self {
            Digit::One => '1',
            Digit::Two => '2',
            Digit::Three => '3',
            Digit::Four => '4',
        }
    }
}

/// The glyph that shows a digit.
pub open spec fn digit_char(d: Digit) -> char {
    match d {
        Digit::One => '1',
        Digit::Two => '2',
        Digit::Three => '3',
        Digit::Four => '4',
    }
}

/// The value of a cell read as a numeral digit: 0 when empty.
pub open spec fn cell_value(c: Cell) -> int {
    match c {
        None => 0,
        Some(d) => d.value(),
    }
}

/// All digits, in increasing order.
pub open spec fn all_digits() -> Seq<Digit> {
    seq![Digit::One, Digit::Two, Digit::Three, Digit::Four]
}

/// The digits strictly greater than what the cell holds, in increasing order
/// (all of them for an empty cell).
pub open spec fn digits_after(c: Cell) -> Seq<Digit> {
    all_digits().subrange(cell_value(c), NB_DIGIT as int)
}

/// The digits, in increasing order.
pub fn all_digits_vec() -> (r: Vec<Digit>)
    ensures
        r@ == all_digits(),
{
    let r = vec![Digit::One, Digit::Two, Digit::Three, Digit::Four];
    assert(r@ =~= all_digits());
    r
}

/// Candidates for re-deciding a cell: the digits that come after its content.
pub trait Next: Sized {
    spec fn next_spec(&self) -> Seq<Digit>;

    fn get_all_next(&self) -> (r: Vec<Digit>)
        ensures
            r@ == self.next_spec(),
    ;
}

impl Next for Cell {
    open spec fn next_spec(&self) -> Seq<Digit> {
        digits_after(*self)
    }

    fn get_all_next(&self) -> (r: Vec<Digit>) {
        let all = all_digits_vec();
        let start: usize = match self {
            None => 0,
            Some(Digit::One) => 1,
            Some(Digit::Two) => 2,
            Some(Digit::Three) => 3,
            Some(Digit::Four) => 4,
        };
        let mut r: Vec<Digit> = Vec::new();
        let mut i: usize = start;
        while i < all.len()
            invariant
                all@ == all_digits(),
                start == cell_value(*self),
                start <= i <= all.len(),
                r@ == all@.subrange(start as int, i as int),
            decreases all.len() - i,
        {
            r.push(all[i]);
            i = i + 1;
            assert(r@ =~= all@.subrange(start as int, i as int));
        }
        r
    }
}

} // verus!
