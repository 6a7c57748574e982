use vstd::prelude::*;
use crate::digit::{Cell, Digit, NB_CELL, Next, all_digits_vec};
use crate::grid::{Grid, consistent, full};
use crate::model::{SearchState, first_fit, advance, redecide, backtrack, progress, run, stops, first_stop, next_step};
use crate::render::render;
use crate::laws::{search_inv, agrees_with_givens, numeral, pow5, lex_less, lex_less_at, lemma_progress, lemma_lex_numeral, lemma_numeral_bound};

verus! {

/// A working grid and its fill cursor: every cell before `fill_until` holds a
/// digit; cells from the cursor on may hold a given or be empty.
pub struct PartialySolvedGrid {
    pub grid: Grid,
    pub fill_until: usize,
}

/// Scans `cands` in order for the first digit that may stand at `pos`.
fn first_fitting(grid: &Grid, pos: usize, cands: &Vec<Digit>) -> (r: Option<Digit>)
    requires
        pos < NB_CELL,
    ensures
        r == first_fit(grid@, pos as int, cands@),
{
    let mut i: usize = 0;
    assert(cands@.subrange(0, cands@.len() as int) =~= cands@);
    while i < cands.len()
        invariant
            pos < NB_CELL,
            i <= cands.len(),
            first_fit(grid@, pos as int, cands@) == first_fit(grid@, pos as int, cands@.subrange(i as int, cands@.len() as int)),
        decreases cands.len() - i,
    {
        let d = cands[i];
        let ghost rest = cands@.subrange(i as int, cands@.len() as int);
        assert(rest.drop_first() =~= cands@.subrange(i + 1, cands@.len() as int));
        if grid.can_accept_digit_at_pos(d, pos) {
            return Some(d);
        }
        i = i + 1;
    }
    assert(cands@.subrange(i as int, cands@.len() as int).len() == 0);
    None
}

impl PartialySolvedGrid {
    /// The bordered diagram of the working grid.
    pub fn to_string(&self) -> (r: String)
        ensures
            r@ == render(self.grid@),
    {
        self.grid.to_string()
    }

    /// Passes over a given at the cursor, or places there the smallest digit
    /// that fits; reports whether the cursor moved.
    pub fn try_fill_next_cell(&mut self) -> (r: bool)
        ensures
            ({
                let a = advance(old(self).grid@, old(self).fill_until as int);
                final(self).grid@ == a.0 && final(self).fill_until as int == a.1 && r == a.2
            }),
    {
        if self.fill_until >= NB_CELL {
            return false;
        }
        match self.grid.data[self.fill_until] {
            Some(_) => {
                self.fill_until = self.fill_until + 1;
                true
            },
            None => {
                let all = all_digits_vec();
                match first_fitting(&self.grid, self.fill_until, &all) {
                    Some(d) => {
                        self.grid.data[self.fill_until] = Some(d);
                        self.fill_until = self.fill_until + 1;
                        true
                    },
                    None => false,
                }
            },
        }
    }

    /// Clears the cell at `cell_index` and places there the smallest greater
    /// digit that fits; where none does, the cell stays empty and the cursor
    /// retreats to it.
    pub fn try_increment_cell_at_index(&mut self, cell_index: usize) -> (r: bool)
        requires
            cell_index < NB_CELL,
        ensures
            ({
                let a = redecide(old(self).grid@, old(self).fill_until as int, cell_index as int);
                final(self).grid@ == a.0 && final(self).fill_until as int == a.1 && r == a.2
            }),
    {
        let former: Cell = self.grid.data[cell_index];
        self.grid.data[cell_index] = None;
        let cands = former.get_all_next();
        match first_fitting(&self.grid, cell_index, &cands) {
            Some(d) => {
                self.grid.data[cell_index] = Some(d);
                true
            },
            None => {
                self.fill_until = cell_index;
                false
            },
        }
    }
}

/// A complete, consistent grid: one solution.
#[derive(Debug)]
pub struct SolvedGrid {
    pub grid: Grid,
}

impl SolvedGrid {
    /// The bordered diagram of the solution.
    pub fn to_string(&self) -> (r: String)
        ensures
            r@ == render(self.grid@),
    {
        self.grid.to_string()
    }

    pub open spec fn wf(&self) -> bool {
        full(self.grid@) && consistent(self.grid@)
    }

    /// A copy of a working grid whose cursor has reached the end.
    pub fn from_psg(psg: &PartialySolvedGrid) -> (r: SolvedGrid)
        requires
            psg.fill_until == NB_CELL,
            full(psg.grid@),
            consistent(psg.grid@),
        ensures
            r.grid@ == psg.grid@,
            r.wf(),
    {
        SolvedGrid { grid: psg.grid.duplicate() }
    }
}

/// What a call for the next solution hands out, as a grid.
pub open spec fn solution_view(r: Option<SolvedGrid>) -> Option<Seq<Cell>> {
    match r {
        Some(s) => Some(s.grid@),
        None => None,
    }
}

/// A backtracking search over the completions of a starting grid, which it
/// only reads.
pub struct GridSolver<'a> {
    pub initial_grid: &'a Grid,
    pub psg: PartialySolvedGrid,
    pub exhausted: bool,
}

impl<'a> GridSolver<'a> {
    /// The starting grid.
    pub open spec fn init(&self) -> Seq<Cell> {
        self.initial_grid@
    }

    /// The working grid, the cursor and whether the search is exhausted.
    pub open spec fn state(&self) -> SearchState {
        SearchState { grid: self.psg.grid@, fill: self.psg.fill_until as int, exhausted: self.exhausted }
    }

    /// The search invariant holds of the current state.
    pub open spec fn inv(&self) -> bool {
        search_inv(self.init(), self.state())
    }

    /// A search at its start: a copy of the grid, the cursor at the first cell.
    pub fn from_grid(grid: &'a Grid) -> (r: GridSolver<'a>)
        requires
            consistent(grid@),
        ensures
            r.init() == grid@,
            r.state() == (SearchState { grid: grid@, fill: 0, exhausted: false }),
            r.inv(),
    {
        GridSolver {
            initial_grid: grid,
            psg: PartialySolvedGrid { grid: grid.duplicate(), fill_until: 0 },
            exhausted: false,
        }
    }

    /// One search step: fill the next cell, or else backtrack to the latest
    /// guess that can take a greater digit. Reports false, from then on, once
    /// no solution is left.
    pub fn make_progress(&mut self) -> (r: bool)
        requires
            old(self).inv(),
        ensures
            final(self).init() == old(self).init(),
            final(self).state() == progress(old(self).init(), old(self).state()),
            r == !final(self).exhausted,
            final(self).inv(),
    {
        proof {
            lemma_progress(self.init(), self.state());
        }
        if self.exhausted {
            return false;
        }
        if self.psg.try_fill_next_cell() {
            return true;
        }
        let ghost init = self.init();
        let ghost g0 = self.psg.grid@;
        let ghost f0 = self.psg.fill_until as int;
        let mut j: usize = self.psg.fill_until;
        while j > 0
            invariant
                init == self.init(),
                init == old(self).init(),
                search_inv(init, progress(init, old(self).state())),
                j <= self.psg.fill_until <= NB_CELL,
                self.initial_grid@.len() == NB_CELL,
                !self.exhausted,
                backtrack(init, self.psg.grid@, self.psg.fill_until as int, j as int)
                    == backtrack(init, g0, f0, f0),
                progress(init, old(self).state()) == (SearchState {
                    grid: backtrack(init, g0, f0, f0).0,
                    fill: backtrack(init, g0, f0, f0).1,
                    exhausted: !backtrack(init, g0, f0, f0).2,
                }),
            decreases j,
        {
            j = j - 1;
            let given = match self.initial_grid.data[j] {
                Some(_) => true,
                None => false,
            };
            if !given {
                if self.psg.try_increment_cell_at_index(j) {
                    return true;
                }
            }
        }
        self.exhausted = true;
        false
    }

    /// Runs the search to its next solution and hands out a copy of it, with
    /// the search already stepped past it; `None` once the search is
    /// exhausted, then and on every later call.
    pub fn next(&mut self) -> (r: Option<SolvedGrid>)
        requires
            old(self).inv(),
        ensures
            final(self).init() == old(self).init(),
            final(self).inv(),
            next_step(old(self).init(), old(self).state(), solution_view(r), final(self).state()),
            old(self).exhausted ==> r is None && final(self).state() == old(self).state(),
            r is None ==> final(self).exhausted,
            r matches Some(sol) ==> sol.wf() && agrees_with_givens(old(self).init(), sol.grid@),
    {
        let ghost init = self.init();
        let ghost s0 = self.state();
        let ghost mut n: nat = 0;
        if self.exhausted {
            assert(first_stop(init, s0, 0));
            return None;
        }
        loop
            invariant
                init == self.init(),
                init == old(self).init(),
                s0 == old(self).state(),
                !s0.exhausted,
                self.inv(),
                !self.exhausted,
                self.state() == run(init, s0, n),
                forall|m: nat| m < n ==> !stops(#[trigger] run(init, s0, m)),
            decreases (pow5(NB_CELL as nat) - numeral(self.psg.grid@)) * 17 + (NB_CELL - self.psg.fill_until),
        {
            if self.psg.fill_until == NB_CELL {
                assert(first_stop(init, s0, n));
                let result = SolvedGrid::from_psg(&self.psg);
                self.make_progress();
                return Some(result);
            }
            let ghost before = self.state();
            proof {
                lemma_progress(init, before);
                lemma_numeral_bound(before.grid);
            }
            if !self.make_progress() {
                assert(run(init, s0, n + 1) == progress(init, run(init, s0, n)));
                assert(first_stop(init, s0, n + 1));
                return None;
            }
            proof {
                assert(run(init, s0, n + 1) == progress(init, run(init, s0, n)));
                n = n + 1;
                lemma_numeral_bound(self.psg.grid@);
                if lex_less(before.grid, self.psg.grid@) {
                    let k = choose|k: int| lex_less_at(before.grid, self.psg.grid@, k);
                    lemma_lex_numeral(before.grid, self.psg.grid@, k);
                }
            }
        }
    }
}

impl Grid {
    /// A search over the completions of this grid.
    pub fn try_solve(&self) -> (r: GridSolver<'_>)
        requires
            consistent(self@),
        ensures
            r.init() == self@,
            r.state() == (SearchState { grid: self@, fill: 0, exhausted: false }),
            r.inv(),
    {
        GridSolver::from_grid(self)
    }
}

} // verus!
