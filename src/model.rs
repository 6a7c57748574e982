use vstd::prelude::*;
use crate::digit::{Cell, Digit, NB_CELL, all_digits, digits_after};
use crate::grid::can_accept_spec;

verus! {

/// The state of a search: the working grid, the fill cursor (every cell
/// before it is decided) and whether the search has run out of solutions.
pub struct SearchState {
    pub grid: Seq<Cell>,
    pub fill: int,
    pub exhausted: bool,
}

/// The first of `cands` that may stand at `p`.
pub open spec fn first_fit(g: Seq<Cell>, p: int, cands: Seq<Digit>) -> Option<Digit>
    decreases cands.len(),
{
    if cands.len() == 0 {
        None
    } else if can_accept_spec(g, cands[0], p) {
        Some(cands[0])
    } else {
        first_fit(g, p, cands.drop_first())
    }
}

/// One step forward: pass over a given at the cursor, or place the smallest
/// digit that fits there. The flag says whether the cursor moved.
pub open spec fn advance(g: Seq<Cell>, fill: int) -> (Seq<Cell>, int, bool) {
    if fill >= NB_CELL {
        (g, fill, false)
    } else if g[fill] is Some {
        (g, fill + 1, true)
    } else {
        match first_fit(g, fill, all_digits()) {
            Some(d) => (g.update(fill, Some(d)), fill + 1, true),
            None => (g, fill, false),
        }
    }
}

/// Re-decide the cell at `idx`: clear it and place the smallest digit greater
/// than its former content that fits. Where none fits the cell stays empty and
/// the cursor retreats to it.
pub open spec fn redecide(g: Seq<Cell>, fill: int, idx: int) -> (Seq<Cell>, int, bool) {
    let cleared = g.update(idx, None);
    match first_fit(cleared, idx, digits_after(g[idx])) {
        Some(d) => (cleared.update(idx, Some(d)), fill, true),
        None => (cleared, idx, false),
    }
}

/// Backtracking over the positions before `j`, latest first: givens of `init`
/// are passed over, each guess is re-decided until one succeeds.
pub open spec fn backtrack(init: Seq<Cell>, g: Seq<Cell>, fill: int, j: int) -> (
    Seq<Cell>,
    int,
    bool,
)
    decreases j,
{
    if j <= 0 {
        (g, fill, false)
    } else if init[j - 1] is Some {
        backtrack(init, g, fill, j - 1)
    } else {
        let r = redecide(g, fill, j - 1);
        if r.2 {
            r
        } else {
            backtrack(init, r.0, r.1, j - 1)
        }
    }
}

/// One search step: advance, or else backtrack; when both fail the search is
/// exhausted, and an exhausted search stays as it is.
pub open spec fn progress(init: Seq<Cell>, s: SearchState) -> SearchState {
    if s.exhausted {
        s
    } else {
        let a = advance(s.grid, s.fill);
        if a.2 {
            SearchState { grid: a.0, fill: a.1, exhausted: false }
        } else {
            let b = backtrack(init, s.grid, s.fill, s.fill);
            SearchState { grid: b.0, fill: b.1, exhausted: !b.2 }
        }
    }
}

/// The state after `n` search steps.
pub open spec fn run(init: Seq<Cell>, s: SearchState, n: nat) -> SearchState
    decreases n,
{
    if n == 0 {
        s
    } else {
        progress(init, run(init, s, (n - 1) as nat))
    }
}

/// A state at which the search for the next solution stops: solved or exhausted.
pub open spec fn stops(s: SearchState) -> bool {
    s.fill == NB_CELL || s.exhausted
}

/// `n` is the number of steps after which the search first stops.
pub open spec fn first_stop(init: Seq<Cell>, s: SearchState, n: nat) -> bool {
    &&& stops(run(init, s, n))
    &&& forall|m: nat| m < n ==> !stops(#[trigger] run(init, s, m))
}

/// Asking for the next solution from `s` gives `out` and leaves the search at
/// `t`: the search runs to its first stop; a solved state is handed out and
/// one more step taken, an exhausted one gives nothing.
pub open spec fn next_step(init: Seq<Cell>, s: SearchState, out: Option<Seq<Cell>>, t: SearchState) -> bool {
    exists|n: nat|
        #[trigger] first_stop(init, s, n) && {
            let u = run(init, s, n);
            if u.exhausted {
                out == None::<Seq<Cell>> && t == u
            } else {
                out == Some(u.grid) && t == progress(init, u)
            }
        }
}

} // verus!
