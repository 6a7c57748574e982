use vstd::prelude::*;
use crate::digit::{Cell, Digit, NB_CELL, NB_DIGIT, all_digits, digits_after, cell_value};
use crate::grid::{can_accept_spec, consistent, full, shares_unit};
use crate::model::{SearchState, first_fit, advance, redecide, backtrack, progress, run, stops, first_stop, next_step};

verus! {

/// What holds of every state a search passes through: the cells before the
/// cursor are decided, those from the cursor on are as in the starting grid,
/// givens are never changed, and the grid stays consistent.
pub open spec fn search_inv(init: Seq<Cell>, s: SearchState) -> bool {
    &&& init.len() == NB_CELL
    &&& s.grid.len() == NB_CELL
    &&& 0 <= s.fill <= NB_CELL
    &&& forall|i: int| 0 <= i < s.fill ==> (#[trigger] s.grid[i]) is Some
    &&& forall|i: int| s.fill <= i < NB_CELL ==> #[trigger] s.grid[i] == init[i]
    &&& agrees_with_givens(init, s.grid)
    &&& consistent(s.grid)
}

/// `g` holds every given of `init` at its place.
pub open spec fn agrees_with_givens(init: Seq<Cell>, g: Seq<Cell>) -> bool {
    forall|i: int| 0 <= i < NB_CELL && (#[trigger] init[i]) is Some ==> g[i] == init[i]
}

/// `a` and `b` agree before `k` and the cell at `k` is greater in `b`.
pub open spec fn lex_less_at(a: Seq<Cell>, b: Seq<Cell>, k: int) -> bool {
    &&& 0 <= k < a.len()
    &&& k < b.len()
    &&& forall|i: int| 0 <= i < k ==> a[i] == b[i]
    &&& cell_value(a[k]) < cell_value(b[k])
}

/// Read as numerals, digit by digit from the first cell (an empty cell being
/// zero), `a` is smaller than `b`.
pub open spec fn lex_less(a: Seq<Cell>, b: Seq<Cell>) -> bool {
    exists|k: int| #[trigger] lex_less_at(a, b, k)
}

pub open spec fn lex_le(a: Seq<Cell>, b: Seq<Cell>) -> bool {
    a == b || lex_less(a, b)
}

/// Powers of the base in which a grid is read as a number.
pub open spec fn pow5(n: nat) -> int
    decreases n,
{
    if n == 0 {
        1
    } else {
        5 * pow5((n - 1) as nat)
    }
}

/// The grid read as a base-5 number, first cell most significant.
pub open spec fn numeral(s: Seq<Cell>) -> int
    decreases s.len(),
{
    if s.len() == 0 {
        0
    } else {
        cell_value(s[0]) * pow5((s.len() - 1) as nat) + numeral(s.drop_first())
    }
}

pub proof fn lemma_cell_value_range(c: Cell)
    ensures
        0 <= cell_value(c) <= NB_DIGIT,
{
}

pub proof fn lemma_numeral_bound(s: Seq<Cell>)
    ensures
        0 <= numeral(s) < pow5(s.len()),
    decreases s.len(),
{
    if s.len() > 0 {
        lemma_numeral_bound(s.drop_first());
        let p = pow5((s.len() - 1) as nat);
        let v = cell_value(s[0]);
        lemma_cell_value_range(s[0]);
        assert(0 <= v * p <= 4 * p) by (nonlinear_arith)
            requires
                0 <= v <= 4,
                0 <= p,
        ;
    }
}

pub proof fn lemma_lex_numeral(a: Seq<Cell>, b: Seq<Cell>, k: int)
    requires
        a.len() == b.len(),
        lex_less_at(a, b, k),
    ensures
        numeral(a) < numeral(b),
    decreases k,
{
    let p = pow5((a.len() - 1) as nat);
    lemma_numeral_bound(a.drop_first());
    lemma_numeral_bound(b.drop_first());
    if k == 0 {
        let va = cell_value(a[0]);
        let vb = cell_value(b[0]);
        assert(va * p + p <= vb * p) by (nonlinear_arith)
            requires
                va + 1 <= vb,
                0 <= p,
        ;
    } else {
        assert(a[0] == b[0]);
        assert(lex_less_at(a.drop_first(), b.drop_first(), k - 1));
        lemma_lex_numeral(a.drop_first(), b.drop_first(), k - 1);
    }
}

pub proof fn lemma_lex_trans(a: Seq<Cell>, b: Seq<Cell>, c: Seq<Cell>)
    requires
        lex_le(a, b),
        lex_le(b, c),
    ensures
        lex_le(a, c),
        lex_less(a, b) || lex_less(b, c) ==> lex_less(a, c),
{
    if lex_less(a, b) && lex_less(b, c) {
        let k1 = choose|k: int| lex_less_at(a, b, k);
        let k2 = choose|k: int| lex_less_at(b, c, k);
        let k = if k1 < k2 { k1 } else { k2 };
        assert(lex_less_at(a, c, k));
    }
}

/// The digit that `first_fit` picks is one of the candidates and may stand there.
pub proof fn lemma_first_fit(g: Seq<Cell>, p: int, cands: Seq<Digit>)
    ensures
        first_fit(g, p, cands) matches Some(d) ==> can_accept_spec(g, d, p) && cands.contains(d),
    decreases cands.len(),
{
    if cands.len() > 0 && !can_accept_spec(g, cands[0], p) {
        lemma_first_fit(g, p, cands.drop_first());
        if let Some(d) = first_fit(g, p, cands) {
            let i = choose|i: int| 0 <= i < cands.drop_first().len() && cands.drop_first()[i] == d;
            assert(cands[i + 1] == d);
        }
    }
}

/// The candidates after a cell's content are greater than it.
pub proof fn lemma_digits_after(c: Cell, d: Digit)
    requires
        digits_after(c).contains(d),
    ensures
        d.value() > cell_value(c),
{
    let i = choose|i: int| 0 <= i < digits_after(c).len() && digits_after(c)[i] == d;
    let v = cell_value(c);
    assert(all_digits()[0] == Digit::One);
    assert(all_digits()[1] == Digit::Two);
    assert(all_digits()[2] == Digit::Three);
    assert(all_digits()[3] == Digit::Four);
    assert(all_digits()[v + i] == d);
}

/// Placing a digit where it may stand keeps a grid consistent.
pub proof fn lemma_place(g: Seq<Cell>, p: int, d: Digit)
    requires
        g.len() == NB_CELL,
        0 <= p < NB_CELL,
        consistent(g),
        can_accept_spec(g, d, p),
    ensures
        consistent(g.update(p, Some(d))),
{
    let h = g.update(p, Some(d));
    assert forall|q: int| 0 <= q < NB_CELL && (#[trigger] h[q]) is Some implies can_accept_spec(h, h[q]->0, q) by {
        if q != p {
            let e = h[q]->0;
            assert(can_accept_spec(g, e, q));
            assert forall|r: int| 0 <= r < NB_CELL && r != q && shares_unit(q, r) implies #[trigger] h[r] != Some(e) by {
                if r == p {
                    assert(shares_unit(p, q));
                    assert(g[q] != Some(d));
                }
            }
        }
    }
}

/// Clearing a cell keeps a grid consistent.
pub proof fn lemma_clear(g: Seq<Cell>, p: int)
    requires
        g.len() == NB_CELL,
        0 <= p < NB_CELL,
        consistent(g),
    ensures
        consistent(g.update(p, None)),
{
    let h = g.update(p, None);
    assert forall|q: int| 0 <= q < NB_CELL && (#[trigger] h[q]) is Some implies can_accept_spec(h, h[q]->0, q) by {
        let e = h[q]->0;
        assert(can_accept_spec(g, e, q));
        assert forall|r: int| 0 <= r < NB_CELL && r != q && shares_unit(q, r) implies #[trigger] h[r] != Some(e) by {
            if r != p {
                assert(g[r] != Some(e));
            }
        }
    }
}

/// What holds while backtracking from the state `g0` has reached the
/// positions before `j`: those are as in `g0`, the ones from `j` up to the
/// cursor are givens.
pub open spec fn backtrack_inv(init: Seq<Cell>, g0: Seq<Cell>, g: Seq<Cell>, fill: int, j: int) -> bool {
    &&& init.len() == NB_CELL
    &&& g0.len() == NB_CELL
    &&& g.len() == NB_CELL
    &&& 0 <= j <= fill <= NB_CELL
    &&& forall|i: int| 0 <= i < j ==> (#[trigger] g[i]) == g0[i] && g[i] is Some
    &&& forall|i: int| j <= i < fill ==> (#[trigger] init[i]) is Some
    &&& forall|i: int| fill <= i < NB_CELL ==> #[trigger] g[i] == init[i]
    &&& agrees_with_givens(init, g)
    &&& consistent(g)
}

pub proof fn lemma_backtrack(init: Seq<Cell>, g0: Seq<Cell>, g: Seq<Cell>, fill: int, j: int)
    requires
        backtrack_inv(init, g0, g, fill, j),
    ensures
        ({
            let b = backtrack(init, g, fill, j);
            &&& search_inv(init, SearchState { grid: b.0, fill: b.1, exhausted: !b.2 })
            &&& b.2 ==> lex_less(g0, b.0)
        }),
    decreases j,
{
    if j > 0 {
        let k = j - 1;
        if init[k] is Some {
            lemma_backtrack(init, g0, g, fill, k);
        } else {
            let cleared = g.update(k, None);
            lemma_clear(g, k);
            lemma_first_fit(cleared, k, digits_after(g[k]));
            let r = redecide(g, fill, k);
            match first_fit(cleared, k, digits_after(g[k])) {
                Some(d) => {
                    lemma_digits_after(g[k], d);
                    lemma_place(cleared, k, d);
                    assert(lex_less_at(g0, r.0, k));
                    assert forall|i: int| 0 <= i < fill implies (#[trigger] r.0[i]) is Some by {
                        if i > k {
                            assert(init[i] is Some);
                        }
                    }
                    assert(search_inv(init, SearchState { grid: r.0, fill: r.1, exhausted: false }));
                },
                None => {
                    assert(backtrack_inv(init, g0, r.0, r.1, k));
                    lemma_backtrack(init, g0, r.0, r.1, k);
                },
            }
        }
    } else {
        assert forall|i: int| 0 <= i < fill implies (#[trigger] g[i]) is Some by {
            assert(init[i] is Some);
        }
    }
}

/// A search step keeps the invariant; a step that does not exhaust the search
/// either makes the grid greater or only passes the cursor over a given.
pub proof fn lemma_progress(init: Seq<Cell>, s: SearchState)
    requires
        search_inv(init, s),
    ensures
        search_inv(init, progress(init, s)),
        s.exhausted ==> progress(init, s) == s,
        !s.exhausted && !progress(init, s).exhausted ==> lex_less(s.grid, progress(init, s).grid) || (
            progress(init, s).grid == s.grid && progress(init, s).fill == s.fill + 1),
        !s.exhausted && !progress(init, s).exhausted && s.fill == NB_CELL ==> lex_less(
            s.grid,
            progress(init, s).grid,
        ),
{
    if !s.exhausted {
        let g = s.grid;
        let a = advance(g, s.fill);
        if s.fill < NB_CELL && g[s.fill] is None {
            lemma_first_fit(g, s.fill, all_digits());
            if let Some(d) = first_fit(g, s.fill, all_digits()) {
                lemma_place(g, s.fill, d);
                assert(lex_less_at(g, a.0, s.fill));
            }
        }
        if !a.2 {
            assert(backtrack_inv(init, g, g, s.fill, s.fill));
            lemma_backtrack(init, g, g, s.fill, s.fill);
        }
    }
}

/// Every state a search reaches keeps the invariant; one that is not exhausted
/// holds a grid at least as great as the one it started from.
pub proof fn lemma_run(init: Seq<Cell>, s: SearchState, n: nat)
    requires
        search_inv(init, s),
    ensures
        search_inv(init, run(init, s, n)),
        !run(init, s, n).exhausted ==> lex_le(s.grid, run(init, s, n).grid),
        s.exhausted ==> run(init, s, n) == s,
    decreases n,
{
    if n > 0 {
        let prev = run(init, s, (n - 1) as nat);
        lemma_run(init, s, (n - 1) as nat);
        lemma_progress(init, prev);
        if !run(init, s, n).exhausted {
            assert(!prev.exhausted);
            lemma_lex_trans(s.grid, prev.grid, run(init, s, n).grid);
        }
    }
}

/// From a state that stops at once, the search stops there.
proof fn lemma_first_stop_at_once(init: Seq<Cell>, s: SearchState, n: nat)
    requires
        stops(s),
        first_stop(init, s, n),
    ensures
        n == 0,
{
    if n > 0 {
        assert(!stops(run(init, s, 0)));
    }
}

/// Two first stops of one search are the same.
proof fn lemma_first_stop_unique(init: Seq<Cell>, s: SearchState, n1: nat, n2: nat)
    requires
        first_stop(init, s, n1),
        first_stop(init, s, n2),
    ensures
        n1 == n2,
{
    if n1 < n2 {
        assert(!stops(run(init, s, n1)));
    }
    if n2 < n1 {
        assert(!stops(run(init, s, n2)));
    }
}

/// Each solution handed out is complete, consistent, and holds every given
/// of the starting grid; the search goes on from a state that keeps the
/// invariant.
pub proof fn lemma_solution_keeps_givens(init: Seq<Cell>, s: SearchState, sol: Seq<Cell>, t: SearchState)
    requires
        search_inv(init, s),
        next_step(init, s, Some(sol), t),
    ensures
        agrees_with_givens(init, sol),
        full(sol),
        consistent(sol),
        search_inv(init, t),
{
    let n = choose|n: nat| #[trigger] first_stop(init, s, n) && {
        let u = run(init, s, n);
        if u.exhausted {
            Some(sol) == None::<Seq<Cell>> && t == u
        } else {
            Some(sol) == Some(u.grid) && t == progress(init, u)
        }
    };
    let u = run(init, s, n);
    lemma_run(init, s, n);
    lemma_progress(init, u);
}

/// Two solutions handed out one after the other by a search are in strictly
/// increasing order, read as numerals from the first cell.
pub proof fn lemma_solutions_increase(
    init: Seq<Cell>,
    s0: SearchState,
    a: Seq<Cell>,
    s1: SearchState,
    b: Seq<Cell>,
    s2: SearchState,
)
    requires
        search_inv(init, s0),
        next_step(init, s0, Some(a), s1),
        next_step(init, s1, Some(b), s2),
    ensures
        lex_less(a, b),
{
    let n1 = choose|n: nat| #[trigger] first_stop(init, s0, n) && {
        let u = run(init, s0, n);
        if u.exhausted {
            Some(a) == None::<Seq<Cell>> && s1 == u
        } else {
            Some(a) == Some(u.grid) && s1 == progress(init, u)
        }
    };
    let u1 = run(init, s0, n1);
    lemma_run(init, s0, n1);
    lemma_progress(init, u1);
    let n2 = choose|n: nat| #[trigger] first_stop(init, s1, n) && {
        let u = run(init, s1, n);
        if u.exhausted {
            Some(b) == None::<Seq<Cell>> && s2 == u
        } else {
            Some(b) == Some(u.grid) && s2 == progress(init, u)
        }
    };
    if s1.exhausted {
        lemma_first_stop_at_once(init, s1, n2);
        assert(false);
    }
    let u2 = run(init, s1, n2);
    lemma_run(init, s1, n2);
    lemma_lex_trans(a, s1.grid, b);
}

/// Once a search has handed out no solution, every later call hands out none
/// and leaves the search as it is.
pub proof fn lemma_exhaustion_stable(
    init: Seq<Cell>,
    s0: SearchState,
    s1: SearchState,
    out: Option<Seq<Cell>>,
    s2: SearchState,
)
    requires
        next_step(init, s0, None, s1),
        next_step(init, s1, out, s2),
    ensures
        s1.exhausted,
        out is None,
        s2 == s1,
{
    let n1 = choose|n: nat| #[trigger] first_stop(init, s0, n) && {
        let u = run(init, s0, n);
        if u.exhausted {
            None::<Seq<Cell>> == None::<Seq<Cell>> && s1 == u
        } else {
            None::<Seq<Cell>> == Some(u.grid) && s1 == progress(init, u)
        }
    };
    let n2 = choose|n: nat| #[trigger] first_stop(init, s1, n) && {
        let u = run(init, s1, n);
        if u.exhausted {
            out == None::<Seq<Cell>> && s2 == u
        } else {
            out == Some(u.grid) && s2 == progress(init, u)
        }
    };
    lemma_first_stop_at_once(init, s1, n2);
}

/// Asking a search for its next solution has one outcome: two searches in the
/// same state hand out the same solution and reach the same state.
pub proof fn lemma_next_deterministic(
    init: Seq<Cell>,
    s: SearchState,
    out1: Option<Seq<Cell>>,
    t1: SearchState,
    out2: Option<Seq<Cell>>,
    t2: SearchState,
)
    requires
        next_step(init, s, out1, t1),
        next_step(init, s, out2, t2),
    ensures
        out1 == out2,
        t1 == t2,
{
    let n1 = choose|n: nat| #[trigger] first_stop(init, s, n) && {
        let u = run(init, s, n);
        if u.exhausted {
            out1 == None::<Seq<Cell>> && t1 == u
        } else {
            out1 == Some(u.grid) && t1 == progress(init, u)
        }
    };
    let n2 = choose|n: nat| #[trigger] first_stop(init, s, n) && {
        let u = run(init, s, n);
        if u.exhausted {
            out2 == None::<Seq<Cell>> && t2 == u
        } else {
            out2 == Some(u.grid) && t2 == progress(init, u)
        }
    };
    lemma_first_stop_unique(init, s, n1, n2);
}

/// `outs` are the answers to successive calls for the next solution from `s`,
/// after which the search is at `t`.
pub open spec fn answers(init: Seq<Cell>, s: SearchState, outs: Seq<Option<Seq<Cell>>>, t: SearchState) -> bool
    decreases outs.len(),
{
    if outs.len() == 0 {
        t == s
    } else {
        exists|m: SearchState|
            #[trigger] next_step(init, s, outs[0], m) && answers(init, m, outs.drop_first(), t)
    }
}

/// Two searches started from the same grid give the same answers, in the same
/// order, call after call.
pub proof fn lemma_same_start_same_answers(
    init: Seq<Cell>,
    s: SearchState,
    outs1: Seq<Option<Seq<Cell>>>,
    t1: SearchState,
    outs2: Seq<Option<Seq<Cell>>>,
    t2: SearchState,
)
    requires
        outs1.len() == outs2.len(),
        answers(init, s, outs1, t1),
        answers(init, s, outs2, t2),
    ensures
        outs1 == outs2,
        t1 == t2,
    decreases outs1.len(),
{
    if outs1.len() > 0 {
        let m1 = choose|m: SearchState|
            #[trigger] next_step(init, s, outs1[0], m) && answers(init, m, outs1.drop_first(), t1);
        let m2 = choose|m: SearchState|
            #[trigger] next_step(init, s, outs2[0], m) && answers(init, m, outs2.drop_first(), t2);
        lemma_next_deterministic(init, s, outs1[0], m1, outs2[0], m2);
        lemma_same_start_same_answers(init, m1, outs1.drop_first(), t1, outs2.drop_first(), t2);
        assert(outs1 =~= seq![outs1[0]].add(outs1.drop_first()));
        assert(outs2 =~= seq![outs2[0]].add(outs2.drop_first()));
    }
}

} // verus!
