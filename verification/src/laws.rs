//! What holds of propagation and of the search, for every grid.

use vstd::prelude::*;
use crate::board::lemma_assign_consistent;
use crate::grid::peers;
use crate::rules::{
    accepted, allowed, allowed_count, allowed_upto, complete, consistent, empties, extends,
    first_allowed, frontier, grid_ok, lemma_allowed_upto_bound, lemma_allowed_upto_pos,
    lemma_empties_assign, lemma_first_allowed, lemma_frontier, lemma_min_upto_bound,
    lemma_min_upto_witness, min_count,
};
use crate::solution::{is_solution, lemma_solution_iff_solved, solved};
use crate::solver::{
    forced_step, lemma_forced_step, lemma_propagate_empties, propagate, search, try_from,
};

verus! {

/// The candidate count up to `n` grows with `n`.
pub proof fn lemma_allowed_upto_mono(g: Seq<u16>, i: int, m: u16, n: u16)
    requires
        m <= n,
    ensures
        allowed_upto(g, i, m) <= allowed_upto(g, i, n),
    decreases n,
{
    if m < n {
        lemma_allowed_upto_mono(g, i, m, (n - 1) as u16);
    }
}

/// A cell with exactly one candidate allows no digit but its least one.
pub proof fn lemma_single_candidate(g: Seq<u16>, i: int, d: u16)
    requires
        allowed_count(g, i) == 1,
        allowed(g, i, d),
    ensures
        d == first_allowed(g, i),
{
    lemma_first_allowed(g, i);
    let a = first_allowed(g, i);
    if a != d {
        assert(a < d);
        lemma_allowed_upto_mono(g, i, a, (d - 1) as u16);
        lemma_allowed_upto_mono(g, i, d, 9);
        lemma_allowed_upto_mono(g, i, 0, (a - 1) as u16);
    }
}

/// In a grid that a solution extends, each cell allows the digit that the
/// solution gives it.
pub proof fn lemma_solution_allowed(g: Seq<u16>, sol: Seq<u16>, k: int)
    requires
        g.len() == 81,
        solved(sol),
        extends(g, sol),
        0 <= k < 81,
    ensures
        allowed(g, k, sol[k]),
{
    assert(sol[k] != 0);
    assert forall|j: int| peers(k, j) implies g[j] != sol[k] by {
        if g[j] != 0 {
            assert(sol[j] == g[j]);
        }
    }
}

/// A grid without unresolved cells is complete, and the other way round.
pub proof fn lemma_complete_min(g: Seq<u16>)
    ensures
        complete(g) <==> min_count(g) == 10,
{
    let k = lemma_min_upto_witness(g, 81);
    if !complete(g) {
        let i = choose|i: int| 0 <= i < 81 && g[i] == 0;
        lemma_min_upto_bound(g, 81, i);
        lemma_allowed_upto_bound(g, i, 9);
    }
}

/// Propagation keeps a consistent grid consistent, keeps its resolved cells,
/// and ends where no cell has exactly one candidate.
pub proof fn lemma_propagate(g: Seq<u16>)
    requires
        grid_ok(g),
        consistent(g),
    ensures
        grid_ok(propagate(g)),
        consistent(propagate(g)),
        extends(g, propagate(g)),
        min_count(propagate(g)) != 1,
        empties(propagate(g)) <= empties(g),
    decreases empties(g),
{
    if min_count(g) == 1 {
        lemma_forced_step(g);
        lemma_assign_consistent(g, frontier(g), first_allowed(g, frontier(g)));
        lemma_propagate(forced_step(g));
        let p = propagate(g);
        assert forall|i: int| 0 <= i < 81 && g[i] != 0 implies #[trigger] p[i] == g[i] by {
            assert(forced_step(g)[i] == g[i]);
        }
    }
}

/// Propagation loses no solution: a solution that extends the grid extends
/// the propagated grid too.
pub proof fn lemma_propagate_keeps_solutions(g: Seq<u16>, sol: Seq<u16>)
    requires
        g.len() == 81,
        is_solution(sol),
        extends(g, sol),
    ensures
        extends(propagate(g), sol),
    decreases empties(g),
{
    if min_count(g) == 1 {
        lemma_solution_iff_solved(sol);
        lemma_forced_step(g);
        lemma_frontier(g);
        let i = frontier(g);
        lemma_solution_allowed(g, sol, i);
        lemma_single_candidate(g, i, sol[i]);
        let h = forced_step(g);
        assert forall|j: int| 0 <= j < 81 && h[j] != 0 implies #[trigger] sol[j] == h[j] by {
            if j != i {
                assert(h[j] == g[j]);
            }
        }
        lemma_propagate_keeps_solutions(h, sol);
    }
}

/// Propagating twice gives what propagating once gives.
pub proof fn lemma_propagate_idempotent(g: Seq<u16>)
    ensures
        propagate(propagate(g)) == propagate(g),
    decreases empties(g),
{
    if g.len() == 81 && min_count(g) == 1 {
        lemma_forced_step(g);
        lemma_propagate_idempotent(forced_step(g));
    }
}

/// Whatever the search returns is a solution that keeps every resolved cell
/// of the grid it started from.
pub proof fn lemma_search_sound(g: Seq<u16>)
    requires
        grid_ok(g),
        consistent(g),
    ensures
        search(g) matches Some(r) ==> is_solution(r) && extends(g, r),
    decreases empties(g), 1int, 0int,
{
    let p = propagate(g);
    lemma_propagate(g);
    if min_count(p) == 0 {
    } else if min_count(p) == 10 {
        lemma_complete_min(p);
        lemma_solution_iff_solved(p);
    } else {
        lemma_min_upto_witness(p, 81);
        lemma_frontier(p);
        lemma_branch_sound(p, frontier(p), 1);
        if let Some(r) = search(g) {
            assert forall|i: int| 0 <= i < 81 && g[i] != 0 implies #[trigger] r[i] == g[i] by {
                assert(p[i] == g[i]);
            }
        }
    }
}

/// Whatever branching on a cell returns is a solution that keeps every
/// resolved cell of the grid branched on.
pub proof fn lemma_branch_sound(p: Seq<u16>, i: int, d: u16)
    requires
        grid_ok(p),
        consistent(p),
        0 <= i < 81,
        p[i] == 0,
    ensures
        try_from(p, i, d) matches Some(r) ==> is_solution(r) && extends(p, r),
    decreases empties(p), 0int, 10 - d,
{
    if d < 1 || d > 9 {
    } else {
        if allowed(p, i, d) {
            let q = p.update(i, d);
            lemma_empties_assign(p, i, d);
            lemma_assign_consistent(p, i, d);
            lemma_search_sound(q);
            if let Some(r) = search(q) {
                assert forall|j: int| 0 <= j < 81 && p[j] != 0 implies #[trigger] r[j] == p[j] by {
                    assert(q[j] == p[j]);
                }
            }
        }
        lemma_branch_sound(p, i, (d + 1) as u16);
    }
}

/// The search finds a solution whenever some solution extends the grid.
pub proof fn lemma_search_complete(g: Seq<u16>, sol: Seq<u16>)
    requires
        g.len() == 81,
        is_solution(sol),
        extends(g, sol),
    ensures
        search(g) is Some,
    decreases empties(g), 1int, 0int,
{
    let p = propagate(g);
    lemma_propagate_keeps_solutions(g, sol);
    lemma_propagate_empties(g);
    lemma_propagate_len(g);
    lemma_solution_iff_solved(sol);
    let k = lemma_min_upto_witness(p, 81);
    if min_count(p) == 0 {
        lemma_solution_allowed(p, sol, k);
        lemma_allowed_upto_pos(p, k, 9, sol[k]);
    } else if min_count(p) < 10 {
        lemma_frontier(p);
        lemma_branch_complete(p, frontier(p), 1, sol);
    }
}

/// Branching on a cell finds a solution whenever some solution extends the
/// grid and gives the cell a digit not yet passed over.
pub proof fn lemma_branch_complete(p: Seq<u16>, i: int, d: u16, sol: Seq<u16>)
    requires
        p.len() == 81,
        0 <= i < 81,
        p[i] == 0,
        is_solution(sol),
        extends(p, sol),
        1 <= d <= sol[i],
    ensures
        try_from(p, i, d) is Some,
    decreases empties(p), 0int, 10 - d,
{
    lemma_solution_iff_solved(sol);
    lemma_solution_allowed(p, sol, i);
    if d == sol[i] {
        let q = p.update(i, d);
        lemma_empties_assign(p, i, d);
        assert forall|j: int| 0 <= j < 81 && q[j] != 0 implies #[trigger] sol[j] == q[j] by {
            if j != i {
                assert(q[j] == p[j]);
            }
        }
        lemma_search_complete(q, sol);
    } else {
        lemma_branch_complete(p, i, (d + 1) as u16, sol);
    }
}

/// Propagation keeps the number of cells.
pub proof fn lemma_propagate_len(g: Seq<u16>)
    requires
        g.len() == 81,
    ensures
        propagate(g).len() == 81,
    decreases empties(g),
{
    if min_count(g) == 1 {
        lemma_forced_step(g);
        lemma_propagate_len(forced_step(g));
    }
}

/// On a grid with exactly one solution the search returns that solution.
pub proof fn lemma_search_unique(g: Seq<u16>, sol: Seq<u16>)
    requires
        grid_ok(g),
        consistent(g),
        is_solution(sol),
        extends(g, sol),
        forall|other: Seq<u16>| is_solution(other) && extends(g, other) ==> other == sol,
    ensures
        search(g) == Some(sol),
{
    lemma_search_complete(g, sol);
    lemma_search_sound(g);
}

/// The search returns nothing exactly when no solution extends the grid.
pub proof fn lemma_search_decides(g: Seq<u16>)
    requires
        grid_ok(g),
        consistent(g),
    ensures
        search(g) is None <==> forall|sol: Seq<u16>| !(is_solution(sol) && extends(g, sol)),
{
    lemma_search_sound(g);
    if search(g) is None {
        assert forall|sol: Seq<u16>| !(is_solution(sol) && extends(g, sol)) by {
            if is_solution(sol) && extends(g, sol) {
                lemma_search_complete(g, sol);
            }
        }
    }
}

/// A grid in which two cells of one scope hold the same digit is not
/// consistent, and no solution extends it.
pub proof fn lemma_clash_unsolvable(g: Seq<u16>, i: int, j: int)
    requires
        peers(i, j),
        g[i] != 0,
        g[i] == g[j],
    ensures
        !accepted(g),
        forall|sol: Seq<u16>| !(is_solution(sol) && extends(g, sol)),
{
    assert forall|sol: Seq<u16>| !(is_solution(sol) && extends(g, sol)) by {
        if is_solution(sol) && extends(g, sol) {
            lemma_solution_iff_solved(sol);
            assert(sol[i] == g[i]);
            assert(sol[j] == g[j]);
        }
    }
}

/// No solution extends a grid that cannot be built into a board.
pub proof fn lemma_rejected_unsolvable(g: Seq<u16>)
    requires
        g.len() == 81,
        !accepted(g),
    ensures
        forall|sol: Seq<u16>| !(is_solution(sol) && extends(g, sol)),
{
    assert forall|sol: Seq<u16>| !(is_solution(sol) && extends(g, sol)) by {
        if is_solution(sol) && extends(g, sol) {
            lemma_solution_iff_solved(sol);
            if !grid_ok(g) {
                let i = choose|i: int| 0 <= i < 81 && !(#[trigger] g[i] <= 9);
                assert(sol[i] == g[i]);
            } else if !consistent(g) {
                let (i, j) = choose|i: int, j: int| peers(i, j) && g[i] != 0 && g[i] == g[j];
                lemma_clash_unsolvable(g, i, j);
            } else {
                let k = choose|k: int| 0 <= k < 81 && g[k] == 0 && #[trigger] allowed_count(g, k) == 0;
                lemma_solution_allowed(g, sol, k);
                lemma_allowed_upto_pos(g, k, 9, sol[k]);
            }
        }
    }
}

} // verus!
