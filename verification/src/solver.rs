//! The search: forced-single propagation, then branching on the frontier
//! cell, trying its candidates in ascending order.

use vstd::prelude::*;
use crate::board::{mask_exact, Sudoku, Unsolvable};
use crate::candidates::{contains, lemma_empty, lowest, member};
use crate::laws::{lemma_rejected_unsolvable, lemma_search_decides, lemma_search_sound};
use crate::rules::{
    accepted, allowed, empties, extends, first_allowed, frontier, lemma_empties_assign,
    lemma_first_allowed, lemma_frontier, lemma_min_upto_witness, min_count, NONE_LEFT,
};
use crate::solution::is_solution;

verus! {

/// One forced step: the grid with the frontier cell set to its least
/// candidate. Propagation takes it while the frontier cell has exactly one
/// candidate.
pub open spec fn forced_step(g: Seq<u16>) -> Seq<u16> {
    g.update(frontier(g), first_allowed(g, frontier(g)))
}

/// The grid after forced-single propagation to its fixpoint: while the most
/// constrained cell has exactly one candidate, that candidate is placed.
pub open spec fn propagate(g: Seq<u16>) -> Seq<u16>
    decreases empties(g),
{
    if g.len() == 81 && min_count(g) == 1 {
        proof {
            lemma_forced_step(g);
        }
        propagate(forced_step(g))
    } else {
        g
    }
}

/// A forced step resolves an unresolved cell with an allowed digit.
pub proof fn lemma_forced_step(g: Seq<u16>)
    requires
        g.len() == 81,
        min_count(g) == 1,
    ensures
        0 <= frontier(g) < 81,
        g[frontier(g)] == 0,
        allowed(g, frontier(g), first_allowed(g, frontier(g))),
        empties(g) == empties(forced_step(g)) + 1,
{
    lemma_frontier(g);
    lemma_first_allowed(g, frontier(g));
    lemma_empties_assign(g, frontier(g), first_allowed(g, frontier(g)));
}

/// Propagation never adds an unresolved cell.
pub proof fn lemma_propagate_empties(g: Seq<u16>)
    ensures
        empties(propagate(g)) <= empties(g),
    decreases empties(g),
{
    if g.len() == 81 && min_count(g) == 1 {
        lemma_forced_step(g);
        lemma_propagate_empties(forced_step(g));
    }
}

/// The result of the search from grid `g`: propagate; give up on a
/// contradiction; stop when every cell is resolved; otherwise branch on the
/// frontier cell.
pub open spec fn search(g: Seq<u16>) -> Option<Seq<u16>>
    decreases empties(g), 1int, 0int,
{
    let p = propagate(g);
    if p.len() != 81 || min_count(p) == 0 {
        None
    } else if min_count(p) == 10 {
        Some(p)
    } else {
        proof {
            lemma_propagate_empties(g);
        }
        try_from(p, frontier(p), 1)
    }
}

/// The result of branching on the unresolved cell `i` of grid `p` with the
/// digits from `d` upwards: the first completion found with the least
/// allowed digit that leads to one.
pub open spec fn try_from(p: Seq<u16>, i: int, d: u16) -> Option<Seq<u16>>
    decreases empties(p), 0int, 10 - d,
    when p.len() == 81 && 0 <= i < 81 && p[i] == 0
{
    if d < 1 || d > 9 {
        None
    } else if allowed(p, i, d) {
        proof {
            lemma_empties_assign(p, i, d);
        }
        match search(p.update(i, d)) {
            Some(r) => Some(r),
            None => try_from(p, i, (d + 1) as u16),
        }
    } else {
        try_from(p, i, (d + 1) as u16)
    }
}

/// Searches for a completion of the board: propagates forced singles, then
/// branches on the frontier cell, trying its candidates in ascending order on
/// a copy of the board and keeping the first completion found.
pub fn solve(s: Sudoku) -> (r: Option<Sudoku>)
    requires
        s.wf(),
    ensures
        r matches Some(t) ==> t.wf() && is_solution(t@) && extends(s@, t@),
        r is Some <==> exists|sol: Seq<u16>| is_solution(sol) && extends(s@, sol),
        r matches Some(t) ==> search(s@) == Some(t@),
        r is None ==> search(s@) is None,
    decreases empties(s@),
{
    let ghost start = s@;
    let mut cur = s;
    proof {
        s.lemma_wf();
        lemma_search_sound(start);
        lemma_search_decides(start);
    }
    while cur.min_num() == 1
        invariant
            start == s@,
            search(start) matches Some(r) ==> is_solution(r) && extends(start, r),
            search(start) is None <==> forall|sol: Seq<u16>|
                !(is_solution(sol) && extends(start, sol)),
            cur.wf(),
            propagate(cur@) == propagate(start),
            empties(cur@) <= empties(start),
        decreases empties(cur@),
    {
        let ind = cur.frontier();
        proof {
            cur.lemma_wf();
            lemma_frontier(cur@);
            lemma_forced_step(cur@);
        }
        let mask = cur.candidates(ind);
        proof {
            lemma_first_allowed(cur@, ind as int);
            assert(member(mask, first_allowed(cur@, ind as int)));
            lemma_empty(mask);
        }
        let val = lowest(mask);
        assert(val == first_allowed(cur@, ind as int));
        cur.update(ind, val);
    }
    proof {
        cur.lemma_wf();
    }
    let least = cur.min_num();
    if least == 0 {
        None
    } else if least == NONE_LEFT {
        Some(cur)
    } else {
        let ind = cur.frontier();
        proof {
            lemma_propagate_empties(start);
            lemma_min_upto_witness(cur@, 81);
            lemma_frontier(cur@);
        }
        let mask = cur.candidates(ind);
        let mut d: u16 = 1;
        while d <= 9
            invariant
                start == s@,
                search(start) matches Some(r) ==> is_solution(r) && extends(start, r),
                search(start) is None <==> forall|sol: Seq<u16>|
                    !(is_solution(sol) && extends(start, sol)),
                1 <= d <= 10,
                cur.wf(),
                cur.spec_min_num() == least,
                least != 0,
                min_count(cur@) == least,
                ind < 81,
                cur@.len() == 81,
                cur@[ind as int] == 0,
                mask_exact(cur@, ind as int, mask),
                empties(cur@) <= empties(start),
                search(start) == try_from(cur@, ind as int, d),
            decreases 10 - d,
        {
            if contains(mask, d) {
                let mut q = cur;
                q.update(ind, d);
                proof {
                    lemma_empties_assign(cur@, ind as int, d);
                }
                let res = solve(q);
                if res.is_some() {
                    return res;
                }
            }
            d = d + 1;
        }
        None
    }
}

/// Solves a puzzle given as a grid of 81 values, `0` for an empty cell and
/// `1..=9` for a given: builds the board and searches.
///
/// The result is a solution that keeps every given, and there is one
/// whenever the puzzle has a solution at all. Otherwise the error tells
/// whether the grid was refused at construction or the search came back
/// empty.
pub fn solve_puzzle(puzzle: [u16; 81]) -> (r: Result<Sudoku, Unsolvable>)
    ensures
        r matches Ok(t) ==> t.wf() && is_solution(t@) && extends(puzzle@, t@),
        r is Ok <==> exists|sol: Seq<u16>| is_solution(sol) && extends(puzzle@, sol),
        r matches Ok(t) ==> search(puzzle@) == Some(t@),
        r matches Err(e) ==> e == if accepted(puzzle@) {
            Unsolvable::InSearch
        } else {
            Unsolvable::AtConstruction
        },
{
    match Sudoku::create(puzzle) {
        Err(e) => {
            proof {
                lemma_rejected_unsolvable(puzzle@);
            }
            Err(e)
        },
        Ok(s) => match solve(s) {
            Some(t) => Ok(t),
            None => Err(Unsolvable::InSearch),
        },
    }
}

} // verus!
