//! What a solution is: a grid in which every row, column and block holds
//! each digit exactly once.

use vstd::prelude::*;
use vstd::seq_lib::seq_to_set_is_finite;
use vstd::set_lib::{lemma_int_range, lemma_subset_equality, set_int_range};
use crate::grid::{col_of, peers, row_of};
use crate::rules::{complete, consistent, grid_ok, scope_of};

verus! {

/// Flat index of the `k`-th cell of scope `s` of the given kind (0 for rows,
/// 1 for columns, 2 for blocks).
pub open spec fn scope_cell(kind: int, s: int, k: int) -> int {
    if kind == 0 {
        s * 9 + k
    } else if kind == 1 {
        k * 9 + s
    } else {
        ((s / 3) * 3 + k / 3) * 9 + (s % 3) * 3 + k % 3
    }
}

/// Position of cell `i` within its scope of the given kind.
pub open spec fn place_in(kind: int, i: int) -> int {
    if kind == 0 {
        col_of(i)
    } else if kind == 1 {
        row_of(i)
    } else {
        (row_of(i) % 3) * 3 + col_of(i) % 3
    }
}

/// Digit `d` occurs in exactly one cell of scope `s` of the given kind.
pub open spec fn once_in_scope(g: Seq<u16>, kind: int, s: int, d: u16) -> bool {
    exists|k: int|
        0 <= k < 9 && #[trigger] g[scope_cell(kind, s, k)] == d && forall|k2: int|
            0 <= k2 < 9 && #[trigger] g[scope_cell(kind, s, k2)] == d ==> k2 == k
}

/// `g` is a solution: every row, column and block holds each digit `1..=9`
/// exactly once.
pub open spec fn is_solution(g: Seq<u16>) -> bool {
    grid_ok(g) && forall|kind: int, s: int, d: u16|
        0 <= kind < 3 && 0 <= s < 9 && 1 <= d <= 9 ==> #[trigger] once_in_scope(g, kind, s, d)
}

/// `g` is fully resolved and no two cells sharing a scope hold the same
/// digit.
pub open spec fn solved(g: Seq<u16>) -> bool {
    grid_ok(g) && complete(g) && consistent(g)
}

/// The cells of a scope lie on the grid, in that scope, at their position.
pub proof fn lemma_scope_cell(kind: int, s: int, k: int)
    requires
        0 <= kind < 3,
        0 <= s < 9,
        0 <= k < 9,
    ensures
        0 <= scope_cell(kind, s, k) < 81,
        scope_of(kind, scope_cell(kind, s, k)) == s,
        place_in(kind, scope_cell(kind, s, k)) == k,
{
}

/// Every cell is the cell of its scope at its position.
pub proof fn lemma_place_in(kind: int, i: int)
    requires
        0 <= kind < 3,
        0 <= i < 81,
    ensures
        0 <= scope_of(kind, i) < 9,
        0 <= place_in(kind, i) < 9,
        scope_cell(kind, scope_of(kind, i), place_in(kind, i)) == i,
{
}

/// A sequence of `n` distinct integers from a range of `n` integers takes
/// every value of the range.
pub proof fn lemma_pigeonhole(f: Seq<int>, lo: int, v: int) -> (k: int)
    requires
        forall|i: int| 0 <= i < f.len() ==> lo <= #[trigger] f[i] < lo + f.len(),
        forall|i: int, j: int| 0 <= i < j < f.len() ==> f[i] != f[j],
        lo <= v < lo + f.len(),
    ensures
        0 <= k < f.len(),
        f[k] == v,
{
    let range = set_int_range(lo, lo + f.len());
    assert(f.no_duplicates());
    f.unique_seq_to_set();
    lemma_int_range(lo, lo + f.len());
    seq_to_set_is_finite(f);
    assert forall|x: int| f.to_set().contains(x) implies range.contains(x) by {
        let i = choose|i: int| 0 <= i < f.len() && f[i] == x;
        assert(lo <= f[i] < lo + f.len());
    }
    assert(f.to_set().subset_of(range));
    lemma_subset_equality(f.to_set(), range);
    assert(range.contains(v));
    assert(f.to_set().contains(v));
    assert(f.contains(v));
    choose|k: int| 0 <= k < f.len() && f[k] == v
}

/// Two different positions of one scope are peers.
pub proof fn lemma_scope_peers(kind: int, s: int, k: int, k2: int)
    requires
        0 <= kind < 3,
        0 <= s < 9,
        0 <= k < 9,
        0 <= k2 < 9,
        k != k2,
    ensures
        peers(scope_cell(kind, s, k), scope_cell(kind, s, k2)),
{
    lemma_scope_cell(kind, s, k);
    lemma_scope_cell(kind, s, k2);
}

/// In a fully resolved consistent grid every scope holds every digit exactly
/// once.
pub proof fn lemma_solved_once(g: Seq<u16>, kind: int, s: int, d: u16)
    requires
        solved(g),
        0 <= kind < 3,
        0 <= s < 9,
        1 <= d <= 9,
    ensures
        once_in_scope(g, kind, s, d),
{
    let f = Seq::new(9, |k: int| g[scope_cell(kind, s, k)] as int);
    assert forall|k: int| 0 <= k < 9 implies 1 <= #[trigger] f[k] < 10 by {
        lemma_scope_cell(kind, s, k);
    }
    assert forall|k: int, k2: int| 0 <= k < k2 < 9 implies f[k] != f[k2] by {
        lemma_scope_cell(kind, s, k);
        lemma_scope_peers(kind, s, k, k2);
    }
    let k = lemma_pigeonhole(f, 1, d as int);
    assert(g[scope_cell(kind, s, k)] == d);
    assert forall|k2: int| 0 <= k2 < 9 && #[trigger] g[scope_cell(kind, s, k2)] == d implies k2
        == k by {
        if k2 != k {
            lemma_scope_peers(kind, s, k, k2);
        }
    }
}

/// A fully resolved grid without clashes is a solution.
pub proof fn lemma_solved_is_solution(g: Seq<u16>)
    requires
        solved(g),
    ensures
        is_solution(g),
{
    assert forall|kind: int, s: int, d: u16|
        0 <= kind < 3 && 0 <= s < 9 && 1 <= d <= 9 implies #[trigger] once_in_scope(
        g,
        kind,
        s,
        d,
    ) by {
        lemma_solved_once(g, kind, s, d);
    }
}

/// The position at which digit `d` stands in scope `s` of a solution.
pub open spec fn place_of(g: Seq<u16>, kind: int, s: int, d: u16) -> int {
    choose|k: int|
        0 <= k < 9 && #[trigger] g[scope_cell(kind, s, k)] == d && forall|k2: int|
            0 <= k2 < 9 && #[trigger] g[scope_cell(kind, s, k2)] == d ==> k2 == k
}

/// In a solution every cell is resolved.
pub proof fn lemma_solution_complete(g: Seq<u16>, i: int)
    requires
        is_solution(g),
        0 <= i < 81,
    ensures
        g[i] != 0,
{
    let s = row_of(i);
    let f = Seq::new(9, |e: int| place_of(g, 0, s, (e + 1) as u16));
    assert forall|e: int| 0 <= e < 9 implies 0 <= #[trigger] f[e] < 9 && g[scope_cell(0, s, f[e])]
        == e + 1 by {
        assert(once_in_scope(g, 0, s, (e + 1) as u16));
    }
    assert forall|e: int, e2: int| 0 <= e < e2 < 9 implies f[e] != f[e2] by {
        assert(g[scope_cell(0, s, f[e])] == e + 1);
        assert(g[scope_cell(0, s, f[e2])] == e2 + 1);
    }
    let e = lemma_pigeonhole(f, 0, col_of(i));
    assert(g[scope_cell(0, s, f[e])] == e + 1);
}

/// In a solution no two cells sharing a scope hold the same digit.
pub proof fn lemma_solution_consistent(g: Seq<u16>)
    requires
        is_solution(g),
    ensures
        consistent(g),
{
    assert forall|i: int, j: int| peers(i, j) && g[i] != 0 implies g[i] != g[j] by {
        if g[i] == g[j] {
            let kind: int = if row_of(i) == row_of(j) {
                0
            } else if col_of(i) == col_of(j) {
                1
            } else {
                2
            };
            let s = scope_of(kind, i);
            lemma_place_in(kind, i);
            lemma_place_in(kind, j);
            assert(once_in_scope(g, kind, s, g[i]));
            let k = place_of(g, kind, s, g[i]);
            assert(g[scope_cell(kind, s, place_in(kind, i))] == g[i]);
            assert(g[scope_cell(kind, s, place_in(kind, j))] == g[i]);
            assert(place_in(kind, i) == k);
            assert(place_in(kind, j) == k);
        }
    }
}

/// The solutions are exactly the fully resolved grids without clashes.
pub proof fn lemma_solution_iff_solved(g: Seq<u16>)
    ensures
        is_solution(g) <==> solved(g),
{
    if is_solution(g) {
        lemma_solution_consistent(g);
        assert forall|i: int| 0 <= i < 81 implies #[trigger] g[i] != 0 by {
            lemma_solution_complete(g, i);
        }
    }
    if solved(g) {
        lemma_solved_is_solution(g);
    }
}

} // verus!
