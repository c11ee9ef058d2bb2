//! What the puzzle's rules say of a grid: which digits a cell may still take,
//! how constrained each unresolved cell is, and when a grid is a solution.
//!
//! A grid is modelled as a `Seq<u16>` of 81 values, `0` for an unresolved cell
//! and `1..=9` for a resolved one.

use vstd::prelude::*;
use crate::grid::{block_of, col_of, peers, row_of};

verus! {

/// The count reported when no cell is unresolved.
pub const NONE_LEFT: u16 = 10;

/// `g` has 81 cells, each holding `0..=9`.
pub open spec fn grid_ok(g: Seq<u16>) -> bool {
    g.len() == 81 && forall|i: int| 0 <= i < 81 ==> #[trigger] g[i] <= 9
}

/// No two cells sharing a scope hold the same digit.
pub open spec fn consistent(g: Seq<u16>) -> bool {
    forall|i: int, j: int| peers(i, j) && g[i] != 0 ==> g[i] != g[j]
}

/// The scope that cell `i` lies in, by kind of scope: 0 selects its row, 1 its
/// column, anything else its block.
pub open spec fn scope_of(kind: int, i: int) -> int {
    if kind == 0 {
        row_of(i)
    } else if kind == 1 {
        col_of(i)
    } else {
        block_of(i)
    }
}

/// Digit `d` is placed in some cell below index `n` of scope `s` of the
/// given kind.
pub open spec fn used(g: Seq<u16>, kind: int, s: int, d: u16, n: int) -> bool {
    exists|k: int| 0 <= k < n && scope_of(kind, k) == s && #[trigger] g[k] == d
}

/// Digit `d` may be placed in cell `i`: no peer of `i` already holds it.
pub open spec fn allowed(g: Seq<u16>, i: int, d: u16) -> bool {
    1 <= d <= 9 && forall|j: int| peers(i, j) ==> g[j] != d
}

/// Number of digits in `1..=n` allowed in cell `i`.
pub open spec fn allowed_upto(g: Seq<u16>, i: int, n: u16) -> nat
    decreases n,
{
    if n == 0 {
        0
    } else {
        allowed_upto(g, i, (n - 1) as u16) + if allowed(g, i, n) { 1nat } else { 0nat }
    }
}

/// Size of the candidate set of cell `i`.
pub open spec fn allowed_count(g: Seq<u16>, i: int) -> nat {
    allowed_upto(g, i, 9)
}

/// The least digit above `d` allowed in cell `i`, or 10 if there is none.
pub open spec fn next_allowed(g: Seq<u16>, i: int, d: u16) -> u16
    decreases 10 - d,
{
    if d >= 9 {
        10
    } else if allowed(g, i, (d + 1) as u16) {
        (d + 1) as u16
    } else {
        next_allowed(g, i, (d + 1) as u16)
    }
}

/// The least digit allowed in cell `i`, or 10 if there is none.
pub open spec fn first_allowed(g: Seq<u16>, i: int) -> u16 {
    next_allowed(g, i, 0)
}

/// Least candidate count among the unresolved cells below index `n`, or
/// `NONE_LEFT` if there is none.
pub open spec fn min_upto(g: Seq<u16>, n: int) -> nat
    decreases n,
{
    if n <= 0 {
        10
    } else {
        let rest = min_upto(g, n - 1);
        if g[n - 1] == 0 && allowed_count(g, n - 1) < rest {
            allowed_count(g, n - 1)
        } else {
            rest
        }
    }
}

/// Least candidate count among the unresolved cells, or `NONE_LEFT` if every
/// cell is resolved.
pub open spec fn min_count(g: Seq<u16>) -> nat {
    min_upto(g, 81)
}

/// The first unresolved cell at or after `i` with exactly `c` candidates, or
/// 81 if there is none.
pub open spec fn first_with(g: Seq<u16>, c: nat, i: int) -> int
    decreases 81 - i,
{
    if i >= 81 {
        81
    } else if g[i] == 0 && allowed_count(g, i) == c {
        i
    } else {
        first_with(g, c, i + 1)
    }
}

/// The frontier cell: the unresolved cell of lowest index among those with
/// the least candidate count.
pub open spec fn frontier(g: Seq<u16>) -> int {
    first_with(g, min_count(g), 0)
}

/// Some unresolved cell has no candidate left: a contradiction.
pub open spec fn stuck(g: Seq<u16>) -> bool {
    exists|i: int| 0 <= i < 81 && g[i] == 0 && #[trigger] allowed_count(g, i) == 0
}

/// The grid can be built into a board: its values are in range, no two
/// givens clash and no empty cell is left without a candidate.
pub open spec fn accepted(g: Seq<u16>) -> bool {
    grid_ok(g) && consistent(g) && !stuck(g)
}

/// Every cell is resolved.
pub open spec fn complete(g: Seq<u16>) -> bool {
    forall|i: int| 0 <= i < 81 ==> #[trigger] g[i] != 0
}

/// Number of unresolved cells below index `n`.
pub open spec fn empties_upto(g: Seq<u16>, n: int) -> nat
    decreases n,
{
    if n <= 0 {
        0
    } else {
        empties_upto(g, n - 1) + if g[n - 1] == 0 { 1nat } else { 0nat }
    }
}

/// Number of unresolved cells.
pub open spec fn empties(g: Seq<u16>) -> nat {
    empties_upto(g, 81)
}

/// `s` keeps every resolved cell of `g`.
pub open spec fn extends(g: Seq<u16>, s: Seq<u16>) -> bool {
    forall|i: int| 0 <= i < 81 && g[i] != 0 ==> #[trigger] s[i] == g[i]
}

/// Extending the prefix by cell `n` adds that cell's digit to its own scope
/// and changes nothing else.
pub proof fn lemma_used_step(g: Seq<u16>, kind: int, s: int, d: u16, n: int)
    requires
        0 <= n,
    ensures
        used(g, kind, s, d, n + 1) <==> used(g, kind, s, d, n) || (scope_of(kind, n) == s && g[n]
            == d),
{
    if used(g, kind, s, d, n + 1) {
        let k = choose|k: int| 0 <= k < n + 1 && scope_of(kind, k) == s && #[trigger] g[k] == d;
        if k < n {
            assert(used(g, kind, s, d, n));
        }
    }
    if used(g, kind, s, d, n) {
        let k = choose|k: int| 0 <= k < n && scope_of(kind, k) == s && #[trigger] g[k] == d;
        assert(0 <= k < n + 1 && scope_of(kind, k) == s && g[k] == d);
    }
    if scope_of(kind, n) == s && g[n] == d {
        assert(0 <= n < n + 1 && scope_of(kind, n) == s && g[n] == d);
    }
}

/// A digit is allowed in a cell that does not hold it exactly when none of
/// the cell's three scopes uses it.
pub proof fn lemma_allowed_used(g: Seq<u16>, i: int, d: u16)
    requires
        0 <= i < 81,
        1 <= d <= 9,
        g[i] != d,
    ensures
        allowed(g, i, d) <==> !used(g, 0, row_of(i), d, 81) && !used(g, 1, col_of(i), d, 81)
            && !used(g, 2, block_of(i), d, 81),
{
    if allowed(g, i, d) {
        if used(g, 0, row_of(i), d, 81) {
            let k = choose|k: int| 0 <= k < 81 && scope_of(0, k) == row_of(i) && #[trigger] g[k] == d;
            assert(peers(i, k));
        }
        if used(g, 1, col_of(i), d, 81) {
            let k = choose|k: int| 0 <= k < 81 && scope_of(1, k) == col_of(i) && #[trigger] g[k] == d;
            assert(peers(i, k));
        }
        if used(g, 2, block_of(i), d, 81) {
            let k = choose|k: int|
                0 <= k < 81 && scope_of(2, k) == block_of(i) && #[trigger] g[k] == d;
            assert(peers(i, k));
        }
    } else {
        let j = choose|j: int| peers(i, j) && g[j] == d;
        if row_of(i) == row_of(j) {
            assert(0 <= j < 81 && scope_of(0, j) == row_of(i) && g[j] == d);
        } else if col_of(i) == col_of(j) {
            assert(0 <= j < 81 && scope_of(1, j) == col_of(i) && g[j] == d);
        } else {
            assert(0 <= j < 81 && scope_of(2, j) == block_of(i) && g[j] == d);
        }
    }
}

/// No cell has more than nine candidates.
pub proof fn lemma_allowed_upto_bound(g: Seq<u16>, i: int, n: u16)
    ensures
        allowed_upto(g, i, n) <= n,
    decreases n,
{
    if n > 0 {
        lemma_allowed_upto_bound(g, i, (n - 1) as u16);
    }
}

/// The least count below `n` is at most `NONE_LEFT`, and when it is smaller
/// some unresolved cell below `n` has exactly that many candidates.
pub proof fn lemma_min_upto_witness(g: Seq<u16>, n: int) -> (k: int)
    requires
        0 <= n,
    ensures
        min_upto(g, n) <= 10,
        min_upto(g, n) < 10 ==> 0 <= k < n && g[k] == 0 && allowed_count(g, k) == min_upto(g, n),
    decreases n,
{
    if n <= 0 {
        0
    } else {
        let k = lemma_min_upto_witness(g, n - 1);
        if g[n - 1] == 0 && allowed_count(g, n - 1) < min_upto(g, n - 1) {
            n - 1
        } else {
            k
        }
    }
}

/// No unresolved cell below `n` has fewer candidates than the least count.
pub proof fn lemma_min_upto_bound(g: Seq<u16>, n: int, k: int)
    requires
        0 <= k < n,
        g[k] == 0,
    ensures
        min_upto(g, n) <= allowed_count(g, k),
    decreases n,
{
    if k < n - 1 {
        lemma_min_upto_bound(g, n - 1, k);
    }
}

/// The least count is zero exactly when the grid is stuck.
pub proof fn lemma_stuck_min(g: Seq<u16>)
    ensures
        stuck(g) <==> min_count(g) == 0,
{
    if stuck(g) {
        let i = choose|i: int| 0 <= i < 81 && g[i] == 0 && #[trigger] allowed_count(g, i) == 0;
        lemma_min_upto_bound(g, 81, i);
    }
    if min_count(g) == 0 {
        let k = lemma_min_upto_witness(g, 81);
        assert(0 <= k < 81 && g[k] == 0 && allowed_count(g, k) == 0);
    }
}

/// The upward search from `i` returns the first match at or after `i`.
pub proof fn lemma_first_with(g: Seq<u16>, c: nat, i: int)
    requires
        0 <= i <= 81,
    ensures
        i <= first_with(g, c, i) <= 81,
        first_with(g, c, i) < 81 ==> g[first_with(g, c, i)] == 0 && allowed_count(
            g,
            first_with(g, c, i),
        ) == c,
        forall|j: int|
            i <= j < first_with(g, c, i) ==> !(g[j] == 0 && #[trigger] allowed_count(g, j) == c),
    decreases 81 - i,
{
    if i < 81 && !(g[i] == 0 && allowed_count(g, i) == c) {
        lemma_first_with(g, c, i + 1);
    }
}

/// While some cell is unresolved, the frontier is an unresolved cell with the
/// least candidate count, and no cell before it is one.
pub proof fn lemma_frontier(g: Seq<u16>)
    requires
        min_count(g) < 10,
    ensures
        0 <= frontier(g) < 81,
        g[frontier(g)] == 0,
        allowed_count(g, frontier(g)) == min_count(g),
        forall|j: int|
            0 <= j < frontier(g) ==> !(g[j] == 0 && #[trigger] allowed_count(g, j) == min_count(g)),
{
    let k = lemma_min_upto_witness(g, 81);
    lemma_first_with(g, min_count(g), 0);
    if frontier(g) >= 81 {
        assert(!(g[k] == 0 && allowed_count(g, k) == min_count(g)));
    }
}

/// `next_allowed` returns the least allowed digit above `d`.
pub proof fn lemma_next_allowed(g: Seq<u16>, i: int, d: u16)
    requires
        d <= 9,
    ensures
        d < next_allowed(g, i, d) <= 10,
        next_allowed(g, i, d) <= 9 ==> allowed(g, i, next_allowed(g, i, d)),
        forall|e: u16| d < e < next_allowed(g, i, d) ==> !allowed(g, i, e),
    decreases 10 - d,
{
    if d < 9 && !allowed(g, i, (d + 1) as u16) {
        lemma_next_allowed(g, i, (d + 1) as u16);
    }
}

/// A cell in which no digit up to `n` is allowed has no candidate up to `n`.
pub proof fn lemma_allowed_upto_zero(g: Seq<u16>, i: int, n: u16)
    requires
        forall|e: u16| 1 <= e <= n ==> !allowed(g, i, e),
    ensures
        allowed_upto(g, i, n) == 0,
    decreases n,
{
    if n > 0 {
        lemma_allowed_upto_zero(g, i, (n - 1) as u16);
    }
}

/// A cell with a candidate has a least one: `first_allowed` is allowed and
/// nothing below it is.
pub proof fn lemma_first_allowed(g: Seq<u16>, i: int)
    requires
        allowed_count(g, i) > 0,
    ensures
        1 <= first_allowed(g, i) <= 9,
        allowed(g, i, first_allowed(g, i)),
        forall|e: u16| e < first_allowed(g, i) ==> !allowed(g, i, e),
{
    lemma_next_allowed(g, i, 0);
    if first_allowed(g, i) > 9 {
        lemma_allowed_upto_zero(g, i, 9);
    }
}

/// Resolving a cell below index `n` lowers the number of unresolved cells
/// below `n` by one, and resolving another cell leaves it as it is.
pub proof fn lemma_empties_upto_assign(g: Seq<u16>, i: int, d: u16, n: int)
    requires
        g.len() == 81,
        0 <= i < 81,
        0 <= n <= 81,
        g[i] == 0,
        d != 0,
    ensures
        empties_upto(g, n) == empties_upto(g.update(i, d), n) + if i < n { 1nat } else { 0nat },
    decreases n,
{
    if n > 0 {
        lemma_empties_upto_assign(g, i, d, n - 1);
    }
}

/// Resolving a cell lowers the number of unresolved cells by one.
pub proof fn lemma_empties_assign(g: Seq<u16>, i: int, d: u16)
    requires
        g.len() == 81,
        0 <= i < 81,
        g[i] == 0,
        d != 0,
    ensures
        empties(g) == empties(g.update(i, d)) + 1,
{
    lemma_empties_upto_assign(g, i, d, 81);
}

/// A cell that allows some digit up to `n` has a candidate up to `n`.
pub proof fn lemma_allowed_upto_pos(g: Seq<u16>, i: int, n: u16, d: u16)
    requires
        1 <= d <= n,
        allowed(g, i, d),
    ensures
        allowed_upto(g, i, n) > 0,
    decreases n,
{
    if d < n {
        lemma_allowed_upto_pos(g, i, (n - 1) as u16, d);
    }
}

} // verus!
