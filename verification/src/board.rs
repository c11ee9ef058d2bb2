//! The board state: the grid together with the candidate set of every cell
//! and the index of the most constrained unresolved cell.

use vstd::prelude::*;
use crate::candidates::{
    contains, count_upto, is_mask, lemma_all, lemma_none, member, minus, single, size, union, ALL,
};
use crate::grid::{block_num_from_coords, block_of, col_of, coords_from_ind, peers, row_of};
use crate::rules::{
    accepted, allowed, allowed_count, allowed_upto, consistent, first_with, frontier, grid_ok,
    lemma_allowed_used, lemma_min_upto_bound, lemma_stuck_min, lemma_used_step, min_count, min_upto,
    scope_of, stuck, used, NONE_LEFT,
};

verus! {

/// A grid with its derived candidate sets.
///
/// `min_num` is the least candidate count among the unresolved cells: `0`
/// marks a contradiction, `NONE_LEFT` a board without unresolved cells.
#[derive(Clone, Copy, Debug)]
pub struct Sudoku {
    m: [u16; 81],
    cells: [u16; 81],
    frontier: usize,
    min_num: u16,
}

/// Why a puzzle has no solution.
#[derive(Clone, Copy, Debug, PartialEq, Eq, Structural)]
pub enum Unsolvable {
    /// The given grid already breaks the rules or leaves a cell without a
    /// candidate.
    AtConstruction,
    /// Propagation and exhaustive search found no completion.
    InSearch,
}

/// `masks` records, for each of the nine scopes of the given kind, the digits
/// placed in the cells below index `n`.
pub open spec fn used_exact(g: Seq<u16>, kind: int, masks: Seq<u16>, n: int) -> bool {
    &&& masks.len() == 9
    &&& forall|s: int| 0 <= s < 9 ==> is_mask(#[trigger] masks[s])
    &&& forall|s: int, d: u16|
        0 <= s < 9 && 1 <= d <= 9 ==> (#[trigger] member(masks[s], d) <==> used(g, kind, s, d, n))
}

/// Recording the digit of cell `n` in the mask of its scope extends the
/// record by that cell.
pub proof fn lemma_used_exact_step(
    g: Seq<u16>,
    kind: int,
    before: Seq<u16>,
    after: Seq<u16>,
    n: int,
)
    requires
        0 <= n,
        g[n] <= 9,
        used_exact(g, kind, before, n),
        0 <= scope_of(kind, n) < 9,
        after.len() == 9,
        forall|s: int| 0 <= s < 9 && s != scope_of(kind, n) ==> after[s] == before[s],
        is_mask(after[scope_of(kind, n)]),
        forall|e: u16|
            1 <= e <= 9 ==> (#[trigger] member(after[scope_of(kind, n)], e) <==> member(
                before[scope_of(kind, n)],
                e,
            ) || e == g[n]),
    ensures
        used_exact(g, kind, after, n + 1),
{
    assert forall|s: int, d: u16| 0 <= s < 9 && 1 <= d <= 9 implies (#[trigger] member(
        after[s],
        d,
    ) <==> used(g, kind, s, d, n + 1)) by {
        lemma_used_step(g, kind, s, d, n);
        assert(member(before[s], d) <==> used(g, kind, s, d, n));
    }
}

/// `mask` is the candidate set of cell `k` of `g`: empty for a resolved cell,
/// the allowed digits for an unresolved one.
pub open spec fn mask_exact(g: Seq<u16>, k: int, mask: u16) -> bool {
    is_mask(mask) && forall|d: u16|
        1 <= d <= 9 ==> (#[trigger] member(mask, d) <==> g[k] == 0 && allowed(g, k, d))
}

/// An exact mask has as many members as its cell has allowed digits.
pub proof fn lemma_exact_count(g: Seq<u16>, k: int, mask: u16, n: u16)
    requires
        mask_exact(g, k, mask),
        g[k] == 0,
        n <= 9,
    ensures
        count_upto(mask, n) == allowed_upto(g, k, n),
    decreases n,
{
    if n > 0 {
        lemma_exact_count(g, k, mask, (n - 1) as u16);
        assert(member(mask, n) <==> allowed(g, k, n));
    }
}

impl View for Sudoku {
    type V = Seq<u16>;

    /// The grid, row by row.
    closed spec fn view(&self) -> Seq<u16> {
        self.m@
    }
}

impl Sudoku {
    /// The grid obeys the rules and every candidate set is exact.
    pub closed spec fn prepared(self) -> bool {
        &&& grid_ok(self.m@)
        &&& consistent(self.m@)
        &&& forall|k: int| 0 <= k < 81 ==> mask_exact(self.m@, k, #[trigger] self.cells[k])
    }

    /// The least candidate count recorded on the board.
    pub closed spec fn spec_min_num(self) -> u16 {
        self.min_num
    }

    /// The frontier cell recorded on the board.
    pub closed spec fn spec_frontier(self) -> usize {
        self.frontier
    }

    /// The board's invariant. The recorded count is the least candidate count
    /// of the grid; unless it is `0`, the candidate sets are exact and the
    /// recorded frontier is the grid's frontier cell.
    pub closed spec fn wf(self) -> bool {
        &&& grid_ok(self.m@)
        &&& consistent(self.m@)
        &&& self.min_num == min_count(self.m@)
        &&& self.min_num != 0 ==> self.prepared() && self.frontier == frontier(self.m@)
    }

    /// What the invariant says of the grid and of the recorded count.
    pub proof fn lemma_wf(self)
        requires
            self.wf(),
        ensures
            grid_ok(self@),
            consistent(self@),
            self.spec_min_num() == min_count(self@),
            self.spec_min_num() != 0 ==> self.prepared() && self.spec_frontier() == frontier(self@),
    {
    }

    /// What a prepared board says of its grid.
    pub proof fn lemma_prepared(self)
        requires
            self.prepared(),
        ensures
            grid_ok(self@),
            consistent(self@),
    {
    }

    /// The grid, row by row.
    pub fn grid(&self) -> (g: [u16; 81])
        ensures
            g@ == self@,
    {
        self.m
    }

    /// The least candidate count among the unresolved cells: `0` on a
    /// contradiction, `NONE_LEFT` when every cell is resolved.
    pub fn min_num(&self) -> (n: u16)
        ensures
            n == self.spec_min_num(),
            self.wf() ==> n == min_count(self@),
    {
        self.min_num
    }

    /// The frontier cell, the next cell to branch on. It is meaningful while
    /// some cell is unresolved and the board holds no contradiction.
    pub fn frontier(&self) -> (i: usize)
        ensures
            i == self.spec_frontier(),
            self.wf() && min_count(self@) != 0 ==> i == frontier(self@),
    {
        self.frontier
    }

    /// The candidate set of cell `i`, as a mask with bit `d` set for each
    /// candidate digit `d`.
    pub fn candidates(&self, i: usize) -> (mask: u16)
        requires
            i < 81,
        ensures
            self.prepared() ==> mask_exact(self@, i as int, mask),
    {
        self.cells[i]
    }

    /// Builds the board of a grid: records the givens, derives every
    /// candidate set and finds the frontier cell.
    ///
    /// Fails when a cell holds a value above 9, when two givens share a scope,
    /// or when some empty cell is left without a candidate.
    pub fn create(m: [u16; 81]) -> (r: Result<Sudoku, Unsolvable>)
        ensures
            r is Ok <==> accepted(m@),
            r matches Ok(s) ==> s.wf() && s@ == m@ && s.spec_min_num() == min_count(m@),
            r matches Err(e) ==> e == Unsolvable::AtConstruction,
    {
        let mut rows: [u16; 9] = [0u16; 9];
        let mut cols: [u16; 9] = [0u16; 9];
        let mut blocks: [u16; 9] = [0u16; 9];
        proof {
            lemma_none();
        }
        let mut i: usize = 0;
        while i < 81
            invariant
                i <= 81,
                forall|k: int| 0 <= k < i ==> #[trigger] m@[k] <= 9,
                forall|a: int, b: int|
                    0 <= a < i && 0 <= b < i && peers(a, b) && m@[a] != 0 ==> m@[a] != m@[b],
                used_exact(m@, 0, rows@, i as int),
                used_exact(m@, 1, cols@, i as int),
                used_exact(m@, 2, blocks@, i as int),
            decreases 81 - i,
        {
            let v: u16 = m[i];
            if v > 9 {
                return Err(Unsolvable::AtConstruction);
            }
            let (x, y) = coords_from_ind(i);
            let z = block_num_from_coords(x, y);
            let ghost rows0 = rows@;
            let ghost cols0 = cols@;
            let ghost blocks0 = blocks@;
            if v > 0 {
                if contains(rows[x], v) || contains(cols[y], v) || contains(blocks[z], v) {
                    proof {
                        lemma_clash(m@, rows@, cols@, blocks@, i as int);
                    }
                    return Err(Unsolvable::AtConstruction);
                }
                let bit = single(v);
                rows[x] = union(rows[x], bit);
                cols[y] = union(cols[y], bit);
                blocks[z] = union(blocks[z], bit);
            }
            proof {
                lemma_used_exact_step(m@, 0, rows0, rows@, i as int);
                lemma_used_exact_step(m@, 1, cols0, cols@, i as int);
                lemma_used_exact_step(m@, 2, blocks0, blocks@, i as int);
                lemma_no_clash(m@, rows0, cols0, blocks0, i as int);
            }
            i = i + 1;
        }
        assert(grid_ok(m@));
        assert(consistent(m@));
        let mut cells: [u16; 81] = [0u16; 81];
        let mut i: usize = 0;
        while i < 81
            invariant
                i <= 81,
                grid_ok(m@),
                used_exact(m@, 0, rows@, 81),
                used_exact(m@, 1, cols@, 81),
                used_exact(m@, 2, blocks@, 81),
                forall|k: int| 0 <= k < i ==> mask_exact(m@, k, #[trigger] cells[k]),
            decreases 81 - i,
        {
            if m[i] == 0 {
                let (x, y) = coords_from_ind(i);
                let z = block_num_from_coords(x, y);
                proof {
                    lemma_all();
                }
                let free = minus(minus(minus(ALL, rows[x]), cols[y]), blocks[z]);
                cells[i] = free;
                proof {
                    assert forall|d: u16| 1 <= d <= 9 implies (#[trigger] member(free, d)
                        <==> m@[i as int] == 0 && allowed(m@, i as int, d)) by {
                        lemma_allowed_used(m@, i as int, d);
                        assert(member(rows@[x as int], d) <==> used(m@, 0, x as int, d, 81));
                        assert(member(cols@[y as int], d) <==> used(m@, 1, y as int, d, 81));
                        assert(member(blocks@[z as int], d) <==> used(m@, 2, z as int, d, 81));
                    }
                }
            } else {
                cells[i] = 0;
                proof {
                    lemma_none();
                }
            }
            i = i + 1;
        }
        let mut s = Sudoku { m, cells, frontier: 81, min_num: NONE_LEFT };
        s.get_mins();
        proof {
            lemma_stuck_min(m@);
        }
        if s.min_num == 0 {
            Err(Unsolvable::AtConstruction)
        } else {
            Ok(s)
        }
    }

    /// Recomputes the least candidate count and the frontier cell from the
    /// candidate sets.
    pub fn get_mins(&mut self)
        requires
            old(self).prepared(),
        ensures
            final(self).wf(),
            final(self).prepared(),
            final(self)@ == old(self)@,
            final(self).spec_min_num() == min_count(old(self)@),
            min_count(old(self)@) < 10 ==> final(self).spec_frontier() == frontier(old(self)@),
    {
        self.min_num = NONE_LEFT;
        self.frontier = 81;
        let mut i: usize = 0;
        while i < 81
            invariant
                i <= 81,
                self.m == old(self).m,
                self.cells == old(self).cells,
                self.prepared(),
                self.min_num == min_upto(self.m@, i as int),
                self.min_num <= 10,
                self.frontier <= 81,
                self.min_num < 10 ==> self.frontier < i,
                self.frontier < 81 ==> self.m@[self.frontier as int] == 0 && allowed_count(
                    self.m@,
                    self.frontier as int,
                ) == self.min_num,
                forall|j: int|
                    0 <= j < i && j < self.frontier ==> !(self.m@[j] == 0 && #[trigger] allowed_count(
                        self.m@,
                        j,
                    ) == self.min_num),
            decreases 81 - i,
        {
            if self.m[i] == 0 {
                let n: u16 = size(self.cells[i]);
                proof {
                    lemma_exact_count(self.m@, i as int, self.cells[i as int], 9);
                }
                if n < self.min_num {
                    proof {
                        assert forall|j: int| 0 <= j < i implies !(self.m@[j] == 0
                            && #[trigger] allowed_count(self.m@, j) == n) by {
                            if self.m@[j] == 0 {
                                lemma_min_upto_bound(self.m@, i as int, j);
                            }
                        }
                    }
                    self.min_num = n;
                    self.frontier = i;
                }
            }
            i = i + 1;
        }
        proof {
            lemma_first_with_is(self.m@, self.min_num as nat, self.frontier as int, 0);
        }
    }

    /// Assigns digit `val` to the unresolved cell `i` and removes it from the
    /// candidate sets of the cell's peers.
    ///
    /// As soon as a peer is left without a candidate the board is marked as a
    /// contradiction and the remaining peers are left as they are.
    pub fn update(&mut self, i: usize, val: u16)
        requires
            old(self).wf(),
            old(self).spec_min_num() != 0,
            i < 81,
            old(self)@[i as int] == 0,
            allowed(old(self)@, i as int, val),
        ensures
            final(self).wf(),
            final(self)@ == old(self)@.update(i as int, val),
            final(self).spec_min_num() == min_count(final(self)@),
            final(self).spec_min_num() == 0 <==> stuck(final(self)@),
    {
        let (x, y) = coords_from_ind(i);
        let z = block_num_from_coords(x, y);
        let bit = single(val);
        self.m[i] = val;
        self.cells[i] = 0;
        proof {
            lemma_assign_consistent(old(self).m@, i as int, val);
            lemma_none();
        }
        let mut j: usize = 0;
        while j < 81
            invariant
                j <= 81,
                i < 81,
                x == i / 9,
                y == i % 9,
                z == (x / 3) * 3 + y / 3,
                old(self).prepared(),
                old(self).m@[i as int] == 0,
                allowed(old(self).m@, i as int, val),
                is_mask(bit),
                forall|e: u16| e < 16 ==> (member(bit, e) <==> e == val),
                self.m@ == old(self).m@.update(i as int, val),
                grid_ok(self.m@),
                consistent(self.m@),
                forall|k: int| 0 <= k < j ==> mask_exact(self.m@, k, #[trigger] self.cells[k]),
                forall|k: int| j <= k < 81 && k != i ==> #[trigger] self.cells[k] == old(self).cells[k],
                self.cells[i as int] == 0,
            decreases 81 - j,
        {
            let (x2, y2) = coords_from_ind(j);
            let z2 = block_num_from_coords(x2, y2);
            proof {
                if j != i {
                    lemma_assign_allowed(old(self).m@, i as int, val, j as int);
                }
            }
            let ghost before = self.cells[j as int];
            proof {
                if j != i {
                    assert(before == old(self).cells[j as int]);
                    assert(mask_exact(old(self).m@, j as int, before));
                    assert(peers(j as int, i as int) <==> (x == x2 || y == y2 || z == z2));
                }
            }
            if j != i && self.m[j] == 0 && (x == x2 || y == y2 || z == z2) {
                let reduced = minus(self.cells[j], bit);
                self.cells[j] = reduced;
                proof {
                    assert forall|d: u16| 1 <= d <= 9 implies (#[trigger] member(reduced, d)
                        <==> self.m@[j as int] == 0 && allowed(self.m@, j as int, d)) by {
                        assert(member(reduced, d) <==> member(before, d) && !member(bit, d));
                    }
                    assert(mask_exact(self.m@, j as int, reduced));
                }
                if reduced == 0 {
                    self.min_num = 0;
                    proof {
                        lemma_none();
                        lemma_exact_count(self.m@, j as int, reduced, 9);
                        lemma_count_empty(9);
                        lemma_min_upto_bound(self.m@, 81, j as int);
                        lemma_stuck_min(self.m@);
                    }
                    return ;
                }
            }
            proof {
                let now = self.cells[j as int];
                if j == i {
                    lemma_none();
                    assert(mask_exact(self.m@, j as int, now));
                } else if now == before {
                    assert forall|d: u16| 1 <= d <= 9 implies (#[trigger] member(now, d)
                        <==> self.m@[j as int] == 0 && allowed(self.m@, j as int, d)) by {
                        assert(member(before, d) <==> old(self).m@[j as int] == 0 && allowed(
                            old(self).m@,
                            j as int,
                            d,
                        ));
                    }
                    assert(mask_exact(self.m@, j as int, now));
                }
            }
            j = j + 1;
        }
        self.get_mins();
        proof {
            lemma_stuck_min(self.m@);
        }
    }
}

/// The upward search from `i` stops at `f` when `f` is the first match.
pub proof fn lemma_first_with_is(g: Seq<u16>, c: nat, f: int, i: int)
    requires
        0 <= i <= f <= 81,
        forall|j: int| i <= j < f ==> !(g[j] == 0 && #[trigger] allowed_count(g, j) == c),
        f < 81 ==> g[f] == 0 && allowed_count(g, f) == c,
    ensures
        first_with(g, c, i) == f,
    decreases f - i,
{
    if i < f {
        lemma_first_with_is(g, c, f, i + 1);
    }
}

/// The empty set has no member to count.
pub proof fn lemma_count_empty(n: u16)
    requires
        n <= 9,
    ensures
        count_upto(0, n) == 0,
    decreases n,
{
    if n > 0 {
        lemma_count_empty((n - 1) as u16);
        lemma_none();
    }
}

/// Placing an allowed digit in an unresolved cell keeps the grid consistent.
pub proof fn lemma_assign_consistent(g: Seq<u16>, i: int, val: u16)
    requires
        grid_ok(g),
        consistent(g),
        0 <= i < 81,
        g[i] == 0,
        allowed(g, i, val),
    ensures
        grid_ok(g.update(i, val)),
        consistent(g.update(i, val)),
{
    let h = g.update(i, val);
    assert forall|a: int, b: int| peers(a, b) && h[a] != 0 implies h[a] != h[b] by {
        if a == i {
            assert(peers(i, b));
        } else if b == i {
            assert(peers(i, a));
        }
    }
}

/// After digit `val` is placed in cell `i`, another cell `k` may take what it
/// could take before, except `val` if it is a peer of `i`.
pub proof fn lemma_assign_allowed(g: Seq<u16>, i: int, val: u16, k: int)
    requires
        g.len() == 81,
        0 <= i < 81,
        0 <= k < 81,
        k != i,
        g[i] == 0,
        1 <= val <= 9,
    ensures
        forall|d: u16|
            #[trigger] allowed(g.update(i, val), k, d) <==> allowed(g, k, d) && !(peers(k, i) && d
                == val),
{
    let h = g.update(i, val);
    assert forall|d: u16| #[trigger] allowed(h, k, d) <==> allowed(g, k, d) && !(peers(k, i) && d
        == val) by {
        if allowed(h, k, d) {
            assert forall|j: int| peers(k, j) implies g[j] != d by {
                if j != i {
                    assert(h[j] == g[j]);
                }
            }
            if peers(k, i) {
                assert(h[i] != d);
            }
        }
        if allowed(g, k, d) && !(peers(k, i) && d == val) {
            assert forall|j: int| peers(k, j) implies h[j] != d by {
                if j != i {
                    assert(h[j] == g[j]);
                }
            }
        }
    }
}

/// A given whose digit is already recorded in one of its scopes clashes with
/// an earlier given.
pub proof fn lemma_clash(g: Seq<u16>, rows: Seq<u16>, cols: Seq<u16>, blocks: Seq<u16>, n: int)
    requires
        0 <= n < 81,
        g.len() == 81,
        1 <= g[n] <= 9,
        used_exact(g, 0, rows, n),
        used_exact(g, 1, cols, n),
        used_exact(g, 2, blocks, n),
        member(rows[scope_of(0, n)], g[n]) || member(cols[scope_of(1, n)], g[n]) || member(
            blocks[scope_of(2, n)],
            g[n],
        ),
    ensures
        !consistent(g),
{
    let d = g[n];
    let kind: int = if member(rows[scope_of(0, n)], d) {
        0
    } else if member(cols[scope_of(1, n)], d) {
        1
    } else {
        2
    };
    assert(used(g, kind, scope_of(kind, n), d, n));
    let k = choose|k: int| 0 <= k < n && scope_of(kind, k) == scope_of(kind, n) && #[trigger] g[k] == d;
    assert(peers(n, k));
}

/// A cell whose digit is recorded in none of its scopes, or which is empty,
/// clashes with no earlier cell.
pub proof fn lemma_no_clash(g: Seq<u16>, rows: Seq<u16>, cols: Seq<u16>, blocks: Seq<u16>, n: int)
    requires
        0 <= n < 81,
        g.len() == 81,
        g[n] <= 9,
        used_exact(g, 0, rows, n),
        used_exact(g, 1, cols, n),
        used_exact(g, 2, blocks, n),
        g[n] != 0 ==> !member(rows[scope_of(0, n)], g[n]) && !member(cols[scope_of(1, n)], g[n])
            && !member(blocks[scope_of(2, n)], g[n]),
        forall|a: int, b: int| 0 <= a < n && 0 <= b < n && peers(a, b) && g[a] != 0 ==> g[a] != g[b],
    ensures
        forall|a: int, b: int|
            0 <= a < n + 1 && 0 <= b < n + 1 && peers(a, b) && g[a] != 0 ==> g[a] != g[b],
{
    assert forall|a: int, b: int|
        0 <= a < n + 1 && 0 <= b < n + 1 && peers(a, b) && g[a] != 0 implies g[a] != g[b] by {
        if a == n || b == n {
            let k = if a == n { b } else { a };
            if g[k] == g[n] {
                let d = g[n];
                if row_of(k) == row_of(n) {
                    assert(used(g, 0, scope_of(0, n), d, n));
                } else if col_of(k) == col_of(n) {
                    assert(used(g, 1, scope_of(1, n), d, n));
                } else {
                    assert(block_of(k) == block_of(n));
                    assert(used(g, 2, scope_of(2, n), d, n));
                }
            }
        }
    }
}

} // verus!
