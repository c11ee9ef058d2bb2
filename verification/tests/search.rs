use sudoku_solver::board::{Sudoku, Unsolvable};
use sudoku_solver::rules::NONE_LEFT;
use sudoku_solver::solver::{solve, solve_puzzle};

const EVEREST: [u16; 81] = [
    8, 0, 0, 0, 0, 0, 0, 0, 0,
    0, 0, 3, 6, 0, 0, 0, 0, 0,
    0, 7, 0, 0, 9, 0, 2, 0, 0,
    0, 5, 0, 0, 0, 7, 0, 0, 0,
    0, 0, 0, 0, 4, 5, 7, 0, 0,
    0, 0, 0, 1, 0, 0, 0, 3, 0,
    0, 0, 1, 0, 0, 0, 0, 6, 8,
    0, 0, 8, 5, 0, 0, 0, 1, 0,
    0, 9, 0, 0, 0, 0, 4, 0, 0,
];

const EVEREST_SOLVED: [u16; 81] = [
    8, 1, 2, 7, 5, 3, 6, 4, 9,
    9, 4, 3, 6, 8, 2, 1, 7, 5,
    6, 7, 5, 4, 9, 1, 2, 8, 3,
    1, 5, 4, 2, 3, 7, 8, 9, 6,
    3, 6, 9, 8, 4, 5, 7, 2, 1,
    2, 8, 7, 1, 6, 9, 5, 3, 4,
    5, 2, 1, 9, 7, 4, 3, 6, 8,
    4, 3, 8, 5, 2, 6, 9, 1, 7,
    7, 9, 6, 3, 1, 8, 4, 5, 2,
];

const ESCARGOT: [u16; 81] = [
    1, 0, 0, 0, 0, 7, 0, 9, 0,
    0, 3, 0, 0, 2, 0, 0, 0, 8,
    0, 0, 9, 6, 0, 0, 5, 0, 0,
    0, 0, 5, 3, 0, 0, 9, 0, 0,
    0, 1, 0, 0, 8, 0, 0, 0, 2,
    6, 0, 0, 0, 0, 4, 0, 0, 0,
    3, 0, 0, 0, 0, 0, 0, 1, 0,
    0, 4, 0, 0, 0, 0, 0, 0, 7,
    0, 0, 7, 0, 0, 0, 3, 0, 0,
];

const ESCARGOT_SOLVED: [u16; 81] = [
    1, 6, 2, 8, 5, 7, 4, 9, 3,
    5, 3, 4, 1, 2, 9, 6, 7, 8,
    7, 8, 9, 6, 4, 3, 5, 2, 1,
    4, 7, 5, 3, 1, 2, 9, 8, 6,
    9, 1, 3, 5, 8, 6, 7, 4, 2,
    6, 2, 8, 7, 9, 4, 1, 3, 5,
    3, 5, 6, 4, 7, 8, 2, 1, 9,
    2, 4, 1, 9, 3, 5, 8, 6, 7,
    8, 9, 7, 2, 6, 1, 3, 5, 4,
];

const SPARSE: [u16; 81] = [
    0, 2, 0, 0, 3, 0, 0, 4, 0,
    6, 0, 0, 0, 0, 0, 0, 0, 3,
    0, 0, 4, 0, 0, 0, 5, 0, 0,
    0, 0, 0, 8, 0, 6, 0, 0, 0,
    8, 0, 0, 0, 1, 0, 0, 0, 6,
    0, 0, 0, 7, 0, 5, 0, 0, 0,
    0, 0, 7, 0, 0, 0, 6, 0, 0,
    4, 0, 0, 0, 0, 0, 0, 0, 8,
    0, 3, 0, 0, 4, 0, 0, 2, 0,
];

const SPARSE_SOLVED: [u16; 81] = [
    9, 2, 5, 6, 3, 1, 8, 4, 7,
    6, 1, 8, 5, 7, 4, 2, 9, 3,
    3, 7, 4, 9, 8, 2, 5, 6, 1,
    7, 4, 9, 8, 2, 6, 1, 3, 5,
    8, 5, 2, 4, 1, 3, 9, 7, 6,
    1, 6, 3, 7, 9, 5, 4, 8, 2,
    2, 8, 7, 3, 5, 9, 6, 1, 4,
    4, 9, 1, 2, 6, 7, 3, 5, 8,
    5, 3, 6, 1, 4, 8, 7, 2, 9,
];

fn with(cells: &[(usize, u16)]) -> [u16; 81] {
    let mut g = [0u16; 81];
    for &(i, d) in cells {
        g[i] = d;
    }
    g
}

fn cells_of_scope(kind: usize, s: usize) -> Vec<usize> {
    (0..9)
        .map(|k| match kind {
            0 => s * 9 + k,
            1 => k * 9 + s,
            _ => ((s / 3) * 3 + k / 3) * 9 + (s % 3) * 3 + k % 3,
        })
        .collect()
}

fn each_digit_once_everywhere(g: &[u16; 81]) -> bool {
    for kind in 0..3 {
        for s in 0..9 {
            let cells = cells_of_scope(kind, s);
            for d in 1..=9u16 {
                if cells.iter().filter(|&&i| g[i] == d).count() != 1 {
                    return false;
                }
            }
        }
    }
    true
}

fn keeps_givens(puzzle: &[u16; 81], solution: &[u16; 81]) -> bool {
    (0..81).all(|i| puzzle[i] == 0 || puzzle[i] == solution[i])
}

#[test]
fn solves_everest() {
    let t = solve_puzzle(EVEREST).unwrap();
    assert_eq!(t.grid(), EVEREST_SOLVED);
    assert_eq!(t.min_num(), NONE_LEFT);
}

#[test]
fn solves_escargot() {
    let t = solve_puzzle(ESCARGOT).unwrap();
    assert_eq!(t.grid(), ESCARGOT_SOLVED);
}

#[test]
fn solves_sparse_symmetric_puzzle() {
    let t = solve_puzzle(SPARSE).unwrap();
    assert_eq!(t.grid(), SPARSE_SOLVED);
}

#[test]
fn solve_on_a_created_board_matches_solve_puzzle() {
    let s = Sudoku::create(EVEREST).unwrap();
    let t = solve(s).unwrap();
    assert_eq!(t.grid(), EVEREST_SOLVED);
    assert_eq!(s.grid(), EVEREST);
}

#[test]
fn solutions_keep_the_givens() {
    for puzzle in [EVEREST, ESCARGOT, SPARSE, [0; 81], with(&[(0, 8)])] {
        let t = solve_puzzle(puzzle).unwrap();
        assert!(keeps_givens(&puzzle, &t.grid()));
    }
}

#[test]
fn solutions_hold_each_digit_once_per_scope() {
    for puzzle in [EVEREST, ESCARGOT, SPARSE, [0; 81], with(&[(0, 8)])] {
        let t = solve_puzzle(puzzle).unwrap();
        assert!(each_digit_once_everywhere(&t.grid()));
    }
}

#[test]
fn empty_grid_gets_the_first_grid_in_search_order() {
    let t = solve_puzzle([0; 81]).unwrap();
    let expected = [
        1, 2, 3, 4, 5, 6, 7, 8, 9,
        4, 5, 6, 7, 8, 9, 1, 2, 3,
        7, 8, 9, 1, 2, 3, 4, 5, 6,
        2, 3, 1, 6, 7, 4, 8, 9, 5,
        8, 7, 5, 9, 1, 2, 3, 6, 4,
        6, 9, 4, 5, 3, 8, 2, 1, 7,
        3, 1, 7, 2, 6, 5, 9, 4, 8,
        5, 4, 2, 8, 9, 7, 6, 3, 1,
        9, 6, 8, 3, 4, 1, 5, 7, 2,
    ];
    assert_eq!(t.grid(), expected);
}

#[test]
fn single_given_gets_the_first_grid_in_search_order() {
    let t = solve_puzzle(with(&[(0, 8)])).unwrap();
    let expected = [
        8, 1, 2, 3, 4, 5, 6, 7, 9,
        3, 4, 5, 6, 7, 9, 1, 2, 8,
        6, 7, 9, 1, 2, 8, 3, 4, 5,
        1, 2, 3, 8, 5, 4, 9, 6, 7,
        9, 8, 7, 2, 6, 1, 4, 5, 3,
        4, 5, 6, 7, 9, 3, 2, 8, 1,
        2, 3, 1, 5, 8, 6, 7, 9, 4,
        5, 6, 4, 9, 1, 7, 8, 3, 2,
        7, 9, 8, 4, 3, 2, 5, 1, 6,
    ];
    assert_eq!(t.grid(), expected);
}

#[test]
fn solving_twice_gives_the_same_grid() {
    for puzzle in [EVEREST, ESCARGOT, [0; 81]] {
        let a = solve_puzzle(puzzle).unwrap().grid();
        let b = solve_puzzle(puzzle).unwrap().grid();
        assert_eq!(a, b);
    }
}

#[test]
fn solving_a_solution_changes_nothing() {
    let t = solve_puzzle(EVEREST_SOLVED).unwrap();
    assert_eq!(t.grid(), EVEREST_SOLVED);
}

#[test]
fn propagation_alone_fills_forced_cells() {
    // One cell missing from each row of a solution: every gap is forced.
    let mut puzzle = EVEREST_SOLVED;
    for r in 0..9 {
        puzzle[r * 9 + (r * 4) % 9] = 0;
    }
    let s = Sudoku::create(puzzle).unwrap();
    assert_eq!(s.min_num(), 1);
    let t = solve(s).unwrap();
    assert_eq!(t.grid(), EVEREST_SOLVED);
    // A second run starts at the fixpoint and returns it as it is.
    let again = solve(t).unwrap();
    assert_eq!(again.grid(), EVEREST_SOLVED);
    assert_eq!(again.min_num(), NONE_LEFT);
}

#[test]
fn row_with_two_fives_has_no_solution() {
    let r = solve_puzzle(with(&[(0, 5), (1, 5)]));
    assert_eq!(r.err(), Some(Unsolvable::AtConstruction));
}

#[test]
fn column_with_two_equal_givens_has_no_solution() {
    let r = solve_puzzle(with(&[(2, 3), (65, 3)]));
    assert_eq!(r.err(), Some(Unsolvable::AtConstruction));
}

#[test]
fn block_with_two_equal_givens_has_no_solution() {
    let r = solve_puzzle(with(&[(60, 1), (80, 1)]));
    assert_eq!(r.err(), Some(Unsolvable::AtConstruction));
}

#[test]
fn value_out_of_range_has_no_solution() {
    let r = solve_puzzle(with(&[(40, 12)]));
    assert_eq!(r.err(), Some(Unsolvable::AtConstruction));
}

#[test]
fn contradiction_found_by_propagation_is_a_search_failure() {
    // Cells (0,7) and (0,8) can both take 9 only: the grid is accepted, and
    // the first forced step empties the other cell.
    let g = with(&[(0, 1), (1, 2), (2, 3), (3, 4), (4, 5), (5, 6), (6, 7), (34, 8), (62, 8)]);
    assert!(Sudoku::create(g).is_ok());
    let r = solve_puzzle(g);
    assert_eq!(r.err(), Some(Unsolvable::InSearch));
}

#[test]
fn contradiction_found_by_branching_is_a_search_failure() {
    // Everest with a wrong extra given: consistent with the other givens, but
    // the unique solution has a 1 at (0,1).
    let mut g = EVEREST;
    g[1] = 2;
    assert!(Sudoku::create(g).is_ok());
    let r = solve_puzzle(g);
    assert_eq!(r.err(), Some(Unsolvable::InSearch));
}

#[test]
fn solve_on_a_dead_board_returns_nothing() {
    let g = with(&[(0, 1), (1, 2), (2, 3), (3, 4), (4, 5), (5, 6), (6, 7), (34, 8), (62, 8)]);
    let mut s = Sudoku::create(g).unwrap();
    s.update(7, 9);
    assert_eq!(s.min_num(), 0);
    assert!(solve(s).is_none());
}
