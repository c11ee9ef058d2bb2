use sudoku_solver::board::{Sudoku, Unsolvable};
use sudoku_solver::candidates::{single, ALL};
use sudoku_solver::rules::NONE_LEFT;

fn everest() -> [u16; 81] {
    [
        8, 0, 0, 0, 0, 0, 0, 0, 0,
        0, 0, 3, 6, 0, 0, 0, 0, 0,
        0, 7, 0, 0, 9, 0, 2, 0, 0,
        0, 5, 0, 0, 0, 7, 0, 0, 0,
        0, 0, 0, 0, 4, 5, 7, 0, 0,
        0, 0, 0, 1, 0, 0, 0, 3, 0,
        0, 0, 1, 0, 0, 0, 0, 6, 8,
        0, 0, 8, 5, 0, 0, 0, 1, 0,
        0, 9, 0, 0, 0, 0, 4, 0, 0,
    ]
}

fn with(cells: &[(usize, u16)]) -> [u16; 81] {
    let mut g = [0u16; 81];
    for &(i, d) in cells {
        g[i] = d;
    }
    g
}

#[test]
fn create_keeps_the_grid() {
    let s = Sudoku::create(everest()).unwrap();
    assert_eq!(s.grid(), everest());
}

#[test]
fn create_on_empty_grid_gives_every_cell_nine_candidates() {
    let s = Sudoku::create([0; 81]).unwrap();
    assert_eq!(s.min_num(), 9);
    assert_eq!(s.frontier(), 0);
    for i in 0..81 {
        assert_eq!(s.candidates(i), ALL);
    }
}

#[test]
fn create_subtracts_a_given_from_its_peers_only() {
    let s = Sudoku::create(with(&[(0, 8)])).unwrap();
    let without_eight = ALL ^ single(8);
    assert_eq!(s.candidates(0), 0);
    // same row, same column, same block
    assert_eq!(s.candidates(1), without_eight);
    assert_eq!(s.candidates(8), without_eight);
    assert_eq!(s.candidates(9), without_eight);
    assert_eq!(s.candidates(72), without_eight);
    assert_eq!(s.candidates(20), without_eight);
    // no shared scope
    assert_eq!(s.candidates(12), ALL);
    assert_eq!(s.candidates(30), ALL);
    assert_eq!(s.candidates(80), ALL);
    assert_eq!(s.min_num(), 8);
    assert_eq!(s.frontier(), 1);
}

#[test]
fn create_finds_the_most_constrained_cell() {
    // Row 0 holds 1..=7, so its last two cells have the candidates 8 and 9.
    let g = with(&[(0, 1), (1, 2), (2, 3), (3, 4), (4, 5), (5, 6), (6, 7)]);
    let s = Sudoku::create(g).unwrap();
    assert_eq!(s.min_num(), 2);
    assert_eq!(s.frontier(), 7);
    assert_eq!(s.candidates(7), single(8) | single(9));
    assert_eq!(s.candidates(8), single(8) | single(9));
}

#[test]
fn create_on_full_grid_has_nothing_left() {
    let solved = [
        8, 1, 2, 7, 5, 3, 6, 4, 9,
        9, 4, 3, 6, 8, 2, 1, 7, 5,
        6, 7, 5, 4, 9, 1, 2, 8, 3,
        1, 5, 4, 2, 3, 7, 8, 9, 6,
        3, 6, 9, 8, 4, 5, 7, 2, 1,
        2, 8, 7, 1, 6, 9, 5, 3, 4,
        5, 2, 1, 9, 7, 4, 3, 6, 8,
        4, 3, 8, 5, 2, 6, 9, 1, 7,
        7, 9, 6, 3, 1, 8, 4, 5, 2,
    ];
    let s = Sudoku::create(solved).unwrap();
    assert_eq!(s.min_num(), NONE_LEFT);
    assert_eq!(s.grid(), solved);
}

#[test]
fn create_rejects_two_equal_givens_in_a_row() {
    let r = Sudoku::create(with(&[(0, 5), (1, 5)]));
    assert_eq!(r.err(), Some(Unsolvable::AtConstruction));
}

#[test]
fn create_rejects_two_equal_givens_in_a_distant_row_pair() {
    let r = Sudoku::create(with(&[(27, 4), (35, 4)]));
    assert_eq!(r.err(), Some(Unsolvable::AtConstruction));
}

#[test]
fn create_rejects_two_equal_givens_in_a_column() {
    let r = Sudoku::create(with(&[(4, 7), (76, 7)]));
    assert_eq!(r.err(), Some(Unsolvable::AtConstruction));
}

#[test]
fn create_rejects_two_equal_givens_in_a_block() {
    // cells (3,3) and (5,5): same block, different row and column
    let r = Sudoku::create(with(&[(30, 2), (50, 2)]));
    assert_eq!(r.err(), Some(Unsolvable::AtConstruction));
}

#[test]
fn create_accepts_equal_givens_in_unrelated_cells() {
    // cells (0,0) and (4,4) share no scope
    let r = Sudoku::create(with(&[(0, 2), (40, 2)]));
    assert!(r.is_ok());
}

#[test]
fn create_rejects_a_value_above_nine() {
    let r = Sudoku::create(with(&[(17, 10)]));
    assert_eq!(r.err(), Some(Unsolvable::AtConstruction));
    let r = Sudoku::create(with(&[(80, 65535)]));
    assert_eq!(r.err(), Some(Unsolvable::AtConstruction));
}

#[test]
fn create_rejects_a_cell_without_candidates() {
    // Row 0 holds 1..=8 and column 8 holds the 9: cell (0,8) can take nothing.
    let g = with(&[(0, 1), (1, 2), (2, 3), (3, 4), (4, 5), (5, 6), (6, 7), (7, 8), (53, 9)]);
    let r = Sudoku::create(g);
    assert_eq!(r.err(), Some(Unsolvable::AtConstruction));
}

#[test]
fn update_places_the_digit_and_narrows_the_peers() {
    let mut s = Sudoku::create([0; 81]).unwrap();
    s.update(40, 5);
    let mut expected = [0u16; 81];
    expected[40] = 5;
    assert_eq!(s.grid(), expected);
    let without_five = ALL ^ single(5);
    assert_eq!(s.candidates(40), 0);
    assert_eq!(s.candidates(36), without_five);
    assert_eq!(s.candidates(44), without_five);
    assert_eq!(s.candidates(4), without_five);
    assert_eq!(s.candidates(76), without_five);
    assert_eq!(s.candidates(30), without_five);
    assert_eq!(s.candidates(50), without_five);
    assert_eq!(s.candidates(0), ALL);
    assert_eq!(s.candidates(80), ALL);
    assert_eq!(s.min_num(), 8);
    assert_eq!(s.frontier(), 4);
}

#[test]
fn update_gives_the_board_that_create_gives() {
    let mut s = Sudoku::create(with(&[(0, 8)])).unwrap();
    s.update(13, 6);
    s.update(80, 8);
    let t = Sudoku::create(with(&[(0, 8), (13, 6), (80, 8)])).unwrap();
    assert_eq!(s.grid(), t.grid());
    assert_eq!(s.min_num(), t.min_num());
    assert_eq!(s.frontier(), t.frontier());
    for i in 0..81 {
        assert_eq!(s.candidates(i), t.candidates(i));
    }
}

#[test]
fn update_marks_a_contradiction() {
    // Cells (0,7) and (0,8) can both take 9 only.
    let g = with(&[(0, 1), (1, 2), (2, 3), (3, 4), (4, 5), (5, 6), (6, 7), (34, 8), (62, 8)]);
    let mut s = Sudoku::create(g).unwrap();
    assert_eq!(s.min_num(), 1);
    assert_eq!(s.frontier(), 7);
    assert_eq!(s.candidates(7), single(9));
    s.update(7, 9);
    assert_eq!(s.min_num(), 0);
    assert_eq!(s.grid()[7], 9);
}

#[test]
fn update_leaves_copies_alone() {
    let s = Sudoku::create(everest()).unwrap();
    let mut q = s;
    let i = q.frontier();
    let d = q.candidates(i).trailing_zeros() as u16;
    q.update(i, d);
    assert_eq!(s.grid(), everest());
    assert_eq!(q.grid()[i], d);
    assert_ne!(s.candidates(i), q.candidates(i));
}

#[test]
fn get_mins_recomputes_what_create_found() {
    let mut s = Sudoku::create(everest()).unwrap();
    let (least, cell) = (s.min_num(), s.frontier());
    s.get_mins();
    assert_eq!(s.min_num(), least);
    assert_eq!(s.frontier(), cell);
    assert_eq!(s.grid(), everest());
}

#[test]
fn frontier_is_the_first_cell_with_the_least_count() {
    let s = Sudoku::create(everest()).unwrap();
    let least = s.min_num();
    let cell = s.frontier();
    let grid = s.grid();
    for i in 0..81 {
        if grid[i] == 0 {
            let n = s.candidates(i).count_ones() as u16;
            assert!(n >= least);
            if i < cell {
                assert!(n > least);
            }
        }
    }
    assert_eq!(grid[cell], 0);
    assert_eq!(s.candidates(cell).count_ones() as u16, least);
}
