use sudoku_solver::checker::check_puzzle;
use sudoku_solver::solver::{find_empty, solve, solve_puzzle};
use sudoku_solver::grid::Sudoku;

fn grid_of(rows: [&str; 9]) -> Sudoku {
    let mut grid: Sudoku = [[None; 9]; 9];
    for (r, line) in rows.iter().enumerate() {
        for (c, b) in line.bytes().enumerate() {
            grid[r][c] = if b == b'.' { None } else { Some(b - b'0') };
        }
    }
    grid
}

fn classic() -> Sudoku {
    grid_of([
        "53..7....",
        "6..195...",
        ".98....6.",
        "8...6...3",
        "4..8.3..1",
        "7...2...6",
        ".6....28.",
        "...419..5",
        "....8..79",
    ])
}

fn classic_solved() -> Sudoku {
    grid_of([
        "534678912",
        "672195348",
        "198342567",
        "859761423",
        "426853791",
        "713924856",
        "961537284",
        "287419635",
        "345286179",
    ])
}

#[test]
fn classic_puzzle_has_its_known_solution() {
    let mut grid = classic();
    assert!(solve(&mut grid));
    assert_eq!(grid, classic_solved());
}

#[test]
fn solved_puzzle_keeps_its_givens_and_passes_the_check() {
    let before = classic();
    let mut grid = before;
    assert!(solve(&mut grid));
    for r in 0..9 {
        for c in 0..9 {
            if before[r][c].is_some() {
                assert_eq!(grid[r][c], before[r][c]);
            }
            assert!(matches!(grid[r][c], Some(1..=9)));
        }
    }
    assert!(check_puzzle(&grid));
}

#[test]
fn complete_grid_is_reported_solved_and_left_alone() {
    let mut grid = classic_solved();
    assert!(solve(&mut grid));
    assert_eq!(grid, classic_solved());
}

#[test]
fn complete_grid_is_not_judged_by_the_search() {
    let mut grid: Sudoku = [[Some(5); 9]; 9];
    assert!(solve(&mut grid));
    assert_eq!(grid, [[Some(5); 9]; 9]);
    assert!(!check_puzzle(&grid));
}

#[test]
fn repeated_given_far_from_the_empty_cells_goes_unnoticed() {
    // row 0 holds 5 twice; the one empty cell meets neither of them
    let mut grid = classic_solved();
    grid[0][1] = Some(5);
    grid[8][8] = None;
    assert!(solve(&mut grid));
    assert_eq!(grid[8][8], Some(9));
    assert!(!check_puzzle(&grid));
}

#[test]
fn one_missing_cell_is_filled() {
    let mut grid = classic_solved();
    grid[4][4] = None;
    assert!(solve(&mut grid));
    assert_eq!(grid, classic_solved());
}

#[test]
fn two_equal_givens_in_a_row_are_unsolvable() {
    let mut grid = classic();
    grid[0][2] = Some(5);
    let before = grid;
    assert!(!solve(&mut grid));
    assert_eq!(grid, before);
}

#[test]
fn failed_search_leaves_no_residue() {
    // row 0 lacks only a 9, and column 8 holds a 9 already
    let mut grid: Sudoku = [[None; 9]; 9];
    for c in 0..8 {
        grid[0][c] = Some(c as u8 + 1);
    }
    grid[5][8] = Some(9);
    let before = grid;
    assert!(!solve(&mut grid));
    assert_eq!(grid, before);
}

#[test]
fn failure_deep_in_the_search_restores_every_cell() {
    // the last row is left without a candidate for its last cell only
    // after the cells before it have been filled
    let mut grid = classic_solved();
    grid[8][0] = None;
    grid[8][1] = None;
    grid[8][8] = None;
    grid[7][8] = Some(9);
    let before = grid;
    assert!(!solve(&mut grid));
    assert_eq!(grid, before);
}

#[test]
fn empty_grid_gets_the_first_completion_in_scan_order() {
    let mut grid: Sudoku = [[None; 9]; 9];
    assert!(solve(&mut grid));
    assert_eq!(
        grid,
        grid_of([
            "123456789",
            "456789123",
            "789123456",
            "214365897",
            "365897214",
            "897214365",
            "531642978",
            "642978531",
            "978531642",
        ])
    );
    assert!(check_puzzle(&grid));
}

#[test]
fn smaller_digit_is_tried_first() {
    // both 1 and 2 complete the grid; the search keeps 1
    let mut grid = grid_of([
        "123456789",
        "456789123",
        "789123456",
        "214365897",
        "365897214",
        "897214365",
        "531642978",
        "642978531",
        "978531642",
    ]);
    grid[0][0] = None;
    grid[0][1] = None;
    grid[3][0] = None;
    grid[3][1] = None;
    let mut first = grid;
    assert!(solve(&mut first));
    assert_eq!(first[0][0], Some(1));
    assert_eq!(first[0][1], Some(2));
    assert_eq!(first[3][0], Some(2));
    assert_eq!(first[3][1], Some(1));
    // the other completion exists
    let mut other = grid;
    other[0][0] = Some(2);
    assert!(solve(&mut other));
    assert_eq!(other[0][1], Some(1));
    assert!(check_puzzle(&other));
}

#[test]
fn solve_puzzle_solves_in_place() {
    let mut grid = classic();
    solve_puzzle(&mut grid);
    assert_eq!(grid, classic_solved());
}

#[test]
fn solve_puzzle_leaves_an_unsolvable_grid_as_it_was() {
    let mut grid: Sudoku = [[None; 9]; 9];
    for c in 0..8 {
        grid[0][c] = Some(c as u8 + 1);
    }
    grid[5][8] = Some(9);
    let before = grid;
    solve_puzzle(&mut grid);
    assert_eq!(grid, before);
}

#[test]
fn first_empty_cell_is_found_row_by_row() {
    assert_eq!(find_empty(&classic()), Some((0, 2)));
    assert_eq!(find_empty(&classic_solved()), None);
    let mut grid = classic_solved();
    grid[8][8] = None;
    assert_eq!(find_empty(&grid), Some((8, 8)));
    grid[3][7] = None;
    grid[4][0] = None;
    assert_eq!(find_empty(&grid), Some((3, 7)));
    let empty: Sudoku = [[None; 9]; 9];
    assert_eq!(find_empty(&empty), Some((0, 0)));
}
