use sudoku_solver::grid::Board;
use sudoku_solver::loader::parse_sudoku;
use sudoku_solver::solver::{
    bound, get_box_bounds, is_valid_move, move_position, recurse, solve_sudoku, substitute,
};

fn board(lines: &[&str]) -> Board {
    let lines: Vec<String> = lines.iter().map(|l| l.to_string()).collect();
    parse_sudoku(&lines).unwrap()
}

fn is_solved(b: &Board) -> bool {
    let digits_once = |cells: Vec<u8>| {
        let mut seen = [false; 10];
        for d in cells {
            if d == 0 || d > 9 || seen[d as usize] {
                return false;
            }
            seen[d as usize] = true;
        }
        true
    };
    (0..9).all(|r| digits_once((0..9).map(|c| b[r][c]).collect()))
        && (0..9).all(|c| digits_once((0..9).map(|r| b[r][c]).collect()))
        && (0..9).all(|bx| {
            digits_once((0..9).map(|k| b[bx / 3 * 3 + k / 3][bx % 3 * 3 + k % 3]).collect())
        })
}

const PUZZLE: [&str; 9] = [
    "530070000",
    "600195000",
    "098000060",
    "800060003",
    "400803001",
    "700020006",
    "060000280",
    "000419005",
    "000080079",
];

const SOLUTION: [&str; 9] = [
    "534678912",
    "672195348",
    "198342567",
    "859761423",
    "426853791",
    "713924856",
    "961537284",
    "287419635",
    "345286179",
];

const EMPTY: [&str; 9] = [
    "000000000",
    "000000000",
    "000000000",
    "000000000",
    "000000000",
    "000000000",
    "000000000",
    "000000000",
    "000000000",
];

#[test]
fn solves_classic_puzzle() {
    let solved = recurse(board(&PUZZLE), 0, 0).unwrap();
    assert_eq!(solved, board(&SOLUTION));
    assert!(is_solved(&solved));
}

#[test]
fn solve_sudoku_renders_solution() {
    let expected: String = SOLUTION.iter().map(|l| format!("{}\n", l)).collect();
    assert_eq!(solve_sudoku(board(&PUZZLE)), expected);
}

#[test]
fn givens_are_kept() {
    let puzzle = board(&PUZZLE);
    let solved = recurse(puzzle.clone(), 0, 0).unwrap();
    for r in 0..9 {
        for c in 0..9 {
            if puzzle[r][c] != 0 {
                assert_eq!(solved[r][c], puzzle[r][c]);
            }
        }
    }
}

#[test]
fn solving_a_solution_gives_it_back() {
    let solved = recurse(board(&PUZZLE), 0, 0).unwrap();
    assert_eq!(recurse(solved.clone(), 0, 0), Some(solved));
}

#[test]
fn full_invalid_grid_is_returned_unchanged() {
    let lines = ["111111111"; 9];
    let full = board(&lines);
    assert_eq!(recurse(full.clone(), 0, 0), Some(full));
    let expected: String = lines.iter().map(|l| format!("{}\n", l)).collect();
    assert_eq!(solve_sudoku(board(&lines)), expected);
}

#[test]
fn empty_grid_is_solved() {
    let solved = recurse(board(&EMPTY), 0, 0).unwrap();
    assert!(is_solved(&solved));
    let first = [
        "123456789",
        "456789123",
        "789123456",
        "214365897",
        "365897214",
        "897214365",
        "531642978",
        "642978531",
        "978531642",
    ];
    assert_eq!(solved, board(&first));
    let text = solve_sudoku(board(&EMPTY));
    assert_eq!(text.lines().count(), 9);
    assert!(text.lines().all(|l| l.len() == 9));
}

#[test]
fn two_fives_in_a_row_have_no_solution() {
    let mut lines = EMPTY;
    lines[0] = "055123467";
    lines[1] = "800000000";
    lines[2] = "900000000";
    assert_eq!(recurse(board(&lines), 0, 0), None);
    assert_eq!(solve_sudoku(board(&lines)), "No valid solution");
}

#[test]
fn box_bounds() {
    assert_eq!(get_box_bounds(0, 0), (0, 0));
    assert_eq!(get_box_bounds(4, 7), (3, 6));
    assert_eq!(get_box_bounds(8, 2), (6, 0));
}

#[test]
fn next_position() {
    assert_eq!(bound(0, 0), (0, 1));
    assert_eq!(bound(3, 8), (4, 0));
    assert_eq!(bound(8, 8), (9, 0));
}

#[test]
fn valid_moves() {
    let b = board(&PUZZLE);
    // 5 is in row 0.
    assert!(!is_valid_move(&b, 0, 2, 5));
    // 8 is in column 0.
    assert!(!is_valid_move(&b, 2, 0, 8));
    // 9 is in the top-left box.
    assert!(!is_valid_move(&b, 1, 1, 9));
    assert!(is_valid_move(&b, 0, 2, 4));
    assert!(is_valid_move(&b, 0, 2, 1));
}

#[test]
fn substitute_then_search() {
    let b = board(&PUZZLE);
    assert_eq!(substitute(&b, 0, 2, 4), Some(board(&SOLUTION)));
    assert_eq!(substitute(&b, 0, 2, 1), None);
}

#[test]
fn move_position_past_last_cell() {
    let solved = board(&SOLUTION);
    assert_eq!(move_position(solved.clone(), 8, 8), Some(solved));
}
