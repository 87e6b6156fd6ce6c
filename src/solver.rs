use vstd::prelude::*;
use vstd::string::StringExecFns;
use crate::laws::lemma_full_grid_returned;
use crate::render::{format_solution, grid_text};
use crate::grid::{
    Board, agree_before, before, clash, filled_before, first_solution_of,
    grid_of, has_solution, in_range, lex_lt, same_unit, set_at, solution_of, valid_move, wf,
};

verus! {

/// Solves `board` and renders the outcome: the first solution as nine lines
/// of digits, or "No valid solution" when there is none.
pub fn solve_sudoku(board: Board) -> (text: String)
    requires
        wf(grid_of(&board)),
    ensures
        !has_solution(grid_of(&board)) ==> text@ == "No valid solution"@,
        has_solution(grid_of(&board)) ==> exists|s: Seq<Seq<u8>>|
            first_solution_of(grid_of(&board), s) && text@ == grid_text(s),
{
    proof {
        assert forall|r: int, c: int| in_range(r, c) && before(r, c, 0, 0) implies #[trigger] grid_of(
            &board,
        )[r][c] != 0 by {}
    }
    match recurse(board, 0, 0) {
        None => String::from_str("No valid solution"),
        Some(solution) => format_solution(solution),
    }
}

/// The top-left cell of the 3x3 box that holds (row, col).
pub fn get_box_bounds(row: usize, col: usize) -> (r: (usize, usize))
    requires
        row < 9,
        col < 9,
    ensures
        r.0 == row / 3 * 3,
        r.1 == col / 3 * 3,
        r.0 + 3 <= 9,
        r.1 + 3 <= 9,
{
    ((row / 3) * 3, (col / 3) * 3)
}

/// Whether `candidate` may be written at (row, col): it appears nowhere in
/// the cell's column, row or box.
pub fn is_valid_move(board: &Board, row: usize, col: usize, candidate: u8) -> (r: bool)
    requires
        wf(grid_of(board)),
        row < 9,
        col < 9,
    ensures
        r == valid_move(grid_of(board), row as int, col as int, candidate),
{
    let ghost g = grid_of(board);
    assert(forall|i: int| 0 <= i < 9 ==> #[trigger] g[i] == board@[i]@);
    assert(forall|i: int| 0 <= i < 9 ==> #[trigger] board@[i]@.len() == 9) by {
        assert forall|i: int| 0 <= i < 9 implies #[trigger] board@[i]@.len() == 9 by {
            assert(g[i].len() == 9);
        }
    }
    let mut i: usize = 0;
    while i < 9
        invariant
            0 <= i <= 9,
            row < 9,
            col < 9,
            g == grid_of(board),
            wf(g),
            forall|k: int| 0 <= k < 9 ==> #[trigger] g[k] == board@[k]@,
            board@.len() == 9,
            forall|k: int| 0 <= k < 9 ==> #[trigger] board@[k]@.len() == 9,
            forall|k: int| 0 <= k < i ==> #[trigger] g[k][col as int] != candidate,
        decreases 9 - i,
    {
        if board[i][col] == candidate {
            assert(same_unit(row as int, col as int, i as int, col as int));
            assert(g[i as int][col as int] == candidate);
            return false;
        }
        i += 1;
    }
    let mut i: usize = 0;
    while i < 9
        invariant
            0 <= i <= 9,
            row < 9,
            col < 9,
            g == grid_of(board),
            wf(g),
            forall|k: int| 0 <= k < 9 ==> #[trigger] g[k] == board@[k]@,
            board@.len() == 9,
            forall|k: int| 0 <= k < 9 ==> #[trigger] board@[k]@.len() == 9,
            forall|k: int| 0 <= k < i ==> #[trigger] g[row as int][k] != candidate,
        decreases 9 - i,
    {
        if board[row][i] == candidate {
            assert(same_unit(row as int, col as int, row as int, i as int));
            assert(g[row as int][i as int] == candidate);
            return false;
        }
        i += 1;
    }
    let (br, bc) = get_box_bounds(row, col);
    let mut i: usize = br;
    while i < br + 3
        invariant
            br <= i <= br + 3,
            row < 9,
            col < 9,
            g == grid_of(board),
            wf(g),
            forall|k: int| 0 <= k < 9 ==> #[trigger] g[k] == board@[k]@,
            board@.len() == 9,
            forall|k: int| 0 <= k < 9 ==> #[trigger] board@[k]@.len() == 9,
            br == row / 3 * 3,
            bc == col / 3 * 3,
            br + 3 <= 9,
            bc + 3 <= 9,
            forall|k: int, m: int|
                br <= k < i && bc <= m < bc + 3 ==> #[trigger] g[k][m] != candidate,
        decreases br + 3 - i,
    {
        let mut j: usize = bc;
        while j < bc + 3
            invariant
                br <= i < br + 3,
                row < 9,
                col < 9,
                g == grid_of(board),
                wf(g),
                forall|k: int| 0 <= k < 9 ==> #[trigger] g[k] == board@[k]@,
            board@.len() == 9,
            forall|k: int| 0 <= k < 9 ==> #[trigger] board@[k]@.len() == 9,
                bc <= j <= bc + 3,
                br == row / 3 * 3,
                bc == col / 3 * 3,
                br + 3 <= 9,
                bc + 3 <= 9,
                forall|k: int, m: int|
                    br <= k < i && bc <= m < bc + 3 ==> #[trigger] g[k][m] != candidate,
                forall|m: int| bc <= m < j ==> #[trigger] g[i as int][m] != candidate,
            decreases bc + 3 - j,
        {
            if board[i][j] == candidate {
                assert(same_unit(row as int, col as int, i as int, j as int));
                assert(g[i as int][j as int] == candidate);
                return false;
            }
            j += 1;
        }
        i += 1;
    }
    assert forall|r: int, c: int|
        in_range(r, c) && same_unit(row as int, col as int, r, c) implies #[trigger] g[r][c]
        != candidate by {
        if r != row as int && c != col as int {
            assert(br <= r < br + 3 && bc <= c < bc + 3);
        }
    }
    true
}

/// The cell after (row, col) in row-major order; after the last cell of a
/// row comes the first cell of the next row.
pub fn bound(row: usize, col: usize) -> (r: (usize, usize))
    requires
        row < 9,
        col < 9,
    ensures
        col == 8 ==> r.0 == row + 1 && r.1 == 0,
        col != 8 ==> r.0 == row && r.1 == col + 1,
{
    if col == 8 {
        (row + 1, 0)
    } else {
        (row, col + 1)
    }
}


/// A copy of `board` with `v` written at (row, col).
fn with_cell(board: &Board, row: usize, col: usize, v: u8) -> (out: Board)
    requires
        wf(grid_of(board)),
        row < 9,
        col < 9,
        v <= 9,
    ensures
        grid_of(&out) == set_at(grid_of(board), row as int, col as int, v),
        wf(grid_of(&out)),
{
    let ghost g = grid_of(board);
    assert(forall|i: int| 0 <= i < 9 ==> #[trigger] g[i] == board@[i]@);
    let mut out: Board = Vec::new();
    let mut i: usize = 0;
    while i < 9
        invariant
            0 <= i <= 9,
            row < 9,
            col < 9,
            g == grid_of(board),
            wf(g),
            forall|k: int| 0 <= k < 9 ==> #[trigger] g[k] == board@[k]@,
            board@.len() == 9,
            out@.len() == i,
            forall|k: int|
                0 <= k < i ==> #[trigger] out@[k]@ == set_at(g, row as int, col as int, v)[k],
        decreases 9 - i,
    {
        assert(board@[i as int]@.len() == 9) by {
            assert(g[i as int].len() == 9);
        }
        let mut line: Vec<u8> = Vec::new();
        let mut j: usize = 0;
        while j < 9
            invariant
                0 <= i < 9,
                0 <= j <= 9,
                row < 9,
                col < 9,
                g == grid_of(board),
                forall|k: int| 0 <= k < 9 ==> #[trigger] g[k] == board@[k]@,
                board@.len() == 9,
                board@[i as int]@.len() == 9,
                line@.len() == j,
                forall|m: int|
                    0 <= m < j ==> #[trigger] line@[m] == (if i == row && m == col {
                        v
                    } else {
                        g[i as int][m]
                    }),
            decreases 9 - j,
        {
            if i == row && j == col {
                line.push(v);
            } else {
                line.push(board[i][j]);
            }
            j += 1;
        }
        assert(line@ =~= set_at(g, row as int, col as int, v)[i as int]);
        out.push(line);
        i += 1;
    }
    assert(grid_of(&out) =~= set_at(g, row as int, col as int, v));
    out
}

/// Writes `candidate` at (row, col) in a copy of `board` and searches on from
/// there.
pub fn substitute(board: &Board, row: usize, col: usize, candidate: u8) -> (r: Option<Board>)
    requires
        wf(grid_of(board)),
        row < 9,
        col < 9,
        1 <= candidate <= 9,
        filled_before(grid_of(board), row as int, col as int),
    ensures
        ({
            let g2 = set_at(grid_of(board), row as int, col as int, candidate);
            match r {
                Some(s) => first_solution_of(g2, grid_of(&s)),
                None => !has_solution(g2),
            }
        }),
    decreases 4 * (81 - (9 * row + col)) + 2,
{
    let next = with_cell(board, row, col, candidate);
    proof {
        let g = grid_of(board);
        let g2 = grid_of(&next);
        assert forall|r: int, c: int| in_range(r, c) && before(r, c, row as int, col as int)
            implies #[trigger] g2[r][c] != 0 by {
            assert(g[r][c] != 0);
        }
        assert(g2[row as int][col as int] == candidate);
    }
    recurse(next, row, col)
}

/// Goes on to the cell after (row, col), or returns the board when (row, col)
/// is the last cell.
pub fn move_position(board: Board, row: usize, col: usize) -> (r: Option<Board>)
    requires
        wf(grid_of(&board)),
        row < 9,
        col < 9,
        filled_before(grid_of(&board), row as int, col as int),
        grid_of(&board)[row as int][col as int] != 0,
    ensures
        match r {
            Some(s) => first_solution_of(grid_of(&board), grid_of(&s)),
            None => !has_solution(grid_of(&board)),
        },
    decreases 4 * (81 - (9 * row + col)),
{
    let ghost g = grid_of(&board);
    let (nrow, ncol) = bound(row, col);
    proof {
        assert forall|r: int, c: int| in_range(r, c) && before(r, c, nrow as int, ncol as int)
            implies #[trigger] g[r][c] != 0 by {
            if !(r == row && c == col) {
                assert(before(r, c, row as int, col as int));
            }
        }
    }
    if nrow == 9 {
        proof {
            assert forall|r: int, c: int| in_range(r, c) implies #[trigger] g[r][c] != 0 by {
                assert(before(r, c, nrow as int, ncol as int));
            }
            lemma_full_grid_returned(g);
        }
        Some(board)
    } else {
        recurse(board, nrow, ncol)
    }
}

/// Depth-first search from (row, col): an empty cell takes each digit that
/// fits, in ascending order, until the search from it succeeds; a filled cell
/// is passed over. The result is the first solution in row-major order. A
/// board with no empty cell comes back as it is: the search checks each digit
/// that it writes, and never the given cells among themselves.
pub fn recurse(board: Board, row: usize, col: usize) -> (r: Option<Board>)
    requires
        wf(grid_of(&board)),
        row < 9,
        col < 9,
        filled_before(grid_of(&board), row as int, col as int),
    ensures
        match r {
            Some(s) => first_solution_of(grid_of(&board), grid_of(&s)),
            None => !has_solution(grid_of(&board)),
        },
    decreases 4 * (81 - (9 * row + col)) + (if grid_of(&board)[row as int][col as int] == 0 {
        3int
    } else {
        1int
    }),
{
    let ghost g = grid_of(&board);
    assert(board@[row as int]@ == g[row as int]);
    if board[row][col] != 0 {
        return move_position(board, row, col);
    }
    let mut candidate: u8 = 1;
    while candidate <= 9
        invariant
            1 <= candidate <= 10,
            row < 9,
            col < 9,
            g == grid_of(&board),
            wf(g),
            filled_before(g, row as int, col as int),
            g[row as int][col as int] == 0,
            forall|t: Seq<Seq<u8>>|
                #[trigger] solution_of(g, t) ==> t[row as int][col as int] >= candidate,
        decreases 10 - candidate,
    {
        if is_valid_move(&board, row, col, candidate) {
            let res = substitute(&board, row, col, candidate);
            match res {
                Some(s) => {
                    proof {
                        lemma_first_through(g, row as int, col as int, candidate, grid_of(&s));
                    }
                    return Some(s);
                },
                None => {
                    proof {
                        assert forall|t: Seq<Seq<u8>>| #[trigger]
                            solution_of(g, t) implies t[row as int][col as int] >= candidate
                            + 1 by {
                            lemma_solution_split(g, row as int, col as int, t);
                            if t[row as int][col as int] == candidate {
                                assert(solution_of(
                                    set_at(g, row as int, col as int, candidate),
                                    t,
                                ));
                            }
                        }
                    }
                },
            }
        } else {
            proof {
                assert forall|t: Seq<Seq<u8>>| #[trigger]
                    solution_of(g, t) implies t[row as int][col as int] >= candidate + 1 by {
                    lemma_solution_split(g, row as int, col as int, t);
                }
            }
        }
        candidate += 1;
    }
    proof {
        assert forall|t: Seq<Seq<u8>>| !solution_of(g, t) by {
            if solution_of(g, t) {
                assert(t[row as int][col as int] <= 9);
            }
        }
    }
    None
}

/// With (row, col) empty and every cell before it filled, a solution of `g`
/// is a solution of `g` with its own digit at (row, col), a digit that fits
/// there.
proof fn lemma_solution_split(g: Seq<Seq<u8>>, row: int, col: int, s: Seq<Seq<u8>>)
    requires
        wf(g),
        in_range(row, col),
        g[row][col] == 0,
    ensures
        solution_of(g, s) <==> (1 <= s[row][col] <= 9 && valid_move(g, row, col, s[row][col])
            && solution_of(set_at(g, row, col, s[row][col]), s)),
{
    let v = s[row][col];
    let g2 = set_at(g, row, col, v);
    assert forall|r: int, c: int| in_range(r, c) implies #[trigger] g2[r][c] == (if r == row
        && c == col {
        v
    } else {
        g[r][c]
    }) by {}
    if solution_of(g, s) {
        assert(s[row][col] != 0);
        assert(s[row][col] <= 9);
        assert forall|r: int, c: int|
            in_range(r, c) && same_unit(row, col, r, c) implies #[trigger] g[r][c] != v by {
            if g[r][c] == v {
                assert(clash(s, row, col, r, c));
            }
        }
        assert forall|r1: int, c1: int, r2: int, c2: int|
            in_range(r1, c1) && in_range(r2, c2) && g2[r1][c1] == 0 implies !#[trigger] clash(
            s,
            r1,
            c1,
            r2,
            c2,
        ) by {
            assert(g[r1][c1] == 0);
        }
    }
    if 1 <= v <= 9 && valid_move(g, row, col, v) && solution_of(g2, s) {
        assert forall|r: int, c: int| in_range(r, c) && g[r][c] != 0 implies #[trigger] s[r][c]
            == g[r][c] by {
            assert(g2[r][c] == g[r][c]);
        }
        assert forall|r1: int, c1: int, r2: int, c2: int|
            in_range(r1, c1) && in_range(r2, c2) && g[r1][c1] == 0 implies !#[trigger] clash(
            s,
            r1,
            c1,
            r2,
            c2,
        ) by {
            if r1 == row && c1 == col {
                if clash(s, r1, c1, r2, c2) {
                    if g[r2][c2] != 0 {
                        assert(s[r2][c2] == g[r2][c2]);
                        assert(g[r2][c2] != v);
                    } else {
                        assert(g2[r2][c2] == 0);
                        assert(clash(s, r2, c2, r1, c1));
                    }
                }
            } else {
                assert(g2[r1][c1] == 0);
            }
        }
    }
}

/// The first solution that the search finds through digit `v` at (row, col),
/// after every smaller digit failed there, is the first solution of `g`.
proof fn lemma_first_through(g: Seq<Seq<u8>>, row: int, col: int, v: u8, s: Seq<Seq<u8>>)
    requires
        wf(g),
        in_range(row, col),
        g[row][col] == 0,
        1 <= v <= 9,
        valid_move(g, row, col, v),
        filled_before(g, row, col),
        first_solution_of(set_at(g, row, col, v), s),
        forall|t: Seq<Seq<u8>>| #[trigger] solution_of(g, t) ==> t[row][col] >= v,
    ensures
        first_solution_of(g, s),
{
    let g2 = set_at(g, row, col, v);
    assert(g2[row][col] == v);
    assert(s[row][col] == v);
    lemma_solution_split(g, row, col, s);
    assert forall|t: Seq<Seq<u8>>| #[trigger] solution_of(g, t) implies !lex_lt(t, s) by {
        if lex_lt(t, s) {
            let (r, c) = choose|r: int, c: int|
                in_range(r, c) && #[trigger] t[r][c] < s[r][c] && agree_before(t, s, r, c);
            if before(r, c, row, col) {
                assert(g[r][c] != 0);
                assert(t[r][c] == g[r][c]);
                assert(s[r][c] == g[r][c]);
            } else if r == row && c == col {
                assert(t[row][col] >= v);
            } else {
                assert(before(row, col, r, c));
                assert(t[row][col] == s[row][col]);
                lemma_solution_split(g, row, col, t);
                assert(solution_of(g2, t));
            }
        }
    }
}

} // verus!
