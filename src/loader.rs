use vstd::prelude::*;
use vstd::string::StrSliceExecFns;
use crate::grid::{Board, grid_of, in_range, wf};

verus! {

/// Why a puzzle's text could not be read as a board. Line numbers count from 1.
#[derive(Debug, Clone, Copy, PartialEq, Eq, Structural)]
pub enum LoadError {
    /// The text ends before the given line.
    MissingLine { line: usize },
    /// The given line holds fewer than nine characters: `found` of them.
    ShortLine { line: usize, found: usize },
}

/// The value of a cell written as `ch`: a digit from 1 to 9 stands for
/// itself, any other character for an empty cell.
pub open spec fn cell_value(ch: char) -> u8 {
    match ch {
        '1' => 1,
        '2' => 2,
        '3' => 3,
        '4' => 4,
        '5' => 5,
        '6' => 6,
        '7' => 7,
        '8' => 8,
        '9' => 9,
        _ => 0,
    }
}

/// The first fault among lines `i` to 8: a line that is missing or that
/// holds fewer than nine characters.
pub open spec fn first_fault(lines: Seq<Seq<char>>, i: nat) -> Option<LoadError>
    decreases 9 - i,
{
    if i >= 9 {
        None
    } else if i >= lines.len() {
        Some(LoadError::MissingLine { line: (i + 1) as usize })
    } else if lines[i as int].len() < 9 {
        Some(LoadError::ShortLine { line: (i + 1) as usize, found: lines[i as int].len() as usize })
    } else {
        first_fault(lines, i + 1)
    }
}

/// The board that nine lines, each of at least nine characters, describe:
/// cell (r, c) is the value of the c-th character of the r-th line.
pub open spec fn board_of_lines(lines: Seq<Seq<char>>, g: Seq<Seq<u8>>) -> bool {
    &&& wf(g)
    &&& forall|r: int, c: int| in_range(r, c) ==> #[trigger] g[r][c] == cell_value(lines[r][c])
}

pub open spec fn lines_view(lines: &Vec<String>) -> Seq<Seq<char>> {
    lines@.map_values(|s: String| s@)
}

/// Reads one character of a puzzle as a cell value.
pub fn parse_cell(ch: char) -> (v: u8)
    ensures
        v == cell_value(ch),
        v <= 9,
{
    match ch {
        '1' => 1,
        '2' => 2,
        '3' => 3,
        '4' => 4,
        '5' => 5,
        '6' => 6,
        '7' => 7,
        '8' => 8,
        '9' => 9,
        _ => 0,
    }
}

/// Reads the first nine characters of a line as a row of cells; characters
/// after the ninth are ignored. `number` is the line's number, for the error.
pub fn parse_row(number: usize, line: &str) -> (r: Result<Vec<u8>, LoadError>)
    ensures
        line@.len() < 9 ==> r == Err::<Vec<u8>, LoadError>(
            LoadError::ShortLine { line: number, found: line@.len() as usize },
        ),
        line@.len() >= 9 ==> r is Ok && r->Ok_0@.len() == 9 && forall|c: int|
            0 <= c < 9 ==> #[trigger] r->Ok_0@[c] == cell_value(line@[c]),
{
    let n = line.unicode_len();
    if n < 9 {
        return Err(LoadError::ShortLine { line: number, found: n });
    }
    let mut row: Vec<u8> = Vec::new();
    let mut j: usize = 0;
    while j < 9
        invariant
            0 <= j <= 9,
            line@.len() >= 9,
            row@.len() == j,
            forall|c: int| 0 <= c < j ==> #[trigger] row@[c] == cell_value(line@[c]),
        decreases 9 - j,
    {
        row.push(parse_cell(line.get_char(j)));
        j += 1;
    }
    Ok(row)
}

/// Reads a puzzle from its first nine lines; lines after the ninth are
/// ignored. Fails on the first line that is missing or too short.
pub fn parse_sudoku(lines: &Vec<String>) -> (r: Result<Board, LoadError>)
    ensures
        match r {
            Ok(b) => first_fault(lines_view(lines), 0) is None && board_of_lines(
                lines_view(lines),
                grid_of(&b),
            ),
            Err(e) => first_fault(lines_view(lines), 0) == Some(e),
        },
{
    let ghost ls = lines_view(lines);
    let mut board: Board = Vec::new();
    let mut i: usize = 0;
    while i < 9
        invariant
            0 <= i <= 9,
            ls == lines_view(lines),
            first_fault(ls, 0) == first_fault(ls, i as nat),
            board@.len() == i,
            i <= ls.len(),
            forall|k: int| 0 <= k < i ==> #[trigger] ls[k].len() >= 9,
            forall|k: int| 0 <= k < i ==> #[trigger] board@[k]@.len() == 9,
            forall|k: int, c: int|
                0 <= k < i && 0 <= c < 9 ==> #[trigger] board@[k]@[c] == cell_value(ls[k][c]),
        decreases 9 - i,
    {
        if i >= lines.len() {
            return Err(LoadError::MissingLine { line: i + 1 });
        }
        let row = parse_row(i + 1, lines[i].as_str());
        assert(ls[i as int] == lines@[i as int]@);
        match row {
            Ok(row) => {
                board.push(row);
            },
            Err(e) => {
                return Err(e);
            },
        }
        i += 1;
    }
    proof {
        let g = grid_of(&board);
        assert forall|r: int| 0 <= r < 9 implies #[trigger] g[r].len() == 9 by {
            assert(g[r] == board@[r]@);
        }
        assert forall|r: int, c: int| in_range(r, c) implies #[trigger] g[r][c] == cell_value(
            ls[r][c],
        ) by {
            assert(g[r] == board@[r]@);
        }
        assert forall|r: int, c: int| in_range(r, c) implies #[trigger] g[r][c] <= 9 by {
            assert(g[r][c] == cell_value(ls[r][c]));
        }
    }
    Ok(board)
}

} // verus!
