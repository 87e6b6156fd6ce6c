use vstd::prelude::*;

verus! {

/// A board: nine rows of nine cells, 0 for an empty cell, 1 to 9 for a digit.
pub type Board = Vec<Vec<u8>>;

/// The mathematical grid of a board: its rows as sequences of cell values.
pub open spec fn grid_of(b: &Board) -> Seq<Seq<u8>> {
    b@.map_values(|row: Vec<u8>| row@)
}

pub open spec fn in_range(r: int, c: int) -> bool {
    0 <= r < 9 && 0 <= c < 9
}

/// Nine rows of nine cells, each holding 0 to 9.
pub open spec fn wf(g: Seq<Seq<u8>>) -> bool {
    &&& g.len() == 9
    &&& forall|r: int| 0 <= r < 9 ==> #[trigger] g[r].len() == 9
    &&& forall|r: int, c: int| in_range(r, c) ==> #[trigger] g[r][c] <= 9
}

/// Two cells share a row, a column or a 3x3 box.
pub open spec fn same_unit(r1: int, c1: int, r2: int, c2: int) -> bool {
    r1 == r2 || c1 == c2 || (r1 / 3 == r2 / 3 && c1 / 3 == c2 / 3)
}

/// `v` appears in no cell of the row, the column or the box of (row, col).
pub open spec fn valid_move(g: Seq<Seq<u8>>, row: int, col: int, v: u8) -> bool {
    forall|r: int, c: int| in_range(r, c) && same_unit(row, col, r, c) ==> #[trigger] g[r][c] != v
}

/// No cell is empty.
pub open spec fn complete(g: Seq<Seq<u8>>) -> bool {
    forall|r: int, c: int| in_range(r, c) ==> #[trigger] g[r][c] != 0
}

/// `s` keeps every non-empty cell of `g`.
pub open spec fn extends(g: Seq<Seq<u8>>, s: Seq<Seq<u8>>) -> bool {
    forall|r: int, c: int| in_range(r, c) && g[r][c] != 0 ==> #[trigger] s[r][c] == g[r][c]
}

/// Two different cells of one unit hold the same value in `s`.
pub open spec fn clash(s: Seq<Seq<u8>>, r1: int, c1: int, r2: int, c2: int) -> bool {
    &&& (r1 != r2 || c1 != c2)
    &&& same_unit(r1, c1, r2, c2)
    &&& s[r1][c1] == s[r2][c2]
}

/// `s` fills every empty cell of `g`, keeps the others, and no cell that was
/// empty in `g` holds a value that another cell of its unit holds in `s`.
/// Clashes between non-empty cells of `g` are not looked at.
pub open spec fn solution_of(g: Seq<Seq<u8>>, s: Seq<Seq<u8>>) -> bool {
    &&& wf(s)
    &&& complete(s)
    &&& extends(g, s)
    &&& forall|r1: int, c1: int, r2: int, c2: int|
        in_range(r1, c1) && in_range(r2, c2) && g[r1][c1] == 0 ==> !#[trigger] clash(
            s,
            r1,
            c1,
            r2,
            c2,
        )
}

pub open spec fn has_solution(g: Seq<Seq<u8>>) -> bool {
    exists|s: Seq<Seq<u8>>| solution_of(g, s)
}

/// The grid `g` with `v` written at (row, col).
pub open spec fn set_at(g: Seq<Seq<u8>>, row: int, col: int, v: u8) -> Seq<Seq<u8>> {
    g.update(row, g[row].update(col, v))
}

/// Every cell before (row, col) in row-major order is filled.
pub open spec fn filled_before(g: Seq<Seq<u8>>, row: int, col: int) -> bool {
    forall|r: int, c: int| in_range(r, c) && before(r, c, row, col) ==> #[trigger] g[r][c] != 0
}

/// Cell (r1, c1) comes before cell (r2, c2) in row-major order.
pub open spec fn before(r1: int, c1: int, r2: int, c2: int) -> bool {
    r1 < r2 || (r1 == r2 && c1 < c2)
}

/// `t` and `s` agree on every cell before (r, c).
pub open spec fn agree_before(t: Seq<Seq<u8>>, s: Seq<Seq<u8>>, r: int, c: int) -> bool {
    forall|r2: int, c2: int| in_range(r2, c2) && before(r2, c2, r, c) ==> #[trigger] t[r2][c2]
        == s[r2][c2]
}

/// `t` comes before `s` when the cells are read in row-major order.
pub open spec fn lex_lt(t: Seq<Seq<u8>>, s: Seq<Seq<u8>>) -> bool {
    exists|r: int, c: int| in_range(r, c) && #[trigger] t[r][c] < s[r][c] && agree_before(t, s, r, c)
}

/// The solution of `g` that comes first in row-major order: the one that a
/// depth-first search trying digits in ascending order reaches first.
pub open spec fn first_solution_of(g: Seq<Seq<u8>>, s: Seq<Seq<u8>>) -> bool {
    &&& solution_of(g, s)
    &&& forall|t: Seq<Seq<u8>>| #[trigger] solution_of(g, t) ==> !lex_lt(t, s)
}

/// No two different cells of one unit hold the same digit.
pub open spec fn consistent(s: Seq<Seq<u8>>) -> bool {
    forall|r1: int, c1: int, r2: int, c2: int|
        in_range(r1, c1) && in_range(r2, c2) && s[r1][c1] != 0 ==> !#[trigger] clash(
            s,
            r1,
            c1,
            r2,
            c2,
        )
}

} // verus!
