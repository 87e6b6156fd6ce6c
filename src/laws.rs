use vstd::prelude::*;
use vstd::relations::injective_on;
use vstd::set_lib::{lemma_int_range, lemma_map_size, lemma_subset_equality, set_int_range};
use crate::grid::{
    agree_before, before, clash, complete, consistent, first_solution_of, in_range, lex_lt, same_unit,
    solution_of, wf,
};

verus! {

/// Digit `d` appears in row `r`.
pub open spec fn row_has(s: Seq<Seq<u8>>, r: int, d: int) -> bool {
    exists|c: int| 0 <= c < 9 && #[trigger] s[r][c] == d
}

/// Digit `d` appears in column `c`.
pub open spec fn col_has(s: Seq<Seq<u8>>, c: int, d: int) -> bool {
    exists|r: int| 0 <= r < 9 && #[trigger] s[r][c] == d
}

/// Digit `d` appears in box `b`. Box `b` has its top-left cell at
/// (b / 3 * 3, b % 3 * 3), and its cell `k` lies k / 3 rows and k % 3
/// columns from there.
pub open spec fn box_has(s: Seq<Seq<u8>>, b: int, d: int) -> bool {
    exists|k: int| 0 <= k < 9 && #[trigger] s[b / 3 * 3 + k / 3][b % 3 * 3 + k % 3] == d
}

/// Every row, every column and every 3x3 box holds each digit from 1 to 9
/// exactly once: no cell is empty, no digit repeats within a unit, and each
/// digit appears in each unit.
pub open spec fn sudoku_solved(s: Seq<Seq<u8>>) -> bool {
    &&& wf(s)
    &&& complete(s)
    &&& consistent(s)
    &&& forall|r: int, d: int| 0 <= r < 9 && 1 <= d <= 9 ==> #[trigger] row_has(s, r, d)
    &&& forall|c: int, d: int| 0 <= c < 9 && 1 <= d <= 9 ==> #[trigger] col_has(s, c, d)
    &&& forall|b: int, d: int| 0 <= b < 9 && 1 <= d <= 9 ==> #[trigger] box_has(s, b, d)
}

/// Nine distinct values, each from 1 to 9, take every value from 1 to 9.
proof fn lemma_nine_distinct_cover(f: spec_fn(int) -> int, d: int)
    requires
        forall|k: int| 0 <= k < 9 ==> 1 <= #[trigger] f(k) <= 9,
        forall|k1: int, k2: int| 0 <= k1 < 9 && 0 <= k2 < 9 && k1 != k2 ==> #[trigger] f(k1) != #[trigger] f(k2),
        1 <= d <= 9,
    ensures
        exists|k: int| 0 <= k < 9 && #[trigger] f(k) == d,
{
    let x = set_int_range(0, 9);
    let y = x.map(f);
    let digits = set_int_range(1, 10);
    lemma_int_range(0, 9);
    lemma_int_range(1, 10);
    assert(injective_on(f, x));
    lemma_map_size(x, y, f);
    assert(y.subset_of(digits));
    lemma_subset_equality(y, digits);
    assert(digits.contains(d));
    assert(y.contains(d));
}

/// A solution of a puzzle whose givens do not clash is a solved sudoku.
pub proof fn lemma_solution_is_sudoku(g: Seq<Seq<u8>>, s: Seq<Seq<u8>>)
    requires
        wf(g),
        consistent(g),
        solution_of(g, s),
    ensures
        sudoku_solved(s),
{
    assert forall|r1: int, c1: int, r2: int, c2: int|
        in_range(r1, c1) && in_range(r2, c2) && s[r1][c1] != 0 implies !#[trigger] clash(
        s,
        r1,
        c1,
        r2,
        c2,
    ) by {
        if g[r1][c1] != 0 && g[r2][c2] != 0 {
            assert(s[r1][c1] == g[r1][c1] && s[r2][c2] == g[r2][c2]);
            assert(!clash(g, r1, c1, r2, c2));
        } else if g[r2][c2] == 0 {
            assert(!clash(s, r2, c2, r1, c1));
        }
    }
    assert forall|r: int, d: int| 0 <= r < 9 && 1 <= d <= 9 implies #[trigger] row_has(s, r, d) by {
        let f = |k: int| s[r][k] as int;
        assert forall|k1: int, k2: int| 0 <= k1 < 9 && 0 <= k2 < 9 && k1 != k2 implies #[trigger] f(k1) != #[trigger] f(k2) by {
            assert(!clash(s, r, k1, r, k2));
        }
        assert forall|k: int| 0 <= k < 9 implies 1 <= #[trigger] f(k) <= 9 by {
            assert(s[r][k] != 0);
        }
        lemma_nine_distinct_cover(f, d);
    }
    assert forall|c: int, d: int| 0 <= c < 9 && 1 <= d <= 9 implies #[trigger] col_has(s, c, d) by {
        let f = |k: int| s[k][c] as int;
        assert forall|k1: int, k2: int| 0 <= k1 < 9 && 0 <= k2 < 9 && k1 != k2 implies #[trigger] f(k1) != #[trigger] f(k2) by {
            assert(!clash(s, k1, c, k2, c));
        }
        assert forall|k: int| 0 <= k < 9 implies 1 <= #[trigger] f(k) <= 9 by {
            assert(s[k][c] != 0);
        }
        lemma_nine_distinct_cover(f, d);
    }
    assert forall|b: int, d: int| 0 <= b < 9 && 1 <= d <= 9 implies #[trigger] box_has(s, b, d) by {
        let f = |k: int| s[b / 3 * 3 + k / 3][b % 3 * 3 + k % 3] as int;
        assert forall|k1: int, k2: int| 0 <= k1 < 9 && 0 <= k2 < 9 && k1 != k2 implies #[trigger] f(k1) != #[trigger] f(k2) by {
            let (r1, c1) = (b / 3 * 3 + k1 / 3, b % 3 * 3 + k1 % 3);
            let (r2, c2) = (b / 3 * 3 + k2 / 3, b % 3 * 3 + k2 % 3);
            assert(in_range(r1, c1) && in_range(r2, c2));
            assert(same_unit(r1, c1, r2, c2));
            assert(r1 != r2 || c1 != c2);
            assert(!clash(s, r1, c1, r2, c2));
        }
        assert forall|k: int| 0 <= k < 9 implies 1 <= #[trigger] f(k) <= 9 by {
            assert(in_range(b / 3 * 3 + k / 3, b % 3 * 3 + k % 3));
        }
        lemma_nine_distinct_cover(f, d);
    }
}

/// A grid with no empty cell is its own first solution and no other grid
/// is: the search hands it back as it is, without looking for clashes
/// among its cells.
pub proof fn lemma_full_grid_returned(g: Seq<Seq<u8>>)
    requires
        wf(g),
        complete(g),
    ensures
        first_solution_of(g, g),
        forall|t: Seq<Seq<u8>>| #[trigger] first_solution_of(g, t) ==> t == g,
{
    assert forall|t: Seq<Seq<u8>>| #[trigger] solution_of(g, t) implies !lex_lt(t, g) by {
        if lex_lt(t, g) {
            let (r, c) = choose|r: int, c: int|
                in_range(r, c) && #[trigger] t[r][c] < g[r][c] && agree_before(t, g, r, c);
            assert(g[r][c] != 0);
        }
    }
    assert forall|t: Seq<Seq<u8>>| #[trigger] first_solution_of(g, t) implies t == g by {
        assert forall|r: int| 0 <= r < 9 implies #[trigger] t[r] == g[r] by {
            assert forall|c: int| 0 <= c < 9 implies #[trigger] t[r][c] == g[r][c] by {
                assert(in_range(r, c));
                assert(g[r][c] != 0);
            }
            assert(t[r] =~= g[r]);
        }
        assert(t =~= g);
    }
}

/// Solving a solution again gives it back: a solution is its own first
/// solution, and the only one.
pub proof fn lemma_solution_solves_to_itself(g: Seq<Seq<u8>>, s: Seq<Seq<u8>>)
    requires
        solution_of(g, s),
    ensures
        first_solution_of(s, s),
        forall|t: Seq<Seq<u8>>| #[trigger] first_solution_of(s, t) ==> t == s,
{
    lemma_full_grid_returned(s);
}

/// The search never changes a given: the first solution of a puzzle keeps
/// every non-empty cell of it.
pub proof fn lemma_givens_kept(g: Seq<Seq<u8>>, s: Seq<Seq<u8>>)
    requires
        first_solution_of(g, s),
    ensures
        forall|r: int, c: int| in_range(r, c) && g[r][c] != 0 ==> #[trigger] s[r][c] == g[r][c],
{
}

/// Two grids that agree on their first `k` cells in row-major order are
/// equal, or one comes before the other.
proof fn lemma_first_difference(s: Seq<Seq<u8>>, t: Seq<Seq<u8>>, k: int)
    requires
        wf(s),
        wf(t),
        0 <= k <= 81,
        forall|r: int, c: int| in_range(r, c) && 9 * r + c < k ==> #[trigger] s[r][c] == t[r][c],
    ensures
        s == t || lex_lt(s, t) || lex_lt(t, s),
    decreases 81 - k,
{
    if k == 81 {
        assert forall|r: int| 0 <= r < 9 implies #[trigger] s[r] == t[r] by {
            assert forall|c: int| 0 <= c < 9 implies #[trigger] s[r][c] == t[r][c] by {
                assert(in_range(r, c));
            }
            assert(s[r] =~= t[r]);
        }
        assert(s =~= t);
    } else {
        let r = k / 9;
        let c = k % 9;
        assert(in_range(r, c));
        assert forall|r2: int, c2: int| in_range(r2, c2) && before(r2, c2, r, c) implies #[trigger] s[r2][c2]
            == t[r2][c2] by {
            assert(9 * r2 + c2 < k);
        }
        assert(agree_before(s, t, r, c));
        assert(agree_before(t, s, r, c));
        if s[r][c] == t[r][c] {
            assert forall|r2: int, c2: int| in_range(r2, c2) && 9 * r2 + c2 < k + 1 implies #[trigger] s[r2][c2]
                == t[r2][c2] by {
                if 9 * r2 + c2 == k {
                    assert(r2 == r && c2 == c);
                }
            }
            lemma_first_difference(s, t, k + 1);
        }
    }
}

/// A puzzle has at most one first solution, so the search's result is fixed
/// by the puzzle.
pub proof fn lemma_first_solution_unique(g: Seq<Seq<u8>>, s: Seq<Seq<u8>>, t: Seq<Seq<u8>>)
    requires
        first_solution_of(g, s),
        first_solution_of(g, t),
    ensures
        s == t,
{
    assert(solution_of(g, s) && solution_of(g, t));
    lemma_first_difference(s, t, 0);
}

} // verus!
