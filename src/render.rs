use vstd::prelude::*;
use vstd::string::StringExecFns;
use crate::grid::{Board, grid_of, in_range, wf};

verus! {

/// The character of a single digit.
pub open spec fn digit_char(d: u8) -> char {
    if d == 0 {
        '0'
    } else if d == 1 {
        '1'
    } else if d == 2 {
        '2'
    } else if d == 3 {
        '3'
    } else if d == 4 {
        '4'
    } else if d == 5 {
        '5'
    } else if d == 6 {
        '6'
    } else if d == 7 {
        '7'
    } else if d == 8 {
        '8'
    } else {
        '9'
    }
}

/// One row as text: its digits with no separator.
pub open spec fn row_text(row: Seq<u8>) -> Seq<char> {
    row.map_values(|d: u8| digit_char(d))
}

/// The first `n` rows of `g`, each followed by a newline.
pub open spec fn rows_text(g: Seq<Seq<u8>>, n: nat) -> Seq<char>
    decreases n,
{
    if n == 0 {
        Seq::empty()
    } else {
        rows_text(g, (n - 1) as nat) + row_text(g[n - 1]) + seq!['\n']
    }
}

/// The text of a grid: nine lines of nine digits.
pub open spec fn grid_text(g: Seq<Seq<u8>>) -> Seq<char> {
    rows_text(g, 9)
}

/// The text of one digit.
fn digit_text(d: u8) -> (s: &'static str)
    requires
        d <= 9,
    ensures
        s@ == seq![digit_char(d)],
{
    proof {
        reveal_strlit("0");
        reveal_strlit("1");
        reveal_strlit("2");
        reveal_strlit("3");
        reveal_strlit("4");
        reveal_strlit("5");
        reveal_strlit("6");
        reveal_strlit("7");
        reveal_strlit("8");
        reveal_strlit("9");
    }
    match d {
        0 => "0",
        1 => "1",
        2 => "2",
        3 => "3",
        4 => "4",
        5 => "5",
        6 => "6",
        7 => "7",
        8 => "8",
        _ => "9",
    }
}

/// Renders a grid as nine lines of nine digits, each line ending in a newline.
pub fn format_solution(solution: Board) -> (text: String)
    requires
        wf(grid_of(&solution)),
    ensures
        text@ == grid_text(grid_of(&solution)),
{
    let ghost g = grid_of(&solution);
    assert(forall|i: int| 0 <= i < 9 ==> #[trigger] g[i] == solution@[i]@);
    let mut formatted = String::new();
    let mut i: usize = 0;
    while i < 9
        invariant
            0 <= i <= 9,
            g == grid_of(&solution),
            wf(g),
            forall|k: int| 0 <= k < 9 ==> #[trigger] g[k] == solution@[k]@,
            solution@.len() == 9,
            formatted@ == rows_text(g, i as nat),
        decreases 9 - i,
    {
        assert(solution@[i as int]@.len() == 9) by {
            assert(g[i as int].len() == 9);
        }
        let ghost start = formatted@;
        let mut j: usize = 0;
        while j < 9
            invariant
                0 <= i < 9,
                0 <= j <= 9,
                g == grid_of(&solution),
                wf(g),
                forall|k: int| 0 <= k < 9 ==> #[trigger] g[k] == solution@[k]@,
                solution@.len() == 9,
                solution@[i as int]@.len() == 9,
                formatted@ == start + row_text(g[i as int].subrange(0, j as int)),
            decreases 9 - j,
        {
            assert(in_range(i as int, j as int));
            let d = solution[i][j];
            formatted.append(digit_text(d));
            assert(row_text(g[i as int].subrange(0, j + 1)) =~= row_text(
                g[i as int].subrange(0, j as int),
            ) + seq![digit_char(d)]);
            j += 1;
        }
        assert(g[i as int].subrange(0, 9) =~= g[i as int]);
        proof {
            reveal_strlit("\n");
        }
        formatted.append("\n");
        i += 1;
    }
    formatted
}

} // verus!
