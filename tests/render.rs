use sudoku_solver::render::format_solution;

#[test]
fn rows_as_digit_lines() {
    let board: Vec<Vec<u8>> = (0..9)
        .map(|r| (0..9).map(|c| ((r * 9 + c) % 10) as u8).collect())
        .collect();
    let text = format_solution(board);
    assert_eq!(
        text,
        "012345678\n901234567\n890123456\n789012345\n678901234\n567890123\n456789012\n345678901\n234567890\n"
    );
}
