use sudoku_solver::loader::{parse_cell, parse_row, parse_sudoku, LoadError};

fn lines(text: &[&str]) -> Vec<String> {
    text.iter().map(|l| l.to_string()).collect()
}

#[test]
fn cells_from_characters() {
    assert_eq!(parse_cell('1'), 1);
    assert_eq!(parse_cell('9'), 9);
    assert_eq!(parse_cell('0'), 0);
    assert_eq!(parse_cell('.'), 0);
    assert_eq!(parse_cell('x'), 0);
}

#[test]
fn row_ignores_extra_characters() {
    assert_eq!(parse_row(1, "1.3x5 7890123"), Ok(vec![1, 0, 3, 0, 5, 0, 7, 8, 9]));
}

#[test]
fn short_row_is_refused() {
    assert_eq!(parse_row(4, "12345678"), Err(LoadError::ShortLine { line: 4, found: 8 }));
}

#[test]
fn short_third_line() {
    let mut text = vec!["000000000"; 9];
    text[2] = "00000000";
    assert_eq!(
        parse_sudoku(&lines(&text)),
        Err(LoadError::ShortLine { line: 3, found: 8 })
    );
}

#[test]
fn ninth_line_missing() {
    let text = vec!["000000000"; 8];
    assert_eq!(parse_sudoku(&lines(&text)), Err(LoadError::MissingLine { line: 9 }));
}

#[test]
fn empty_text() {
    assert_eq!(parse_sudoku(&Vec::new()), Err(LoadError::MissingLine { line: 1 }));
}

#[test]
fn lines_after_the_ninth_are_ignored() {
    let mut text = vec!["123456789"; 9];
    text.push("short");
    let b = parse_sudoku(&lines(&text)).unwrap();
    assert_eq!(b.len(), 9);
    assert!(b.iter().all(|row| *row == vec![1, 2, 3, 4, 5, 6, 7, 8, 9]));
}

#[test]
fn first_fault_wins() {
    let text = vec!["000000000", "0000", "000000000"];
    assert_eq!(
        parse_sudoku(&lines(&text)),
        Err(LoadError::ShortLine { line: 2, found: 4 })
    );
}
