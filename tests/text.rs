use sudoku::text::{rows_of_text, token_heads_of};
use sudoku::Sudoku;

fn chars(s: &str) -> Vec<char> {
    s.chars().collect()
}

#[test]
fn token_heads_take_first_characters() {
    assert_eq!(token_heads_of(&chars("5 3 0 0 7 0 0 0 0")), chars("530070000"));
    assert_eq!(token_heads_of(&chars("  12\t 3x  9 ")), chars("139"));
    assert_eq!(token_heads_of(&chars("")), Vec::<char>::new());
    assert_eq!(token_heads_of(&chars(" \t \r")), Vec::<char>::new());
}

#[test]
fn blank_lines_are_skipped() {
    let lines = vec![chars("1 2"), chars("   "), chars(""), chars("3 4 5")];
    assert_eq!(rows_of_text(&lines), vec![chars("12"), chars("345")]);
}

#[test]
fn text_grid_builds_a_sudoku() {
    let text = [
        "5 3 0 0 7 0 0 0 0", "6 0 0 1 9 5 0 0 0", "0 9 8 0 0 0 0 6 0", "", "8 0 0 0 6 0 0 0 3",
        "4 0 0 8 0 3 0 0 1", "7 0 0 0 2 0 0 0 6", "0 6 0 0 0 0 2 8 0", "0 0 0 4 1 9 0 0 5",
        "0 0 0 0 8 0 0 7 9 ",
    ];
    let lines: Vec<Vec<char>> = text.iter().map(|l| chars(l)).collect();
    let rows = rows_of_text(&lines);
    assert_eq!(rows.len(), 9);
    let mut g = Sudoku::from_rows(&rows).unwrap();
    assert!(g.solve());
    assert_eq!(g.render()[0], chars("534678912"));
}

#[test]
fn unicode_spaces_separate_tokens() {
    assert_eq!(token_heads_of(&chars("1\u{A0}2\u{3000}3\u{2003}4\u{85}5")), chars("12345"));
    let lines = vec![chars("\u{A0}\u{2028}"), chars("7 8")];
    assert_eq!(rows_of_text(&lines), vec![chars("78")]);
}
