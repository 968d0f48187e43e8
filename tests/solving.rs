use sudoku::Sudoku;

fn rows(text: &[&str]) -> Vec<Vec<char>> {
    text.iter().map(|r| r.chars().collect()).collect()
}

fn digit(c: char) -> u32 {
    c.to_digit(10).unwrap()
}

fn assert_valid_solution(out: &[Vec<char>], givens: &[Vec<char>]) {
    let mut units: Vec<Vec<(usize, usize)>> = Vec::new();
    for i in 0..9 {
        units.push((0..9).map(|k| (i, k)).collect());
        units.push((0..9).map(|k| (k, i)).collect());
        units.push((0..9).map(|k| ((i / 3) * 3 + k / 3, (i % 3) * 3 + k % 3)).collect());
    }
    for unit in &units {
        let mut seen = [false; 10];
        for &(r, c) in unit {
            let d = digit(out[r][c]) as usize;
            assert!((1..=9).contains(&d));
            assert!(!seen[d]);
            seen[d] = true;
        }
    }
    for r in 0..9 {
        for c in 0..9 {
            if givens[r][c] != '0' {
                assert_eq!(out[r][c], givens[r][c]);
            }
        }
    }
}

const SOLVED: [&str; 9] = [
    "123456789", "456789123", "789123456", "234567891", "567891234", "891234567", "345678912",
    "678912345", "912345678",
];

const PARTIAL: [&str; 9] = [
    "530070000", "600195000", "098000060", "800060003", "400803001", "700020006", "060000280",
    "000419005", "000080079",
];

const HARD: [&str; 9] = [
    "800000000", "003600000", "070090200", "050007000", "000045700", "000100030", "001000068",
    "008500010", "090000400",
];

#[test]
fn solves_a_classic_puzzle() {
    let input = rows(&PARTIAL);
    let mut g = Sudoku::from_rows(&input).unwrap();
    assert!(g.solve());
    assert!(g.is_filled());
    let out = g.render();
    assert_valid_solution(&out, &input);
    assert_eq!(out[0], "534678912".chars().collect::<Vec<char>>());
    assert_eq!(out[8], "345286179".chars().collect::<Vec<char>>());
}

#[test]
fn single_blank_is_filled_by_propagation() {
    let mut input = rows(&SOLVED);
    input[4][6] = '0';
    let mut g = Sudoku::from_rows(&input).unwrap();
    assert!(g.remove_guesses());
    assert!(g.is_filled());
    assert_eq!(g.render(), rows(&SOLVED));
    let mut h = Sudoku::from_rows(&input).unwrap();
    assert!(h.solve());
    assert_eq!(h.render()[4][6], '2');
}

#[test]
fn hardest_puzzle_is_solved() {
    let input = rows(&HARD);
    let mut g = Sudoku::from_rows(&input).unwrap();
    assert!(g.solve());
    assert_valid_solution(&g.render(), &input);
}

#[test]
fn filled_grid_solves_without_changes() {
    let input = rows(&SOLVED);
    let mut g = Sudoku::from_rows(&input).unwrap();
    assert!(g.solve());
    assert_eq!(g.render(), input);
}

#[test]
fn clash_in_a_row_fails() {
    let mut input = rows(&PARTIAL);
    input[0][8] = '5';
    let mut g = Sudoku::from_rows(&input).unwrap();
    assert!(!g.solve());
}

#[test]
fn clash_in_a_filled_grid_fails() {
    let mut input = rows(&SOLVED);
    input[0][0] = '2';
    let mut g = Sudoku::from_rows(&input).unwrap();
    assert!(!g.solve());
}

#[test]
fn failed_solve_leaves_the_grid_as_it_was() {
    // row 0 leaves only 9 for its last cell, and column 8 already holds 9
    let input = rows(&[
        "123456780", "000000000", "000000000", "000000000", "000000009", "000000000", "000000000",
        "000000000", "000000000",
    ]);
    let mut g = Sudoku::from_rows(&input).unwrap();
    assert!(!g.solve());
    assert_eq!(g.render(), input);
    assert_eq!(g.cell_at(1, 1).guesses, [true; 9]);
    assert!(!g.solve());
    assert_eq!(g.render(), input);
}

#[test]
fn empty_grid_is_solved() {
    let input = rows(&["000000000"; 9]);
    let mut g = Sudoku::new();
    assert!(g.solve());
    assert_valid_solution(&g.render(), &input);
}

#[test]
fn propagation_twice_changes_nothing() {
    let mut g = Sudoku::from_rows(&rows(&HARD)).unwrap();
    assert!(g.remove_guesses());
    let once: Vec<_> = (0..81).map(|i| g.cell_at(i / 9, i % 9)).collect();
    assert!(g.remove_guesses());
    for i in 0..81 {
        let c = g.cell_at(i / 9, i % 9);
        assert_eq!(c.value, once[i].value);
        assert_eq!(c.guesses, once[i].guesses);
    }
}

#[test]
fn propagation_drops_candidates_held_by_peers() {
    let mut g = Sudoku::from_rows(&rows(&PARTIAL)).unwrap();
    assert!(g.remove_guesses());
    // 5 and 3 sit in row 0, so cell (0, 2) keeps neither
    let c = g.cell_at(0, 2);
    assert!(!c.guesses[4] && !c.guesses[2]);
    // placed cells lose their candidates
    assert_eq!(g.cell_at(0, 0).guesses, [false; 9]);
}
