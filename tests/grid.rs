use sudoku::{FormatError, Sudoku, SudokuCell};

fn rows(text: &[&str]) -> Vec<Vec<char>> {
    text.iter().map(|r| r.chars().collect()).collect()
}

const SOLVED: [&str; 9] = [
    "123456789", "456789123", "789123456", "234567891", "567891234", "891234567", "345678912",
    "678912345", "912345678",
];

const PARTIAL: [&str; 9] = [
    "530070000", "600195000", "098000060", "800060003", "400803001", "700020006", "060000280",
    "000419005", "000080079",
];

#[test]
fn new_grid_is_blank() {
    let g = Sudoku::new();
    assert!(!g.is_filled());
    let r = g.render();
    assert_eq!(r.len(), 9);
    for row in &r {
        assert_eq!(row, &vec!['0'; 9]);
    }
    let c = g.cell_at(4, 4);
    assert_eq!(c.value, 0);
    assert_eq!(c.guesses, [true; 9]);
}

#[test]
fn round_trip_of_rows() {
    let input = rows(&PARTIAL);
    let g = Sudoku::from_rows(&input).unwrap();
    assert_eq!(g.render(), input);
    let full = rows(&SOLVED);
    assert_eq!(Sudoku::from_rows(&full).unwrap().render(), full);
}

#[test]
fn given_cells_start_with_all_candidates() {
    let g = Sudoku::from_rows(&rows(&PARTIAL)).unwrap();
    let c = g.cell_at(0, 0);
    assert_eq!(c.value, 5);
    assert_eq!(c.guesses, [true; 9]);
}

#[test]
fn too_few_rows_is_a_shape_error() {
    let mut input = rows(&PARTIAL);
    input.pop();
    assert!(matches!(Sudoku::from_rows(&input), Err(FormatError::WrongShape)));
}

#[test]
fn short_row_is_a_shape_error() {
    let mut input = rows(&PARTIAL);
    input[8].pop();
    input[2][3] = 'x';
    assert!(matches!(Sudoku::from_rows(&input), Err(FormatError::WrongShape)));
}

#[test]
fn first_bad_symbol_is_reported() {
    let mut input = rows(&PARTIAL);
    input[6][1] = '.';
    input[2][7] = 'a';
    match Sudoku::from_rows(&input) {
        Err(e) => assert_eq!(e, FormatError::BadSymbol(2, 7)),
        Ok(_) => panic!("accepted a bad symbol"),
    }
}

#[test]
fn clone_is_independent() {
    let g = Sudoku::from_rows(&rows(&PARTIAL)).unwrap();
    let mut h = g.clone();
    assert_eq!(h.render(), g.render());
    assert!(h.solve());
    assert_eq!(g.render(), rows(&PARTIAL));
    assert_ne!(h.render(), g.render());
}

#[test]
fn is_filled_checks_completeness_only() {
    assert!(Sudoku::from_rows(&rows(&SOLVED)).unwrap().is_filled());
    let mut clash = rows(&SOLVED);
    clash[0][1] = '1';
    assert!(Sudoku::from_rows(&clash).unwrap().is_filled());
    assert!(!Sudoku::from_rows(&rows(&PARTIAL)).unwrap().is_filled());
}

#[test]
fn legality_follows_row_column_and_block() {
    let g = Sudoku::from_rows(&rows(&PARTIAL)).unwrap();
    // row 0 holds 5, 3, 7
    assert!(!g.can_be_placed_at(7, 0, 2));
    // column 2 holds 8
    assert!(!g.can_be_placed_at(8, 0, 2));
    // the top-left block holds 9 and 6 outside row 0 and column 2
    assert!(!g.can_be_placed_at(6, 0, 2));
    assert!(!g.can_be_placed_at(9, 0, 2));
    // 1, 2 and 4 appear in none of them
    assert!(g.can_be_placed_at(1, 0, 2));
    assert!(g.can_be_placed_at(2, 0, 2));
    assert!(g.can_be_placed_at(4, 0, 2));
    // a placed cell takes nothing
    assert!(!g.can_be_placed_at(1, 0, 0));
}

#[test]
fn legality_on_bottom_right_block() {
    let g = Sudoku::from_rows(&rows(&PARTIAL)).unwrap();
    // block rows 6..9, columns 6..9 holds 2, 8, 5, 7, 9
    assert!(!g.can_be_placed_at(2, 6, 8));
    assert!(!g.can_be_placed_at(7, 6, 8));
    assert!(g.can_be_placed_at(4, 6, 8));
}

#[test]
fn cell_solvability() {
    let dead = SudokuCell { value: 0, guesses: [false; 9] };
    assert!(!dead.is_solvable());
    let mut one = dead;
    one.guesses[8] = true;
    assert!(one.is_solvable());
    let placed = SudokuCell { value: 3, guesses: [false; 9] };
    assert!(placed.is_solvable());
}

#[test]
fn default_grid_is_blank() {
    let g = Sudoku::default();
    assert!(!g.is_filled());
    assert_eq!(g.render(), vec![vec!['0'; 9]; 9]);
    assert_eq!(g.cell_at(8, 8).guesses, [true; 9]);
}

#[test]
fn default_cell_is_blank_and_dead() {
    let c = SudokuCell::default();
    assert_eq!(c.value, 0);
    assert_eq!(c.guesses, [false; 9]);
    assert!(!c.is_solvable());
}

#[test]
fn symbols_just_outside_the_digits_are_refused() {
    let mut input = rows(&PARTIAL);
    input[0][0] = '9';
    input[0][1] = '0';
    assert!(Sudoku::from_rows(&input).is_ok());
    input[3][3] = ':';
    assert_eq!(Sudoku::from_rows(&input).err(), Some(FormatError::BadSymbol(3, 3)));
    input[1][5] = '/';
    assert_eq!(Sudoku::from_rows(&input).err(), Some(FormatError::BadSymbol(1, 5)));
}

#[test]
fn too_many_rows_is_a_shape_error() {
    let mut input = rows(&PARTIAL);
    input.push(vec!['0'; 9]);
    assert_eq!(Sudoku::from_rows(&input).err(), Some(FormatError::WrongShape));
}

#[test]
fn zero_is_never_placeable() {
    let g = Sudoku::from_rows(&rows(&PARTIAL)).unwrap();
    assert!(!g.can_be_placed_at(0, 0, 2));
    assert!(!Sudoku::new().can_be_placed_at(0, 4, 4));
}
