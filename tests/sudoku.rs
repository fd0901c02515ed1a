use sudo_sol::{DynCellOption, FormatError, SudokuGrid};

const PUZZLE: &str =
    "200006009070008500860950037100030090589400371006090425607040010010780964400603002";
const SOLUTION: &str =
    "245376189973128546861954237124537698589462371736891425657249813312785964498613752";

fn digits(s: &str) -> Vec<u32> {
    s.chars().map(|c| c.to_digit(10).unwrap()).collect()
}

/// Every row, column and box holds each digit 1 to 9 exactly once.
fn is_complete_solution(s: &str) -> bool {
    let v = digits(s);
    if v.len() != 81 {
        return false;
    }
    for n in 0..9 {
        let mut row = [false; 10];
        let mut col = [false; 10];
        let mut bx = [false; 10];
        for k in 0..9 {
            row[v[n * 9 + k] as usize] = true;
            col[v[k * 9 + n] as usize] = true;
            bx[v[((n / 3) * 3 + k / 3) * 9 + (n % 3) * 3 + k % 3] as usize] = true;
        }
        for d in 1..10 {
            if !row[d] || !col[d] || !bx[d] {
                return false;
            }
        }
    }
    true
}

#[test]
fn sudoku_1() {
    let mut grid = SudokuGrid::from(
        "200006009070008500860950037100030090589400371006090425607040010010780964400603002",
    )
    .unwrap();

    let res = grid.solve();
    assert!(res);

    assert_eq!(
        grid.serialize(),
        "245376189973128546861954237124537698589462371736891425657249813312785964498613752"
    )
}

#[test]
fn solved_grid_has_every_digit_once_per_region() {
    let mut grid = SudokuGrid::from(PUZZLE).unwrap();
    assert!(grid.solve());
    assert!(is_complete_solution(&grid.serialize()));
}

#[test]
fn empty_puzzle_is_solved() {
    let mut grid = SudokuGrid::from(&"0".repeat(81)).unwrap();
    assert!(grid.solve());
    let out = grid.serialize();
    assert!(is_complete_solution(&out));
    // The lowest digit is tried first, so the first row counts up.
    assert!(out.starts_with("123456789"));
}

#[test]
fn full_grid_is_left_unchanged() {
    let mut grid = SudokuGrid::from(SOLUTION).unwrap();
    assert!(grid.solve());
    assert_eq!(grid.serialize(), SOLUTION);
}

#[test]
fn round_trip_of_full_grid() {
    let grid = SudokuGrid::from(SOLUTION).unwrap();
    assert_eq!(grid.serialize(), SOLUTION);
}

#[test]
fn blanks_are_written_as_underscores() {
    let grid = SudokuGrid::from(PUZZLE).unwrap();
    assert_eq!(grid.serialize(), PUZZLE.replace('0', "_"));
    let empty = SudokuGrid::from(&"0".repeat(81)).unwrap();
    assert_eq!(empty.serialize(), "_".repeat(81));
}

#[test]
fn clashing_givens_fail() {
    let input = format!("11{}", "0".repeat(79));
    let mut grid = SudokuGrid::from(&input).unwrap();
    assert!(!grid.solve());
    assert_eq!(grid.serialize(), format!("11{}", "_".repeat(79)));
}

#[test]
fn late_clashing_givens_fail() {
    // The two 5s share the last box, far from the first empty cell.
    let input = format!("{}5{}5", "0".repeat(70), "0".repeat(9));
    assert_eq!(input.len(), 81);
    let mut grid = SudokuGrid::from(&input).unwrap();
    assert!(!grid.solve());
    assert_eq!(grid.serialize(), input.replace('0', "_"));
}

#[test]
fn unsolvable_puzzle_fails_and_is_left_as_given() {
    // The last cell of the first row can only be 9, and its column already has a 9.
    let input = format!("123456780{}{}", "000000009", "0".repeat(63));
    assert_eq!(input.len(), 81);
    let mut grid = SudokuGrid::from(&input).unwrap();
    assert!(!grid.solve());
    assert_eq!(grid.serialize(), input.replace('0', "_"));
}

#[test]
fn solving_twice_gives_the_same_grid() {
    let mut grid = SudokuGrid::from(PUZZLE).unwrap();
    assert!(grid.solve());
    assert!(grid.solve());
    assert_eq!(grid.serialize(), SOLUTION);
}

#[test]
fn wrong_lengths_are_rejected() {
    assert_eq!(SudokuGrid::from(&PUZZLE[..80]).unwrap_err(), FormatError::BadLength);
    assert_eq!(
        SudokuGrid::from(&format!("{}0", PUZZLE)).unwrap_err(),
        FormatError::BadLength
    );
    assert_eq!(SudokuGrid::from("").unwrap_err(), FormatError::BadLength);
}

#[test]
fn letters_are_rejected() {
    let input = format!("x{}", &PUZZLE[1..]);
    assert_eq!(SudokuGrid::from(&input).unwrap_err(), FormatError::BadChar);
    let input = format!("{}-", &PUZZLE[..80]);
    assert_eq!(SudokuGrid::from(&input).unwrap_err(), FormatError::BadChar);
}

#[test]
fn non_ascii_character_is_rejected() {
    let input = format!("é{}", &PUZZLE[1..]);
    assert_eq!(input.chars().count(), 81);
    assert_eq!(SudokuGrid::from(&input).unwrap_err(), FormatError::BadChar);
}

#[test]
fn candidate_counts_up_to_nine() {
    let mut o = DynCellOption::new();
    assert_eq!(o.value(), 1);
    for expected in 2..=9u8 {
        assert!(o.set_next_value());
        assert_eq!(o.value(), expected);
    }
    assert!(!o.set_next_value());
    assert_eq!(o.value(), 10);
}

#[test]
fn default_candidate_is_one() {
    assert_eq!(DynCellOption::default().value(), 1);
}
