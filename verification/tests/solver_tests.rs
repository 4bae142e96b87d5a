use sudoku::all_affecting;
use sudoku::IterativeDFS;
use sudoku::SolvedSudoku;
use sudoku::Sudoku;
use sudoku::Solver;

const TEST_SUDOKU: &[u8; 81] =
    b".......1.4.........2...........5.4.7..8...3....1.9....3..4..2...5.1........8.6...";

const SOLVED_LINE: &[u8; 81] =
    b"534678912672195348198342567859761423426853791713924856961537284287419635345286179";

/// The solved grid above with its row-0 digit 7 replaced by a second 5 and
/// every other 5 removed: the givens duplicate 5 within row 0, so no
/// assignment of the empty cells can satisfy the constraints.
const DUPLICATE_FIVES: &[u8; 81] =
    b"53465891267219.348198342.678.97614234268.37917139248.6961.3728428741963.34.286179";

/// Valid givens that admit no solution: the bottom-right cell sees the
/// digits 1-8 along its row and 9 down its column.
const PINNED_CORNER: &[u8; 81] =
    b"........9...............................................................12345678.";

#[test]
fn solve_sudoku_iterative_dfs() {
    let sudoku = Sudoku::from_line(TEST_SUDOKU);
    let solver = IterativeDFS;
    let solved = solver.solve(sudoku);
    assert!(solved.is_some());
}

#[test]
fn concrete_scenario_solves_and_reencodes_as_digits() {
    let sudoku = Sudoku::from_line(TEST_SUDOKU);
    let solved = IterativeDFS.try_solve(sudoku).ok().expect("puzzle is solvable");
    let grid = solved.to_sudoku();
    assert!(grid.filled());
    assert!(grid.valid());
    assert!(grid.solved());
    let encoded = grid.encode();
    assert_eq!(encoded.len(), 81);
    for &b in encoded.iter() {
        assert!(b.is_ascii_digit() && b != b'0');
    }
    // every given of the input is retained in the solution
    for i in 0..81 {
        if TEST_SUDOKU[i] != b'.' {
            assert_eq!(encoded[i], TEST_SUDOKU[i]);
        }
    }
}

#[test]
fn solving_twice_is_deterministic() {
    let first = IterativeDFS
        .try_solve(Sudoku::from_line(TEST_SUDOKU))
        .ok()
        .expect("puzzle is solvable")
        .to_sudoku()
        .encode();
    let second = IterativeDFS
        .try_solve(Sudoku::from_line(TEST_SUDOKU))
        .ok()
        .expect("puzzle is solvable")
        .to_sudoku()
        .encode();
    assert_eq!(first, second);
}

#[test]
fn prefilled_valid_grid_returns_immediately_as_solved() {
    let sudoku = Sudoku::from_line(SOLVED_LINE);
    let solved = IterativeDFS.try_solve(sudoku).ok().expect("grid is already solved");
    assert_eq!(solved.to_sudoku().encode().as_slice(), SOLVED_LINE.as_slice());
    assert!(IterativeDFS.solve(Sudoku::from_line(SOLVED_LINE)).is_some());
}

#[test]
fn duplicate_givens_exhaust_all_possibilities() {
    let sudoku = Sudoku::from_line(DUPLICATE_FIVES);
    match IterativeDFS.try_solve(sudoku) {
        Ok(_) => panic!("givens duplicating 5 in row 0 must never solve"),
        Err(err) => {
            // the diagnostic grid comes back fully backtracked
            assert_eq!(err.0.encode().as_slice(), DUPLICATE_FIVES.as_slice());
        },
    }
    assert!(IterativeDFS.solve(Sudoku::from_line(DUPLICATE_FIVES)).is_none());
}

#[test]
fn valid_but_unsolvable_grid_is_returned_unchanged() {
    let sudoku = Sudoku::from_line(PINNED_CORNER);
    assert!(sudoku.valid());
    match IterativeDFS.try_solve(sudoku) {
        Ok(_) => panic!("the pinned corner admits no digit"),
        Err(err) => {
            assert_eq!(err.0.encode().as_slice(), PINNED_CORNER.as_slice());
        },
    }
}

#[test]
fn empty_grid_is_solvable() {
    let line = [b'.'; 81];
    let sudoku = Sudoku::from_line(&line);
    let solved = IterativeDFS.try_solve(sudoku).ok().expect("an empty grid has solutions");
    let grid = solved.to_sudoku();
    assert!(grid.solved());
}

#[test]
fn try_from_validates_grids() {
    let solved = SolvedSudoku::try_from(Sudoku::from_line(SOLVED_LINE)).ok().expect(
        "a solved grid converts",
    );
    assert_eq!(solved.value_at([0, 0]).get(), 5);
    assert_eq!(solved.value_at([8, 0]).get(), 2);
    assert_eq!(solved.value_at([0, 8]).get(), 3);
    assert_eq!(solved.value_at([8, 8]).get(), 9);

    assert!(SolvedSudoku::try_from(Sudoku::from_line(TEST_SUDOKU)).is_err());
    assert!(SolvedSudoku::try_from(Sudoku::from_line(DUPLICATE_FIVES)).is_err());
}

#[test]
fn all_affecting_collects_row_column_and_box_digits() {
    let grid = Sudoku::from_line(PINNED_CORNER);
    // the bottom-right corner sees every digit
    let used = all_affecting(&grid, [8, 8]);
    for v in 1..=9usize {
        assert!(used[v]);
    }
    // position (0, 1) sees only the 1 at the bottom of its column
    let used = all_affecting(&grid, [0, 1]);
    assert!(used[1]);
    for v in 2..=9usize {
        assert!(!used[v]);
    }
}
