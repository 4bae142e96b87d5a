use sudoku::Sudoku;
use sudoku::SudokuCell;
use sudoku::SudokuValue;

const TEST_SUDOKUS: &[&[u8; 81]; 10] = &[
    b".......1.4.........2...........5.4.7..8...3....1.9....3..4..2...5.1........8.6...",
    b".......1.4.........2...........5.6.4..8...3....1.9....3..4..2...5.1........8.7...",
    b".......12....35......6...7.7.....3.....4..8..1...........12.....8.....4..5....6..",
    b".......12..36..........7...41..2.......5..3..7.....6..28.....4....3..5...........",
    b".......12..8.3...........4.12.5..........47...6.......5.7...3.....62.......1.....",
    b".......12.4..5.........9....7.6..4.....1............5.....875..6.1...3..2........",
    b".......12.5.4............3.7..6..4....1..........8....92....8.....51.7.......3...",
    b".......123......6.....4....9.....5.......1.7..2..........35.4....14..8...6.......",
    b".......124...9...........5..7.2.....6.....4.....1.8....18..........3.7..5.2......",
    b".......125....8......7.....6..12....7.....45.....3.....3....8.....5..7...2.......",
];

#[test]
fn encode_roundtrip_sudoku() {
    for &sudoku in TEST_SUDOKUS {
        let decoded = Sudoku::from_line(sudoku);
        let encoded = decoded.encode();
        assert_eq!(sudoku.as_slice(), encoded.as_slice());
    }
}

#[test]
fn value_new_validates_range() {
    assert!(SudokuValue::new(0).is_none());
    assert!(SudokuValue::new(10).is_none());
    assert!(SudokuValue::new(255).is_none());
    for d in 1..=9u8 {
        assert_eq!(SudokuValue::new(d).unwrap().get(), d);
    }
}

#[test]
fn all_values_yields_digits_ascending() {
    let mut values = SudokuValue::all_values();
    for d in 1..=9u8 {
        assert_eq!(values.next().unwrap().get(), d);
    }
    assert!(values.next().is_none());
    assert!(values.next().is_none());
}

#[test]
fn remaining_values_resumes_past_digit() {
    let seven = SudokuValue::new(7).unwrap();
    let mut values = seven.remaining_values();
    assert_eq!(values.next().unwrap().get(), 8);
    assert_eq!(values.next().unwrap().get(), 9);
    assert!(values.next().is_none());
}

#[test]
fn cell_filled_and_empty() {
    let five = SudokuValue::new(5).unwrap();
    let filled = SudokuCell::filled(five);
    assert!(filled.is_filled());
    assert!(!filled.is_empty());
    assert_eq!(filled.try_value().unwrap().get(), 5);

    let empty = SudokuCell::empty();
    assert!(empty.is_empty());
    assert!(!empty.is_filled());
    assert!(empty.try_value().is_err());
}

#[test]
fn cell_from_ascci_char_accepts_format_bytes() {
    let dot = SudokuCell::from_ascci_char(b'.').unwrap();
    assert!(dot.is_empty());
    for d in 1..=9u8 {
        let c = SudokuCell::from_ascci_char(b'0' + d).unwrap();
        assert_eq!(c.try_value().unwrap().get(), d);
    }
    assert!(SudokuCell::from_ascci_char(b'0').is_none());
    assert!(SudokuCell::from_ascci_char(b'a').is_none());
    assert!(SudokuCell::from_ascci_char(b' ').is_none());
    assert!(SudokuCell::from_ascci_char(b':').is_none());
}

#[test]
fn empty_grid_is_valid_but_not_filled() {
    let line = [b'.'; 81];
    let grid = Sudoku::from_line(&line);
    assert!(!grid.filled());
    assert!(grid.valid());
    assert!(!grid.solved());
}

#[test]
fn solved_grid_is_filled_valid_and_solved() {
    let line = b"534678912672195348198342567859761423426853791713924856961537284287419635345286179";
    let grid = Sudoku::from_line(line);
    assert!(grid.filled());
    assert!(grid.valid());
    assert!(grid.solved());
}

#[test]
fn duplicate_in_row_makes_grid_invalid() {
    let mut line = [b'.'; 81];
    line[0] = b'5';
    line[4] = b'5';
    let grid = Sudoku::from_line(&line);
    assert!(!grid.valid());
    assert!(!grid.solved());
}

#[test]
fn duplicate_in_column_makes_grid_invalid() {
    let mut line = [b'.'; 81];
    line[3] = b'7';
    line[3 + 9 * 6] = b'7';
    let grid = Sudoku::from_line(&line);
    assert!(!grid.valid());
}

#[test]
fn duplicate_in_box_makes_grid_invalid() {
    let mut line = [b'.'; 81];
    // positions (0, 0) and (2, 2) share the top-left box
    line[0] = b'9';
    line[2 + 9 * 2] = b'9';
    let grid = Sudoku::from_line(&line);
    assert!(!grid.valid());
}

#[test]
fn row_column_and_box_traversals() {
    let line = b"534678912672195348198342567859761423426853791713924856961537284287419635345286179";
    let grid = Sudoku::from_line(line);

    let row0: Vec<u8> = grid.row(0).iter().map(|c| c.try_value().unwrap().get()).collect();
    assert_eq!(row0, vec![5, 3, 4, 6, 7, 8, 9, 1, 2]);

    let col0: Vec<u8> = grid.column(0).iter().map(|c| c.try_value().unwrap().get()).collect();
    assert_eq!(col0, vec![5, 6, 1, 8, 4, 7, 9, 2, 3]);

    let box4: Vec<u8> = grid.cell(4).iter().map(|c| c.try_value().unwrap().get()).collect();
    assert_eq!(box4, vec![7, 6, 1, 8, 5, 3, 9, 2, 4]);
}

#[test]
fn unique_detects_duplicates() {
    let five = SudokuValue::new(5).unwrap();
    let six = SudokuValue::new(6).unwrap();
    let cells = vec![
        SudokuCell::filled(five),
        SudokuCell::empty(),
        SudokuCell::filled(six),
        SudokuCell::empty(),
    ];
    assert!(sudoku::unique(&cells));
    let dup = vec![SudokuCell::filled(five), SudokuCell::empty(), SudokuCell::filled(five)];
    assert!(!sudoku::unique(&dup));
    // empty cells never count as duplicates
    let empties = vec![SudokuCell::empty(), SudokuCell::empty()];
    assert!(sudoku::unique(&empties));
}

#[test]
fn position_helpers_map_column_row_pairs() {
    assert_eq!(Sudoku::row_from_ix([3, 7]), 7);
    assert_eq!(Sudoku::column_from_ix([3, 7]), 3);
    assert_eq!(Sudoku::cell_from_ix([0, 0]), 0);
    assert_eq!(Sudoku::cell_from_ix([8, 0]), 2);
    assert_eq!(Sudoku::cell_from_ix([3, 7]), 7);
    assert_eq!(Sudoku::cell_from_ix([8, 8]), 8);
    assert_eq!(Sudoku::cell_from_ix([4, 4]), 4);
}

#[test]
fn indexed_values_cover_grid_in_row_major_order() {
    let mut line = [b'.'; 81];
    line[9 * 2 + 6] = b'4'; // position (6, 2)
    let grid = Sudoku::from_line(&line);
    let indexed = grid.indexed_values();
    assert_eq!(indexed.len(), 81);
    for (i, (ix, cell)) in indexed.iter().enumerate() {
        assert_eq!(ix[0], i % 9);
        assert_eq!(ix[1], i / 9);
        if *ix == [6, 2] {
            assert_eq!(cell.try_value().unwrap().get(), 4);
        } else {
            assert!(cell.is_empty());
        }
    }
}

#[test]
fn at_reads_cells_by_position() {
    let mut line = [b'.'; 81];
    line[9 * 5 + 8] = b'3'; // position (8, 5)
    let grid = Sudoku::from_line(&line);
    assert_eq!(grid.at([8, 5]).try_value().unwrap().get(), 3);
    assert!(grid.at([5, 8]).is_empty());
    assert_eq!(grid.values().len(), 81);
}
