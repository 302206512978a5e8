use sudoku::board::encoding::{SudokuStringDecoding, SudokuStringEncoding};
use sudoku::board::games::decode_games;
use sudoku::board::{SudokuBoard, SudokuBoardIter, SudokuCell};
use sudoku::error::SudokuError;
use sudoku::index::{BlockIndex, CellIndex, ColumnIndex, DigitIndex, RowIndex, SudokuRegion};

const GAME: &str = "501740008000000050098600400040961580050000010016854070005006730070000000900072805";

#[test]
fn test_encoding() -> Result<(), SudokuError> {
    let g = SudokuBoard::decode_sudoku_string(GAME)?;
    assert_eq!(g, SudokuBoard::decode_sudoku_string(&(&g).encode_sudoku_string())?);
    Ok(())
}

#[test]
fn test_read() {
    // +-------+-------+-------+
    // | 5 0 1 | 7 4 0 | 0 0 8 |
    // | 0 0 0 | 0 0 0 | 0 5 0 |
    // | 0 9 8 | 6 0 0 | 4 0 0 |
    // +-------+-------+-------+
    // | 0 4 0 | 9 6 1 | 5 8 0 |
    // | 0 5 0 | 0 0 0 | 0 1 0 |
    // | 0 1 6 | 8 5 4 | 0 7 0 |
    // +-------+-------+-------+
    // | 0 0 5 | 0 0 6 | 7 3 0 |
    // | 0 7 0 | 0 0 0 | 0 0 0 |
    // | 9 0 0 | 0 7 2 | 8 0 5 |
    // +-------+-------+-------+
    let g = SudokuBoard::decode_sudoku_string(GAME).unwrap();
    assert_eq!(g.region(&BlockIndex::from_index(1, 2).unwrap()).encode_sudoku_string(), "580010070");
    assert_eq!(g.region(&ColumnIndex::new(8).unwrap()).encode_sudoku_string(), "800000005");
    assert_eq!(g.region(&RowIndex::new(3).unwrap()).encode_sudoku_string(), "040961580");
}

#[test]
fn modify_block() {
    let mut g = SudokuBoard::decode_sudoku_string(GAME).unwrap();
    let idx = ColumnIndex::new(0).unwrap();
    for c in idx.cell_indices() {
        g.set(c, SudokuCell::digit(DigitIndex::new(0).unwrap()));
    }
    assert_eq!(g.region(&idx).encode_sudoku_string(), "111111111");
}

#[test]
fn decode_rejects_bad_character() {
    let bad = GAME.replacen('5', "x", 1);
    assert_eq!(SudokuBoard::decode_sudoku_string(&bad), Err(SudokuError::InvalidDigit('x')));
}

#[test]
fn decode_rejects_short_string() {
    assert_eq!(SudokuBoard::decode_sudoku_string("123"), Err(SudokuError::InvalidBoardSize(3)));
}

#[test]
fn encode_keeps_digits_and_blanks() {
    let g = SudokuBoard::decode_sudoku_string(GAME).unwrap();
    assert_eq!((&g).encode_sudoku_string(), GAME);
    let cell = g.get(CellIndex::new(RowIndex::new(0).unwrap(), ColumnIndex::new(1).unwrap()));
    assert_eq!(cell.num_digits(), 9);
}

#[test]
fn cell_lists_asked_of_a_board() {
    let g = SudokuBoard::decode_sudoku_string(GAME).unwrap();
    let row: Vec<CellIndex> = RowIndex::new(0).unwrap().cell_indices();
    let placed = row.clone().primaries(&g);
    let cell = |c: usize| CellIndex::new(RowIndex::new(0).unwrap(), ColumnIndex::new(c).unwrap());
    let d = |v: usize| DigitIndex::new(v).unwrap();
    assert_eq!(placed, vec![(cell(0), d(4)), (cell(2), d(0)), (cell(3), d(6)), (cell(4), d(3)), (cell(8), d(7))]);
    assert!(row.clone().bivalues(&g).is_empty());
    assert_eq!(row.digits(&g).count(), 9);
    let givens = vec![cell(0), cell(2)];
    let union = givens.digits(&g);
    assert_eq!(union.count(), 2);
    assert!(union.contains(d(4)) && union.contains(d(0)));
}

#[test]
fn cell_from_character() {
    assert_eq!(SudokuCell::try_from('0').unwrap().num_digits(), 9);
    assert_eq!(SudokuCell::try_from('.').unwrap().num_digits(), 9);
    assert_eq!(SudokuCell::try_from('7').unwrap().digit_value(), Some(DigitIndex::new(6).unwrap()));
    assert_eq!(SudokuCell::try_from('a'), Err(SudokuError::InvalidDigit('a')));
}

#[test]
fn puzzle_lines_become_boards() {
    use_games(&format!("{GAME}\n  {GAME} \r\n"), 2);
    use_games(GAME, 1);
    use_games("", 0);
}

fn use_games(text: &str, count: usize) {
    let boards = decode_games(text).unwrap();
    assert_eq!(boards.len(), count);
    for b in &boards {
        assert_eq!(b.encode_sudoku_string(), GAME);
    }
}

#[test]
fn bad_puzzle_line_fails_the_text() {
    assert_eq!(decode_games(&format!("{GAME}\n123\n{GAME}")), Err(SudokuError::InvalidBoardSize(3)));
    assert_eq!(decode_games(&format!("{GAME}\n\n{GAME}")), Err(SudokuError::InvalidBoardSize(0)));
    assert_eq!(decode_games(&format!("x{GAME}")), Err(SudokuError::InvalidDigit('x')));
}
