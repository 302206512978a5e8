use itertools::Itertools;
use sudoku::board::encoding::SudokuStringDecoding;
use sudoku::board::SudokuBoard;
use sudoku::index::{BlockIndex, CellIndex, ColumnIndex, DigitIndex, HouseIndex, RowIndex};

#[test]
fn visible_with() {
    for pairs in CellIndex::iter().into_iter().combinations_with_replacement(2) {
        let c0 = pairs[0];
        let c1 = pairs[1];
        let visible: Vec<_> = c0.cells_visible_with(&c1).into_iter().sorted().collect();

        let ground_truth: Vec<_> = CellIndex::iter()
            .into_iter()
            .filter(|idx| idx != &c0 && idx != &c1 && idx.visible(&c0) && idx.visible(&c1))
            .sorted()
            .collect();

        assert_eq!(visible, ground_truth, "c0: {:?}; c1: {:?}", c0, c1);
    }
}

#[test]
fn domain_lists_cells_in_flat_order() {
    let cells = CellIndex::domain();
    assert_eq!(cells.len(), 81);
    for (i, c) in cells.iter().enumerate() {
        assert_eq!(c.flat(), i);
        assert_eq!(*c, CellIndex::from_flat(i).unwrap());
    }
}

#[test]
fn crossing_lines() {
    let row = HouseIndex::Row(RowIndex::new(2).unwrap());
    let column = HouseIndex::Column(ColumnIndex::new(7).unwrap());
    let block = HouseIndex::Block(BlockIndex::new(4).unwrap());
    assert_eq!(row.crossed_by(5), Some(HouseIndex::Column(ColumnIndex::new(5).unwrap())));
    assert_eq!(column.crossed_by(3), Some(HouseIndex::Row(RowIndex::new(3).unwrap())));
    assert_eq!(block.crossed_by(0), None);
}

#[test]
fn block_from_flat_index() {
    for i in 0..9 {
        assert_eq!(BlockIndex::from_flat_index(i).flat_index(), i);
        assert_eq!(BlockIndex::from_flat_index(i), BlockIndex::new(i).unwrap());
    }
}

#[test]
fn placed_digits_of_a_row() {
    let board = SudokuBoard::decode_sudoku_string("501740008000000050098600400040961580050000010016854070005006730070000000900072805").unwrap();
    let placed = board.primaries_in(&RowIndex::new(0).unwrap());
    let expected: Vec<(usize, usize)> = vec![(0, 4), (2, 0), (3, 6), (4, 3), (8, 7)];
    assert_eq!(placed.len(), expected.len());
    for ((cell, digit), (column, d)) in placed.iter().zip(expected.iter()) {
        assert_eq!(cell.flat(), *column);
        assert_eq!(*digit, DigitIndex::new(*d).unwrap());
    }
}

#[test]
fn line_and_digit_indices_give_their_number() {
    for i in 0..9 {
        assert_eq!(DigitIndex::new(i).unwrap().index(), i);
        assert_eq!(RowIndex::new(i).unwrap().index(), i);
        assert_eq!(ColumnIndex::new(i).unwrap().index(), i);
    }
}
