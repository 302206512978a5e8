use std::ops::ControlFlow;

use sudoku::board::{SudokuBoard, SudokuCell};
use sudoku::flags::DigitFlags;
use sudoku::highlight::Highlight;
use sudoku::index::{BlockIndex, CellIndex, ChuteIndex, ColumnIndex, DigitIndex, HouseIndex, RowIndex};
use sudoku::strategy::common::index_combinations_of;
use sudoku::strategy::{apply_chute_remote_pair, CRPType};

fn cell(k: usize) -> CellIndex {
    CellIndex::from_flat(k).unwrap()
}

#[test]
fn double_chute_remote_pair_takes_first_pair() {
    let mut b = SudokuBoard::new(vec![SudokuCell::new(); 81]).unwrap();
    b.apply_mask(cell(0), &DigitFlags::new(0b11));
    b.apply_mask(cell(12), &DigitFlags::new(0b11));
    for k in [24, 25, 26] {
        b.apply_mask(cell(k), &DigitFlags::new(0b111111100));
    }
    let before = b.clone();
    let d = |k: usize| DigitIndex::new(k - 1).unwrap();
    let expected = vec![
        Highlight::Digit((cell(0), d(1))),
        Highlight::Digit((cell(12), d(1))),
        Highlight::Digit((cell(0), d(2))),
        Highlight::Digit((cell(12), d(2))),
        Highlight::Cell(cell(24)),
        Highlight::Cell(cell(25)),
        Highlight::Cell(cell(26)),
    ];
    match apply_chute_remote_pair(&mut b, CRPType::Double) {
        ControlFlow::Break(h) => assert_eq!(h, expected),
        ControlFlow::Continue(()) => panic!("no elimination"),
    }
    for k in 0..81 {
        if [1, 2, 3, 4, 5, 9, 10, 11, 13, 14].contains(&k) {
            assert!(b.get(cell(k)).digit_flags() == DigitFlags::new(0b111111100));
        } else {
            assert!(b.get(cell(k)) == before.get(cell(k)));
        }
    }
}

#[test]
fn combinations_come_in_lexicographic_order() {
    assert_eq!(index_combinations_of(4, 2), vec![vec![0, 1], vec![0, 2], vec![0, 3], vec![1, 2], vec![1, 3], vec![2, 3]]);
    assert_eq!(index_combinations_of(3, 0), vec![Vec::<usize>::new()]);
    assert!(index_combinations_of(2, 3).is_empty());
}

#[test]
fn chute_holds_house_when_all_its_cells_do() {
    for ch in [ChuteIndex::V1, ChuteIndex::V2, ChuteIndex::V3, ChuteIndex::H1, ChuteIndex::H2, ChuteIndex::H3] {
        for i in 0..9 {
            for h in [
                HouseIndex::Row(RowIndex::new(i).unwrap()),
                HouseIndex::Column(ColumnIndex::new(i).unwrap()),
                HouseIndex::Block(BlockIndex::new(i).unwrap()),
            ] {
                let all_in = (0..81).map(cell).filter(|c| c.houses().contains(&h)).all(|c| ch.contains_block(c.block()));
                assert_eq!(ch.contains(h), all_in);
            }
        }
    }
}
