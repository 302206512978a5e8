use std::ops::ControlFlow;

use sudoku::board::{SudokuBoard, SudokuCell};
use sudoku::flags::DigitFlags;
use sudoku::highlight::Highlight;
use sudoku::index::{CellIndex, ColumnIndex, DigitIndex, HouseIndex, RowIndex};
use sudoku::strategy::{apply_hidden_group, apply_naked_group, apply_xwing};

fn cell(row: usize, col: usize) -> CellIndex {
    CellIndex::from_flat(row * 9 + col).unwrap()
}

fn column(c: usize) -> Highlight {
    Highlight::House(HouseIndex::Column(ColumnIndex::new(c).unwrap()))
}

fn row(r: usize) -> Highlight {
    Highlight::House(HouseIndex::Row(RowIndex::new(r).unwrap()))
}

#[test]
fn xwing_takes_the_first_pair_of_lines() {
    let d1 = DigitIndex::new(0).unwrap();
    let without_d1 = DigitFlags::new(0b111111110);
    let mut b = SudokuBoard::new(vec![SudokuCell::new(); 81]).unwrap();
    for r in 0..9 {
        if r > 1 {
            b.apply_mask(cell(r, 0), &without_d1);
            b.apply_mask(cell(r, 4), &without_d1);
        }
        if r != 4 && r != 5 {
            b.apply_mask(cell(r, 1), &without_d1);
            b.apply_mask(cell(r, 2), &without_d1);
        }
    }
    let before = b.clone();
    let expected = vec![
        column(0),
        column(4),
        row(0),
        row(0),
        Highlight::Digit((cell(0, 0), d1)),
        Highlight::Digit((cell(0, 4), d1)),
        row(1),
        row(1),
        Highlight::Digit((cell(1, 0), d1)),
        Highlight::Digit((cell(1, 4), d1)),
    ];
    match apply_xwing(&mut b) {
        ControlFlow::Break(h) => assert_eq!(h, expected),
        ControlFlow::Continue(()) => panic!("no elimination"),
    }
    for r in 0..9 {
        for c in 0..9 {
            if (r == 0 || r == 1) && ![0, 1, 2, 4].contains(&c) {
                assert!(!b.get(cell(r, c)).contains(d1));
            } else {
                assert!(b.get(cell(r, c)) == before.get(cell(r, c)));
            }
        }
    }
    assert!(b.get(cell(4, 3)).contains(d1));
}

#[test]
fn naked_pair_takes_the_first_positions() {
    let d = |k: usize| DigitIndex::new(k - 1).unwrap();
    let mut b = SudokuBoard::new(vec![SudokuCell::new(); 81]).unwrap();
    b.apply_mask(cell(0, 0), &DigitFlags::new(0b11));
    b.apply_mask(cell(0, 5), &DigitFlags::new(0b11));
    b.apply_mask(cell(0, 1), &DigitFlags::new(0b1100));
    b.apply_mask(cell(0, 2), &DigitFlags::new(0b1100));
    let before = b.clone();
    let expected = vec![
        row(0),
        Highlight::Digit((cell(0, 0), d(1))),
        Highlight::Digit((cell(0, 5), d(1))),
        Highlight::Digit((cell(0, 0), d(2))),
        Highlight::Digit((cell(0, 5), d(2))),
    ];
    match apply_naked_group(&mut b, 2) {
        ControlFlow::Break(h) => assert_eq!(h, expected),
        ControlFlow::Continue(()) => panic!("no elimination"),
    }
    for r in 0..9 {
        for c in 0..9 {
            if r == 0 && [3, 4, 6, 7, 8].contains(&c) {
                assert!(b.get(cell(r, c)).digit_flags() == DigitFlags::new(0b111111100));
            } else {
                assert!(b.get(cell(r, c)) == before.get(cell(r, c)));
            }
        }
    }
}

#[test]
fn hidden_pair_takes_the_first_digits() {
    let d = |k: usize| DigitIndex::new(k - 1).unwrap();
    let mut b = SudokuBoard::new(vec![SudokuCell::new(); 81]).unwrap();
    for c in 0..9 {
        if c != 5 && c != 6 {
            b.apply_mask(cell(0, c), &DigitFlags::new(0b111111100));
        }
        if c != 0 && c != 1 {
            b.apply_mask(cell(0, c), &DigitFlags::new(0b111110011));
        }
    }
    let before = b.clone();
    let expected = vec![
        row(0),
        Highlight::Digit((cell(0, 5), d(1))),
        Highlight::Digit((cell(0, 6), d(1))),
        Highlight::Digit((cell(0, 5), d(2))),
        Highlight::Digit((cell(0, 6), d(2))),
    ];
    match apply_hidden_group(&mut b, 2) {
        ControlFlow::Break(h) => assert_eq!(h, expected),
        ControlFlow::Continue(()) => panic!("no elimination"),
    }
    for r in 0..9 {
        for c in 0..9 {
            if r == 0 && (c == 5 || c == 6) {
                assert!(b.get(cell(r, c)).digit_flags() == DigitFlags::new(0b11));
            } else {
                assert!(b.get(cell(r, c)) == before.get(cell(r, c)));
            }
        }
    }
}
