use std::ops::ControlFlow;

use sudoku::board::encoding::SudokuStringDecoding;
use sudoku::board::{SudokuBoard, SudokuCell};
use sudoku::flags::DigitFlags;
use sudoku::index::{CellIndex, ColumnIndex, DigitIndex, RowIndex};
use sudoku::strategy::remote_pairs::apply_remote_pairs;
use sudoku::strategy::{apply_strategies, solve, solve_with_strategies, Strategy};

const GAME: &str = "501740008000000050098600400040961580050000010016854070005006730070000000900072805";

fn cell_at(r: usize, c: usize) -> CellIndex {
    CellIndex::new(RowIndex::new(r).unwrap(), ColumnIndex::new(c).unwrap())
}

/// Every cell has the digits 2 to 9; the listed cells have digit 1 too.
fn coloring_board(with_one: &[(usize, usize)]) -> SudokuBoard {
    let mut data = vec![SudokuCell::from_flags(DigitFlags::new(0x1FE)); 81];
    for (r, c) in with_one {
        data[r * 9 + c] = SudokuCell::from_flags(DigitFlags::new(0x1FF));
    }
    SudokuBoard::new(data).unwrap()
}

#[test]
fn simple_coloring_clears_cell_seeing_both_colours() {
    let one = DigitIndex::new(0).unwrap();
    let mut board = coloring_board(&[(0, 0), (1, 1), (1, 4), (4, 4), (4, 0), (4, 8), (8, 0)]);
    let before = board.clone();
    let r = Strategy::SimpleColoring.apply(&mut board);
    assert!(r.is_break());
    assert!(!board.get(cell_at(4, 0)).contains(one));
    for i in 0..81 {
        let idx = CellIndex::from_flat(i).unwrap();
        if idx != cell_at(4, 0) {
            assert!(board.get(idx) == before.get(idx));
        }
    }
}

#[test]
fn simple_coloring_then_finds_nothing() {
    let mut board = coloring_board(&[(0, 0), (1, 1), (1, 4), (4, 4), (4, 0), (4, 8), (8, 0)]);
    assert!(Strategy::SimpleColoring.apply(&mut board).is_break());
    let after = board.clone();
    assert!(Strategy::SimpleColoring.apply(&mut board).is_continue());
    assert!(board == after);
}

#[test]
fn simple_coloring_skips_odd_cycle() {
    let mut board = coloring_board(&[(0, 0), (1, 1), (1, 4), (4, 4), (4, 0)]);
    let before = board.clone();
    assert!(Strategy::SimpleColoring.apply(&mut board).is_continue());
    assert!(board == before);
}

#[test]
fn remote_pairs_find_nothing_on_solved_board() {
    let board = SudokuBoard::decode_sudoku_string(GAME).unwrap();
    let game = solve(board).unwrap();
    let mut solved = game.boards.last().unwrap().clone();
    let before = solved.clone();
    assert!(apply_remote_pairs(&mut solved).is_continue());
    assert!(solved == before);
}

#[test]
fn solving_with_some_strategies_stops_when_stuck() {
    let strategies = [Strategy::Primaries, Strategy::HiddenSingle];
    let mut board = SudokuBoard::decode_sudoku_string(GAME).unwrap();
    solve_with_strategies(&mut board, &strategies);
    if !board.is_finished() {
        let before = board.clone();
        assert!(apply_strategies(&mut board, &strategies).is_continue());
        assert!(board == before);
    }
    for s in strategies {
        let mut b = board.clone();
        assert!(s.apply(&mut b).is_continue());
    }
}

#[test]
fn apply_strategies_names_the_first_that_applies() {
    let mut board = SudokuBoard::decode_sudoku_string(GAME).unwrap();
    let strategies = [Strategy::HiddenSingle, Strategy::Primaries];
    let mut probe = board.clone();
    let expected = if Strategy::HiddenSingle.apply(&mut probe).is_break() { Strategy::HiddenSingle } else { Strategy::Primaries };
    let before = board.clone();
    match apply_strategies(&mut board, &strategies) {
        ControlFlow::Break((s, _)) => assert_eq!(s, expected),
        ControlFlow::Continue(()) => panic!("no strategy applied"),
    }
    assert!(board != before);
}
