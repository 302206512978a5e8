use std::ops::ControlFlow;

use sudoku::board::encoding::{SudokuStringDecoding, SudokuStringEncoding};
use sudoku::board::{SudokuBoard, SudokuCell};
use sudoku::error::SudokuError;
use sudoku::flags::DigitFlags;
use sudoku::highlight::Highlight;
use sudoku::index::{CellIndex, ColumnIndex, DigitIndex, RowIndex};
use sudoku::strategy::remote_pairs::apply_remote_pairs;
use sudoku::strategy::{solve, Strategy};

const GAME: &str = "501740008000000050098600400040961580050000010016854070005006730070000000900072805";

fn total(b: &SudokuBoard) -> usize {
    b.iter().iter().map(|c| c.num_digits()).sum()
}

fn refines(new: &SudokuBoard, old: &SudokuBoard) -> bool {
    new.iter().iter().zip(old.iter().iter()).all(|(n, o)| (0..9).all(|d| !n.digit_flags().contains(sudoku::index::DigitIndex::new(d).unwrap()) || o.digit_flags().contains(sudoku::index::DigitIndex::new(d).unwrap())))
}

#[test]
fn solve_finishes_the_sample() {
    let board = SudokuBoard::decode_sudoku_string(GAME).unwrap();
    let game = solve(board).unwrap();
    assert!(game.is_solved());
    assert_eq!(game.boards.len(), game.steps.len() + 1);
    assert!(game.steps.iter().all(|(s, _)| *s != Strategy::Backtrack));
    for k in 0..game.steps.len() {
        assert!(refines(&game.boards[k + 1], &game.boards[k]));
        assert!(game.boards[k + 1] != game.boards[k]);
    }
    let mut used: Vec<Strategy> = game.steps.iter().map(|(s, _)| *s).collect();
    used.sort();
    used.dedup();
    assert_eq!(game.strategies, used);
    let last = (&*game.boards.last().unwrap()).encode_sudoku_string();
    for (given, found) in GAME.chars().zip(last.chars()) {
        assert!(given == '0' || given == found);
        assert!(found != '0');
    }
}

#[test]
fn solve_reports_broken_board() {
    let mut s = String::from(GAME);
    s.replace_range(1..2, "5");
    let board = SudokuBoard::decode_sudoku_string(&s).unwrap();
    assert_eq!(solve(board).err(), Some(SudokuError::UnsolvableSudoku));
}

#[test]
fn every_strategy_only_removes_candidates() {
    let board = SudokuBoard::decode_sudoku_string(GAME).unwrap();
    for s in Strategy::iter() {
        let mut b = board.clone();
        let r = s.apply(&mut b);
        assert!(refines(&b, &board));
        if s != Strategy::Backtrack {
            assert_eq!(r.is_break(), b != board);
        }
    }
}

#[test]
fn primaries_step_removes_peers_of_placed_digits() {
    let mut b = SudokuBoard::decode_sudoku_string(GAME).unwrap();
    let before = total(&b);
    let r = Strategy::Primaries.apply(&mut b);
    assert!(r.is_break());
    assert!(total(&b) < before);
}

#[test]
fn primaries_leave_solved_board() {
    let board = SudokuBoard::decode_sudoku_string(GAME).unwrap();
    let game = solve(board).unwrap();
    let mut solved = game.boards.last().unwrap().clone();
    let before = solved.clone();
    for s in Strategy::iter_no_backtrack() {
        assert!(s.apply(&mut solved).is_continue());
    }
    assert!(solved == before);
}

#[test]
fn backtrack_solves_board() {
    let mut b = SudokuBoard::decode_sudoku_string(GAME).unwrap();
    match Strategy::Backtrack.apply(&mut b) {
        ControlFlow::Break(h) => assert!(h.is_empty()),
        ControlFlow::Continue(()) => panic!("no solution found"),
    }
    assert!(b.is_solved());
}

#[test]
fn strategy_lists() {
    assert!(Strategy::iter().iter().all(|s| s.is_safe()));
    assert_eq!(Strategy::safe_strategies(), Strategy::iter());
    let no_bt = Strategy::iter_no_backtrack();
    assert_eq!(no_bt.len(), Strategy::COUNT - 1);
    assert!(!no_bt.contains(&Strategy::Backtrack));
}

#[test]
fn backtrack_gives_up_on_broken_board() {
    let mut s = String::from(GAME);
    s.replace_range(1..2, "5");
    let mut b = SudokuBoard::decode_sudoku_string(&s).unwrap();
    let before = b.clone();
    assert!(Strategy::Backtrack.apply(&mut b).is_continue());
    assert!(b == before);
}

#[test]
fn backtrack_solution_keeps_the_givens() {
    let mut b = SudokuBoard::decode_sudoku_string(GAME).unwrap();
    assert!(Strategy::Backtrack.apply(&mut b).is_break());
    let text = (&b).encode_sudoku_string();
    for (given, found) in GAME.chars().zip(text.chars()) {
        assert!(found != '0');
        assert!(given == '0' || given == found);
    }
}

#[test]
fn written_board_reads_back() {
    let board = SudokuBoard::decode_sudoku_string(GAME).unwrap();
    let game = solve(board).unwrap();
    let last = game.boards.last().unwrap();
    let text = last.encode_sudoku_string();
    assert_eq!(&SudokuBoard::decode_sudoku_string(&text).unwrap(), last);
}

fn pair_board(cells: &[(usize, usize)]) -> SudokuBoard {
    let mut data = vec![SudokuCell::new(); 81];
    for (r, c) in cells {
        data[r * 9 + c] = SudokuCell::from_flags(DigitFlags::new(0b11));
    }
    SudokuBoard::new(data).unwrap()
}

fn cell_at(r: usize, c: usize) -> CellIndex {
    CellIndex::new(RowIndex::new(r).unwrap(), ColumnIndex::new(c).unwrap())
}

#[test]
fn remote_pair_clears_common_peers() {
    let mut board = pair_board(&[(0, 0), (0, 1), (4, 1)]);
    let before = board.clone();
    let r = apply_remote_pairs(&mut board);
    let highlights = match r {
        ControlFlow::Break(h) => h,
        ControlFlow::Continue(()) => panic!("no elimination"),
    };
    assert!(refines(&board, &before));
    assert_eq!(board.get(cell_at(0, 5)).num_digits(), 7);
    assert!(!board.get(cell_at(0, 5)).contains(DigitIndex::new(0).unwrap()));
    assert_eq!(board.get(cell_at(2, 2)).num_digits(), 7);
    assert_eq!(board.get(cell_at(4, 0)).num_digits(), 9);
    assert_eq!(board.get(cell_at(4, 1)).num_digits(), 2);
    assert_eq!(highlights[0], Highlight::Digit((cell_at(0, 0), DigitIndex::new(0).unwrap())));
    assert_eq!(highlights[1], Highlight::Digit((cell_at(0, 1), DigitIndex::new(0).unwrap())));
}

#[test]
fn remote_pair_needs_three_cells() {
    let mut board = pair_board(&[(0, 0), (5, 5)]);
    let before = board.clone();
    assert!(apply_remote_pairs(&mut board).is_continue());
    assert!(board == before);
}
