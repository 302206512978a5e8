use sudoku::board::encoding::SudokuStringDecoding;
use sudoku::board::game_file::games_of_file;
use sudoku::board::SudokuBoard;
use sudoku::error::SudokuError;

const GAME: &str = "501740008000000050098600400040961580050000010016854070005006730070000000900072805";

#[test]
fn xml_file_gives_game_elements() {
    let text = format!("<?xml version=\"1.0\"?><games><game data=\"{}\" level=\"1\"/><game data=\"12\"/><other data=\"{}\"/><game/></games>", GAME, GAME);
    let (boards, failures) = games_of_file(text.as_bytes());
    assert_eq!(boards.len(), 1);
    assert!(boards[0] == SudokuBoard::decode_sudoku_string(GAME).unwrap());
    assert_eq!(failures.len(), 1);
    assert_eq!(failures[0].0, "12");
    assert_eq!(failures[0].1, SudokuError::InvalidBoardSize(2));
}

#[test]
fn xml_file_takes_first_data_attribute() {
    let text = format!("<games><game level=\"2\" data=\"{}\" data2=\"x\"/></games>", GAME);
    let (boards, failures) = games_of_file(text.as_bytes());
    assert_eq!(boards.len(), 1);
    assert!(failures.is_empty());
}

#[test]
fn text_file_gives_one_game_per_line() {
    let text = format!("{}\n  {}  \r\n", GAME, GAME);
    let (boards, failures) = games_of_file(text.as_bytes());
    assert_eq!(boards.len(), 2);
    assert!(failures.is_empty());
    assert!(boards[1] == SudokuBoard::decode_sudoku_string(GAME).unwrap());
}

#[test]
fn text_file_with_bad_line_gives_nothing() {
    let text = format!("{}\nnot a puzzle\n", GAME);
    let (boards, failures) = games_of_file(text.as_bytes());
    assert!(boards.is_empty());
    assert!(failures.is_empty());
}

#[test]
fn bytes_that_are_not_text_give_nothing() {
    let (boards, failures) = games_of_file(&[0xff, 0xfe, 0x00]);
    assert!(boards.is_empty());
    assert!(failures.is_empty());
}
