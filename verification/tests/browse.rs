use sudoku::board::encoding::SudokuStringDecoding;
use sudoku::board::SudokuBoard;
use sudoku::browse::{
    filter_games, games_title, handle_key, step_shown, strategy_filters, GamesTitle, StepShown, AppScreen, ExitRequest, FilterStatus, GameSelectionViewState, GameViewState, Key,
    ListCommand,
};
use sudoku::strategy::{solve, SolvedGame, Strategy};

fn game(strategies: Vec<Strategy>) -> SolvedGame {
    SolvedGame { boards: Vec::new(), steps: Vec::new(), strategies }
}

fn sample() -> Vec<SolvedGame> {
    vec![
        game(vec![Strategy::Primaries, Strategy::HiddenSingle]),
        game(vec![Strategy::Primaries]),
        game(vec![Strategy::Primaries, Strategy::XWing]),
    ]
}

#[test]
fn filter_status_cycles() {
    let mut s = FilterStatus::default();
    assert_eq!(s, FilterStatus::Neutral);
    s.advance();
    assert_eq!(s, FilterStatus::Include);
    assert_eq!(s.next(), FilterStatus::Exclude);
    s.advance();
    s.advance();
    assert_eq!(s, FilterStatus::Neutral);
}

#[test]
fn filters_skip_strategies_used_by_all_or_none() {
    let filters = strategy_filters(&sample());
    assert_eq!(
        filters,
        vec![(Strategy::HiddenSingle, 1, FilterStatus::Neutral), (Strategy::XWing, 1, FilterStatus::Neutral)]
    );
}

#[test]
fn games_pass_filters() {
    let games = sample();
    let mut filters = strategy_filters(&games);
    assert_eq!(filter_games(&games, &filters), vec![0, 1, 2]);
    filters[1].2 = FilterStatus::Include;
    assert_eq!(filter_games(&games, &filters), vec![2]);
    filters[1].2 = FilterStatus::Neutral;
    filters[0].2 = FilterStatus::Exclude;
    assert_eq!(filter_games(&games, &filters), vec![1, 2]);
    filters[1].2 = FilterStatus::Exclude;
    assert_eq!(filter_games(&games, &filters), vec![1]);
}

#[test]
fn keys_on_the_game_list() {
    let list = AppScreen::GameSelectionView(GameSelectionViewState::Selection);
    let shown = vec![4, 7];
    assert_eq!(handle_key(list, Key::Back, 0, &shown, None, None).2, ExitRequest::Quit);
    assert_eq!(handle_key(list, Key::Down, 0, &shown, None, None).1, ListCommand::NextGame);
    let (screen, cmd, exit) = handle_key(list, Key::Select, 0, &shown, Some(1), None);
    assert_eq!(screen, AppScreen::GameView(GameViewState { game_idx: 7, step: 0 }));
    assert_eq!(cmd, ListCommand::Stay);
    assert_eq!(exit, ExitRequest::Continue);
    let (screen, _, _) = handle_key(list, Key::Switch, 0, &shown, None, None);
    assert_eq!(screen, AppScreen::GameSelectionView(GameSelectionViewState::Filter));
}

#[test]
fn keys_on_the_filter_list() {
    let filter = AppScreen::GameSelectionView(GameSelectionViewState::Filter);
    let shown = Vec::new();
    assert_eq!(handle_key(filter, Key::Select, 0, &shown, None, Some(3)).1, ListCommand::Toggle(3));
    assert_eq!(handle_key(filter, Key::Up, 0, &shown, None, None).1, ListCommand::PreviousFilter);
    assert_eq!(handle_key(filter, Key::Back, 0, &shown, None, None).2, ExitRequest::Quit);
}

#[test]
fn keys_on_a_game() {
    let shown = Vec::new();
    let at = |step| AppScreen::GameView(GameViewState { game_idx: 0, step });
    // three boards: steps 0 to 4
    assert_eq!(handle_key(at(3), Key::Down, 3, &shown, None, None).0, at(4));
    assert_eq!(handle_key(at(4), Key::Down, 3, &shown, None, None).0, at(4));
    assert_eq!(handle_key(at(0), Key::Up, 3, &shown, None, None).0, at(0));
    assert_eq!(handle_key(at(2), Key::Up, 3, &shown, None, None).0, at(1));
    let (screen, _, exit) = handle_key(at(2), Key::Back, 3, &shown, None, None);
    assert_eq!(screen, AppScreen::GameSelectionView(GameSelectionViewState::Selection));
    assert_eq!(exit, ExitRequest::Continue);
}

#[test]
fn games_title_counts_listed_games() {
    assert_eq!(games_title(4, 4), GamesTitle::All(4));
    assert_eq!(games_title(1, 4), GamesTitle::Filtered(1, 4));
}

#[test]
fn steps_show_boards_and_moves() {
    let board = SudokuBoard::decode_sudoku_string(
        "501740008000000050098600400040961580050000010016854070005006730070000000900072805",
    )
    .unwrap();
    let game = solve(board).unwrap();
    let last = game.boards.len() - 1;
    assert!(last > 0);
    assert_eq!(step_shown(&game, 0), StepShown::Current(0));
    assert_eq!(step_shown(&game, 1), StepShown::Move(0));
    let end = step_shown(&game, 2 * last);
    if game.is_solved() {
        assert_eq!(end, StepShown::Solved(last));
    } else {
        assert_eq!(end, StepShown::Unsolved(last));
    }
}
