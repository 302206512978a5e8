//! Browsing solved games: filtering them by the strategies their solutions use, and the screens
//! and key presses of the game browser.
use vstd::prelude::*;

use crate::board::container::solved;
use crate::strategy::{all_strategies, SolvedGame, Strategy};

verus! {

/// How a strategy filters the list of games: not at all, keeping only the games that use it, or
/// keeping only those that do not.
#[derive(Clone, Copy, Debug, PartialEq, Eq, Structural, Default)]
pub enum FilterStatus {
    #[default]
    Neutral,
    Include,
    Exclude,
}

impl FilterStatus {
    /// The status after `self` in the cycle neutral, wanted, unwanted.
    pub open spec fn following(self) -> FilterStatus {
        match self {
            FilterStatus::Neutral => FilterStatus::Include,
            FilterStatus::Include => FilterStatus::Exclude,
            FilterStatus::Exclude => FilterStatus::Neutral,
        }
    }

    /// The next status in the cycle.
    pub fn next(&self) -> (r: Self)
        ensures
            r == self.following(),
    {
        match self {
            FilterStatus::Neutral => FilterStatus::Include,
            FilterStatus::Include => FilterStatus::Exclude,
            FilterStatus::Exclude => FilterStatus::Neutral,
        }
    }

    /// Moves on to the next status in the cycle.
    pub fn advance(&mut self)
        ensures
            *final(self) == old(self).following(),
    {
        *self = self.next();
    }
}

/// Three steps of the cycle lead back to the start.
pub proof fn lemma_filter_cycle(s: FilterStatus)
    ensures
        s.following().following().following() == s,
        s.following() != s,
{
}

/// How many of the first `j` entries of `list` are `s`.
pub open spec fn count_in(list: Seq<Strategy>, s: Strategy, j: int) -> nat
    decreases j,
{
    if j <= 0 {
        0
    } else {
        count_in(list, s, j - 1) + if list[j - 1] == s {
            1nat
        } else {
            0nat
        }
    }
}

/// How often `s` occurs in the strategy lists of the first `m` games.
pub open spec fn occurrences(games: Seq<SolvedGame>, s: Strategy, m: int) -> nat
    decreases m,
{
    if m <= 0 {
        0
    } else {
        occurrences(games, s, m - 1) + count_in(games[m - 1].strategies@, s, games[m - 1].strategies@.len() as int)
    }
}

/// The total length of the strategy lists of the first `m` games.
pub open spec fn total_listed(games: Seq<SolvedGame>, m: int) -> nat
    decreases m,
{
    if m <= 0 {
        0
    } else {
        total_listed(games, m - 1) + games[m - 1].strategies@.len()
    }
}

/// A count over a prefix is at most its length.
proof fn lemma_count_in_bound(list: Seq<Strategy>, s: Strategy, j: int)
    requires
        0 <= j,
    ensures
        count_in(list, s, j) <= j,
    decreases j,
{
    if j > 0 {
        lemma_count_in_bound(list, s, j - 1);
    }
}

/// The occurrences of a strategy are at most the total length of the lists.
proof fn lemma_occurrences_bound(games: Seq<SolvedGame>, s: Strategy, m: int)
    requires
        0 <= m,
    ensures
        occurrences(games, s, m) <= total_listed(games, m),
    decreases m,
{
    if m > 0 {
        lemma_occurrences_bound(games, s, m - 1);
        lemma_count_in_bound(games[m - 1].strategies@, s, games[m - 1].strategies@.len() as int);
    }
}

/// The filter entries for the first `t` strategies: each strategy that some game uses and some
/// game does not, with the number of its occurrences, not yet filtering.
pub open spec fn filters_upto(games: Seq<SolvedGame>, t: int) -> Seq<(Strategy, usize, FilterStatus)>
    decreases t,
{
    if t <= 0 {
        Seq::empty()
    } else {
        let p = filters_upto(games, t - 1);
        let s = all_strategies()[t - 1];
        let f = occurrences(games, s, games.len() as int);
        if f > 0 && f != games.len() {
            p.push((s, f as usize, FilterStatus::Neutral))
        } else {
            p
        }
    }
}

/// The strategies worth filtering on, in the order of `all_strategies`: those that occur in the
/// games' strategy lists a number of times other than zero and the number of games, each with
/// that number and a neutral status.
pub fn strategy_filters(games: &Vec<SolvedGame>) -> (r: Vec<(Strategy, usize, FilterStatus)>)
    requires
        total_listed(games@, games@.len() as int) <= usize::MAX,
    ensures
        r@ == filters_upto(games@, 15),
{
    let mut freq: Vec<usize> = Vec::new();
    while freq.len() < Strategy::COUNT
        invariant
            freq@.len() <= 15,
            forall|t: int| 0 <= t < freq@.len() ==> #[trigger] freq@[t] == 0,
        decreases 15 - freq@.len(),
    {
        freq.push(0);
    }
    let mut k: usize = 0;
    while k < games.len()
        invariant
            k <= games@.len(),
            freq@.len() == 15,
            total_listed(games@, games@.len() as int) <= usize::MAX,
            forall|t: int| 0 <= t < 15 ==> #[trigger] freq@[t] == occurrences(games@, all_strategies()[t], k as int),
        decreases games@.len() - k,
    {
        let list = &games[k].strategies;
        proof {
            lemma_total_prefix(games@, k as int + 1, games@.len() as int);
        }
        let mut j: usize = 0;
        while j < list.len()
            invariant
                k < games@.len(),
                *list == games@[k as int].strategies,
                j <= list@.len(),
                freq@.len() == 15,
                total_listed(games@, k + 1) <= usize::MAX,
                forall|t: int| 0 <= t < 15 ==> #[trigger] freq@[t] == occurrences(games@, all_strategies()[t], k as int)
                    + count_in(list@, all_strategies()[t], j as int),
            decreases list@.len() - j,
        {
            let idx = list[j].index();
            proof {
                lemma_occurrences_bound(games@, all_strategies()[idx as int], k as int);
                lemma_count_in_bound(list@, all_strategies()[idx as int], j as int);
            }
            freq.set(idx, freq[idx] + 1);
            j = j + 1;
        }
        k = k + 1;
    }
    let all = Strategy::iter();
    let n = games.len();
    let mut r: Vec<(Strategy, usize, FilterStatus)> = Vec::new();
    let mut t: usize = 0;
    while t < 15
        invariant
            t <= 15,
            all@ == all_strategies(),
            n == games@.len(),
            freq@.len() == 15,
            forall|u: int| 0 <= u < 15 ==> #[trigger] freq@[u] == occurrences(games@, all_strategies()[u], n as int),
            r@ == filters_upto(games@, t as int),
        decreases 15 - t,
    {
        let f = freq[t];
        if f != n && f > 0 {
            r.push((all[t], f, FilterStatus::Neutral));
        }
        t = t + 1;
    }
    r
}

/// The total over a prefix is at most the total over a longer one.
proof fn lemma_total_prefix(games: Seq<SolvedGame>, m: int, n: int)
    requires
        0 <= m <= n,
    ensures
        total_listed(games, m) <= total_listed(games, n),
    decreases n - m,
{
    if m < n {
        lemma_total_prefix(games, m, n - 1);
    }
}

/// Some entry of the filter list gives strategy `s` the status `st`.
pub open spec fn has_status(filters: Seq<(Strategy, usize, FilterStatus)>, s: Strategy, st: FilterStatus) -> bool {
    exists|k: int| 0 <= k < filters.len() && #[trigger] filters[k].0 == s && filters[k].2 == st
}

/// A game with these strategies passes the filters: it uses no excluded strategy and every
/// included one.
pub open spec fn passes(strategies: Seq<Strategy>, filters: Seq<(Strategy, usize, FilterStatus)>) -> bool {
    &&& forall|k: int| 0 <= k < strategies.len() ==> !has_status(filters, #[trigger] strategies[k], FilterStatus::Exclude)
    &&& forall|k: int| 0 <= k < filters.len() && (#[trigger] filters[k]).2 == FilterStatus::Include ==> strategies.contains(
        filters[k].0,
    )
}

/// The numbers, in increasing order, of the first `m` games that pass the filters.
pub open spec fn passing_upto(games: Seq<SolvedGame>, filters: Seq<(Strategy, usize, FilterStatus)>, m: int) -> Seq<usize>
    decreases m,
{
    if m <= 0 {
        Seq::empty()
    } else if passes(games[m - 1].strategies@, filters) {
        passing_upto(games, filters, m - 1).push((m - 1) as usize)
    } else {
        passing_upto(games, filters, m - 1)
    }
}

/// The games that the filters keep, as `filter_games` lists them: each listed game uses every
/// strategy that some filter entry includes and none that some entry excludes; every game among
/// the first `m` that does so is listed; and the list is increasing and below `m`.
pub proof fn lemma_filter_law(games: Seq<SolvedGame>, filters: Seq<(Strategy, usize, FilterStatus)>, m: int)
    requires
        0 <= m <= games.len(),
        m <= usize::MAX,
    ensures
        forall|t: int| 0 <= t < passing_upto(games, filters, m).len() ==> {
            let i = #[trigger] passing_upto(games, filters, m)[t] as int;
            &&& 0 <= i < m
            &&& forall|k: int| 0 <= k < filters.len() && filters[k].2 == FilterStatus::Include ==> games[i].strategies@.contains(
                #[trigger] filters[k].0,
            )
            &&& forall|k: int| 0 <= k < filters.len() && filters[k].2 == FilterStatus::Exclude ==> !games[i].strategies@.contains(
                #[trigger] filters[k].0,
            )
        },
        forall|i: int|
            0 <= i < m && (forall|k: int| 0 <= k < filters.len() && filters[k].2 == FilterStatus::Include ==> games[i].strategies@.contains(
                #[trigger] filters[k].0,
            )) && (forall|k: int| 0 <= k < filters.len() && filters[k].2 == FilterStatus::Exclude ==> !games[i].strategies@.contains(
                #[trigger] filters[k].0,
            )) ==> #[trigger] passing_upto(games, filters, m).contains(i as usize),
        forall|t1: int, t2: int|
            0 <= t1 < t2 < passing_upto(games, filters, m).len() ==> passing_upto(games, filters, m)[t1] < passing_upto(games, filters, m)[t2],
    decreases m,
{
    if m > 0 {
        lemma_filter_law(games, filters, m - 1);
        let prev = passing_upto(games, filters, m - 1);
        let cur = passing_upto(games, filters, m);
        let g = games[m - 1].strategies@;
        if passes(g, filters) {
            assert(cur == prev.push((m - 1) as usize));
            assert forall|k: int| 0 <= k < filters.len() && filters[k].2 == FilterStatus::Exclude implies !g.contains(#[trigger] filters[k].0) by {
                if g.contains(filters[k].0) {
                    let j = choose|j: int| 0 <= j < g.len() && g[j] == filters[k].0;
                    assert(has_status(filters, g[j], FilterStatus::Exclude));
                }
            }
        } else {
            assert(cur == prev);
        }
        assert forall|i: int|
            0 <= i < m && (forall|k: int| 0 <= k < filters.len() && filters[k].2 == FilterStatus::Include ==> games[i].strategies@.contains(
                #[trigger] filters[k].0,
            )) && (forall|k: int| 0 <= k < filters.len() && filters[k].2 == FilterStatus::Exclude ==> !games[i].strategies@.contains(
                #[trigger] filters[k].0,
            )) implies #[trigger] cur.contains(i as usize) by {
            if i == m - 1 {
                assert forall|j: int| 0 <= j < g.len() implies !has_status(filters, #[trigger] g[j], FilterStatus::Exclude) by {
                    if has_status(filters, g[j], FilterStatus::Exclude) {
                        let k = choose|k: int| 0 <= k < filters.len() && #[trigger] filters[k].0 == g[j] && filters[k].2 == FilterStatus::Exclude;
                        assert(g.contains(filters[k].0));
                    }
                }
                assert(passes(g, filters));
                assert(cur[cur.len() - 1] == i as usize);
            } else {
                assert(prev.contains(i as usize));
                let t = choose|t: int| 0 <= t < prev.len() && prev[t] == i as usize;
                assert(cur[t] == i as usize);
            }
        }
        assert forall|t: int| 0 <= t < cur.len() implies {
            let i = #[trigger] cur[t] as int;
            &&& 0 <= i < m
            &&& forall|k: int| 0 <= k < filters.len() && filters[k].2 == FilterStatus::Include ==> games[i].strategies@.contains(
                #[trigger] filters[k].0,
            )
            &&& forall|k: int| 0 <= k < filters.len() && filters[k].2 == FilterStatus::Exclude ==> !games[i].strategies@.contains(
                #[trigger] filters[k].0,
            )
        } by {
            if t < prev.len() {
                assert(cur[t] == prev[t]);
            }
        }
    }
}

/// Whether the list holds `s`.
fn lists(list: &Vec<Strategy>, s: Strategy) -> (r: bool)
    ensures
        r == list@.contains(s),
{
    let mut i: usize = 0;
    while i < list.len()
        invariant
            i <= list@.len(),
            forall|k: int| 0 <= k < i ==> list@[k] != s,
        decreases list@.len() - i,
    {
        if list[i] == s {
            return true;
        }
        i = i + 1;
    }
    false
}

/// The strategies that the filter list gives the status `st`, in list order.
fn with_status(filters: &Vec<(Strategy, usize, FilterStatus)>, st: FilterStatus) -> (r: Vec<Strategy>)
    ensures
        forall|s: Strategy| r@.contains(s) <==> has_status(filters@, s, st),
{
    let mut r: Vec<Strategy> = Vec::new();
    let mut i: usize = 0;
    while i < filters.len()
        invariant
            i <= filters@.len(),
            forall|s: Strategy| r@.contains(s) <==> exists|k: int| 0 <= k < i && #[trigger] filters@[k].0 == s && filters@[k].2 == st,
        decreases filters@.len() - i,
    {
        let (s, _, status) = filters[i];
        let ghost before = r@;
        if status == st {
            r.push(s);
        }
        assert forall|x: Strategy| r@.contains(x) <==> exists|k: int| 0 <= k < i + 1 && #[trigger] filters@[k].0 == x && filters@[k].2 == st by {
            if status == st {
                vstd::seq_lib::lemma_seq_contains_after_push(before, s, x);
            }
            if exists|k: int| 0 <= k < i + 1 && #[trigger] filters@[k].0 == x && filters@[k].2 == st {
                let k = choose|k: int| 0 <= k < i + 1 && #[trigger] filters@[k].0 == x && filters@[k].2 == st;
                if k < i {
                    assert(before.contains(x));
                }
            }
        }
        i = i + 1;
    }
    r
}

/// The numbers, in increasing order, of the games that use no excluded strategy and every
/// included one.
pub fn filter_games(games: &Vec<SolvedGame>, filters: &Vec<(Strategy, usize, FilterStatus)>) -> (r: Vec<usize>)
    ensures
        r@ == passing_upto(games@, filters@, games@.len() as int),
{
    let wanted = with_status(filters, FilterStatus::Include);
    let unwanted = with_status(filters, FilterStatus::Exclude);
    let mut r: Vec<usize> = Vec::new();
    let mut idx: usize = 0;
    while idx < games.len()
        invariant
            idx <= games@.len(),
            forall|s: Strategy| wanted@.contains(s) <==> has_status(filters@, s, FilterStatus::Include),
            forall|s: Strategy| unwanted@.contains(s) <==> has_status(filters@, s, FilterStatus::Exclude),
            r@ == passing_upto(games@, filters@, idx as int),
        decreases games@.len() - idx,
    {
        let strategies = &games[idx].strategies;
        let mut excluded = false;
        let mut i: usize = 0;
        while i < strategies.len()
            invariant
                i <= strategies@.len(),
                forall|s: Strategy| unwanted@.contains(s) <==> has_status(filters@, s, FilterStatus::Exclude),
                excluded <==> exists|k: int| 0 <= k < i && has_status(filters@, #[trigger] strategies@[k], FilterStatus::Exclude),
            decreases strategies@.len() - i,
        {
            if lists(&unwanted, strategies[i]) {
                excluded = true;
            }
            i = i + 1;
        }
        let mut missing = false;
        let mut j: usize = 0;
        while j < wanted.len()
            invariant
                j <= wanted@.len(),
                missing <==> exists|k: int| 0 <= k < j && !strategies@.contains(#[trigger] wanted@[k]),
            decreases wanted@.len() - j,
        {
            if !lists(strategies, wanted[j]) {
                missing = true;
            }
            j = j + 1;
        }
        proof {
            let p = passes(strategies@, filters@);
            if !excluded && !missing {
                assert forall|k: int| 0 <= k < filters@.len() && (#[trigger] filters@[k]).2 == FilterStatus::Include implies strategies@.contains(
                    filters@[k].0,
                ) by {
                    assert(has_status(filters@, filters@[k].0, FilterStatus::Include));
                    assert(wanted@.contains(filters@[k].0));
                    let w = choose|w: int| 0 <= w < wanted@.len() && wanted@[w] == filters@[k].0;
                }
                assert(p);
            }
            if missing {
                let k = choose|k: int| 0 <= k < wanted@.len() && !strategies@.contains(#[trigger] wanted@[k]);
                assert(wanted@.contains(wanted@[k]));
                let w = choose|w: int| 0 <= w < filters@.len() && #[trigger] filters@[w].0 == wanted@[k] && filters@[w].2
                    == FilterStatus::Include;
                assert(!p);
            }
        }
        if !excluded && !missing {
            r.push(idx);
        }
        idx = idx + 1;
    }
    r
}

/// What a key press asks of the browser.
#[derive(Clone, Copy, Debug, PartialEq, Eq, Structural)]
pub enum Key {
    /// Leave the current screen (`q`, Esc).
    Back,
    /// Move down (`j`, down arrow).
    Down,
    /// Move up (`k`, up arrow).
    Up,
    /// Choose the highlighted entry (Enter, space).
    Select,
    /// Switch between the filter and the game list (Tab, `f`).
    Switch,
    /// Any other key.
    Other,
}

/// Which list of the selection screen has the focus.
#[derive(Clone, Copy, Debug, PartialEq, Eq, Structural, Default)]
pub enum GameSelectionViewState {
    #[default]
    Selection,
    Filter,
}

/// The game shown and the step of its solution: even steps show a board, odd ones the move to
/// the next board.
#[derive(Clone, Copy, Debug, PartialEq, Eq, Structural, Default)]
pub struct GameViewState {
    pub game_idx: usize,
    pub step: usize,
}

/// The screen of the browser.
#[derive(Clone, Copy, Debug, PartialEq, Eq, Structural)]
pub enum AppScreen {
    GameSelectionView(GameSelectionViewState),
    GameView(GameViewState),
}

/// Whether the browser goes on or quits.
#[derive(Clone, Copy, Debug, PartialEq, Eq, Structural)]
pub enum ExitRequest {
    Continue,
    Quit,
}

/// What the lists of the selection screen must do after a key press.
#[derive(Clone, Copy, Debug, PartialEq, Eq, Structural)]
pub enum ListCommand {
    Stay,
    NextGame,
    PreviousGame,
    NextFilter,
    PreviousFilter,
    /// Advance the status of filter entry number `0`, clear the game selection and filter the
    /// games again.
    Toggle(usize),
}

/// The screen after a key press, what the lists must do, and whether to quit. `boards` is the
/// number of boards of the game shown, `shown` the numbers of the games listed, and
/// `selected_game` and `selected_filter` the highlighted entries of the two lists.
pub fn handle_key(
    screen: AppScreen,
    key: Key,
    boards: usize,
    shown: &Vec<usize>,
    selected_game: Option<usize>,
    selected_filter: Option<usize>,
) -> (r: (AppScreen, ListCommand, ExitRequest))
    requires
        screen is GameView ==> 1 <= boards <= usize::MAX / 2,
        selected_game matches Some(i) ==> i < shown@.len(),
    ensures
        r.2 == ExitRequest::Quit <==> (screen is GameSelectionView && key == Key::Back),
        screen matches AppScreen::GameView(v) ==> {
            &&& r.1 == ListCommand::Stay
            &&& key == Key::Back ==> r.0 == AppScreen::GameSelectionView(GameSelectionViewState::Selection)
            &&& key == Key::Down ==> r.0 == AppScreen::GameView(
                if v.step + 1 < 2 * boards - 1 {
                    GameViewState { game_idx: v.game_idx, step: (v.step + 1) as usize }
                } else {
                    v
                },
            )
            &&& key == Key::Up ==> r.0 == AppScreen::GameView(
                if v.step > 0 {
                    GameViewState { game_idx: v.game_idx, step: (v.step - 1) as usize }
                } else {
                    v
                },
            )
            &&& (key == Key::Select || key == Key::Switch || key == Key::Other) ==> r.0 == screen
        },
        screen == AppScreen::GameSelectionView(GameSelectionViewState::Selection) ==> {
            &&& key == Key::Back ==> r.0 == screen && r.1 == ListCommand::Stay
            &&& key == Key::Switch ==> r.0 == AppScreen::GameSelectionView(GameSelectionViewState::Filter) && r.1
                == ListCommand::Stay
            &&& key == Key::Down ==> r.0 == screen && r.1 == ListCommand::NextGame
            &&& key == Key::Up ==> r.0 == screen && r.1 == ListCommand::PreviousGame
            &&& key == Key::Select ==> r.1 == ListCommand::Stay && r.0 == match selected_game {
                Some(i) => AppScreen::GameView(GameViewState { game_idx: shown@[i as int], step: 0 }),
                None => screen,
            }
            &&& key == Key::Other ==> r.0 == screen && r.1 == ListCommand::Stay
        },
        screen == AppScreen::GameSelectionView(GameSelectionViewState::Filter) ==> {
            &&& r.0 == if key == Key::Switch {
                AppScreen::GameSelectionView(GameSelectionViewState::Selection)
            } else {
                screen
            }
            &&& key == Key::Down ==> r.1 == ListCommand::NextFilter
            &&& key == Key::Up ==> r.1 == ListCommand::PreviousFilter
            &&& key == Key::Select ==> r.1 == match selected_filter {
                Some(i) => ListCommand::Toggle(i),
                None => ListCommand::Stay,
            }
            &&& (key == Key::Back || key == Key::Switch || key == Key::Other) ==> r.1 == ListCommand::Stay
        },
{
    match screen {
        AppScreen::GameView(v) => {
            let next = match key {
                Key::Back => AppScreen::GameSelectionView(GameSelectionViewState::Selection),
                Key::Down => {
                    if v.step < 2 * boards - 2 {
                        AppScreen::GameView(GameViewState { game_idx: v.game_idx, step: v.step + 1 })
                    } else {
                        screen
                    }
                },
                Key::Up => {
                    if v.step > 0 {
                        AppScreen::GameView(GameViewState { game_idx: v.game_idx, step: v.step - 1 })
                    } else {
                        screen
                    }
                },
                _ => screen,
            };
            (next, ListCommand::Stay, ExitRequest::Continue)
        },
        AppScreen::GameSelectionView(GameSelectionViewState::Selection) => match key {
            Key::Back => (screen, ListCommand::Stay, ExitRequest::Quit),
            Key::Switch => (
                AppScreen::GameSelectionView(GameSelectionViewState::Filter),
                ListCommand::Stay,
                ExitRequest::Continue,
            ),
            Key::Down => (screen, ListCommand::NextGame, ExitRequest::Continue),
            Key::Up => (screen, ListCommand::PreviousGame, ExitRequest::Continue),
            Key::Select => match selected_game {
                Some(i) => (
                    AppScreen::GameView(GameViewState { game_idx: shown[i], step: 0 }),
                    ListCommand::Stay,
                    ExitRequest::Continue,
                ),
                None => (screen, ListCommand::Stay, ExitRequest::Continue),
            },
            Key::Other => (screen, ListCommand::Stay, ExitRequest::Continue),
        },
        AppScreen::GameSelectionView(GameSelectionViewState::Filter) => match key {
            Key::Back => (screen, ListCommand::Stay, ExitRequest::Quit),
            Key::Switch => (
                AppScreen::GameSelectionView(GameSelectionViewState::Selection),
                ListCommand::Stay,
                ExitRequest::Continue,
            ),
            Key::Down => (screen, ListCommand::NextFilter, ExitRequest::Continue),
            Key::Up => (screen, ListCommand::PreviousFilter, ExitRequest::Continue),
            Key::Select => match selected_filter {
                Some(i) => (screen, ListCommand::Toggle(i), ExitRequest::Continue),
                None => (screen, ListCommand::Stay, ExitRequest::Continue),
            },
            Key::Other => (screen, ListCommand::Stay, ExitRequest::Continue),
        },
    }
}

/// The title of the game list: all games, or the number listed out of all.
#[derive(Clone, Copy, Debug, PartialEq, Eq, Structural)]
pub enum GamesTitle {
    All(usize),
    Filtered(usize, usize),
}

/// The title of the game list when `shown` of the `total` games are listed.
pub fn games_title(shown: usize, total: usize) -> (r: GamesTitle)
    ensures
        shown == total ==> r == GamesTitle::All(total),
        shown != total ==> r == GamesTitle::Filtered(shown, total),
{
    if shown == total {
        GamesTitle::All(total)
    } else {
        GamesTitle::Filtered(shown, total)
    }
}

/// What a step of a game's view shows.
#[derive(Clone, Copy, Debug, PartialEq, Eq, Structural)]
pub enum StepShown {
    /// Board number `0`, before the last.
    Current(usize),
    /// The last board, number `0`, which is solved.
    Solved(usize),
    /// The last board, number `0`, which the strategies did not solve.
    Unsolved(usize),
    /// Step number `0` of the solution, which leads from board `0` to the next.
    Move(usize),
}

/// What step `step` of the view of `game` shows: even steps show board `step / 2`, odd steps
/// the move from board `step / 2` to the next.
pub fn step_shown(game: &SolvedGame, step: usize) -> (r: StepShown)
    requires
        game.boards@.len() >= 1,
        step < 2 * game.boards@.len() - 1,
    ensures
        step % 2 == 1 ==> r == StepShown::Move(step / 2),
        step % 2 == 0 && step / 2 + 1 < game.boards@.len() ==> r == StepShown::Current(step / 2),
        step % 2 == 0 && step / 2 + 1 == game.boards@.len() && solved(game.boards@[(step / 2) as int]@) ==> r == StepShown::Solved(step / 2),
        step % 2 == 0 && step / 2 + 1 == game.boards@.len() && !solved(game.boards@[(step / 2) as int]@) ==> r == StepShown::Unsolved(step / 2),
{
    let board_idx = step / 2;
    if step % 2 == 1 {
        StepShown::Move(board_idx)
    } else if board_idx + 1 == game.boards.len() {
        if game.boards[board_idx].is_solved() {
            StepShown::Solved(board_idx)
        } else {
            StepShown::Unsolved(board_idx)
        }
    } else {
        StepShown::Current(board_idx)
    }
}


} // verus!
