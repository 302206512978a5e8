use std::ops::ControlFlow;

use vstd::prelude::*;

use crate::board::container::solved;
use crate::board::SudokuBoard;
use crate::error::SudokuError;
use crate::highlight::Highlight;
use crate::board::container::positions_with;
use crate::flags::ascending;
use crate::highlight::{cells_having, digit_marks, group_marks};
use crate::index::region::house_cells;
use crate::index::{line_of, BlockIndex, CellIndex, ChuteIndex, HouseIndex, LineDirection};
use crate::rules::{admits, candidate_total, is_solution, keeps_solutions, lemma_total_refines, refines};

pub mod backtrack;
pub mod chute_remote_pair;
pub mod common;
pub mod hidden_group;
pub mod locked_candidates_claiming;
pub mod locked_candidates_pointing;
pub mod naked_group;
pub mod primaries;
pub mod remote_pairs;
pub mod simple_coloring;
pub mod xwing;

pub use backtrack::solve_backtrack;
pub use chute_remote_pair::{apply_chute_remote_pair, CRPType};
pub use hidden_group::apply_hidden_group;
pub use locked_candidates_claiming::apply_locked_candidates_claiming;
pub use locked_candidates_pointing::apply_locked_candidates_pointing;
pub use naked_group::apply_naked_group;
pub use primaries::apply_primaries;
pub use xwing::apply_xwing;

verus! {

/// The solving strategies, from the simplest to backtracking.
#[derive(Clone, Copy, Debug, PartialEq, Eq, Structural, PartialOrd, Ord, Hash)]
pub enum Strategy {
    /// Applies every placed digit at once: it leaves the cell's peers.
    Primaries,
    /// A digit with a single place in a house goes there.
    HiddenSingle,
    /// Two cells of a house with the same two candidates take those digits from the rest.
    NakedPair,
    /// Two digits confined to two cells of a house clear the other candidates of those cells.
    HiddenPair,
    /// A digit confined to one line inside a block leaves that line outside the block.
    LockedCandidatePointing,
    /// A digit confined to one block inside a line leaves that block outside the line.
    LockedCandidateClaiming,
    NakedTriple,
    HiddenTriple,
    NakedQuad,
    HiddenQuad,
    /// Two parallel lines with a digit in the same two places clear the crossing lines.
    XWing,
    ChuteRemotePairDouble,
    ChuteRemotePairSingle,
    /// Chains of bilocation links coloured in two colours clear the cells that see both colours.
    SimpleColoring,
    /// Search by trying each candidate of a cell in turn.
    Backtrack,
}

/// Every strategy, in order.
pub open spec fn all_strategies() -> Seq<Strategy> {
    seq![
        Strategy::Primaries,
        Strategy::HiddenSingle,
        Strategy::NakedPair,
        Strategy::HiddenPair,
        Strategy::LockedCandidatePointing,
        Strategy::LockedCandidateClaiming,
        Strategy::NakedTriple,
        Strategy::HiddenTriple,
        Strategy::NakedQuad,
        Strategy::HiddenQuad,
        Strategy::XWing,
        Strategy::ChuteRemotePairDouble,
        Strategy::ChuteRemotePairSingle,
        Strategy::SimpleColoring,
        Strategy::Backtrack,
    ]
}

/// Every cell of the board is down to at most one candidate.
pub open spec fn finished(b: Seq<Set<int>>) -> bool {
    forall|i: int| 0 <= i < 81 ==> (#[trigger] b[i]).len() <= 1
}

/// None of the strategies has a step to take on board `b`.
pub open spec fn stuck(b: Seq<Set<int>>, strategies: Seq<Strategy>) -> bool {
    forall|k: int| 0 <= k < strategies.len() ==> (#[trigger] strategies[k]).finds_nothing(b)
}

/// Strategy `s` of the list takes the step from `b` to `b2` with highlights `hl`, and every
/// strategy before it in the list has no step to take on `b`.
pub open spec fn first_step(strategies: Seq<Strategy>, s: Strategy, b: Seq<Set<int>>, b2: Seq<Set<int>>, hl: Seq<Highlight>) -> bool {
    exists|i: int| 0 <= i < strategies.len() && #[trigger] strategies[i] == s && s.step_taken(b, b2, hl) && stuck(b, strategies.take(i))
}

/// No strategy of the list is backtracking.
pub open spec fn without_backtrack(strategies: Seq<Strategy>) -> bool {
    forall|k: int| 0 <= k < strategies.len() ==> #[trigger] strategies[k] != Strategy::Backtrack
}

impl Strategy {
    /// The number of strategies.
    pub const COUNT: usize = 15;

    /// The position of the strategy in `all_strategies`.
    pub open spec fn position(self) -> int {
        match self {
            Strategy::Primaries => 0,
            Strategy::HiddenSingle => 1,
            Strategy::NakedPair => 2,
            Strategy::HiddenPair => 3,
            Strategy::LockedCandidatePointing => 4,
            Strategy::LockedCandidateClaiming => 5,
            Strategy::NakedTriple => 6,
            Strategy::HiddenTriple => 7,
            Strategy::NakedQuad => 8,
            Strategy::HiddenQuad => 9,
            Strategy::XWing => 10,
            Strategy::ChuteRemotePairDouble => 11,
            Strategy::ChuteRemotePairSingle => 12,
            Strategy::SimpleColoring => 13,
            Strategy::Backtrack => 14,
        }
    }

    /// The strategy has no step to take on board `b`: it would remove no candidate (for
    /// backtracking: the board allows no filled grid).
    pub open spec fn finds_nothing(self, b: Seq<Set<int>>) -> bool {
        match self {
            Strategy::Primaries => primaries::after_primaries(b) == b,
            Strategy::HiddenSingle => hidden_group::hidden_done(b, 1),
            Strategy::NakedPair => naked_group::naked_done(b, 2),
            Strategy::HiddenPair => hidden_group::hidden_done(b, 2),
            Strategy::LockedCandidatePointing => locked_candidates_pointing::pointing_done(b),
            Strategy::LockedCandidateClaiming => locked_candidates_claiming::claiming_done(b),
            Strategy::NakedTriple => naked_group::naked_done(b, 3),
            Strategy::HiddenTriple => hidden_group::hidden_done(b, 3),
            Strategy::NakedQuad => naked_group::naked_done(b, 4),
            Strategy::HiddenQuad => hidden_group::hidden_done(b, 4),
            Strategy::XWing => xwing::xwing_done(b),
            Strategy::ChuteRemotePairDouble => chute_remote_pair::crp_done(b, CRPType::Double),
            Strategy::ChuteRemotePairSingle => chute_remote_pair::crp_done(b, CRPType::Single),
            Strategy::SimpleColoring => simple_coloring::coloring_done(b),
            Strategy::Backtrack => forall|sol: Seq<int>| is_solution(sol) ==> !#[trigger] admits(b, sol),
        }
    }

    /// Board `b2`, with highlights `hl`, is what one step of the strategy makes of board `b`: the
    /// first instance that removes a candidate, as the strategy's own search order finds it (for
    /// backtracking: a filled grid that `b` allows, with no highlight).
    pub open spec fn step_taken(self, b: Seq<Set<int>>, b2: Seq<Set<int>>, hl: Seq<Highlight>) -> bool {
        match self {
            Strategy::Primaries => b2 == primaries::after_primaries(b) && b2 != b && hl == primaries::primaries_marks(b),
            Strategy::HiddenSingle => Strategy::hidden_step(b, b2, hl, 1),
            Strategy::NakedPair => Strategy::naked_step(b, b2, hl, 2),
            Strategy::HiddenPair => Strategy::hidden_step(b, b2, hl, 2),
            Strategy::LockedCandidatePointing => exists|blk: BlockIndex, d: int, line: HouseIndex|
                #[trigger] locked_candidates_pointing::point_applies(b, blk, d, line) && b2 == locked_candidates_pointing::after_point(b, blk, d, line)
                    && locked_candidates_pointing::points_clear_before(b, blk, d) && hl == seq![
                    Highlight::House(line),
                    Highlight::House(HouseIndex::Block(blk)),
                ] + digit_marks(cells_having(b, house_cells(HouseIndex::Block(blk)), d), d),
            Strategy::LockedCandidateClaiming => exists|line: HouseIndex, d: int, blk: BlockIndex|
                #[trigger] locked_candidates_claiming::claim_applies(b, line, d, blk) && b2 == locked_candidates_claiming::after_claim(b, line, d, blk)
                    && locked_candidates_claiming::claims_clear_before(b, line, d) && hl == seq![
                    Highlight::House(line),
                    Highlight::House(HouseIndex::Block(blk)),
                ] + digit_marks(cells_having(b, house_cells(line), d), d),
            Strategy::NakedTriple => Strategy::naked_step(b, b2, hl, 3),
            Strategy::HiddenTriple => Strategy::hidden_step(b, b2, hl, 3),
            Strategy::NakedQuad => Strategy::naked_step(b, b2, hl, 4),
            Strategy::HiddenQuad => Strategy::hidden_step(b, b2, hl, 4),
            Strategy::XWing => exists|d: int, dir: LineDirection, i0: int, i1: int|
                #[trigger] xwing::xwing_applies(b, d, dir, i0, i1) && b2 == xwing::after_xwing(b, d, dir, i0, i1) && xwing::xwings_clear_before(b, d, dir) && xwing::xwing_pairs_clear_before(b, d, dir, i0, i1)
                    && hl == seq![Highlight::House(line_of(dir, i0)), Highlight::House(line_of(dir, i1))] + xwing::xwing_marks(
                    line_of(dir, i0),
                    line_of(dir, i1),
                    ascending(positions_with(b, line_of(dir, i0), d), 9),
                    xwing::perpendicular(dir),
                    d,
                ),
            Strategy::ChuteRemotePairDouble => Strategy::crp_step(b, b2, hl, CRPType::Double),
            Strategy::ChuteRemotePairSingle => Strategy::crp_step(b, b2, hl, CRPType::Single),
            Strategy::SimpleColoring => exists|d: int, x: CellIndex, z: CellIndex|
                #[trigger] simple_coloring::coloring_applies(b, d, x, z) && b2 == simple_coloring::after_coloring(b, d, x, z) && (forall|e: int|
                    0 <= e < d ==> #[trigger] simple_coloring::coloring_done_for(b, e)) && simple_coloring::coloring_marks(b, d, x, z, hl) && simple_coloring::coloring_first_pair(b, d, x, z),
            Strategy::Backtrack => solved(b2) && refines(b2, b) && hl.len() == 0,
        }
    }

    /// One step of the hidden groups of `n` digits.
    pub open spec fn hidden_step(b: Seq<Set<int>>, b2: Seq<Set<int>>, hl: Seq<Highlight>, n: int) -> bool {
        exists|h: HouseIndex, ds: Set<int>|
            #[trigger] hidden_group::hidden_applies(b, h, n, ds) && b2 == hidden_group::after_hidden(b, h, ds) && hidden_group::hidden_clear_before(b, h, n) && hidden_group::hidden_group_clear_before(b, h, n, ds)
                && hl == seq![Highlight::House(h)] + group_marks(
                b2,
                hidden_group::cells_at_positions(h, ascending(hidden_group::digits_positions(b, h, ds), 9)),
                ascending(ds, 9),
            )
    }

    /// One step of the naked groups of `n` cells.
    pub open spec fn naked_step(b: Seq<Set<int>>, b2: Seq<Set<int>>, hl: Seq<Highlight>, n: int) -> bool {
        exists|h: HouseIndex, u: Set<int>, pos: Seq<usize>|
            #[trigger] naked_group::naked_applies(b, h, n, u, pos) && b2 == naked_group::after_naked(b, h, u, pos) && naked_group::naked_clear_before(b, h, n) && naked_group::naked_group_clear_before(b, h, n, pos)
                && hl == seq![Highlight::House(h)] + group_marks(b2, naked_group::cells_at(h, pos), ascending(u, 9))
    }

    /// One step of the chute remote pairs of kind `t`.
    pub open spec fn crp_step(b: Seq<Set<int>>, b2: Seq<Set<int>>, hl: Seq<Highlight>, t: CRPType) -> bool {
        exists|ch: ChuteIndex, q: int, k: int, m: int|
            0 <= q < chute_remote_pair::crp_pair_count(b, ch) && #[trigger] chute_remote_pair::crp_applies(
                b,
                ch,
                chute_remote_pair::chute_pair(b, ch, q).0,
                chute_remote_pair::chute_pair(b, ch, q).1,
                k,
                m,
                t,
            ) && b2 == chute_remote_pair::after_crp(
                b,
                chute_remote_pair::chute_pair(b, ch, q).0,
                chute_remote_pair::chute_pair(b, ch, q).1,
                ch.direction_of(),
                ch.line_at(k),
                ch.block_at(m),
                t,
            ) && chute_remote_pair::crp_clear_before(b, ch, t) && chute_remote_pair::crp_pairs_clear_before(b, ch, q, t)
                && hl == chute_remote_pair::crp_marks(
                b,
                chute_remote_pair::chute_pair(b, ch, q).0,
                chute_remote_pair::chute_pair(b, ch, q).1,
                ch.line_at(k),
                ch.block_at(m),
            )
    }

    /// The position of the strategy in the order of `iter`.
    pub fn index(&self) -> (r: usize)
        ensures
            r == self.position(),
            all_strategies()[r as int] == *self,
    {
        match self {
            Strategy::Primaries => 0,
            Strategy::HiddenSingle => 1,
            Strategy::NakedPair => 2,
            Strategy::HiddenPair => 3,
            Strategy::LockedCandidatePointing => 4,
            Strategy::LockedCandidateClaiming => 5,
            Strategy::NakedTriple => 6,
            Strategy::HiddenTriple => 7,
            Strategy::NakedQuad => 8,
            Strategy::HiddenQuad => 9,
            Strategy::XWing => 10,
            Strategy::ChuteRemotePairDouble => 11,
            Strategy::ChuteRemotePairSingle => 12,
            Strategy::SimpleColoring => 13,
            Strategy::Backtrack => 14,
        }
    }

    /// Every strategy, in order.
    pub fn iter() -> (r: Vec<Strategy>)
        ensures
            r@ == all_strategies(),
    {
        let r = vec![
            Strategy::Primaries,
            Strategy::HiddenSingle,
            Strategy::NakedPair,
            Strategy::HiddenPair,
            Strategy::LockedCandidatePointing,
            Strategy::LockedCandidateClaiming,
            Strategy::NakedTriple,
            Strategy::HiddenTriple,
            Strategy::NakedQuad,
            Strategy::HiddenQuad,
            Strategy::XWing,
            Strategy::ChuteRemotePairDouble,
            Strategy::ChuteRemotePairSingle,
            Strategy::SimpleColoring,
            Strategy::Backtrack,
        ];
        assert(r@ =~= all_strategies());
        r
    }

    /// Every strategy but backtracking, in order.
    pub fn iter_no_backtrack() -> (r: Vec<Strategy>)
        ensures
            r@ == all_strategies().drop_last(),
            without_backtrack(r@),
    {
        let all = Strategy::iter();
        let mut r: Vec<Strategy> = Vec::new();
        let mut k: usize = 0;
        while k < all.len()
            invariant
                all@ == all_strategies(),
                k <= all@.len(),
                r@ == all_strategies().take(if k < 15 { k as int } else { 14 }),
            decreases all@.len() - k,
        {
            if all[k] != Strategy::Backtrack {
                r.push(all[k]);
                assert(all_strategies().take(k + 1) =~= all_strategies().take(k as int).push(all@[k as int]));
            }
            k = k + 1;
        }
        assert(all_strategies().take(14) =~= all_strategies().drop_last());
        r
    }

    /// The strategies that only remove candidates that no solution uses, in order: all of them.
    pub fn safe_strategies() -> (r: Vec<Strategy>)
        ensures
            r@ == all_strategies(),
    {
        let all = Strategy::iter();
        let mut r: Vec<Strategy> = Vec::new();
        let mut k: usize = 0;
        while k < all.len()
            invariant
                all@ == all_strategies(),
                k <= all@.len(),
                r@ == all_strategies().take(k as int),
            decreases all@.len() - k,
        {
            if all[k].is_safe() {
                r.push(all[k]);
            }
            assert(all_strategies().take(k + 1) =~= all_strategies().take(k as int).push(all@[k as int]));
            k = k + 1;
        }
        assert(all_strategies().take(15) =~= all_strategies());
        r
    }

    /// Whether the strategy only removes candidates that no solution uses: true of every one.
    pub fn is_safe(&self) -> (r: bool)
        ensures
            r,
    {
        match self {
            Strategy::Primaries
            | Strategy::HiddenSingle
            | Strategy::NakedPair
            | Strategy::HiddenPair
            | Strategy::LockedCandidatePointing
            | Strategy::LockedCandidateClaiming
            | Strategy::XWing
            | Strategy::ChuteRemotePairDouble
            | Strategy::ChuteRemotePairSingle
            | Strategy::NakedTriple
            | Strategy::HiddenTriple
            | Strategy::NakedQuad
            | Strategy::HiddenQuad
            | Strategy::SimpleColoring
            | Strategy::Backtrack => true,
        }
    }

    /// Applies one step of the strategy. Every strategy but backtracking breaks exactly when it
    /// changed the board; backtracking breaks with the solved board, or leaves the board as it
    /// was when it allows no filled grid.
    pub fn apply(&self, board: &mut SudokuBoard) -> (r: ControlFlow<Vec<Highlight>>)
        ensures
            refines(final(board)@, old(board)@),
            *self != Strategy::Backtrack ==> (r is Break <==> final(board)@ != old(board)@),
            *self == Strategy::Backtrack ==> (r is Break ==> solved(final(board)@)),
            *self == Strategy::Backtrack ==> (r is Continue ==> final(board)@ == old(board)@),
            *self == Strategy::Backtrack ==> (r is Continue ==> forall|sol: Seq<int>|
                is_solution(sol) ==> !#[trigger] admits(old(board)@, sol)),
            *self != Strategy::Backtrack ==> keeps_solutions(final(board)@, old(board)@),
            r is Continue ==> self.finds_nothing(old(board)@),
            r matches ControlFlow::Break(hl) ==> self.step_taken(old(board)@, final(board)@, hl@),
        decreases (if *self == Strategy::Backtrack { 3int } else { 0int }), 0int,
    {
        match self {
            Strategy::Primaries => apply_primaries(board),
            Strategy::HiddenSingle => apply_hidden_group(board, 1),
            Strategy::NakedPair => apply_naked_group(board, 2),
            Strategy::HiddenPair => apply_hidden_group(board, 2),
            Strategy::LockedCandidatePointing => apply_locked_candidates_pointing(board),
            Strategy::LockedCandidateClaiming => apply_locked_candidates_claiming(board),
            Strategy::NakedTriple => apply_naked_group(board, 3),
            Strategy::HiddenTriple => apply_hidden_group(board, 3),
            Strategy::NakedQuad => apply_naked_group(board, 4),
            Strategy::HiddenQuad => apply_hidden_group(board, 4),
            Strategy::XWing => apply_xwing(board),
            Strategy::ChuteRemotePairDouble => apply_chute_remote_pair(board, CRPType::Double),
            Strategy::ChuteRemotePairSingle => apply_chute_remote_pair(board, CRPType::Single),
            Strategy::SimpleColoring => simple_coloring::apply(board),
            Strategy::Backtrack => solve_backtrack(board),
        }
    }
}

/// Tries the strategies in order and stops at the first that breaks, naming it.
pub fn apply_strategies(board: &mut SudokuBoard, strategies: &[Strategy]) -> (r: ControlFlow<(Strategy, Vec<Highlight>)>)
    requires
        without_backtrack(strategies@),
    ensures
        refines(final(board)@, old(board)@),
        r is Continue ==> final(board)@ == old(board)@,
        r matches ControlFlow::Break((s, _)) ==> final(board)@ != old(board)@ && strategies@.contains(s),
        keeps_solutions(final(board)@, old(board)@),
        r is Continue ==> stuck(old(board)@, strategies@),
        r matches ControlFlow::Break((s, hl)) ==> first_step(strategies@, s, old(board)@, final(board)@, hl@),
    decreases 0int, 1int,
{
    let mut i: usize = 0;
    while i < strategies.len()
        invariant
            i <= strategies@.len(),
            without_backtrack(strategies@),
            board@ == old(board)@,
            forall|k: int| 0 <= k < i ==> (#[trigger] strategies@[k]).finds_nothing(old(board)@),
        decreases strategies@.len() - i,
    {
        let s = strategies[i];
        assert(strategies@[i as int] != Strategy::Backtrack);
        match s.apply(board) {
            ControlFlow::Break(h) => {
                proof {
                    assert(strategies@[i as int] == s);
                    assert(stuck(old(board)@, strategies@.take(i as int)));
                }
                return ControlFlow::Break((s, h));
            },
            ControlFlow::Continue(()) => {},
        }
        i = i + 1;
    }
    ControlFlow::Continue(())
}

/// Whether `bs` is a run of the strategies from `start`: each board after the first comes from
/// the one before, which is not finished, through the first of the strategies, in order, that has
/// a step to take there, taking that step.
pub open spec fn strategy_run(strategies: Seq<Strategy>, start: Seq<Set<int>>, bs: Seq<Seq<Set<int>>>) -> bool {
    &&& bs.len() >= 1
    &&& bs[0] == start
    &&& forall|k: int| 0 <= k < bs.len() - 1 ==> {
        &&& !finished(#[trigger] bs[k])
        &&& exists|s: Strategy, hl: Seq<Highlight>| #[trigger] first_step(strategies, s, bs[k], bs[k + 1], hl)
    }
}

/// Applies the strategies, each time the first in order that has a step to take, until the board
/// is finished or none of them changes it.
pub fn solve_with_strategies(board: &mut SudokuBoard, strategies: &[Strategy])
    requires
        without_backtrack(strategies@),
    ensures
        refines(final(board)@, old(board)@),
        keeps_solutions(final(board)@, old(board)@),
        finished(final(board)@) || stuck(final(board)@, strategies@),
        exists|bs: Seq<Seq<Set<int>>>| #[trigger] strategy_run(strategies@, old(board)@, bs) && bs.last() == final(board)@,
    decreases 0int, 2int,
{
    let ghost mut run: Seq<Seq<Set<int>>> = seq![board@];
    loop
        invariant
            without_backtrack(strategies@),
            refines(board@, old(board)@),
            keeps_solutions(board@, old(board)@),
            strategy_run(strategies@, old(board)@, run),
            run.last() == board@,
        ensures
            finished(board@) || stuck(board@, strategies@),
            strategy_run(strategies@, old(board)@, run),
            run.last() == board@,
        decreases candidate_total(board@, 81),
    {
        if board.is_finished() {
            break;
        }
        let ghost before = board@;
        proof {
            SudokuBoard::lemma_view(*board);
        }
        match apply_strategies(board, strategies) {
            ControlFlow::Continue(()) => {
                break;
            },
            ControlFlow::Break(step) => {
                proof {
                    let run0 = run;
                    run = run.push(board@);
                    assert(first_step(strategies@, step.0, before, board@, step.1@));
                    assert forall|k: int| 0 <= k < run.len() - 1 implies {
                        &&& !finished(#[trigger] run[k])
                        &&& exists|s: Strategy, hl: Seq<Highlight>| #[trigger] first_step(strategies@, s, run[k], run[k + 1], hl)
                    } by {
                        if k < run0.len() - 1 {
                            assert(run[k] == run0[k] && run[k + 1] == run0[k + 1]);
                        } else {
                            assert(run[k] == before && run[k + 1] == board@);
                        }
                    }
                    SudokuBoard::lemma_view(*board);
                    if forall|i: int| 0 <= i < 81 ==> board@[i] == before[i] {
                        assert(board@ =~= before);
                    }
                    let i = choose|i: int| 0 <= i < 81 && board@[i] != before[i];
                    lemma_total_refines(board@, before, 81);
                    assert forall|j: int| 0 <= j < 81 implies (#[trigger] board@[j]).subset_of(old(board)@[j]) by {
                        assert(board@[j].subset_of(before[j]));
                        assert(before[j].subset_of(old(board)@[j]));
                    }
                    assert forall|sol: Seq<int>| is_solution(sol) && admits(old(board)@, sol) implies #[trigger] admits(board@, sol) by {
                        assert(admits(before, sol));
                    }
                }
            },
        }
    }
}

/// A solving run: the boards from the start, one more than the steps; each step's strategy and
/// highlights; and the strategies used, in order.
#[derive(Debug, Clone)]
pub struct SolvedGame {
    pub boards: Vec<SudokuBoard>,
    pub steps: Vec<(Strategy, Vec<Highlight>)>,
    pub strategies: Vec<Strategy>,
}

impl SolvedGame {
    /// Whether the last board is solved.
    pub fn is_solved(&self) -> (r: bool)
        ensures
            r == (self.boards@.len() > 0 && solved(self.boards@.last()@)),
    {
        if self.boards.len() == 0 {
            false
        } else {
            self.boards[self.boards.len() - 1].is_solved()
        }
    }
}

/// The strategies of `steps`, each once, in the order of `all_strategies`.
pub open spec fn used_strategies(steps: Seq<(Strategy, Vec<Highlight>)>) -> Seq<Strategy> {
    all_strategies().filter(|s: Strategy| exists|k: int| 0 <= k < steps.len() && (#[trigger] steps[k]).0 == s)
}

/// Whether `boards` and `steps` record a run from `start`: each step moves on from a board that
/// is neither finished nor broken to a different board that only removes candidates, through a
/// strategy other than backtracking, the first in order that has a step to take, taking that
/// step.
pub open spec fn solving_run(start: Seq<Set<int>>, boards: Seq<SudokuBoard>, steps: Seq<(Strategy, Vec<Highlight>)>) -> bool {
    &&& boards.len() == steps.len() + 1
    &&& boards[0]@ == start
    &&& forall|k: int| 0 <= k < steps.len() ==> {
        &&& refines((#[trigger] boards[k + 1])@, boards[k]@)
        &&& boards[k + 1]@ != boards[k]@
        &&& steps[k].0 != Strategy::Backtrack
        &&& first_step(all_strategies().drop_last(), steps[k].0, boards[k]@, boards[k + 1]@, steps[k].1@)
        &&& keeps_solutions(boards[k + 1]@, boards[k]@)
        &&& exists|i: int| 0 <= i < 81 && #[trigger] boards[k]@[i].len() > 1
        &&& forall|i: int| 0 <= i < 81 ==> #[trigger] boards[k]@[i] != Set::<int>::empty()
    }
}

/// Solves with every strategy but backtracking, step by step, until the board is finished or no
/// strategy applies; fails with `UnsolvableSudoku` on reaching a board with a cell without
/// candidates, which happens only when the board allows no filled grid.
pub fn solve(board: SudokuBoard) -> (r: Result<SolvedGame, SudokuError>)
    ensures
        r matches Ok(game) ==> {
            &&& solving_run(board@, game.boards@, game.steps@)
            &&& game.strategies@ == used_strategies(game.steps@)
            &&& keeps_solutions(game.boards@.last()@, board@)
            &&& finished(game.boards@.last()@) || (stuck(game.boards@.last()@, all_strategies().drop_last()) && forall|i: int|
                0 <= i < 81 ==> #[trigger] game.boards@.last()@[i] != Set::<int>::empty())
        },
        r matches Err(e) ==> e == SudokuError::UnsolvableSudoku && exists|bs: Seq<SudokuBoard>, ss: Seq<(Strategy, Vec<Highlight>)>|
            #[trigger] solving_run(board@, bs, ss) && !finished(bs.last()@) && exists|i: int| 0 <= i < 81 && #[trigger] bs.last()@[i] == Set::<
                int,
            >::empty(),
        r is Err ==> forall|sol: Seq<int>| is_solution(sol) ==> !#[trigger] admits(board@, sol),
{
    let ghost start = board@;
    let mut current = board;
    let mut boards: Vec<SudokuBoard> = Vec::new();
    let mut steps: Vec<(Strategy, Vec<Highlight>)> = Vec::new();
    let strategies = Strategy::iter_no_backtrack();
    proof {
        SudokuBoard::lemma_view(current);
    }
    loop
        invariant
            without_backtrack(strategies@),
            refines(current@, start),
            keeps_solutions(current@, start),
            start == board@,
            boards@.len() == steps@.len(),
            solving_run(start, boards@.push(current), steps@),
            strategies@ == all_strategies().drop_last(),
        ensures
            refines(current@, start),
            keeps_solutions(current@, start),
            boards@.len() == steps@.len(),
            solving_run(start, boards@.push(current), steps@),
            finished(current@) || (stuck(current@, strategies@) && forall|i: int| 0 <= i < 81 ==> #[trigger] current@[i] != Set::<int>::empty()),
        decreases candidate_total(current@, 81),
    {
        if current.is_finished() {
            break;
        }
        if !current.is_valid() {
            assert(refines(current@, board@));
            proof {
                assert forall|sol: Seq<int>| is_solution(sol) implies !#[trigger] admits(board@, sol) by {
                    if admits(board@, sol) {
                        assert(admits(current@, sol));
                        let i = choose|i: int| 0 <= i < 81 && #[trigger] current@[i] == Set::<int>::empty();
                        assert(current@[i].contains(sol[i]));
                    }
                }
                assert(solving_run(board@, boards@.push(current), steps@));
                assert(boards@.push(current).last() == current);
                let i = choose|i: int| 0 <= i < 81 && #[trigger] current@[i] == Set::<int>::empty();
                assert(boards@.push(current).last()@[i] == Set::<int>::empty());
            }
            return Err(SudokuError::UnsolvableSudoku);
        }
        let mut next = current.clone();
        match apply_strategies(&mut next, strategies.as_slice()) {
            ControlFlow::Break(step) => {
                let ghost b = current@;
                let ghost boards0 = boards@;
                let ghost steps0 = steps@;
                proof {
                    SudokuBoard::lemma_view(current);
                    SudokuBoard::lemma_view(next);
                    if forall|i: int| 0 <= i < 81 ==> next@[i] == b[i] {
                        assert(next@ =~= b);
                    }
                    lemma_total_refines(next@, b, 81);
                    assert(strategies@.contains(step.0));
                }
                steps.push(step);
                boards.push(current);
                current = next;
                proof {
                    assert forall|j: int| 0 <= j < 81 implies (#[trigger] current@[j]).subset_of(start[j]) by {
                        assert(current@[j].subset_of(b[j]));
                    }
                    assert forall|sol: Seq<int>| is_solution(sol) && admits(start, sol) implies #[trigger] admits(current@, sol) by {
                        assert(admits(b, sol));
                    }
                    let bs = boards@.push(current);
                    assert(bs == boards0.push(boards@.last()).push(current));
                    assert forall|k: int| 0 <= k < steps@.len() implies {
                        &&& refines((#[trigger] bs[k + 1])@, bs[k]@)
                        &&& bs[k + 1]@ != bs[k]@
                        &&& steps@[k].0 != Strategy::Backtrack
                        &&& first_step(all_strategies().drop_last(), steps@[k].0, bs[k]@, bs[k + 1]@, steps@[k].1@)
                        &&& keeps_solutions(bs[k + 1]@, bs[k]@)
                        &&& exists|i: int| 0 <= i < 81 && #[trigger] bs[k]@[i].len() > 1
                        &&& forall|i: int| 0 <= i < 81 ==> #[trigger] bs[k]@[i] != Set::<int>::empty()
                    } by {
                        if k < steps0.len() {
                            assert(bs[k] == boards0.push(boards@.last())[k]);
                            assert(bs[k + 1] == boards0.push(boards@.last())[k + 1]);
                        } else {
                            assert(bs[k]@ == b);
                            assert(bs[k + 1]@ == current@);
                            let j = choose|j: int| 0 <= j < 81 && !(b[j].len() <= 1);
                            assert(bs[k]@[j].len() > 1);
                        }
                    }
                }
            },
            ControlFlow::Continue(()) => {
                break;
            },
        }
    }
    boards.push(current);
    let mut used: Vec<bool> = Vec::new();
    while used.len() < Strategy::COUNT
        invariant
            used@.len() <= Strategy::COUNT,
            forall|t: int| 0 <= t < used@.len() ==> !(#[trigger] used@[t]),
        decreases Strategy::COUNT - used@.len(),
    {
        used.push(false);
    }
    let mut k: usize = 0;
    while k < steps.len()
        invariant
            k <= steps@.len(),
            used@.len() == Strategy::COUNT,
            forall|t: int| 0 <= t < 15 ==> (#[trigger] used@[t] <==> exists|j: int| 0 <= j < k && (#[trigger] steps@[j]).0 == all_strategies()[t]),
        decreases steps@.len() - k,
    {
        let idx = steps[k].0.index();
        used[idx] = true;
        proof {
            assert forall|t: int| 0 <= t < 15 implies (#[trigger] used@[t] <==> exists|j: int| 0 <= j < k + 1 && (#[trigger] steps@[j]).0 == all_strategies()[t]) by {
                if t == idx {
                    assert(steps@[k as int].0 == all_strategies()[t]);
                } else if exists|j: int| 0 <= j < k + 1 && (#[trigger] steps@[j]).0 == all_strategies()[t] {
                    let j = choose|j: int| 0 <= j < k + 1 && (#[trigger] steps@[j]).0 == all_strategies()[t];
                    if j == k {
                        assert(all_strategies()[idx as int] == all_strategies()[t]);
                    }
                }
            }
        }
        k = k + 1;
    }
    let all = Strategy::iter();
    let mut used_list: Vec<Strategy> = Vec::new();
    let mut t: usize = 0;
    while t < all.len()
        invariant
            t <= all@.len(),
            all@ == all_strategies(),
            used@.len() == 15,
            forall|u: int| 0 <= u < 15 ==> (#[trigger] used@[u] <==> exists|j: int| 0 <= j < steps@.len() && (#[trigger] steps@[j]).0 == all_strategies()[u]),
            used_list@ == all_strategies().take(t as int).filter(|s: Strategy| exists|k: int| 0 <= k < steps@.len() && (#[trigger] steps@[k]).0 == s),
        decreases all@.len() - t,
    {
        proof {
            reveal(Seq::filter);
            assert(all_strategies().take(t + 1).drop_last() =~= all_strategies().take(t as int));
        }
        if used[t] {
            used_list.push(all[t]);
        }
        t = t + 1;
    }
    proof {
        assert(all_strategies().take(15) =~= all_strategies());
    }
    Ok(SolvedGame { boards, steps, strategies: used_list })
}

} // verus!
