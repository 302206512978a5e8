use std::ops::ControlFlow;

use vstd::prelude::*;

use crate::board::container::solved;
use crate::board::SudokuBoard;
use crate::flags::DigitFlags;
use crate::highlight::Highlight;
use crate::index::CellIndex;
use crate::index::cell_index::cell_of;
use crate::rules::{
    admits, candidate_total, is_solution, keeps_solutions, lemma_singletons_solved, lemma_total_refines, refines,
};

use super::{all_strategies, solve_with_strategies, strategy_run, without_backtrack, Strategy};

verus! {

/// Board `b` with cell `c` down to digit `d`.
pub open spec fn with_digit(b: Seq<Set<int>>, c: int, d: int) -> Seq<Set<int>> {
    b.update(c, Set::<int>::empty().insert(d))
}

/// Cell `c` is the first, in flat order, among the cells of `b` not down to one candidate, with
/// the fewest candidates.
pub open spec fn fewest_cell(b: Seq<Set<int>>, c: int) -> bool {
    &&& 0 <= c < 81
    &&& b[c].len() != 1
    &&& forall|i: int| 0 <= i < 81 && b[i].len() != 1 ==> b[c].len() <= #[trigger] b[i].len()
    &&& forall|i: int| 0 <= i < c && b[i].len() != 1 ==> b[c].len() < #[trigger] b[i].len()
}

/// The search from `b` goes on from board `m`, reached by a run of the strategies, at its cell
/// `c` with the fewest candidates, with candidate `d`: no larger candidate of `c` leads to a
/// filled grid.
pub open spec fn search_branch(strategies: Seq<Strategy>, b: Seq<Set<int>>, m: Seq<Set<int>>, c: int, d: int) -> bool {
    &&& exists|bs: Seq<Seq<Set<int>>>| #[trigger] strategy_run(strategies, b, bs) && bs.last() == m
    &&& fewest_cell(m, c)
    &&& m[c].contains(d)
    &&& forall|d2: int, sol: Seq<int>| m[c].contains(d2) && d < d2 && is_solution(sol) ==> !#[trigger] admits(with_digit(m, c, d2), sol)
}

/// The first cell, in flat order, among those not down to one candidate, with the fewest
/// candidates; `None` when every cell has one candidate.
fn fewest_candidates(board: &SudokuBoard) -> (r: Option<CellIndex>)
    ensures
        r matches Some(c) ==> {
            &&& board@[c@].len() != 1
            &&& forall|i: int| 0 <= i < 81 && board@[i].len() != 1 ==> board@[c@].len() <= #[trigger] board@[i].len()
            &&& forall|i: int| 0 <= i < c@ && board@[i].len() != 1 ==> board@[c@].len() < #[trigger] board@[i].len()
        },
        r is None ==> forall|i: int| 0 <= i < 81 ==> #[trigger] board@[i].len() == 1,
{
    let cells = board.indexed_iter();
    let mut best: Option<(CellIndex, usize)> = None;
    let mut i: usize = 0;
    while i < 81
        invariant
            i <= 81,
            cells@.len() == 81,
            forall|k: int| 0 <= k < 81 ==> (#[trigger] cells@[k]).0 == cell_of(k) && cells@[k].1@ == board@[k],
            best matches Some((c, n)) ==> {
                &&& 0 <= c@ < i
                &&& n == board@[c@].len()
                &&& board@[c@].len() != 1
                &&& forall|k: int| 0 <= k < i && board@[k].len() != 1 ==> n <= #[trigger] board@[k].len()
                &&& forall|k: int| 0 <= k < c@ && board@[k].len() != 1 ==> n < #[trigger] board@[k].len()
            },
            best is None ==> forall|k: int| 0 <= k < i ==> #[trigger] board@[k].len() == 1,
        decreases 81 - i,
    {
        let (idx, cell) = cells[i];
        proof {
            CellIndex::lemma_cell_of(i as int);
        }
        if !cell.is_digit() {
            let n = cell.num_digits();
            match best {
                None => {
                    best = Some((idx, n));
                },
                Some((_, m)) => {
                    if n < m {
                        best = Some((idx, n));
                    }
                },
            }
        }
        i = i + 1;
    }
    match best {
        Some((c, _)) => Some(c),
        None => None,
    }
}

/// Depth-first search from `board`: applies the strategies, then, on a board neither solved nor
/// broken, tries each candidate of the cell with the fewest, the largest digit first. Finds
/// nothing only when the board allows no filled grid; otherwise the solved board is the one that
/// the run of the strategies reaches, or one that the search finds from the branch of the
/// largest candidate that leads to a filled grid.
fn search(board: SudokuBoard, strategies: &Vec<Strategy>) -> (r: Option<SudokuBoard>)
    requires
        without_backtrack(strategies@),
    ensures
        r matches Some(s) ==> solved(s@) && refines(s@, board@),
        r matches Some(s) ==> (exists|bs: Seq<Seq<Set<int>>>| #[trigger] strategy_run(strategies@, board@, bs) && bs.last() == s@) || exists|
            m: Seq<Set<int>>,
            c: int,
            d: int,
        | #[trigger] search_branch(strategies@, board@, m, c, d) && refines(s@, with_digit(m, c, d)),
        r is None ==> forall|sol: Seq<int>| is_solution(sol) ==> !#[trigger] admits(board@, sol),
    decreases 1int, candidate_total(board@, 81),
{
    let ghost b0 = board@;
    let mut next = board;
    solve_with_strategies(&mut next, strategies.as_slice());
    if next.is_solved() {
        return Some(next);
    }
    if !next.is_valid() {
        proof {
            assert forall|sol: Seq<int>| is_solution(sol) implies !#[trigger] admits(b0, sol) by {
                if admits(b0, sol) {
                    assert(admits(next@, sol));
                    let i = choose|i: int| 0 <= i < 81 && #[trigger] next@[i] == Set::<int>::empty();
                    assert(next@[i].contains(sol[i]));
                }
            }
        }
        return None;
    }
    proof {
        SudokuBoard::lemma_view(next);
        SudokuBoard::lemma_view(board);
        lemma_total_refines(next@, b0, 81);
    }
    match fewest_candidates(&next) {
        None => {
            proof {
                assert forall|sol: Seq<int>| is_solution(sol) implies !#[trigger] admits(b0, sol) by {
                    if admits(b0, sol) {
                        assert(admits(next@, sol));
                        lemma_singletons_solved(next@, sol);
                    }
                }
            }
            None
        },
        Some(cell_idx) => {
            proof {
                CellIndex::lemma_flat(cell_idx);
            }
            let digits = next.get(cell_idx).digits();
            proof {
                crate::flags::lemma_ascending(next@[cell_idx@], 9);
                assert(next@[cell_idx@] != Set::<int>::empty());
                vstd::set_lib::lemma_set_empty_equivalency_len(next@[cell_idx@]);
            }
            proof {
                let asc = crate::flags::ascending(next@[cell_idx@], 9);
                assert(digits@.len() == asc.len()) by {
                    assert(digits@.map_values(|d: crate::index::DigitIndex| d@).len() == digits@.len());
                }
                assert forall|sol: Seq<int>| is_solution(sol) && #[trigger] admits(next@, sol) implies exists|t: int|
                    0 <= t < digits@.len() && asc[t] == sol[cell_idx@] by {
                    assert(next@[cell_idx@].contains(sol[cell_idx@]));
                    assert(asc.contains(sol[cell_idx@]));
                }
            }
            let mut k: usize = digits.len();
            while k > 0
                invariant
                    k <= digits@.len(),
                    digits@.map_values(|d: crate::index::DigitIndex| d@) == crate::flags::ascending(next@[cell_idx@], 9),
                    without_backtrack(strategies@),
                    b0 == board@,
                    refines(next@, b0),
                    candidate_total(next@, 81) <= candidate_total(b0, 81),
                    next@[cell_idx@].len() >= 2,
                    0 <= cell_idx@ < 81,
                    next@.len() == 81,
                    forall|i: int| 0 <= i < 81 ==> (#[trigger] next@[i]).finite(),
                    forall|t: int| 0 <= t < crate::flags::ascending(next@[cell_idx@], 9).len() ==> next@[cell_idx@].contains(
                        #[trigger] crate::flags::ascending(next@[cell_idx@], 9)[t],
                    ),
                    keeps_solutions(next@, b0),
                    forall|sol: Seq<int>| is_solution(sol) && #[trigger] admits(next@, sol) ==> exists|t: int|
                        0 <= t < k && crate::flags::ascending(next@[cell_idx@], 9)[t] == sol[cell_idx@],
                    exists|bs: Seq<Seq<Set<int>>>| #[trigger] strategy_run(strategies@, b0, bs) && bs.last() == next@,
                    fewest_cell(next@, cell_idx@ as int),
                    forall|t: int, sol: Seq<int>|
                        k <= t < crate::flags::ascending(next@[cell_idx@], 9).len() && is_solution(sol) ==> !#[trigger] admits(
                            with_digit(next@, cell_idx@ as int, crate::flags::ascending(next@[cell_idx@], 9)[t]),
                            sol,
                        ),
                decreases k,
            {
                k = k - 1;
                let mut child = next.clone();
                let d = digits[k];
                assert(next@[cell_idx@].contains(d@)) by {
                    assert(digits@.map_values(|x: crate::index::DigitIndex| x@)[k as int] == d@);
                }
                child.apply_mask(cell_idx, &DigitFlags::only(d));
                proof {
                    SudokuBoard::lemma_view(child);
                    assert(child@[cell_idx@] =~= Set::<int>::empty().insert(d@));
                    assert(child@[cell_idx@] != next@[cell_idx@]) by {
                        if child@[cell_idx@] == next@[cell_idx@] {
                            vstd::set::axiom_set_insert_finite(Set::<int>::empty(), d@);
                            assert(Set::<int>::empty().insert(d@).len() == 1);
                        }
                    }
                    assert(refines(child@, next@));
                    lemma_total_refines(child@, next@, 81);
                    assert(child@ =~= with_digit(next@, cell_idx@ as int, d@));
                }
                match search(child, strategies) {
                    Some(s) => {
                        proof {
                            assert forall|j: int| 0 <= j < 81 implies (#[trigger] s@[j]).subset_of(b0[j]) by {
                                assert(s@[j].subset_of(child@[j]));
                                assert(child@[j].subset_of(next@[j]));
                                assert(next@[j].subset_of(b0[j]));
                            }
                            let asc = crate::flags::ascending(next@[cell_idx@], 9);
                            assert(asc[k as int] == d@) by {
                                assert(digits@.map_values(|x: crate::index::DigitIndex| x@)[k as int] == d@);
                            }
                            crate::flags::lemma_ascending(next@[cell_idx@], 9);
                            assert forall|d2: int, sol: Seq<int>| next@[cell_idx@].contains(d2) && d@ < d2 && is_solution(sol) implies !#[trigger] admits(
                                with_digit(next@, cell_idx@ as int, d2),
                                sol,
                            ) by {
                                assert(0 <= d2 < 9) by {
                                    SudokuBoard::lemma_view(next);
                                    assert(crate::flags::full_set().contains(d2));
                                }
                                assert(asc.contains(d2));
                                let t = choose|t: int| 0 <= t < asc.len() && asc[t] == d2;
                                if t <= k {
                                    if t < k {
                                        assert(asc[t] < asc[k as int]);
                                    }
                                }
                            }
                            assert(search_branch(strategies@, b0, next@, cell_idx@ as int, d@));
                        }
                        return Some(s);
                    },
                    None => {
                        proof {
                            let asc = crate::flags::ascending(next@[cell_idx@], 9);
                            assert(asc[k as int] == d@) by {
                                assert(digits@.map_values(|x: crate::index::DigitIndex| x@)[k as int] == d@);
                            }
                            assert forall|sol: Seq<int>| is_solution(sol) && #[trigger] admits(next@, sol) implies exists|t: int|
                                0 <= t < k && asc[t] == sol[cell_idx@] by {
                                let t = choose|t: int| 0 <= t < k + 1 && asc[t] == sol[cell_idx@];
                                if t == k {
                                    assert(admits(child@, sol)) by {
                                        assert forall|i: int| 0 <= i < 81 implies #[trigger] child@[i].contains(sol[i]) by {
                                            if i != cell_idx@ {
                                                assert(next@[i].contains(sol[i]));
                                            }
                                        }
                                    }
                                }
                            }
                        }
                    },
                }
            }
            proof {
                assert forall|sol: Seq<int>| is_solution(sol) implies !#[trigger] admits(b0, sol) by {
                    if admits(b0, sol) {
                        assert(admits(next@, sol));
                    }
                }
            }
            None
        },
    }
}

/// Solves the board by depth-first search over the candidates, applying all other strategies at
/// each step, the largest candidate of a branching cell first:
/// breaks, with no highlight, once the board is replaced by a solved one; otherwise leaves it
/// as it was, which happens only when it allows no filled grid.
pub fn solve_backtrack(board: &mut SudokuBoard) -> (r: ControlFlow<Vec<Highlight>>)
    ensures
        r is Break ==> solved(final(board)@) && refines(final(board)@, old(board)@),
        r is Continue ==> final(board)@ == old(board)@,
        r is Continue ==> forall|sol: Seq<int>| is_solution(sol) ==> !#[trigger] admits(old(board)@, sol),
        r matches ControlFlow::Break(h) ==> h@.len() == 0,
        r is Break ==> (exists|bs: Seq<Seq<Set<int>>>| #[trigger] strategy_run(all_strategies().drop_last(), old(board)@, bs) && bs.last() == final(board)@)
            || exists|m: Seq<Set<int>>, c: int, d: int|
            #[trigger] search_branch(all_strategies().drop_last(), old(board)@, m, c, d) && refines(final(board)@, with_digit(m, c, d)),
    decreases 2int, 0int,
{
    let safe = Strategy::safe_strategies();
    let mut strategies: Vec<Strategy> = Vec::new();
    let mut k: usize = 0;
    while k < safe.len()
        invariant
            k <= safe@.len(),
            safe@ == all_strategies(),
            without_backtrack(strategies@),
            strategies@ == all_strategies().take(if k < 15 { k as int } else { 14 }),
        decreases safe@.len() - k,
    {
        if safe[k] != Strategy::Backtrack {
            strategies.push(safe[k]);
            assert(all_strategies().take(k + 1) =~= all_strategies().take(k as int).push(safe@[k as int]));
        }
        k = k + 1;
    }
    assert(all_strategies().take(14) =~= all_strategies().drop_last());
    match search(board.clone(), &strategies) {
        Some(s) => {
            *board = s;
            ControlFlow::Break(Vec::new())
        },
        None => ControlFlow::Continue(()),
    }
}

} // verus!
