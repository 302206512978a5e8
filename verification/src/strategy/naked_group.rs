use std::ops::ControlFlow;

use vstd::prelude::*;

use crate::board::container::{cut_to, house_number, lemma_all_houses, lemma_house_number_at, lemma_masked_cut, masked, refines_board};
use crate::board::SudokuBoard;
use crate::flags::{ascending, full_set, DigitFlags};
use crate::highlight::{group_marks, Highlight};
use crate::index::cell_index::cell_of;
use crate::index::region::{house_cells, in_house, lemma_house_cells};
use crate::index::{all_houses, CellIndex, HouseIndex, HouseRegion, SudokuIndex, SudokuRegion};
use crate::rules::{admits, hcell, is_solution, keeps_solutions, lemma_naked_group, refines};

use super::common::{
    group_highlights, house_cells_except, index_combinations, index_combinations_of, is_combination, lemma_combinations_ordered, lemma_lex_before_asymmetric,
    lex_before,
};

verus! {

/// Each cell at the listed positions of house `h` has between 2 and `n` candidates.
pub open spec fn naked_cells_open(b: Seq<Set<int>>, h: HouseIndex, n: int, pos: Seq<usize>) -> bool {
    forall|l: int| 0 <= l < pos.len() ==> 1 < #[trigger] b[hcell(h, pos[l] as int)].len() <= n
}

/// No cell of house `h` off the listed positions has a digit of `u`.
pub open spec fn naked_clear(b: Seq<Set<int>>, h: HouseIndex, u: Set<int>, pos: Seq<usize>) -> bool {
    forall|k: int| 0 <= k < 9 && !pos.contains(k as usize) ==> (#[trigger] b[hcell(h, k)]).disjoint(u)
}

/// No naked group of `n` cells with between 2 and `n` candidates each removes a candidate.
pub open spec fn naked_done(b: Seq<Set<int>>, n: int) -> bool {
    forall|h: HouseIndex, u: Set<int>, pos: Seq<usize>|
        #[trigger] naked_candidate(b, h, n, u, pos) && naked_cells_open(b, h, n, pos) ==> naked_clear(b, h, u, pos)
}

/// Cell `c` is a cell of house `h` at none of the listed positions.
pub open spec fn off_positions(h: HouseIndex, pos: Seq<usize>, c: CellIndex) -> bool {
    exists|k: int| 0 <= k < 9 && !pos.contains(k as usize) && #[trigger] house_cells(h)[k] == c
}

/// The naked group `u` at positions `pos` of house `h` removes a candidate.
pub open spec fn naked_applies(b: Seq<Set<int>>, h: HouseIndex, n: int, u: Set<int>, pos: Seq<usize>) -> bool {
    &&& naked_candidate(b, h, n, u, pos)
    &&& naked_cells_open(b, h, n, pos)
    &&& !naked_clear(b, h, u, pos)
}

/// The board after the naked group `u` at positions `pos` of house `h`: the house's other cells
/// lose the digits of `u`.
pub open spec fn after_naked(b: Seq<Set<int>>, h: HouseIndex, u: Set<int>, pos: Seq<usize>) -> Seq<Set<int>> {
    cut_to(b, full_set().difference(u), |c: CellIndex| off_positions(h, pos, c))
}

/// No naked group of `n` cells in a house before `h` (rows, columns, then blocks) removes a
/// candidate.
pub open spec fn naked_clear_before(b: Seq<Set<int>>, h: HouseIndex, n: int) -> bool {
    forall|h2: HouseIndex, u: Set<int>, pos: Seq<usize>|
        house_number(h2) < house_number(h) && #[trigger] naked_candidate(b, h2, n, u, pos) && naked_cells_open(b, h2, n, pos)
            ==> naked_clear(b, h2, u, pos)
}

/// No naked group of `n` cells in house `h` at positions that come before `pos` in
/// lexicographic order removes a candidate.
pub open spec fn naked_group_clear_before(b: Seq<Set<int>>, h: HouseIndex, n: int, pos: Seq<usize>) -> bool {
    forall|u: Set<int>, pos2: Seq<usize>|
        lex_before(pos2, pos) && #[trigger] naked_candidate(b, h, n, u, pos2) && naked_cells_open(b, h, n, pos2) ==> naked_clear(b, h, u, pos2)
}

/// The cells of house `h` at the listed positions, in order.
pub open spec fn cells_at(h: HouseIndex, pos: Seq<usize>) -> Seq<CellIndex> {
    Seq::new(pos.len(), |l: int| house_cells(h)[pos[l] as int])
}

/// The entries of `cand` at the indices `c`.
pub open spec fn entries_at(cand: Seq<usize>, c: Seq<usize>) -> Seq<usize> {
    Seq::new(c.len(), |l: int| cand[c[l] as int])
}

/// Finds, house by house, `n` cells with between 2 and `n` candidates whose candidates together
/// are only `n` digits, and removes those digits from the house's other cells. Within a house the
/// groups go by their positions in lexicographic order. Stops at the first group that removes
/// something; breaks only then, and otherwise no such group removes anything.
pub fn apply_naked_group(board: &mut SudokuBoard, n: usize) -> (r: ControlFlow<Vec<Highlight>>)
    requires
        1 < n < 9,
    ensures
        r is Break <==> final(board)@ != old(board)@,
        refines(final(board)@, old(board)@),
        keeps_solutions(final(board)@, old(board)@),
        r is Continue ==> naked_done(old(board)@, n as int),
        r matches ControlFlow::Break(hl) ==> exists|h: HouseIndex, u: Set<int>, pos: Seq<usize>|
            #[trigger] naked_applies(old(board)@, h, n as int, u, pos) && final(board)@ == after_naked(old(board)@, h, u, pos)
                && naked_clear_before(old(board)@, h, n as int) && naked_group_clear_before(old(board)@, h, n as int, pos) && hl@ == seq![
                Highlight::House(h),
            ] + group_marks(
                final(board)@,
                cells_at(h, pos),
                ascending(u, 9),
            ),
{
    let ghost b0 = board@;
    proof {
        SudokuBoard::lemma_view(*board);
    }
    let houses = HouseIndex::iter();
    let mut hi: usize = 0;
    while hi < 27
        invariant
            hi <= 27,
            1 < n < 9,
            houses@ == all_houses(),
            board@ == b0,
            old(board)@ == b0,
            b0.len() == 81,
            forall|i: int| 0 <= i < 81 ==> (#[trigger] b0[i]).subset_of(full_set()),
            forall|h: HouseIndex, u: Set<int>, pos: Seq<usize>|
                house_number(h) < hi && #[trigger] naked_candidate(b0, h, n as int, u, pos) && naked_cells_open(b0, h, n as int, pos)
                    ==> naked_clear(b0, h, u, pos),
        decreases 27 - hi,
    {
        let house = houses[hi];
        proof {
            lemma_house_cells(house);
        }
        let cells = board.region(&house);
        let mut cand: Vec<usize> = Vec::new();
        let mut k: usize = 0;
        while k < 9
            invariant
                k <= 9,
                cells@.len() == 9,
                forall|j: int| 0 <= j < 9 ==> (#[trigger] cells@[j])@ == b0[hcell(house, j)],
                forall|j: int| 0 <= j < cand@.len() ==> #[trigger] cand@[j] < k,
                forall|i: int, j: int| 0 <= i < j < cand@.len() ==> cand@[i] < cand@[j],
                forall|j: int| 0 <= j < k && 1 < #[trigger] b0[hcell(house, j)].len() <= n ==> cand@.contains(j as usize),
                forall|j: int| 0 <= j < cand@.len() ==> 1 < #[trigger] b0[hcell(house, cand@[j] as int)].len() <= n,
                cand@.len() <= k,
            decreases 9 - k,
        {
            let nd = cells[k].num_digits();
            let ghost before = cand@;
            if nd > 1 && nd <= n {
                cand.push(k);
            }
            assert forall|j: int| 0 <= j < k + 1 && 1 < #[trigger] b0[hcell(house, j)].len() <= n implies cand@.contains(j as usize) by {
                if j < k {
                    assert(before.contains(j as usize));
                    let t = choose|t: int| 0 <= t < before.len() && before[t] == j as usize;
                    assert(cand@[t] == j as usize);
                } else {
                    assert(cand@[cand@.len() - 1] == j as usize);
                }
            }
            k = k + 1;
        }
        let combos = index_combinations_of(cand.len(), n);
        let mut groups: Vec<(DigitFlags, Vec<usize>)> = Vec::new();
        let ghost mut origin: Seq<int> = Seq::empty();
        proof {
            lemma_combinations_ordered(0, cand@.len() as nat, n as nat);
        }
        let mut ci: usize = 0;
        while ci < combos.len()
            invariant
                ci <= combos@.len(),
                board@ == b0,
                forall|i: int| 0 <= i < combos@.len() ==> is_combination(#[trigger] combos@[i]@, cand@.len() as nat, n as nat),
                forall|j: int| 0 <= j < cand@.len() ==> #[trigger] cand@[j] < 9,
                forall|i: int, j: int| 0 <= i < j < cand@.len() ==> cand@[i] < cand@[j],
                forall|j: int| 0 <= j < cand@.len() ==> 1 < #[trigger] b0[hcell(house, cand@[j] as int)].len() <= n,
                forall|g: int| 0 <= g < groups@.len() ==> naked_candidate(b0, house, n as int, (#[trigger] groups@[g]).0@, groups@[g].1@),
                forall|g: int| 0 <= g < groups@.len() ==> naked_cells_open(b0, house, n as int, (#[trigger] groups@[g]).1@),
                cand@.len() <= 9,
                forall|j: int| 0 <= j < 9 && 1 < #[trigger] b0[hcell(house, j)].len() <= n ==> cand@.contains(j as usize),
                forall|c: Seq<usize>| is_combination(c, cand@.len() as nat, n as nat) ==> exists|i: int| 0 <= i < combos@.len() && #[trigger] combos@[i]@ == c,
                forall|t: int, u: Set<int>| 0 <= t < ci && #[trigger] naked_candidate(b0, house, n as int, u, entries_at(cand@, combos@[t]@))
                    ==> exists|g: int| 0 <= g < groups@.len() && (#[trigger] groups@[g]).1@ == entries_at(cand@, combos@[t]@) && groups@[g].0@ == u,
                combos@.map_values(|c: Vec<usize>| c@) == index_combinations(cand@.len() as nat, n as nat),
                forall|t1: int, t2: int|
                    0 <= t1 < t2 < index_combinations(cand@.len() as nat, n as nat).len() ==> lex_before(
                        #[trigger] index_combinations(cand@.len() as nat, n as nat)[t1],
                        #[trigger] index_combinations(cand@.len() as nat, n as nat)[t2],
                    ),
                origin.len() == groups@.len(),
                forall|g: int| 0 <= g < groups@.len() ==> 0 <= #[trigger] origin[g] < ci && groups@[g].1@ == entries_at(cand@, combos@[origin[g]]@),
                forall|g1: int, g2: int| 0 <= g1 < g2 < groups@.len() ==> lex_before((#[trigger] groups@[g1]).1@, (#[trigger] groups@[g2]).1@),
            decreases combos@.len() - ci,
        {
            let combo = &combos[ci];
            assert(is_combination(combo@, cand@.len() as nat, n as nat));
            let mut pos: Vec<usize> = Vec::new();
            let mut j: usize = 0;
            while j < combo.len()
                invariant
                    j <= combo@.len(),
                    is_combination(combo@, cand@.len() as nat, n as nat),
                    forall|l: int| 0 <= l < cand@.len() ==> #[trigger] cand@[l] < 9,
                    forall|a: int, b: int| 0 <= a < b < cand@.len() ==> cand@[a] < cand@[b],
                    pos@.len() == j,
                    forall|l: int| 0 <= l < j ==> #[trigger] pos@[l] == cand@[combo@[l] as int],
                decreases combo@.len() - j,
            {
                pos.push(cand[combo[j]]);
                j = j + 1;
            }
            let group_cells = positions_to_cells(house, &pos);
            let digits = board.digits_of(&group_cells);
            let cnt = digits.count();
            let ghost before = groups@;
            if cnt == n {
                proof {
                    digits.lemma_view();
                    assert forall|l: int| 0 <= l < pos@.len() implies #[trigger] pos@[l] < 9 by {
                        assert(combo@[l] < cand@.len());
                    }
                    assert forall|a: int, b: int| 0 <= a < b < pos@.len() implies pos@[a] < pos@[b] by {
                        assert(combo@[a] < combo@[b]);
                    }
                    assert forall|d: int| digits@.contains(d) <==> exists|l: int| 0 <= l < pos@.len() && #[trigger] b0[hcell(house, pos@[l] as int)].contains(d) by {
                        if digits@.contains(d) {
                            let l = choose|l: int| 0 <= l < group_cells@.len() && #[trigger] b0[group_cells@[l]@].contains(d);
                            assert(b0[hcell(house, pos@[l] as int)].contains(d));
                        }
                        if exists|l: int| 0 <= l < pos@.len() && #[trigger] b0[hcell(house, pos@[l] as int)].contains(d) {
                            let l = choose|l: int| 0 <= l < pos@.len() && #[trigger] b0[hcell(house, pos@[l] as int)].contains(d);
                            assert(b0[group_cells@[l]@].contains(d));
                        }
                    }
                }
                assert(naked_candidate(b0, house, n as int, digits@, pos@));
                assert forall|l: int| 0 <= l < pos@.len() implies 1 < #[trigger] b0[hcell(house, pos@[l] as int)].len() <= n by {
                    assert(combo@[l] < cand@.len());
                }
                groups.push((digits, pos));
                proof {
                    origin = origin.push(ci as int);
                    assert(pos@ =~= entries_at(cand@, combo@));
                    assert forall|g1: int, g2: int| 0 <= g1 < g2 < groups@.len() implies lex_before(
                        (#[trigger] groups@[g1]).1@,
                        (#[trigger] groups@[g2]).1@,
                    ) by {
                        if g2 == groups@.len() - 1 {
                            assert(groups@[g1] == before[g1]);
                            let t = origin[g1];
                            assert(combos@[t]@ == index_combinations(cand@.len() as nat, n as nat)[t]);
                            assert(combo@ == index_combinations(cand@.len() as nat, n as nat)[ci as int]);
                            assert(is_combination(combos@[t]@, cand@.len() as nat, n as nat));
                            lemma_entries_lex(cand@, combos@[t]@, combo@);
                        } else {
                            assert(groups@[g1] == before[g1]);
                            assert(groups@[g2] == before[g2]);
                        }
                    }
                    assert forall|g: int| 0 <= g < groups@.len() implies 0 <= #[trigger] origin[g] < ci + 1 && groups@[g].1@ == entries_at(
                        cand@,
                        combos@[origin[g]]@,
                    ) by {
                        if g < before.len() {
                            assert(groups@[g] == before[g]);
                        }
                    }
                }
            }
            proof {
                assert(pos@ =~= entries_at(cand@, combo@));
                assert forall|t: int, u: Set<int>| 0 <= t < ci + 1 && #[trigger] naked_candidate(b0, house, n as int, u, entries_at(cand@, combos@[t]@))
                    implies exists|g: int| 0 <= g < groups@.len() && (#[trigger] groups@[g]).1@ == entries_at(cand@, combos@[t]@) && groups@[g].0@ == u by {
                    if t == ci {
                        assert(digits@ =~= u) by {
                            assert forall|d: int| digits@.contains(d) <==> u.contains(d) by {
                                if digits@.contains(d) {
                                    let l = choose|l: int| 0 <= l < group_cells@.len() && #[trigger] b0[group_cells@[l]@].contains(d);
                                    assert(b0[hcell(house, pos@[l] as int)].contains(d));
                                }
                                if u.contains(d) {
                                    let l = choose|l: int| 0 <= l < pos@.len() && #[trigger] b0[hcell(house, pos@[l] as int)].contains(d);
                                    assert(b0[group_cells@[l]@].contains(d));
                                }
                            }
                        }
                        assert(cnt == n);
                        assert(groups@[groups@.len() - 1].1@ == pos@);
                    } else {
                        let g = choose|g: int| 0 <= g < before.len() && (#[trigger] before[g]).1@ == entries_at(cand@, combos@[t]@) && before[g].0@ == u;
                        assert(groups@[g] == before[g]);
                    }
                }
            }
            ci = ci + 1;
        }
        let mut gi: usize = 0;
        while gi < groups.len()
            invariant
                gi <= groups@.len(),
                board@ == b0,
                old(board)@ == b0,
                b0.len() == 81,
                forall|g: int| 0 <= g < groups@.len() ==> naked_candidate(b0, house, n as int, (#[trigger] groups@[g]).0@, groups@[g].1@),
                forall|g: int| 0 <= g < groups@.len() ==> naked_cells_open(b0, house, n as int, (#[trigger] groups@[g]).1@),
                cand@.len() <= 9,
                forall|j: int| 0 <= j < 9 && 1 < #[trigger] b0[hcell(house, j)].len() <= n ==> cand@.contains(j as usize),
                forall|c: Seq<usize>| is_combination(c, cand@.len() as nat, n as nat) ==> exists|i: int| 0 <= i < combos@.len() && #[trigger] combos@[i]@ == c,
                forall|i: int, j: int| 0 <= i < j < cand@.len() ==> cand@[i] < cand@[j],
                forall|t: int, u: Set<int>| 0 <= t < combos@.len() && #[trigger] naked_candidate(b0, house, n as int, u, entries_at(cand@, combos@[t]@))
                    ==> exists|g: int| 0 <= g < groups@.len() && (#[trigger] groups@[g]).1@ == entries_at(cand@, combos@[t]@) && groups@[g].0@ == u,
                forall|g: int| 0 <= g < gi ==> naked_clear(b0, house, (#[trigger] groups@[g]).0@, groups@[g].1@),
                forall|g1: int, g2: int| 0 <= g1 < g2 < groups@.len() ==> lex_before((#[trigger] groups@[g1]).1@, (#[trigger] groups@[g2]).1@),
                hi < 27,
                house == all_houses()[hi as int],
                forall|i: int| 0 <= i < 81 ==> (#[trigger] b0[i]).subset_of(full_set()),
                forall|h: HouseIndex, u: Set<int>, pos: Seq<usize>|
                    house_number(h) < hi && #[trigger] naked_candidate(b0, h, n as int, u, pos) && naked_cells_open(b0, h, n as int, pos)
                        ==> naked_clear(b0, h, u, pos),
            decreases groups@.len() - gi,
        {
            let digits = groups[gi].0;
            let indices = positions_to_cells(house, &groups[gi].1);
            let mask = digits.complement();
            let targets = house_cells_except(house, &indices);
            let changed = board.apply_mask_cells(&targets, &mask);
            proof {
                if !changed {
                    lemma_house_cells(house);
                    let pos = groups@[gi as int].1@;
                    assert forall|k: int| 0 <= k < 9 && !pos.contains(k as usize) implies (#[trigger] b0[hcell(house, k)]).disjoint(digits@) by {
                        let x = house_cells(house)[k];
                        CellIndex::lemma_flat(x);
                        if indices@.contains(x) {
                            let l = choose|l: int| 0 <= l < indices@.len() && indices@[l] == x;
                            assert(house_cells(house)[pos[l] as int] == x);
                            assert(pos[l] as int == k);
                            assert(pos.contains(k as usize));
                        }
                        assert(targets@.contains(x));
                        assert(masked(b0, targets@, mask@)[x@] == b0[x@]);
                        SudokuBoard::lemma_view(*board);
                    }
                }
            }
            if changed {
                proof {
                    let pos = groups@[gi as int].1@;
                    assert(naked_candidate(b0, house, n as int, groups@[gi as int].0@, pos));
                    lemma_naked_step_sound(b0, house, n as int, digits@, pos, indices@, targets@);
                    lemma_house_cells(house);
                    assert forall|c: CellIndex| targets@.contains(c) <==> #[trigger] off_positions(house, pos, c) by {
                        if targets@.contains(c) {
                            assert(house_cells(house).contains(c));
                            let k = choose|k: int| 0 <= k < 9 && house_cells(house)[k] == c;
                            if pos.contains(k as usize) {
                                let l = choose|l: int| 0 <= l < pos.len() && pos[l] == k as usize;
                                assert(indices@[l] == c);
                            }
                            assert(house_cells(house)[k] == c);
                        }
                        if off_positions(house, pos, c) {
                            let k = choose|k: int| 0 <= k < 9 && !pos.contains(k as usize) && #[trigger] house_cells(house)[k] == c;
                            if indices@.contains(c) {
                                let l = choose|l: int| 0 <= l < indices@.len() && indices@[l] == c;
                                assert(house_cells(house)[pos[l] as int] == c);
                                assert(pos[l] as int == k);
                            }
                        }
                    }
                    lemma_masked_cut(b0, targets@, full_set().difference(digits@), |c: CellIndex| off_positions(house, pos, c));
                    let c = choose|c: CellIndex| #[trigger] off_positions(house, pos, c) && !b0[c@].subset_of(full_set().difference(digits@));
                    let k = choose|k: int| 0 <= k < 9 && !pos.contains(k as usize) && #[trigger] house_cells(house)[k] == c;
                    CellIndex::lemma_flat(c);
                    lemma_house_number_at(hi as int);
                    assert(!b0[hcell(house, k)].disjoint(digits@));
                    assert(naked_applies(b0, house, n as int, digits@, pos));
                    assert(naked_clear_before(b0, house, n as int));
                    assert(indices@ =~= cells_at(house, pos));
                    assert forall|u: Set<int>, pos2: Seq<usize>|
                        lex_before(pos2, pos) && #[trigger] naked_candidate(b0, house, n as int, u, pos2) && naked_cells_open(b0, house, n as int, pos2)
                            implies naked_clear(b0, house, u, pos2) by {
                        assert forall|l: int| 0 <= l < pos2.len() implies cand@.contains(#[trigger] pos2[l]) by {
                            assert(1 < b0[hcell(house, pos2[l] as int)].len() <= n);
                            assert(cand@.contains((pos2[l] as int) as usize));
                        }
                        lemma_naked_combination(cand@, pos2, n as int);
                        let c = choose|c: Seq<usize>| is_combination(c, cand@.len() as nat, n as nat) && entries_at(cand@, c) == pos2;
                        let t = choose|t: int| 0 <= t < combos@.len() && #[trigger] combos@[t]@ == c;
                        let g = choose|g: int| 0 <= g < groups@.len() && (#[trigger] groups@[g]).1@ == entries_at(cand@, combos@[t]@) && groups@[g].0@ == u;
                        lemma_lex_before_asymmetric(pos2, pos);
                        if g > gi {
                            assert(lex_before(groups@[gi as int].1@, groups@[g].1@));
                        }
                        assert(g < gi);
                    }
                    assert(naked_group_clear_before(b0, house, n as int, pos));
                }
                let highlights = group_highlights(board, house, &digits.iter(), &indices);
                return ControlFlow::Break(highlights);
            }
            gi = gi + 1;
        }
        proof {
            assert(house == all_houses()[hi as int]);
            assert forall|u: Set<int>, pos: Seq<usize>|
                #[trigger] naked_candidate(b0, house, n as int, u, pos) && naked_cells_open(b0, house, n as int, pos) implies naked_clear(b0, house, u, pos) by {
                assert forall|l: int| 0 <= l < pos.len() implies cand@.contains(#[trigger] pos[l]) by {
                    assert(1 < b0[hcell(house, pos[l] as int)].len() <= n);
                    assert(cand@.contains((pos[l] as int) as usize));
                }
                lemma_naked_combination(cand@, pos, n as int);
                let c = choose|c: Seq<usize>| is_combination(c, cand@.len() as nat, n as nat) && entries_at(cand@, c) == pos;
                let t = choose|t: int| 0 <= t < combos@.len() && #[trigger] combos@[t]@ == c;
                let g = choose|g: int| 0 <= g < groups@.len() && (#[trigger] groups@[g]).1@ == entries_at(cand@, combos@[t]@) && groups@[g].0@ == u;
            }
        }
        hi = hi + 1;
    }
    proof {
        assert forall|h: HouseIndex, u: Set<int>, pos: Seq<usize>|
            #[trigger] naked_candidate(b0, h, n as int, u, pos) && naked_cells_open(b0, h, n as int, pos) implies naked_clear(b0, h, u, pos) by {
            lemma_all_houses(h);
        }
    }
    ControlFlow::Continue(())
}

/// Through an increasing list `cand`, indices in lexicographic order give entries in
/// lexicographic order.
proof fn lemma_entries_lex(cand: Seq<usize>, c: Seq<usize>, e: Seq<usize>)
    requires
        forall|a: int, b: int| 0 <= a < b < cand.len() ==> cand[a] < cand[b],
        forall|j: int| 0 <= j < c.len() ==> #[trigger] c[j] < cand.len(),
        forall|j: int| 0 <= j < e.len() ==> #[trigger] e[j] < cand.len(),
        lex_before(c, e),
    ensures
        lex_before(entries_at(cand, c), entries_at(cand, e)),
{
    let i = choose|i: int| 0 <= i < c.len() && i < e.len() && (forall|j: int| 0 <= j < i ==> c[j] == e[j]) && #[trigger] c[i] < e[i];
    let ec = entries_at(cand, c);
    let ee = entries_at(cand, e);
    assert(ec[i] < ee[i]);
    assert(forall|j: int| 0 <= j < i ==> ec[j] == ee[j]);
}

/// Increasing positions that all lie in the increasing list `cand` are the entries of `cand`
/// at some combination of its indices.
proof fn lemma_naked_combination(cand: Seq<usize>, pos: Seq<usize>, n: int)
    requires
        0 <= n,
        pos.len() == n,
        cand.len() <= 9,
        forall|a: int, b: int| 0 <= a < b < cand.len() ==> cand[a] < cand[b],
        forall|a: int, b: int| 0 <= a < b < pos.len() ==> pos[a] < pos[b],
        forall|l: int| 0 <= l < pos.len() ==> cand.contains(#[trigger] pos[l]),
    ensures
        exists|c: Seq<usize>| is_combination(c, cand.len() as nat, n as nat) && entries_at(cand, c) == pos,
{
    let c = Seq::new(n as nat, |l: int| (choose|j: int| 0 <= j < cand.len() && cand[j] == pos[l]) as usize);
    assert forall|l: int| 0 <= l < n implies #[trigger] c[l] < cand.len() && cand[c[l] as int] == pos[l] by {
        assert(cand.contains(pos[l]));
        let j = choose|j: int| 0 <= j < cand.len() && cand[j] == pos[l];
        assert(c[l] == j as usize);
    }
    assert forall|a: int, b: int| 0 <= a < b < n implies c[a] < c[b] by {
        assert(cand[c[a] as int] == pos[a]);
        assert(cand[c[b] as int] == pos[b]);
        if c[a] >= c[b] {
            if c[a] > c[b] {
                assert(cand[c[b] as int] < cand[c[a] as int]);
            }
        }
    }
    assert(entries_at(cand, c) =~= pos);
}

/// A naked group of house `h`: `n` distinct positions, listed increasingly, whose cells have only
/// the candidates `u`, a set of `n` digits.
pub open spec fn naked_candidate(b: Seq<Set<int>>, h: HouseIndex, n: int, u: Set<int>, pos: Seq<usize>) -> bool {
    &&& u.finite()
    &&& u.len() == n
    &&& pos.len() == n
    &&& forall|l: int| 0 <= l < pos.len() ==> #[trigger] pos[l] < 9
    &&& forall|a: int, c: int| 0 <= a < c < pos.len() ==> pos[a] < pos[c]
    &&& forall|d: int| u.contains(d) <==> exists|l: int| 0 <= l < pos.len() && #[trigger] b[hcell(h, pos[l] as int)].contains(d)
}

/// The cells at the given positions of a house.
fn positions_to_cells(house: HouseIndex, pos: &Vec<usize>) -> (r: Vec<CellIndex>)
    requires
        forall|l: int| 0 <= l < pos@.len() ==> #[trigger] pos@[l] < 9,
    ensures
        r@.len() == pos@.len(),
        forall|l: int| 0 <= l < r@.len() ==> #[trigger] r@[l] == house_cells(house)[pos@[l] as int],
{
    let mut r: Vec<CellIndex> = Vec::new();
    let mut i: usize = 0;
    while i < pos.len()
        invariant
            i <= pos@.len(),
            forall|l: int| 0 <= l < pos@.len() ==> #[trigger] pos@[l] < 9,
            r@.len() == i,
            forall|l: int| 0 <= l < i ==> #[trigger] r@[l] == house_cells(house)[pos@[l] as int],
        decreases pos@.len() - i,
    {
        r.push(house.get(SudokuIndex::from_value(pos[i])));
        i = i + 1;
    }
    r
}

/// Removing a naked group's digits from the rest of its house keeps every solution.
proof fn lemma_naked_step_sound(
    b0: Seq<Set<int>>,
    house: HouseIndex,
    n: int,
    u: Set<int>,
    pos: Seq<usize>,
    group: Seq<CellIndex>,
    targets: Seq<CellIndex>,
)
    requires
        b0.len() == 81,
        naked_candidate(b0, house, n, u, pos),
        group.len() == pos.len(),
        forall|l: int| 0 <= l < group.len() ==> #[trigger] group[l] == house_cells(house)[pos[l] as int],
        forall|c: CellIndex| targets.contains(c) <==> (in_house(house, c) && !group.contains(c)),
    ensures
        keeps_solutions(masked(b0, targets, full_set().difference(u)), b0),
        refines(masked(b0, targets, full_set().difference(u)), b0),
{
    lemma_house_cells(house);
    let c = Set::new(|k: int| exists|l: int| 0 <= l < pos.len() && pos[l] as int == k);
    let pos_int = pos.map_values(|x: usize| x as int);
    assert(pos_int.no_duplicates()) by {
        assert forall|a: int, b: int| 0 <= a < pos_int.len() && 0 <= b < pos_int.len() && a != b implies pos_int[a] != pos_int[b] by {
            if a < b {
                assert(pos[a] < pos[b]);
            } else {
                assert(pos[b] < pos[a]);
            }
        }
    }
    pos_int.unique_seq_to_set();
    assert(c =~= pos_int.to_set()) by {
        assert forall|k: int| c.contains(k) implies pos_int.to_set().contains(k) by {
            let l = choose|l: int| 0 <= l < pos.len() && pos[l] as int == k;
            assert(pos_int[l] == k);
        }
        assert forall|k: int| pos_int.to_set().contains(k) implies c.contains(k) by {
            let l = choose|l: int| 0 <= l < pos_int.len() && pos_int[l] == k;
        }
    }
    assert forall|sol: Seq<int>| is_solution(sol) && admits(b0, sol) implies #[trigger] admits(masked(b0, targets, full_set().difference(u)), sol) by {
        assert forall|k: int| c.contains(k) implies u.contains(#[trigger] sol[hcell(house, k)]) by {
            let l = choose|l: int| 0 <= l < pos.len() && pos[l] as int == k;
            CellIndex::lemma_flat(house_cells(house)[k]);
            assert(b0[hcell(house, pos[l] as int)].contains(sol[hcell(house, k)]));
        }
        assert(c.subset_of(crate::rules::positions())) by {
            assert forall|k: int| c.contains(k) implies crate::rules::positions().contains(k) by {
                let l = choose|l: int| 0 <= l < pos.len() && pos[l] as int == k;
            }
        }
        lemma_naked_group(sol, house, c, u);
        assert forall|i: int| 0 <= i < 81 implies #[trigger] masked(b0, targets, full_set().difference(u))[i].contains(sol[i]) by {
            let x = cell_of(i);
            CellIndex::lemma_cell_of(i);
            if targets.contains(x) {
                assert(in_house(house, x));
                assert(house_cells(house).contains(x));
                let k = choose|k: int| 0 <= k < 9 && house_cells(house)[k] == x;
                assert(hcell(house, k) == i);
                if c.contains(k) {
                    let l = choose|l: int| 0 <= l < pos.len() && pos[l] as int == k;
                    assert(group[l] == x);
                }
                assert(!c.contains(k));
                assert(!u.contains(sol[i]));
                assert(0 <= sol[i] < 9);
            }
        }
    }
}

} // verus!
