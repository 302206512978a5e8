use std::ops::ControlFlow;

use vstd::prelude::*;

use crate::board::container::{lemma_masked_digit, masked, positions_with, refines_board, without_digit};
use crate::board::SudokuBoard;
use crate::flags::{ascending, full_set, DigitFlags, SudokuFlags};
use crate::highlight::Highlight;
use crate::index::cell_index::{cell_of, line_through, sees};
use crate::index::region::{house_cells, in_house, lemma_house_cells};
use crate::index::{line_of, CellIndex, ColumnIndex, DigitIndex, HouseIndex, HouseRegion, LineDirection, RowIndex, SudokuIndex, SudokuRegion};
use crate::rules::{admits, hcell, is_solution, keeps_solutions, lemma_house_holds_digit, position_of, refines};

use super::common::{index_combinations, index_combinations_of, is_combination, lemma_combinations_ordered, lex_before};

verus! {

/// The direction perpendicular to `dir`.
pub open spec fn perpendicular(dir: LineDirection) -> LineDirection {
    match dir {
        LineDirection::Vertical => LineDirection::Horizontal,
        LineDirection::Horizontal => LineDirection::Vertical,
    }
}

/// The number of a line among the lines of its direction.
pub open spec fn line_number(h: HouseIndex) -> int {
    match h {
        HouseIndex::Row(r) => r@,
        HouseIndex::Column(c) => c@,
        HouseIndex::Block(b) => b@,
    }
}

/// The cells that an X-Wing on lines `h0`, `h1` of direction `dir`, at positions `a`, clears:
/// the cells of the crossing lines at those positions, off `h0` and `h1`.
pub open spec fn xwing_targets(dir: LineDirection, h0: HouseIndex, h1: HouseIndex, a: Set<int>, y: CellIndex) -> bool {
    &&& exists|i: int| a.contains(i) && #[trigger] in_house(line_of(perpendicular(dir), i), y)
    &&& !in_house(h0, y)
    &&& !in_house(h1, y)
}

/// Lines `i0 < i1` of direction `dir` have digit `d` at the same two positions.
pub open spec fn xwing_pattern(b: Seq<Set<int>>, d: int, dir: LineDirection, i0: int, i1: int) -> bool {
    &&& 0 <= i0 < i1 < 9
    &&& positions_with(b, line_of(dir, i0), d).len() == 2
    &&& positions_with(b, line_of(dir, i0), d) == positions_with(b, line_of(dir, i1), d)
}

/// No cell that the X-Wing on lines `h0`, `h1` clears has digit `d`.
pub open spec fn xwing_clear(b: Seq<Set<int>>, d: int, dir: LineDirection, h0: HouseIndex, h1: HouseIndex) -> bool {
    forall|y: CellIndex| #[trigger] xwing_targets(dir, h0, h1, positions_with(b, h0, d), y) ==> !b[y@].contains(d)
}

/// No X-Wing step removes a candidate.
pub open spec fn xwing_done(b: Seq<Set<int>>) -> bool {
    forall|d: int, dir: LineDirection, i0: int, i1: int|
        0 <= d < 9 && #[trigger] xwing_pattern(b, d, dir, i0, i1) ==> xwing_clear(b, d, dir, line_of(dir, i0), line_of(dir, i1))
}

/// The X-Wing of digit `d` on lines `i0`, `i1` of direction `dir` removes a candidate.
pub open spec fn xwing_applies(b: Seq<Set<int>>, d: int, dir: LineDirection, i0: int, i1: int) -> bool {
    &&& 0 <= d < 9
    &&& xwing_pattern(b, d, dir, i0, i1)
    &&& !xwing_clear(b, d, dir, line_of(dir, i0), line_of(dir, i1))
}

/// The board after the X-Wing of digit `d` on lines `i0`, `i1` of direction `dir`.
pub open spec fn after_xwing(b: Seq<Set<int>>, d: int, dir: LineDirection, i0: int, i1: int) -> Seq<Set<int>> {
    without_digit(b, d, |y: CellIndex| xwing_targets(dir, line_of(dir, i0), line_of(dir, i1), positions_with(b, line_of(dir, i0), d), y))
}

/// No X-Wing of a digit below `d`, nor of digit `d` on columns when `dir` is the rows, removes a
/// candidate (digits in order, and for each digit the columns before the rows).
pub open spec fn xwings_clear_before(b: Seq<Set<int>>, d: int, dir: LineDirection) -> bool {
    forall|e: int, dir2: LineDirection, i0: int, i1: int|
        (0 <= e < d || (e == d && dir == LineDirection::Horizontal && dir2 == LineDirection::Vertical)) && #[trigger] xwing_pattern(
            b,
            e,
            dir2,
            i0,
            i1,
        ) ==> xwing_clear(b, e, dir2, line_of(dir2, i0), line_of(dir2, i1))
}

/// No X-Wing of digit `d` on lines of direction `dir` whose pair of line numbers comes before
/// `(i0, i1)` (by the first line, then by the second) removes a candidate.
pub open spec fn xwing_pairs_clear_before(b: Seq<Set<int>>, d: int, dir: LineDirection, i0: int, i1: int) -> bool {
    forall|j0: int, j1: int|
        (j0 < i0 || (j0 == i0 && j1 < i1)) && #[trigger] xwing_pattern(b, d, dir, j0, j1) ==> xwing_clear(
            b,
            d,
            dir,
            line_of(dir, j0),
            line_of(dir, j1),
        )
}

/// For each position of `ps` in turn, the crossing lines of direction `perp` through the cells of
/// `h0` and `h1` at that position, then the digit in those two cells.
pub open spec fn xwing_marks(h0: HouseIndex, h1: HouseIndex, ps: Seq<int>, perp: LineDirection, d: int) -> Seq<Highlight>
    decreases ps.len(),
{
    if ps.len() == 0 {
        Seq::empty()
    } else {
        let p = ps.last();
        xwing_marks(h0, h1, ps.drop_last(), perp, d) + seq![
            Highlight::House(line_through(house_cells(h0)[p], perp)),
            Highlight::House(line_through(house_cells(h1)[p], perp)),
            Highlight::Digit((house_cells(h0)[p], DigitIndex::from_int(d))),
            Highlight::Digit((house_cells(h1)[p], DigitIndex::from_int(d))),
        ]
    }
}

/// The number of the line of `dir` numbered `i` is `i`.
proof fn lemma_line_number(dir: LineDirection, i: int)
    requires
        0 <= i < 9,
    ensures
        line_number(line_of(dir, i)) == i,
{
    RowIndex::lemma_from_int(i);
    ColumnIndex::lemma_from_int(i);
}

/// X-Wing: when a digit's candidates on two parallel lines sit at the same two positions, the
/// digit is removed from the crossing lines at those positions, off the two lines. Digits go in
/// order, for each digit the columns before the rows, and for each the pairs of lines by the
/// first line, then by the second. Stops at the first pair of lines for which this removes
/// something; breaks only then, and otherwise no X-Wing removes anything.
pub fn apply_xwing(board: &mut SudokuBoard) -> (r: ControlFlow<Vec<Highlight>>)
    ensures
        r is Break <==> final(board)@ != old(board)@,
        refines(final(board)@, old(board)@),
        keeps_solutions(final(board)@, old(board)@),
        r is Continue ==> xwing_done(old(board)@),
        r matches ControlFlow::Break(hl) ==> exists|d: int, dir: LineDirection, i0: int, i1: int|
            #[trigger] xwing_applies(old(board)@, d, dir, i0, i1) && final(board)@ == after_xwing(old(board)@, d, dir, i0, i1)
                && xwings_clear_before(old(board)@, d, dir) && xwing_pairs_clear_before(old(board)@, d, dir, i0, i1) && hl@ == seq![
                Highlight::House(line_of(dir, i0)),
                Highlight::House(line_of(dir, i1)),
            ] + xwing_marks(line_of(dir, i0), line_of(dir, i1), ascending(positions_with(old(board)@, line_of(dir, i0), d), 9), perpendicular(dir), d),
{
    let ghost b0 = board@;
    proof {
        SudokuBoard::lemma_view(*board);
    }
    let mut di: usize = 0;
    while di < 9
        invariant
            di <= 9,
            board@ == b0,
            old(board)@ == b0,
            b0.len() == 81,
            forall|i: int| 0 <= i < 81 ==> (#[trigger] b0[i]).subset_of(full_set()),
            forall|d: int, dir: LineDirection, i0: int, i1: int|
                0 <= d < di && #[trigger] xwing_pattern(b0, d, dir, i0, i1) ==> xwing_clear(b0, d, dir, line_of(dir, i0), line_of(dir, i1)),
        decreases 9 - di,
    {
        let digit = DigitIndex::from_value(di);
        let directions = LineDirection::iter();
        let mut si: usize = 0;
        while si < 2
            invariant
                si <= 2,
                di < 9,
                digit@ == di,
                directions@ == seq![LineDirection::Vertical, LineDirection::Horizontal],
                board@ == b0,
                old(board)@ == b0,
                b0.len() == 81,
                forall|i: int| 0 <= i < 81 ==> (#[trigger] b0[i]).subset_of(full_set()),
                forall|d: int, dir: LineDirection, i0: int, i1: int|
                    (0 <= d < di || (d == di && ((dir == LineDirection::Vertical && si > 0) || si > 1))) && #[trigger] xwing_pattern(
                        b0,
                        d,
                        dir,
                        i0,
                        i1,
                    ) ==> xwing_clear(b0, d, dir, line_of(dir, i0), line_of(dir, i1)),
            decreases 2 - si,
        {
            let search_direction = directions[si];
            let search_houses = search_direction.lines();
            let perpendicular_direction = search_direction.other();
            assert(perpendicular_direction == perpendicular(search_direction));
            let mut appear_in: Vec<(HouseIndex, SudokuFlags)> = Vec::new();
            let mut li: usize = 0;
            while li < 9
                invariant
                    li <= 9,
                    appear_in@.len() <= li,
                    board@ == b0,
                    forall|i: int| 0 <= i < 9 ==> #[trigger] search_houses@[i] == line_of(search_direction, i),
                    forall|j: int| 0 <= j < appear_in@.len() ==> {
                        &&& 0 <= line_number((#[trigger] appear_in@[j]).0) < li
                        &&& appear_in@[j].0 == line_of(search_direction, line_number(appear_in@[j].0))
                        &&& appear_in@[j].1@ == positions_with(b0, appear_in@[j].0, digit@)
                        &&& appear_in@[j].1@.len() == 2
                    },
                    forall|j1: int, j2: int| 0 <= j1 < j2 < appear_in@.len() ==> line_number(appear_in@[j1].0) < line_number(
                        appear_in@[j2].0,
                    ),
                    forall|i: int| 0 <= i < li && #[trigger] positions_with(b0, line_of(search_direction, i), digit@).len() == 2 ==> exists|j: int|
                        0 <= j < appear_in@.len() && (#[trigger] appear_in@[j]).0 == line_of(search_direction, i),
                decreases 9 - li,
            {
                let house_idx = search_houses[li];
                assert(house_idx == line_of(search_direction, li as int));
                proof {
                    RowIndex::lemma_from_int(li as int);
                    ColumnIndex::lemma_from_int(li as int);
                }
                let appear = board.cells_with(&house_idx, digit);
                assert(appear@ =~= positions_with(b0, house_idx, digit@));
                let ghost before = appear_in@;
                if appear.count() == 2 {
                    appear_in.push((house_idx, appear));
                }
                assert forall|i: int| 0 <= i < li + 1 && #[trigger] positions_with(b0, line_of(search_direction, i), digit@).len() == 2 implies exists|j: int|
                    0 <= j < appear_in@.len() && (#[trigger] appear_in@[j]).0 == line_of(search_direction, i) by {
                    if i == li {
                        assert(appear_in@[appear_in@.len() - 1].0 == house_idx);
                    } else {
                        let j = choose|j: int| 0 <= j < before.len() && (#[trigger] before[j]).0 == line_of(search_direction, i);
                        assert(appear_in@[j] == before[j]);
                    }
                }
                li = li + 1;
            }
            let combos = index_combinations_of(appear_in.len(), 2);
            let mut ci: usize = 0;
            while ci < combos.len()
                invariant
                    ci <= combos@.len(),
                    board@ == b0,
                    old(board)@ == b0,
                    b0.len() == 81,
                    forall|i: int| 0 <= i < 81 ==> (#[trigger] b0[i]).subset_of(full_set()),
                    di < 9,
                    digit@ == di,
                    search_direction == directions@[si as int],
                    si < 2,
                    directions@ == seq![LineDirection::Vertical, LineDirection::Horizontal],
                    forall|d: int, dir: LineDirection, i0: int, i1: int|
                        (0 <= d < di || (d == di && ((dir == LineDirection::Vertical && si > 0) || si > 1))) && #[trigger] xwing_pattern(
                            b0,
                            d,
                            dir,
                            i0,
                            i1,
                        ) ==> xwing_clear(b0, d, dir, line_of(dir, i0), line_of(dir, i1)),
                    perpendicular_direction == perpendicular(search_direction),
                    forall|i: int| 0 <= i < combos@.len() ==> is_combination(#[trigger] combos@[i]@, appear_in@.len() as nat, 2),
                    combos@.map_values(|c: Vec<usize>| c@) == index_combinations(appear_in@.len() as nat, 2),
                    forall|e: Seq<usize>| is_combination(e, appear_in@.len() as nat, 2) ==> exists|i: int|
                        0 <= i < combos@.len() && #[trigger] combos@[i]@ == e,
                    appear_in@.len() <= 9,
                    forall|i: int| 0 <= i < 9 && #[trigger] positions_with(b0, line_of(search_direction, i), digit@).len() == 2 ==> exists|j: int|
                        0 <= j < appear_in@.len() && (#[trigger] appear_in@[j]).0 == line_of(search_direction, i),
                    forall|j: int| 0 <= j < appear_in@.len() ==> {
                        &&& 0 <= line_number((#[trigger] appear_in@[j]).0) < 9
                        &&& appear_in@[j].0 == line_of(search_direction, line_number(appear_in@[j].0))
                        &&& appear_in@[j].1@ == positions_with(b0, appear_in@[j].0, digit@)
                        &&& appear_in@[j].1@.len() == 2
                    },
                    forall|j1: int, j2: int| 0 <= j1 < j2 < appear_in@.len() ==> line_number(appear_in@[j1].0) < line_number(
                        appear_in@[j2].0,
                    ),
                    forall|k: int| 0 <= k < ci ==> {
                        let c = (#[trigger] combos@[k])@;
                        appear_in@[c[0] as int].1@ == appear_in@[c[1] as int].1@ ==> xwing_clear(
                            b0,
                            digit@,
                            search_direction,
                            appear_in@[c[0] as int].0,
                            appear_in@[c[1] as int].0,
                        )
                    },
                decreases combos@.len() - ci,
            {
                assert(is_combination(combos@[ci as int]@, appear_in@.len() as nat, 2));
                let c0 = combos[ci][0];
                let c1 = combos[ci][1];
                let (h0, a0) = appear_in[c0];
                let (h1, a1) = appear_in[c1];
                if a0 == a1 {
                    let appear = a0;
                    let mask = DigitFlags::all_but(digit);
                    let targets = xwing_target_cells(h0, h1, &appear, search_direction);
                    let changed = board.apply_mask_cells(&targets, &mask);
                    proof {
                        if !changed {
                            assert forall|y: CellIndex| #[trigger] xwing_targets(search_direction, h0, h1, positions_with(b0, h0, digit@), y) implies !b0[y@].contains(
                                digit@,
                            ) by {
                                CellIndex::lemma_flat(y);
                                assert(targets@.contains(y));
                                assert(masked(b0, targets@, mask@)[y@] == b0[y@]);
                            }
                        }
                    }
                    if changed {
                        proof {
                            appear.lemma_view();
                            lemma_xwing_sound(b0, digit@, search_direction, line_number(h0), line_number(h1), appear@, targets@);
                            let n0 = line_number(h0);
                            let n1 = line_number(h1);
                            lemma_masked_digit(
                                b0,
                                targets@,
                                digit@,
                                |y: CellIndex| xwing_targets(search_direction, line_of(search_direction, n0), line_of(search_direction, n1), positions_with(b0, line_of(search_direction, n0), digit@), y),
                            );
                            assert(xwing_pattern(b0, digit@, search_direction, n0, n1));
                            let y = choose|y: CellIndex| xwing_targets(search_direction, line_of(search_direction, n0), line_of(search_direction, n1), positions_with(b0, line_of(search_direction, n0), digit@), y) && b0[y@].contains(digit@);
                            assert(!xwing_clear(b0, digit@, search_direction, line_of(search_direction, n0), line_of(search_direction, n1)));
                            assert(xwing_applies(b0, digit@, search_direction, n0, n1));
                            assert(xwings_clear_before(b0, digit@, search_direction));
                            lemma_xwing_first_pair(b0, digit@, search_direction, appear_in@, combos@, ci as int);
                        }
                        let positions_list = appear.iter();
                        let highlights = xwing_highlights(h0, h1, &positions_list, perpendicular_direction, digit);
                        return ControlFlow::Break(highlights);
                    }
                }
                ci = ci + 1;
            }
            proof {
                assert forall|d: int, dir: LineDirection, i0: int, i1: int|
                    d == di && dir == search_direction && #[trigger] xwing_pattern(b0, d, dir, i0, i1) implies xwing_clear(
                    b0,
                    d,
                    dir,
                    line_of(dir, i0),
                    line_of(dir, i1),
                ) by {
                    lemma_line_number(dir, i0);
                    lemma_line_number(dir, i1);
                    lemma_house_cells(line_of(dir, i1));
                    assert(positions_with(b0, line_of(dir, i1), d).len() == 2);
                    let j0 = choose|j: int| 0 <= j < appear_in@.len() && (#[trigger] appear_in@[j]).0 == line_of(search_direction, i0);
                    let j1 = choose|j: int| 0 <= j < appear_in@.len() && (#[trigger] appear_in@[j]).0 == line_of(search_direction, i1);
                    assert(line_number(appear_in@[j0].0) == i0);
                    assert(line_number(appear_in@[j1].0) == i1);
                    if j1 < j0 {
                        assert(line_number(appear_in@[j1].0) < line_number(appear_in@[j0].0));
                    }
                    assert(j0 != j1);
                    let c = seq![j0 as usize, j1 as usize];
                    assert(is_combination(c, appear_in@.len() as nat, 2));
                    let k = choose|k: int| 0 <= k < combos@.len() && #[trigger] combos@[k]@ == c;
                    assert(combos@[k]@ == c);
                }
            }
            si = si + 1;
        }
        di = di + 1;
    }
    ControlFlow::Continue(())
}

/// With the lines of direction `dir` where digit `d` has two candidates listed in `ap` by
/// increasing number, and the pairs of `ap` before pair number `q` of the index combinations
/// clear, every X-Wing whose line numbers come before those of pair `q` is clear.
proof fn lemma_xwing_first_pair(
    b0: Seq<Set<int>>,
    d: int,
    dir: LineDirection,
    ap: Seq<(HouseIndex, SudokuFlags)>,
    cs: Seq<Vec<usize>>,
    q: int,
)
    requires
        ap.len() <= 9,
        cs.map_values(|c: Vec<usize>| c@) == index_combinations(ap.len(), 2),
        forall|e: Seq<usize>| is_combination(e, ap.len(), 2) ==> exists|i: int| 0 <= i < cs.len() && #[trigger] cs[i]@ == e,
        0 <= q < cs.len(),
        forall|j: int| 0 <= j < ap.len() ==> {
            &&& 0 <= line_number((#[trigger] ap[j]).0) < 9
            &&& ap[j].0 == line_of(dir, line_number(ap[j].0))
            &&& ap[j].1@ == positions_with(b0, ap[j].0, d)
        },
        forall|j1: int, j2: int| 0 <= j1 < j2 < ap.len() ==> line_number(ap[j1].0) < line_number(ap[j2].0),
        forall|i: int| 0 <= i < 9 && #[trigger] positions_with(b0, line_of(dir, i), d).len() == 2 ==> exists|j: int|
            0 <= j < ap.len() && (#[trigger] ap[j]).0 == line_of(dir, i),
        forall|k: int| 0 <= k < q ==> {
            let c = (#[trigger] cs[k])@;
            ap[c[0] as int].1@ == ap[c[1] as int].1@ ==> xwing_clear(b0, d, dir, ap[c[0] as int].0, ap[c[1] as int].0)
        },
    ensures
        xwing_pairs_clear_before(b0, d, dir, line_number(ap[cs[q]@[0] as int].0), line_number(ap[cs[q]@[1] as int].0)),
{
    let n = ap.len();
    let all = index_combinations(n, 2);
    lemma_combinations_ordered(0, n, 2);
    let c = cs[q]@;
    assert(c == all[q]);
    let n0 = line_number(ap[c[0] as int].0);
    let n1 = line_number(ap[c[1] as int].0);
    assert forall|j0: int, j1: int| (j0 < n0 || (j0 == n0 && j1 < n1)) && #[trigger] xwing_pattern(b0, d, dir, j0, j1) implies xwing_clear(
        b0,
        d,
        dir,
        line_of(dir, j0),
        line_of(dir, j1),
    ) by {
        lemma_line_number(dir, j0);
        lemma_line_number(dir, j1);
        assert(positions_with(b0, line_of(dir, j1), d).len() == 2);
        let k0 = choose|j: int| 0 <= j < n && (#[trigger] ap[j]).0 == line_of(dir, j0);
        let k1 = choose|j: int| 0 <= j < n && (#[trigger] ap[j]).0 == line_of(dir, j1);
        assert(line_number(ap[k0].0) == j0);
        assert(line_number(ap[k1].0) == j1);
        if k1 < k0 {
            assert(line_number(ap[k1].0) < line_number(ap[k0].0));
        }
        assert(k0 < k1);
        let e = seq![k0 as usize, k1 as usize];
        assert(is_combination(e, n, 2));
        let kk = choose|i: int| 0 <= i < cs.len() && #[trigger] cs[i]@ == e;
        assert(cs[kk]@ == all[kk]);
        if kk == q {
            assert(c[0] == k0 && c[1] == k1);
        } else if kk > q {
            assert(lex_before(all[q], all[kk]));
            let i = choose|i: int|
                0 <= i < all[q].len() && i < all[kk].len() && (forall|j: int| 0 <= j < i ==> all[q][j] == all[kk][j]) && #[trigger] all[q][i]
                    < all[kk][i];
            if i == 0 {
                assert(c[0] < k0);
                assert(line_number(ap[c[0] as int].0) < line_number(ap[k0].0));
            } else {
                assert(c[0] == k0 && c[1] < k1);
                assert(line_number(ap[c[1] as int].0) < line_number(ap[k1].0));
            }
        }
        assert(kk < q);
        assert(ap[k0].1@ == ap[k1].1@);
    }
}

/// The cells on the crossing lines at the positions in `appear`, off `h0` and `h1`; `h0` and `h1`
/// are lines of direction `dir`.
fn xwing_target_cells(h0: HouseIndex, h1: HouseIndex, appear: &SudokuFlags, dir: LineDirection) -> (r: Vec<CellIndex>)
    requires
        h0 == line_of(dir, line_number(h0)),
        0 <= line_number(h0) < 9,
    ensures
        forall|y: CellIndex| r@.contains(y) <==> xwing_targets(dir, h0, h1, appear@, y),
{
    let perp = dir.other();
    let mut r: Vec<CellIndex> = Vec::new();
    let mut p: usize = 0;
    while p < 9
        invariant
            p <= 9,
            perp == perpendicular(dir),
            h0 == line_of(dir, line_number(h0)),
            0 <= line_number(h0) < 9,
            forall|y: CellIndex| #[trigger] r@.contains(y) <==> ((exists|i: int| 0 <= i < p && appear@.contains(i) && #[trigger] in_house(line_of(perp, i), y))
                && !in_house(h0, y) && !in_house(h1, y)),
        decreases 9 - p,
    {
        let pi = SudokuIndex::from_value(p);
        let ghost old_r = r@;
        if appear.contains(pi) {
            proof {
                RowIndex::lemma_from_int(line_number(h0));
                ColumnIndex::lemma_from_int(line_number(h0));
                RowIndex::lemma_from_int(p as int);
                ColumnIndex::lemma_from_int(p as int);
                lemma_house_cells(h0);
            }
            let line = h0.get(pi).line(perp);
            assert(line == line_of(perp, p as int));
            proof {
                lemma_house_cells(line);
            }
            let cells = line.cell_indices();
            let mut u: usize = 0;
            while u < 9
                invariant
                    u <= 9,
                    cells@ == house_cells(line),
                    cells@.len() == 9,
                    forall|y: CellIndex| #[trigger] r@.contains(y) <==> (old_r.contains(y) || ((exists|t: int| 0 <= t < u && #[trigger] cells@[t] == y)
                        && !in_house(h0, y) && !in_house(h1, y))),
                decreases 9 - u,
            {
                let y = cells[u];
                proof {
                    lemma_house_cells(h0);
                    lemma_house_cells(h1);
                }
                let ghost before = r@;
                let keep = !h0.contains(y) && !h1.contains(y);
                if keep {
                    r.push(y);
                }
                assert(keep == (!in_house(h0, y) && !in_house(h1, y)));
                assert(cells@[u as int] == y);
                assert forall|x: CellIndex| r@.contains(x) <==> (old_r.contains(x) || ((exists|t: int| 0 <= t < u + 1 && #[trigger] cells@[t] == x)
                    && !in_house(h0, x) && !in_house(h1, x))) by {
                    if exists|t: int| 0 <= t < u + 1 && #[trigger] cells@[t] == x {
                        let t = choose|t: int| 0 <= t < u + 1 && #[trigger] cells@[t] == x;
                        if t < u {
                            assert(exists|t2: int| 0 <= t2 < u && #[trigger] cells@[t2] == x);
                        }
                    }
                    if x == y {
                        assert(cells@[u as int] == x);
                    }
                    if keep {
                        assert(r@ == before.push(y));
                        vstd::seq_lib::lemma_seq_contains_after_push(before, y, x);
                        assert(r@.contains(x) == (before.contains(x) || x == y));
                    } else {
                        assert(r@ == before);
                    }
                    assert(before.contains(x) <==> (old_r.contains(x) || ((exists|t: int| 0 <= t < u && #[trigger] cells@[t] == x)
                        && !in_house(h0, x) && !in_house(h1, x))));
                }
                u = u + 1;
            }
            assert forall|y: CellIndex| r@.contains(y) <==> ((exists|i: int| 0 <= i < p + 1 && appear@.contains(i) && #[trigger] in_house(line_of(perp, i), y))
                && !in_house(h0, y) && !in_house(h1, y)) by {
                if in_house(line, y) {
                    let t = choose|t: int| 0 <= t < 9 && house_cells(line)[t] == y;
                    assert(cells@[t] == y);
                }
                if exists|t: int| 0 <= t < 9 && #[trigger] cells@[t] == y {
                    let t = choose|t: int| 0 <= t < 9 && #[trigger] cells@[t] == y;
                    assert(in_house(line, cells@[t]));
                }
                if exists|i: int| 0 <= i < p + 1 && appear@.contains(i) && #[trigger] in_house(line_of(perp, i), y) {
                    let i = choose|i: int| 0 <= i < p + 1 && appear@.contains(i) && #[trigger] in_house(line_of(perp, i), y);
                    if i < p {
                        assert(exists|i2: int| 0 <= i2 < p && appear@.contains(i2) && #[trigger] in_house(line_of(perp, i2), y));
                    }
                }
            }
        } else {
            assert forall|y: CellIndex| r@.contains(y) <==> ((exists|i: int| 0 <= i < p + 1 && appear@.contains(i) && #[trigger] in_house(line_of(perp, i), y))
                && !in_house(h0, y) && !in_house(h1, y)) by {
                if r@.contains(y) {
                    let i = choose|i: int| 0 <= i < p && appear@.contains(i) && #[trigger] in_house(line_of(perp, i), y);
                    assert(0 <= i < p + 1);
                }
                if exists|i: int| 0 <= i < p + 1 && appear@.contains(i) && #[trigger] in_house(line_of(perp, i), y) {
                    let i = choose|i: int| 0 <= i < p + 1 && appear@.contains(i) && #[trigger] in_house(line_of(perp, i), y);
                    assert(i != p);
                    assert(exists|i2: int| 0 <= i2 < p && appear@.contains(i2) && #[trigger] in_house(line_of(perp, i2), y));
                }
            }
        }
        p = p + 1;
    }
    proof {
        appear.lemma_view();
    }
    assert forall|y: CellIndex| r@.contains(y) <==> xwing_targets(dir, h0, h1, appear@, y) by {
        if xwing_targets(dir, h0, h1, appear@, y) {
            let i = choose|i: int| appear@.contains(i) && #[trigger] in_house(line_of(perpendicular(dir), i), y);
            assert(full_set().contains(i));
            assert(in_house(line_of(perp, i), y));
        }
        if r@.contains(y) {
            let i = choose|i: int| 0 <= i < 9 && appear@.contains(i) && #[trigger] in_house(line_of(perp, i), y);
            assert(in_house(line_of(perpendicular(dir), i), y));
        }
    }
    r
}

/// Both lines, then for each position its crossing line twice and the two candidates.
fn xwing_highlights(h0: HouseIndex, h1: HouseIndex, positions_list: &Vec<SudokuIndex>, perp: LineDirection, digit: DigitIndex) -> (r: Vec<Highlight>)
    ensures
        r@ == seq![Highlight::House(h0), Highlight::House(h1)] + xwing_marks(h0, h1, positions_list@.map_values(|s: SudokuIndex| s@), perp, digit@),
{
    let ghost ps = positions_list@.map_values(|s: SudokuIndex| s@);
    proof {
        DigitIndex::lemma_view_injective(digit, digit);
    }
    let mut highlights: Vec<Highlight> = Vec::new();
    highlights.push(Highlight::House(h0));
    highlights.push(Highlight::House(h1));
    let ghost head = highlights@;
    let mut k: usize = 0;
    while k < positions_list.len()
        invariant
            k <= positions_list@.len(),
            ps == positions_list@.map_values(|s: SudokuIndex| s@),
            digit == DigitIndex::from_int(digit@),
            highlights@ == head + xwing_marks(h0, h1, ps.take(k as int), perp, digit@),
        decreases positions_list@.len() - k,
    {
        let i = positions_list[k];
        highlights.push(Highlight::House(h0.get(i).line(perp)));
        highlights.push(Highlight::House(h1.get(i).line(perp)));
        highlights.push(Highlight::Digit((h0.get(i), digit)));
        highlights.push(Highlight::Digit((h1.get(i), digit)));
        proof {
            assert(ps.take(k + 1).drop_last() =~= ps.take(k as int));
            assert(ps[k as int] == i@);
            assert(highlights@ =~= head + xwing_marks(h0, h1, ps.take(k + 1), perp, digit@));
        }
        k = k + 1;
    }
    proof {
        assert(ps.take(positions_list@.len() as int) =~= ps);
    }
    highlights
}

/// X-Wing soundness: when digit `d` has its candidates on two parallel lines exactly at the same
/// two positions, a filled grid puts `d` on both positions, one per line, so the crossing lines
/// hold `d` nowhere else.
pub proof fn lemma_xwing_sound(b0: Seq<Set<int>>, d: int, dir: LineDirection, n0: int, n1: int, a: Set<int>, targets: Seq<CellIndex>)
    requires
        b0.len() == 81,
        0 <= d < 9,
        0 <= n0 < 9,
        0 <= n1 < 9,
        n0 != n1,
        positions_with(b0, line_of(dir, n0), d) == a,
        positions_with(b0, line_of(dir, n1), d) == a,
        a.finite(),
        a.len() == 2,
        forall|y: CellIndex| targets.contains(y) <==> xwing_targets(dir, line_of(dir, n0), line_of(dir, n1), a, y),
    ensures
        keeps_solutions(masked(b0, targets, full_set().remove(d)), b0),
        refines(masked(b0, targets, full_set().remove(d)), b0),
{
    let h0 = line_of(dir, n0);
    let h1 = line_of(dir, n1);
    let perp = perpendicular(dir);
    lemma_house_cells(h0);
    lemma_house_cells(h1);
    RowIndex::lemma_from_int(n0);
    RowIndex::lemma_from_int(n1);
    ColumnIndex::lemma_from_int(n0);
    ColumnIndex::lemma_from_int(n1);
    assert forall|sol: Seq<int>| is_solution(sol) && admits(b0, sol) implies #[trigger] admits(masked(b0, targets, full_set().remove(d)), sol) by {
        lemma_house_holds_digit(sol, h0, d);
        lemma_house_holds_digit(sol, h1, d);
        let p0 = position_of(sol, h0, d);
        let p1 = position_of(sol, h1, d);
        let x0 = house_cells(h0)[p0];
        let x1 = house_cells(h1)[p1];
        CellIndex::lemma_flat(x0);
        CellIndex::lemma_flat(x1);
        assert(b0[hcell(h0, p0)].contains(d));
        assert(b0[hcell(h1, p1)].contains(d));
        assert(a.contains(p0));
        assert(a.contains(p1));
        RowIndex::lemma_from_int(p0);
        ColumnIndex::lemma_from_int(p0);
        RowIndex::lemma_from_int(p1);
        ColumnIndex::lemma_from_int(p1);
        assert(in_house(line_of(perp, p0), x0));
        assert(in_house(line_of(perp, p1), x1));
        if p0 == p1 {
            let z = house_cells(h1)[p0];
            assert(x0 != z);
            assert(sees(x0, z));
            assert(sol[x0@] != sol[z@]);
        }
        assert forall|i: int| a.contains(i) implies i == p0 || i == p1 by {
            if i != p0 && i != p1 {
                let three = Set::<int>::empty().insert(p0).insert(p1).insert(i);
                assert(three.subset_of(a));
                vstd::set_lib::lemma_len_subset(three, a);
            }
        }
        assert forall|i: int| 0 <= i < 81 implies #[trigger] masked(b0, targets, full_set().remove(d))[i].contains(sol[i]) by {
            let y = cell_of(i);
            CellIndex::lemma_cell_of(i);
            CellIndex::lemma_flat(y);
            if targets.contains(y) {
                let j = choose|j: int| a.contains(j) && #[trigger] in_house(line_of(perp, j), y);
                if j == p0 {
                    assert(y != x0);
                    assert(sees(x0, y));
                    assert(sol[y@] != sol[x0@]);
                } else {
                    assert(y != x1);
                    assert(sees(x1, y));
                    assert(sol[y@] != sol[x1@]);
                }
            }
        }
    }
}

} // verus!
