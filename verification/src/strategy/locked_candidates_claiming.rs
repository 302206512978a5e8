use std::ops::ControlFlow;

use vstd::prelude::*;

use crate::board::container::{house_number, lemma_all_houses, lemma_masked_digit, masked, refines_board, without_digit};
use crate::board::SudokuBoard;
use crate::flags::{full_set, DigitFlags};
use crate::highlight::{cells_having, digit_marks, Highlight};
use crate::index::cell_index::{cell_of, sees};
use crate::index::region::{house_cells, in_house, lemma_house_cells};
use crate::index::{all_houses, BlockIndex, CellIndex, DigitIndex, HouseIndex, SudokuRegion};
use crate::rules::{admits, hcell, is_solution, keeps_solutions, lemma_house_holds_digit, position_of, refines};

use super::common::house_cells_outside_block;

verus! {

/// Whether every cell of line `line` with candidate `d` lies in block `b`.
pub open spec fn line_confined_to(bd: Seq<Set<int>>, line: HouseIndex, d: int, b: BlockIndex) -> bool {
    forall|k: int| 0 <= k < 9 && #[trigger] bd[hcell(line, k)].contains(d) ==> house_cells(line)[k].block_of() == b
}

/// Whether all the listed cells lie in one block (true of an empty list).
pub fn same_block(cells: &Vec<CellIndex>) -> (r: bool)
    ensures
        r == forall|i: int, j: int| 0 <= i < cells@.len() && 0 <= j < cells@.len() ==> (#[trigger] cells@[i]).block_of()
            == (#[trigger] cells@[j]).block_of(),
{
    if cells.len() == 0 {
        return true;
    }
    let first = cells[0].block();
    let mut i: usize = 1;
    while i < cells.len()
        invariant
            1 <= i <= cells@.len(),
            first == cells@[0].block_of(),
            forall|k: int| 0 <= k < i ==> (#[trigger] cells@[k]).block_of() == first,
        decreases cells@.len() - i,
    {
        if cells[i].block() != first {
            return false;
        }
        i = i + 1;
    }
    true
}

/// Line `line` has candidate `d` somewhere.
pub open spec fn line_has(bd: Seq<Set<int>>, line: HouseIndex, d: int) -> bool {
    exists|k: int| 0 <= k < 9 && #[trigger] bd[hcell(line, k)].contains(d)
}

/// No claiming step removes a candidate: when a row or column has a digit only inside one block,
/// no cell of that block off the line has the digit.
pub open spec fn claiming_done(bd: Seq<Set<int>>) -> bool {
    forall|line: HouseIndex, d: int, blk: BlockIndex, c: CellIndex|
        #![trigger line_confined_to(bd, line, d, blk), bd[c@].contains(d)]
        !(line is Block) && 0 <= d < 9 && line_has(bd, line, d) && line_confined_to(bd, line, d, blk) && c.block_of() == blk
            && !in_house(line, c) ==> !bd[c@].contains(d)
}

/// Claiming on line `line` and digit `d` inside block `blk` removes a candidate: the line has the
/// digit, only inside the block, and some cell of the block off the line has it.
pub open spec fn claim_applies(bd: Seq<Set<int>>, line: HouseIndex, d: int, blk: BlockIndex) -> bool {
    &&& !(line is Block)
    &&& 0 <= d < 9
    &&& line_has(bd, line, d)
    &&& line_confined_to(bd, line, d, blk)
    &&& exists|c: CellIndex| c.block_of() == blk && !in_house(line, c) && #[trigger] bd[c@].contains(d)
}

/// The board after claiming: digit `d` leaves the cells of block `blk` off line `line`.
pub open spec fn after_claim(bd: Seq<Set<int>>, line: HouseIndex, d: int, blk: BlockIndex) -> Seq<Set<int>> {
    without_digit(bd, d, |c: CellIndex| c.block_of() == blk && !in_house(line, c))
}

/// No claiming step on a line and digit that come before `line` and `d` (the rows, then the
/// columns, and for each line the digits in order) removes a candidate.
pub open spec fn claims_clear_before(bd: Seq<Set<int>>, line: HouseIndex, d: int) -> bool {
    forall|l: HouseIndex, e: int, blk: BlockIndex, c: CellIndex|
        #![trigger line_confined_to(bd, l, e, blk), bd[c@].contains(e)]
        !(l is Block) && (house_number(l) < house_number(line) || (l == line && e < d)) && 0 <= e < 9 && line_has(bd, l, e)
            && line_confined_to(bd, l, e, blk) && c.block_of() == blk && !in_house(l, c) ==> !bd[c@].contains(e)
}

/// Claiming: when a digit's candidates in a row (or column) all lie in one block, the digit is
/// removed from the rest of that block. Stops at the first line and digit for which this removes
/// something; breaks only then, and otherwise no line and digit allow a claim.
pub fn apply_locked_candidates_claiming(board: &mut SudokuBoard) -> (r: ControlFlow<Vec<Highlight>>)
    ensures
        r is Break <==> final(board)@ != old(board)@,
        refines(final(board)@, old(board)@),
        keeps_solutions(final(board)@, old(board)@),
        r is Continue ==> claiming_done(old(board)@),
        r matches ControlFlow::Break(h) ==> exists|line: HouseIndex, d: int, blk: BlockIndex|
            #[trigger] claim_applies(old(board)@, line, d, blk) && final(board)@ == after_claim(old(board)@, line, d, blk)
                && claims_clear_before(old(board)@, line, d) && h@ == seq![Highlight::House(line), Highlight::House(HouseIndex::Block(blk))]
                + digit_marks(cells_having(old(board)@, house_cells(line), d), d),
{
    let ghost b0 = board@;
    proof {
        SudokuBoard::lemma_view(*board);
    }
    let lines = HouseIndex::rows_and_columns();
    let mut li: usize = 0;
    while li < lines.len()
        invariant
            li <= lines@.len(),
            lines@ == all_houses().take(18),
            board@ == b0,
            old(board)@ == b0,
            b0.len() == 81,
            forall|i: int| 0 <= i < 81 ==> (#[trigger] b0[i]).subset_of(full_set()),
            forall|line: HouseIndex, d: int, blk: BlockIndex, c: CellIndex|
                #![trigger line_confined_to(b0, line, d, blk), b0[c@].contains(d)]
                !(line is Block) && house_number(line) < li && 0 <= d < 9 && line_has(b0, line, d) && line_confined_to(b0, line, d, blk)
                    && c.block_of() == blk && !in_house(line, c) ==> !b0[c@].contains(d),
        decreases lines@.len() - li,
    {
        let house_idx = lines[li];
        proof {
            lemma_house_cells(house_idx);
            assert(house_idx == all_houses()[li as int]);
        }
        let house_cells_list = house_idx.cell_indices();
        let mut di: usize = 0;
        while di < 9
            invariant
                di <= 9,
                li < 18,
                house_idx == all_houses()[li as int],
                !(house_idx is Block),
                house_number(house_idx) == li,
                board@ == b0,
                old(board)@ == b0,
                b0.len() == 81,
                forall|i: int| 0 <= i < 81 ==> (#[trigger] b0[i]).subset_of(full_set()),
                house_cells_list@ == house_cells(house_idx),
                forall|line: HouseIndex, d: int, blk: BlockIndex, c: CellIndex|
                    #![trigger line_confined_to(b0, line, d, blk), b0[c@].contains(d)]
                    !(line is Block) && (house_number(line) < li || (line == house_idx && d < di)) && 0 <= d < 9 && line_has(b0, line, d)
                        && line_confined_to(b0, line, d, blk) && c.block_of() == blk && !in_house(line, c) ==> !b0[c@].contains(d),
            decreases 9 - di,
        {
            let digit = DigitIndex::from_value(di);
            let mut cells: Vec<CellIndex> = Vec::new();
            let mut k: usize = 0;
            while k < 9
                invariant
                    k <= 9,
                    board@ == b0,
                    house_cells_list@ == house_cells(house_idx),
                    house_cells_list@.len() == 9,
                    forall|c: CellIndex| cells@.contains(c) <==> exists|j: int| 0 <= j < k && #[trigger] b0[hcell(house_idx, j)].contains(digit@)
                        && house_cells_list@[j] == c,
                    cells@ == cells_having(b0, house_cells_list@.take(k as int), digit@),
                decreases 9 - k,
            {
                let c = house_cells_list[k];
                let ghost old_cells = cells@;
                assert(house_cells_list@.take(k + 1).drop_last() =~= house_cells_list@.take(k as int));
                if board.get(c).contains(digit) {
                    cells.push(c);
                }
                proof {
                    assert forall|x: CellIndex| cells@.contains(x) <==> exists|j: int| 0 <= j < k + 1 && #[trigger] b0[hcell(house_idx, j)].contains(digit@)
                        && house_cells_list@[j] == x by {
                        if cells@.contains(x) && !old_cells.contains(x) {
                            let t = choose|t: int| 0 <= t < cells@.len() && cells@[t] == x;
                            if t < old_cells.len() {
                                assert(old_cells[t] == x);
                            }
                            assert(b0[hcell(house_idx, k as int)].contains(digit@));
                        }
                        if old_cells.contains(x) {
                            let t = choose|t: int| 0 <= t < old_cells.len() && old_cells[t] == x;
                            assert(cells@[t] == x);
                            let j = choose|j: int| 0 <= j < k && #[trigger] b0[hcell(house_idx, j)].contains(digit@) && house_cells_list@[j] == x;
                            assert(b0[hcell(house_idx, j)].contains(digit@));
                        }
                        if exists|j: int| 0 <= j < k + 1 && #[trigger] b0[hcell(house_idx, j)].contains(digit@) && house_cells_list@[j] == x {
                            let j = choose|j: int| 0 <= j < k + 1 && #[trigger] b0[hcell(house_idx, j)].contains(digit@) && house_cells_list@[j] == x;
                            if j == k {
                                assert(cells@.last() == x);
                            } else {
                                assert(old_cells.contains(x));
                                let t = choose|t: int| 0 <= t < old_cells.len() && old_cells[t] == x;
                                assert(cells@[t] == x);
                            }
                        }
                    }
                }
                k = k + 1;
            }
            let all_same = same_block(&cells);
            proof {
                assert forall|blk: BlockIndex| line_has(b0, house_idx, digit@) && #[trigger] line_confined_to(b0, house_idx, digit@, blk) implies cells@.len()
                    > 0 && all_same && cells@[0].block_of() == blk by {
                    let j = choose|j: int| 0 <= j < 9 && #[trigger] b0[hcell(house_idx, j)].contains(digit@);
                    assert(cells@.contains(house_cells_list@[j]));
                    assert forall|a: int, b: int| 0 <= a < cells@.len() && 0 <= b < cells@.len() implies (#[trigger] cells@[a]).block_of()
                        == (#[trigger] cells@[b]).block_of() by {
                        assert(cells@.contains(cells@[a]));
                        assert(cells@.contains(cells@[b]));
                        let ja = choose|ja: int| 0 <= ja < 9 && #[trigger] b0[hcell(house_idx, ja)].contains(digit@) && house_cells_list@[ja] == cells@[a];
                        let jb = choose|jb: int| 0 <= jb < 9 && #[trigger] b0[hcell(house_idx, jb)].contains(digit@) && house_cells_list@[jb] == cells@[b];
                    }
                    assert(cells@.contains(cells@[0]));
                    let j0 = choose|j0: int| 0 <= j0 < 9 && #[trigger] b0[hcell(house_idx, j0)].contains(digit@) && house_cells_list@[j0] == cells@[0];
                }
            }
            if cells.len() > 0 && all_same {
                let block = cells[0].block();
                proof {
                    assert forall|j: int| 0 <= j < 9 && #[trigger] b0[hcell(house_idx, j)].contains(digit@) implies house_cells(
                        house_idx,
                    )[j].block_of() == block by {
                        assert(cells@.contains(house_cells_list@[j]));
                        let t = choose|t: int| 0 <= t < cells@.len() && cells@[t] == house_cells_list@[j];
                        assert(cells@[t].block_of() == cells@[0].block_of());
                    }
                }
                let mask = DigitFlags::all_but(digit);
                let targets = block_cells_outside_line(block, house_idx);
                let changed = board.apply_mask_cells(&targets, &mask);
                proof {
                    if !changed {
                        assert forall|c: CellIndex| c.block_of() == block && !in_house(house_idx, c) implies !b0[c@].contains(digit@) by {
                            CellIndex::lemma_flat(c);
                            assert(targets@.contains(c));
                            assert(masked(b0, targets@, mask@)[c@] == b0[c@]);
                        }
                    }
                }
                if changed {
                    proof {
                        lemma_claiming_sound(b0, house_idx, digit@, block, targets@);
                        lemma_masked_digit(b0, targets@, digit@, |c: CellIndex| c.block_of() == block && !in_house(house_idx, c));
                        assert(cells@.contains(cells@[0]));
                        assert(line_has(b0, house_idx, digit@));
                        assert(claim_applies(b0, house_idx, digit@, block));
                        assert(claims_clear_before(b0, house_idx, digit@));
                    }
                    let mut highlights: Vec<Highlight> = Vec::new();
                    highlights.push(Highlight::House(house_idx));
                    highlights.push(Highlight::House(HouseIndex::Block(block)));
                    let ghost head = highlights@;
                    let mut t: usize = 0;
                    while t < cells.len()
                        invariant
                            t <= cells@.len(),
                            digit == DigitIndex::from_int(digit@),
                            highlights@ == head + digit_marks(cells@.take(t as int), digit@),
                        decreases cells@.len() - t,
                    {
                        highlights.push(Highlight::Digit((cells[t], digit)));
                        assert(digit_marks(cells@.take(t + 1), digit@) =~= digit_marks(cells@.take(t as int), digit@).push(Highlight::Digit((cells@[t as int], digit))));
                        t = t + 1;
                    }
                    proof {
                        assert(cells@.take(cells@.len() as int) =~= cells@);
                        assert(house_cells_list@.take(9) =~= house_cells_list@);
                        assert(highlights@ == seq![Highlight::House(house_idx), Highlight::House(HouseIndex::Block(block))] + digit_marks(
                            cells_having(b0, house_cells(house_idx), digit@),
                            digit@,
                        ));
                    }
                    return ControlFlow::Break(highlights);
                }
            }
            di = di + 1;
        }
        li = li + 1;
    }
    proof {
        assert forall|line: HouseIndex| !(line is Block) implies house_number(line) < 18 by {
            lemma_all_houses(line);
        }
    }
    ControlFlow::Continue(())
}

/// The cells of `block` that are not on `line`, in block order.
fn block_cells_outside_line(block: BlockIndex, line: HouseIndex) -> (r: Vec<CellIndex>)
    ensures
        forall|c: CellIndex| r@.contains(c) <==> (c.block_of() == block && !in_house(line, c)),
{
    let bh = HouseIndex::Block(block);
    proof {
        lemma_house_cells(bh);
    }
    let all = block.cell_indices();
    let mut r: Vec<CellIndex> = Vec::new();
    let mut u: usize = 0;
    while u < all.len()
        invariant
            u <= all@.len(),
            all@ == house_cells(bh),
            all@.len() == 9,
            forall|c: CellIndex| r@.contains(c) <==> (exists|k: int| 0 <= k < u && #[trigger] all@[k] == c && !in_house(line, c)),
        decreases all@.len() - u,
    {
        let c = all[u];
        let ghost old_r = r@;
        if !line.contains(c) {
            proof {
                lemma_house_cells(line);
            }
            r.push(c);
        }
        proof {
            lemma_house_cells(line);
            assert forall|x: CellIndex| r@.contains(x) <==> (exists|k: int| 0 <= k < u + 1 && #[trigger] all@[k] == x && !in_house(line, x)) by {
                if r@.contains(x) {
                    let k = choose|k: int| 0 <= k < r@.len() && r@[k] == x;
                    if k < old_r.len() {
                        assert(old_r[k] == x);
                    }
                }
                if old_r.contains(x) {
                    let k = choose|k: int| 0 <= k < old_r.len() && old_r[k] == x;
                    assert(r@[k] == x);
                }
                if exists|k: int| 0 <= k < u + 1 && #[trigger] all@[k] == x && !in_house(line, x) {
                    let k = choose|k: int| 0 <= k < u + 1 && #[trigger] all@[k] == x && !in_house(line, x);
                    if k == u {
                        assert(r@[r@.len() - 1] == x);
                    }
                }
            }
        }
        u = u + 1;
    }
    assert forall|c: CellIndex| r@.contains(c) <==> (c.block_of() == block && !in_house(line, c)) by {
        if c.block_of() == block {
            assert(in_house(bh, c));
            assert(house_cells(bh).contains(c));
            let k = choose|k: int| 0 <= k < 9 && house_cells(bh)[k] == c;
            assert(all@[k] == c);
        }
        if r@.contains(c) {
            let k = choose|k: int| 0 <= k < u && #[trigger] all@[k] == c && !in_house(line, c);
            assert(in_house(bh, all@[k]));
        }
    }
    r
}

/// When a digit's candidates on a line all lie in one block, removing it from the rest of that
/// block keeps every solution.
pub proof fn lemma_claiming_sound(b0: Seq<Set<int>>, line: HouseIndex, d: int, block: BlockIndex, targets: Seq<CellIndex>)
    requires
        b0.len() == 81,
        0 <= d < 9,
        line_confined_to(b0, line, d, block),
        forall|c: CellIndex| targets.contains(c) <==> (c.block_of() == block && !in_house(line, c)),
    ensures
        keeps_solutions(masked(b0, targets, full_set().remove(d)), b0),
        refines(masked(b0, targets, full_set().remove(d)), b0),
{
    lemma_house_cells(line);
    assert forall|sol: Seq<int>| is_solution(sol) && admits(b0, sol) implies #[trigger] admits(masked(b0, targets, full_set().remove(d)), sol) by {
        lemma_house_holds_digit(sol, line, d);
        let p = position_of(sol, line, d);
        let x = house_cells(line)[p];
        CellIndex::lemma_flat(x);
        assert(b0[hcell(line, p)].contains(d));
        assert(x.block_of() == block);
        assert forall|i: int| 0 <= i < 81 implies #[trigger] masked(b0, targets, full_set().remove(d))[i].contains(sol[i]) by {
            let y = cell_of(i);
            CellIndex::lemma_cell_of(i);
            CellIndex::lemma_flat(y);
            if targets.contains(y) {
                assert(in_house(line, x));
                assert(y != x);
                assert(sees(x, y));
                assert(sol[y@] != sol[x@]);
            }
        }
    }
}

} // verus!
