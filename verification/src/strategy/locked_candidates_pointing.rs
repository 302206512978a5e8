use std::ops::ControlFlow;

use vstd::prelude::*;

use crate::board::container::{lemma_masked_digit, masked, refines_board, without_digit};
use crate::board::SudokuBoard;
use crate::flags::{full_set, DigitFlags};
use crate::highlight::{cells_having, digit_marks, Highlight};
use crate::index::cell_index::{cell_of, sees};
use crate::index::region::{house_cells, in_house, lemma_house_cells};
use crate::index::{BlockIndex, CellIndex, ColumnIndex, DigitIndex, HouseIndex, RowIndex, SudokuRegion};
use crate::rules::{admits, hcell, is_solution, keeps_solutions, lemma_house_holds_digit, position_of, refines};

use super::common::house_cells_outside_block;

verus! {

/// Whether every cell of block `b` with candidate `d` lies in line `line`.
pub open spec fn block_confined_to(bd: Seq<Set<int>>, b: BlockIndex, d: int, line: HouseIndex) -> bool {
    forall|k: int| 0 <= k < 9 && #[trigger] bd[hcell(HouseIndex::Block(b), k)].contains(d) ==> in_house(
        line,
        house_cells(HouseIndex::Block(b))[k],
    )
}

/// The line that pointing uses for digit `d` in block `b`: the cells of the block with candidate
/// `d`, of which there is one at least, lie on `line`, a row, or else a column when they lie on
/// no single row.
pub open spec fn pointing_line(bd: Seq<Set<int>>, b: BlockIndex, d: int, line: HouseIndex) -> bool {
    &&& exists|k: int| 0 <= k < 9 && #[trigger] bd[hcell(HouseIndex::Block(b), k)].contains(d)
    &&& block_confined_to(bd, b, d, line)
    &&& match line {
        HouseIndex::Row(_) => true,
        HouseIndex::Column(_) => forall|r: RowIndex| !#[trigger] block_confined_to(bd, b, d, HouseIndex::Row(r)),
        HouseIndex::Block(_) => false,
    }
}

/// No pointing step removes a candidate: for each block and digit with a pointing line, no cell
/// of that line outside the block has the digit.
pub open spec fn pointing_done(bd: Seq<Set<int>>) -> bool {
    forall|b: BlockIndex, d: int, line: HouseIndex, c: CellIndex|
        #![trigger pointing_line(bd, b, d, line), in_house(line, c)]
        0 <= d < 9 && pointing_line(bd, b, d, line) && in_house(line, c) && c.block_of() != b ==> !bd[c@].contains(d)
}

/// Pointing with digit `d` from block `b` along `line` removes a candidate: `line` is the
/// pointing line of the digit in the block, and some cell of it outside the block has the digit.
pub open spec fn point_applies(bd: Seq<Set<int>>, b: BlockIndex, d: int, line: HouseIndex) -> bool {
    &&& 0 <= d < 9
    &&& pointing_line(bd, b, d, line)
    &&& exists|c: CellIndex| in_house(line, c) && c.block_of() != b && #[trigger] bd[c@].contains(d)
}

/// The board after pointing: digit `d` leaves the cells of `line` outside block `b`.
pub open spec fn after_point(bd: Seq<Set<int>>, b: BlockIndex, d: int, line: HouseIndex) -> Seq<Set<int>> {
    without_digit(bd, d, |c: CellIndex| in_house(line, c) && c.block_of() != b)
}

/// No pointing step on a block and digit that come before block `b` and digit `d` (blocks in
/// order, and for each block the digits in order) removes a candidate.
pub open spec fn points_clear_before(bd: Seq<Set<int>>, b: BlockIndex, d: int) -> bool {
    forall|b2: BlockIndex, e: int, line: HouseIndex, c: CellIndex|
        #![trigger pointing_line(bd, b2, e, line), in_house(line, c)]
        (0 <= b2@ < b@ || (b2 == b && 0 <= e < d)) && 0 <= e < 9 && pointing_line(bd, b2, e, line) && in_house(line, c)
            && c.block_of() != b2 ==> !bd[c@].contains(e)
}

/// A list without repeats whose members all equal `a`, and which holds `a`, is `[a]`.
proof fn lemma_single<T>(s: Seq<T>, a: T)
    requires
        s.no_duplicates(),
        s.contains(a),
        forall|x: T| s.contains(x) ==> x == a,
    ensures
        s.len() == 1,
        s[0] == a,
{
    if s.len() >= 2 {
        assert(s.contains(s[0]) && s.contains(s[1]));
        assert(s[0] == s[1]);
    }
}

/// The pointing line of a digit in a block is the row of its cells when they have one row, else
/// their column when they have one column; there is none otherwise.
proof fn lemma_pointing_lines(b0: Seq<Set<int>>, block: BlockIndex, d: int, rows: Seq<RowIndex>, columns: Seq<ColumnIndex>)
    requires
        rows.no_duplicates(),
        columns.no_duplicates(),
        forall|r: RowIndex| rows.contains(r) <==> exists|j: int| 0 <= j < 9 && #[trigger] b0[hcell(HouseIndex::Block(block), j)].contains(d)
            && house_cells(HouseIndex::Block(block))[j].0 == r,
        forall|c: ColumnIndex| columns.contains(c) <==> exists|j: int| 0 <= j < 9 && #[trigger] b0[hcell(HouseIndex::Block(block), j)].contains(d)
            && house_cells(HouseIndex::Block(block))[j].1 == c,
    ensures
        forall|line: HouseIndex| #[trigger] pointing_line(b0, block, d, line) ==> if rows.len() == 1 {
            line == HouseIndex::Row(rows[0])
        } else if columns.len() == 1 {
            line == HouseIndex::Column(columns[0])
        } else {
            false
        },
{
    let bh = HouseIndex::Block(block);
    assert forall|line: HouseIndex| #[trigger] pointing_line(b0, block, d, line) implies if rows.len() == 1 {
        line == HouseIndex::Row(rows[0])
    } else if columns.len() == 1 {
        line == HouseIndex::Column(columns[0])
    } else {
        false
    } by {
        let k = choose|k: int| 0 <= k < 9 && #[trigger] b0[hcell(bh, k)].contains(d);
        let x = house_cells(bh)[k];
        assert(rows.contains(x.0));
        assert(columns.contains(x.1));
        match line {
            HouseIndex::Row(r1) => {
                assert forall|r: RowIndex| rows.contains(r) implies r == r1 by {
                    let j = choose|j: int| 0 <= j < 9 && #[trigger] b0[hcell(bh, j)].contains(d) && house_cells(bh)[j].0 == r;
                }
                assert(in_house(line, x));
                lemma_single(rows, r1);
            },
            HouseIndex::Column(c1) => {
                assert forall|c: ColumnIndex| columns.contains(c) implies c == c1 by {
                    let j = choose|j: int| 0 <= j < 9 && #[trigger] b0[hcell(bh, j)].contains(d) && house_cells(bh)[j].1 == c;
                }
                assert(in_house(line, x));
                lemma_single(columns, c1);
                if rows.len() == 1 {
                    let r0 = rows[0];
                    assert(block_confined_to(b0, block, d, HouseIndex::Row(r0))) by {
                        assert forall|j: int| 0 <= j < 9 && #[trigger] b0[hcell(bh, j)].contains(d) implies in_house(
                            HouseIndex::Row(r0),
                            house_cells(bh)[j],
                        ) by {
                            assert(rows.contains(house_cells(bh)[j].0));
                        }
                    }
                }
            },
            HouseIndex::Block(_) => {},
        }
    }
}

/// Pointing: when a digit's candidates inside a block all lie on one row (or one column), the
/// digit is removed from the rest of that line. Stops at the first block and digit for which
/// this removes something; breaks only then, and otherwise no block and digit has a pointing line
/// with the digit outside the block.
pub fn apply_locked_candidates_pointing(board: &mut SudokuBoard) -> (r: ControlFlow<Vec<Highlight>>)
    ensures
        r is Break <==> final(board)@ != old(board)@,
        refines(final(board)@, old(board)@),
        keeps_solutions(final(board)@, old(board)@),
        r is Continue ==> pointing_done(old(board)@),
        r matches ControlFlow::Break(h) ==> exists|b: BlockIndex, d: int, line: HouseIndex|
            #[trigger] point_applies(old(board)@, b, d, line) && final(board)@ == after_point(old(board)@, b, d, line)
                && points_clear_before(old(board)@, b, d) && h@ == seq![Highlight::House(line), Highlight::House(HouseIndex::Block(b))]
                + digit_marks(cells_having(old(board)@, house_cells(HouseIndex::Block(b)), d), d),
{
    let ghost b0 = board@;
    proof {
        SudokuBoard::lemma_view(*board);
    }
    let blocks = BlockIndex::iter();
    let mut bi: usize = 0;
    while bi < 9
        invariant
            bi <= 9,
            blocks@.len() == 9,
            forall|i: int| 0 <= i < 9 ==> (#[trigger] blocks@[i])@ == i,
            board@ == b0,
            old(board)@ == b0,
            b0.len() == 81,
            forall|i: int| 0 <= i < 81 ==> (#[trigger] b0[i]).subset_of(full_set()),
            forall|b: BlockIndex, d: int, line: HouseIndex, c: CellIndex|
                #![trigger pointing_line(b0, b, d, line), in_house(line, c)]
                0 <= b@ < bi && 0 <= d < 9 && pointing_line(b0, b, d, line) && in_house(line, c) && c.block_of() != b ==> !b0[c@].contains(d),
        decreases 9 - bi,
    {
        let block = blocks[bi];
        let block_house = HouseIndex::Block(block);
        proof {
            lemma_house_cells(block_house);
        }
        let block_cells = block.cell_indices();
        let mut di: usize = 0;
        while di < 9
            invariant
                di <= 9,
                bi < 9,
                block@ == bi,
                board@ == b0,
                old(board)@ == b0,
                b0.len() == 81,
                forall|i: int| 0 <= i < 81 ==> (#[trigger] b0[i]).subset_of(full_set()),
                block_cells@ == house_cells(block_house),
                block_house == HouseIndex::Block(block),
                forall|b: BlockIndex, d: int, line: HouseIndex, c: CellIndex|
                    #![trigger pointing_line(b0, b, d, line), in_house(line, c)]
                    (0 <= b@ < bi || (b == block && 0 <= d < di)) && 0 <= d < 9 && pointing_line(b0, b, d, line) && in_house(line, c)
                        && c.block_of() != b ==> !b0[c@].contains(d),
            decreases 9 - di,
        {
            let digit = DigitIndex::from_value(di);
            let mut rows: Vec<RowIndex> = Vec::new();
            let mut columns: Vec<ColumnIndex> = Vec::new();
            let mut with_digit: Vec<CellIndex> = Vec::new();
            let mut k: usize = 0;
            while k < 9
                invariant
                    k <= 9,
                    board@ == b0,
                    block_cells@ == house_cells(block_house),
                    block_cells@.len() == 9,
                    rows@.no_duplicates(),
                    columns@.no_duplicates(),
                    forall|r: RowIndex| rows@.contains(r) <==> exists|j: int| 0 <= j < k && #[trigger] b0[hcell(block_house, j)].contains(digit@)
                        && block_cells@[j].0 == r,
                    forall|c: ColumnIndex| columns@.contains(c) <==> exists|j: int| 0 <= j < k && #[trigger] b0[hcell(block_house, j)].contains(digit@)
                        && block_cells@[j].1 == c,
                    with_digit@ == cells_having(b0, block_cells@.take(k as int), digit@),
                decreases 9 - k,
            {
                let cell_idx = block_cells[k];
                let ghost old_rows = rows@;
                let ghost old_columns = columns@;
                assert(block_cells@.take(k + 1).drop_last() =~= block_cells@.take(k as int));
                if board.get(cell_idx).contains(digit) {
                    with_digit.push(cell_idx);
                    if !contains_row(&rows, cell_idx.row()) {
                        rows.push(cell_idx.row());
                    }
                    if !contains_column(&columns, cell_idx.column()) {
                        columns.push(cell_idx.column());
                    }
                }
                proof {
                    assert forall|r: RowIndex| rows@.contains(r) <==> exists|j: int| 0 <= j < k + 1 && #[trigger] b0[hcell(block_house, j)].contains(digit@)
                        && block_cells@[j].0 == r by {
                        if rows@.contains(r) && !old_rows.contains(r) {
                            assert(rows@.last() == r);
                            assert(b0[hcell(block_house, k as int)].contains(digit@));
                        }
                        if old_rows.contains(r) {
                            let t = choose|t: int| 0 <= t < old_rows.len() && old_rows[t] == r;
                            assert(rows@[t] == r);
                            let j = choose|j: int| 0 <= j < k && #[trigger] b0[hcell(block_house, j)].contains(digit@) && block_cells@[j].0 == r;
                            assert(b0[hcell(block_house, j)].contains(digit@));
                        }
                        if exists|j: int| 0 <= j < k + 1 && #[trigger] b0[hcell(block_house, j)].contains(digit@) && block_cells@[j].0 == r {
                            let j = choose|j: int| 0 <= j < k + 1 && #[trigger] b0[hcell(block_house, j)].contains(digit@) && block_cells@[j].0 == r;
                            if j == k {
                                if old_rows.contains(r) {
                                    let t = choose|t: int| 0 <= t < old_rows.len() && old_rows[t] == r;
                                    assert(rows@[t] == r);
                                } else {
                                    assert(rows@.last() == r);
                                }
                            } else {
                                assert(old_rows.contains(r));
                                let t = choose|t: int| 0 <= t < old_rows.len() && old_rows[t] == r;
                                assert(rows@[t] == r);
                            }
                        }
                    }
                    assert forall|c: ColumnIndex| columns@.contains(c) <==> exists|j: int| 0 <= j < k + 1 && #[trigger] b0[hcell(block_house, j)].contains(digit@)
                        && block_cells@[j].1 == c by {
                        if columns@.contains(c) && !old_columns.contains(c) {
                            assert(columns@.last() == c);
                            assert(b0[hcell(block_house, k as int)].contains(digit@));
                        }
                        if old_columns.contains(c) {
                            let t = choose|t: int| 0 <= t < old_columns.len() && old_columns[t] == c;
                            assert(columns@[t] == c);
                            let j = choose|j: int| 0 <= j < k && #[trigger] b0[hcell(block_house, j)].contains(digit@) && block_cells@[j].1 == c;
                            assert(b0[hcell(block_house, j)].contains(digit@));
                        }
                        if exists|j: int| 0 <= j < k + 1 && #[trigger] b0[hcell(block_house, j)].contains(digit@) && block_cells@[j].1 == c {
                            let j = choose|j: int| 0 <= j < k + 1 && #[trigger] b0[hcell(block_house, j)].contains(digit@) && block_cells@[j].1 == c;
                            if j == k {
                                if old_columns.contains(c) {
                                    let t = choose|t: int| 0 <= t < old_columns.len() && old_columns[t] == c;
                                    assert(columns@[t] == c);
                                } else {
                                    assert(columns@.last() == c);
                                }
                            } else {
                                assert(old_columns.contains(c));
                                let t = choose|t: int| 0 <= t < old_columns.len() && old_columns[t] == c;
                                assert(columns@[t] == c);
                            }
                        }
                    }
                }
                k = k + 1;
            }
            let mut claim: Option<HouseIndex> = None;
            if rows.len() == 1 {
                let r = rows[0];
                proof {
                    assert forall|j: int| 0 <= j < 9 && #[trigger] b0[hcell(block_house, j)].contains(digit@) implies in_house(
                        HouseIndex::Row(r),
                        house_cells(block_house)[j],
                    ) by {
                        assert(rows@.contains(block_cells@[j].0));
                        assert(rows@[0] == r);
                    }
                }
                claim = Some(HouseIndex::Row(r));
            } else if columns.len() == 1 {
                let c = columns[0];
                proof {
                    assert forall|j: int| 0 <= j < 9 && #[trigger] b0[hcell(block_house, j)].contains(digit@) implies in_house(
                        HouseIndex::Column(c),
                        house_cells(block_house)[j],
                    ) by {
                        assert(columns@.contains(block_cells@[j].1));
                        assert(columns@[0] == c);
                    }
                }
                claim = Some(HouseIndex::Column(c));
            }
            proof {
                lemma_pointing_lines(b0, block, digit@, rows@, columns@);
                assert(claim matches Some(h) ==> (rows@.len() == 1 && h == HouseIndex::Row(rows@[0])) || (rows@.len() != 1
                    && columns@.len() == 1 && h == HouseIndex::Column(columns@[0])));
            }
            match claim {
                Some(claiming_house) => {
                    assert(block_confined_to(b0, block, digit@, claiming_house));
                    let mask = DigitFlags::all_but(digit);
                    let targets = house_cells_outside_block(claiming_house, block);
                    let changed = board.apply_mask_cells(&targets, &mask);
                    proof {
                        if !changed {
                            assert forall|c: CellIndex| in_house(claiming_house, c) && c.block_of() != block implies !b0[c@].contains(digit@) by {
                                CellIndex::lemma_flat(c);
                                assert(targets@.contains(c));
                                assert(masked(b0, targets@, mask@)[c@] == b0[c@]);
                            }
                        }
                    }
                    if changed {
                        proof {
                            lemma_pointing_sound(b0, block, digit@, claiming_house, targets@);
                            lemma_masked_digit(b0, targets@, digit@, |c: CellIndex| in_house(claiming_house, c) && c.block_of() != block);
                            if rows@.len() == 1 {
                                assert(rows@.contains(rows@[0]));
                            } else {
                                assert(columns@.contains(columns@[0]));
                                assert forall|r: RowIndex| !#[trigger] block_confined_to(b0, block, digit@, HouseIndex::Row(r)) by {
                                    if block_confined_to(b0, block, digit@, HouseIndex::Row(r)) {
                                        assert(pointing_line(b0, block, digit@, HouseIndex::Row(r)));
                                    }
                                }
                            }
                            assert(pointing_line(b0, block, digit@, claiming_house));
                            assert(point_applies(b0, block, digit@, claiming_house));
                            assert(points_clear_before(b0, block, digit@));
                        }
                        let mut highlights: Vec<Highlight> = Vec::new();
                        highlights.push(Highlight::House(claiming_house));
                        highlights.push(Highlight::House(block_house));
                        let ghost head = highlights@;
                        let mut t: usize = 0;
                        while t < with_digit.len()
                            invariant
                                t <= with_digit@.len(),
                                digit == DigitIndex::from_int(digit@),
                                highlights@ == head + digit_marks(with_digit@.take(t as int), digit@),
                            decreases with_digit@.len() - t,
                        {
                            highlights.push(Highlight::Digit((with_digit[t], digit)));
                            assert(digit_marks(with_digit@.take(t + 1), digit@) =~= digit_marks(with_digit@.take(t as int), digit@).push(
                                Highlight::Digit((with_digit@[t as int], digit)),
                            ));
                            t = t + 1;
                        }
                        proof {
                            assert(with_digit@.take(with_digit@.len() as int) =~= with_digit@);
                            assert(block_cells@.take(9) =~= block_cells@);
                        }
                        return ControlFlow::Break(highlights);
                    }
                },
                None => {},
            }
            proof {
                assert(claim matches Some(h) ==> (rows@.len() == 1 && h == HouseIndex::Row(rows@[0])) || (rows@.len() != 1
                    && columns@.len() == 1 && h == HouseIndex::Column(columns@[0])));
            }
            di = di + 1;
        }
        bi = bi + 1;
    }
    ControlFlow::Continue(())
}

fn contains_row(rows: &Vec<RowIndex>, r: RowIndex) -> (b: bool)
    ensures
        b == rows@.contains(r),
{
    let mut i: usize = 0;
    while i < rows.len()
        invariant
            i <= rows@.len(),
            forall|k: int| 0 <= k < i ==> rows@[k] != r,
        decreases rows@.len() - i,
    {
        if rows[i] == r {
            return true;
        }
        i = i + 1;
    }
    false
}

fn contains_column(columns: &Vec<ColumnIndex>, c: ColumnIndex) -> (b: bool)
    ensures
        b == columns@.contains(c),
{
    let mut i: usize = 0;
    while i < columns.len()
        invariant
            i <= columns@.len(),
            forall|k: int| 0 <= k < i ==> columns@[k] != c,
        decreases columns@.len() - i,
    {
        if columns[i] == c {
            return true;
        }
        i = i + 1;
    }
    false
}

/// When a digit's candidates in a block all lie on one line, removing it from that line outside
/// the block keeps every solution.
pub proof fn lemma_pointing_sound(b0: Seq<Set<int>>, block: BlockIndex, d: int, line: HouseIndex, targets: Seq<CellIndex>)
    requires
        b0.len() == 81,
        0 <= d < 9,
        block_confined_to(b0, block, d, line),
        forall|c: CellIndex| targets.contains(c) <==> (in_house(line, c) && c.block_of() != block),
    ensures
        keeps_solutions(masked(b0, targets, full_set().remove(d)), b0),
        refines(masked(b0, targets, full_set().remove(d)), b0),
{
    let bh = HouseIndex::Block(block);
    lemma_house_cells(bh);
    assert forall|sol: Seq<int>| is_solution(sol) && admits(b0, sol) implies #[trigger] admits(masked(b0, targets, full_set().remove(d)), sol) by {
        lemma_house_holds_digit(sol, bh, d);
        let p = position_of(sol, bh, d);
        let x = house_cells(bh)[p];
        CellIndex::lemma_flat(x);
        assert(b0[hcell(bh, p)].contains(d));
        assert(in_house(line, x));
        assert forall|i: int| 0 <= i < 81 implies #[trigger] masked(b0, targets, full_set().remove(d))[i].contains(sol[i]) by {
            let y = cell_of(i);
            CellIndex::lemma_cell_of(i);
            CellIndex::lemma_flat(y);
            if targets.contains(y) {
                assert(y != x);
                assert(sees(x, y));
                assert(sol[y@] != sol[x@]);
            }
        }
    }
}

} // verus!
