use std::ops::ControlFlow;

use vstd::prelude::*;

use crate::board::container::{all_cells, lemma_masked_digit, lemma_placed_in, masked, placed, placed_in};
use crate::board::SudokuBoard;
use crate::flags::{ascending, BlockFlags, ColumnFlags, DigitFlags, RowFlags};
use crate::highlight::Highlight;
use crate::index::cell_index::{cell_of, sees};
use crate::index::region::in_house;
use crate::index::{BlockIndex, CellIndex, ColumnIndex, DigitIndex, HouseIndex, RowIndex};
use crate::rules::{admits, is_solution, keeps_solutions, lemma_sees_houses, refines};

use super::common::house_cells_except;

verus! {

/// Whether the placed digit `p` removes candidate `d` from cell `c`: `c` is another cell that
/// sees `p`, and `d` is `p`'s digit.
pub open spec fn elim_pair(p: (CellIndex, int), c: CellIndex, d: int) -> bool {
    p.1 == d && p.0 != c && sees(p.0, c)
}

/// The candidates that the placed digits `ps` remove from cell `c`.
pub open spec fn primary_eliminations(ps: Seq<(CellIndex, int)>, c: CellIndex) -> Set<int> {
    Set::new(|d: int| exists|k: int| 0 <= k < ps.len() && #[trigger] elim_pair(ps[k], c, d))
}

/// The board once every placed digit of `b` has been removed from the cells that see it.
pub open spec fn after_primaries(b: Seq<Set<int>>) -> Seq<Set<int>> {
    Seq::new(81, |i: int| b[i].difference(primary_eliminations(placed_in(b, all_cells()), cell_of(i))))
}

/// The board once the first `t` placed digits of `ps` have left the cells that see them.
pub open spec fn primaries_upto(b: Seq<Set<int>>, ps: Seq<(CellIndex, int)>, t: int) -> Seq<Set<int>> {
    Seq::new(81, |i: int| b[i].difference(primary_eliminations(ps.take(t), cell_of(i))))
}

/// The row, the column and the block of a cell, in that order.
pub open spec fn houses_of(p: CellIndex) -> Seq<HouseIndex> {
    seq![HouseIndex::Row(p.0), HouseIndex::Column(p.1), HouseIndex::Block(p.block_of())]
}

/// The number of the house of kind `hh` (0 the row, 1 the column, 2 the block) of cell `p`.
pub open spec fn kind_number(p: CellIndex, hh: int) -> int {
    if hh == 0 {
        p.0@
    } else if hh == 1 {
        p.1@
    } else {
        p.block_of()@
    }
}

/// Placed digit `t` of `ps`, applied to its house of kind `hh` after its earlier houses, removes a
/// candidate: another cell of that house, in none of the earlier ones, still has the digit.
pub open spec fn house_hit(b: Seq<Set<int>>, ps: Seq<(CellIndex, int)>, t: int, hh: int) -> bool {
    exists|c: CellIndex|
        in_house(houses_of(ps[t].0)[hh], c) && c != ps[t].0 && (forall|h2: int| 0 <= h2 < hh ==> !in_house(houses_of(ps[t].0)[h2], c))
            && #[trigger] primaries_upto(b, ps, t)[c@].contains(ps[t].1)
}

/// Placed digit `t` of `ps` removes a candidate in one of its houses.
pub open spec fn digit_hit(b: Seq<Set<int>>, ps: Seq<(CellIndex, int)>, t: int) -> bool {
    house_hit(b, ps, t, 0) || house_hit(b, ps, t, 1) || house_hit(b, ps, t, 2)
}

/// A mark on each of the first `m` placed digits of `ps` that removes a candidate, in order.
pub open spec fn primary_marks(b: Seq<Set<int>>, ps: Seq<(CellIndex, int)>, m: int) -> Seq<Highlight>
    decreases m,
{
    if m <= 0 {
        Seq::empty()
    } else if digit_hit(b, ps, m - 1) {
        primary_marks(b, ps, m - 1).push(Highlight::Digit((ps[m - 1].0, DigitIndex::from_int(ps[m - 1].1))))
    } else {
        primary_marks(b, ps, m - 1)
    }
}

/// The numbers of the houses of kind `hh` in which one of the first `m` placed digits of `ps`
/// removes a candidate.
pub open spec fn hit_houses(b: Seq<Set<int>>, ps: Seq<(CellIndex, int)>, m: int, hh: int) -> Set<int> {
    Set::new(|x: int| exists|t: int| 0 <= t < m && house_hit(b, ps, t, hh) && #[trigger] kind_number(ps[t].0, hh) == x)
}

/// The highlights of the primaries step: each placed digit that removes a candidate, then the
/// rows, the columns and the blocks in which a candidate goes, each in increasing order.
pub open spec fn primaries_marks(b: Seq<Set<int>>) -> Seq<Highlight> {
    let ps = placed_in(b, all_cells());
    let m = ps.len() as int;
    primary_marks(b, ps, m) + ascending(hit_houses(b, ps, m, 0), 9).map_values(|x: int| Highlight::House(HouseIndex::Row(RowIndex::from_int(x))))
        + ascending(hit_houses(b, ps, m, 1), 9).map_values(|x: int| Highlight::House(HouseIndex::Column(ColumnIndex::from_int(x))))
        + ascending(hit_houses(b, ps, m, 2), 9).map_values(|x: int| Highlight::House(HouseIndex::Block(BlockIndex::from_int(x))))
}

/// Removes the digit of every set cell from all the other cells of its row, column and block.
/// Breaks, with the set cells and houses that caused a change, when a candidate was removed.
pub fn apply_primaries(board: &mut SudokuBoard) -> (r: ControlFlow<Vec<Highlight>>)
    ensures
        final(board)@ == after_primaries(old(board)@),
        r is Break <==> final(board)@ != old(board)@,
        r matches ControlFlow::Break(hl) ==> hl@ == primaries_marks(old(board)@),
        refines(final(board)@, old(board)@),
        keeps_solutions(final(board)@, old(board)@),
{
    let ghost old_b = board@;
    proof {
        SudokuBoard::lemma_view(*board);
    }
    let primary_cells = board.primaries();
    let ghost ps = placed_in(old_b, all_cells());
    let mut rows_highlight = RowFlags::zero();
    let mut columns_highlight = ColumnFlags::zero();
    let mut blocks_highlight = BlockFlags::zero();
    let mut highlights: Vec<Highlight> = Vec::new();
    let mut t: usize = 0;
    proof {
        assert forall|i: int| 0 <= i < 81 implies #[trigger] board@[i] == old_b[i].difference(primary_eliminations(ps.take(0), cell_of(i))) by {
            assert(primary_eliminations(ps.take(0), cell_of(i)) =~= Set::<int>::empty());
            assert(old_b[i].difference(Set::<int>::empty()) =~= old_b[i]);
        }
        assert(board@ =~= Seq::new(81, |i: int| old_b[i].difference(primary_eliminations(ps.take(0), cell_of(i)))));
    }
    while t < primary_cells.len()
        invariant
            t <= primary_cells@.len(),
            old_b.len() == 81,
            primary_cells@.map_values(|p: (CellIndex, DigitIndex)| (p.0, p.1@)) == ps,
            board@.len() == 81,
            forall|i: int| 0 <= i < 81 ==> (#[trigger] old_b[i]).subset_of(crate::flags::full_set()),
            board@ == Seq::new(81, |i: int| old_b[i].difference(primary_eliminations(ps.take(t as int), cell_of(i)))),
            board@ == primaries_upto(old_b, ps, t as int),
            (highlights@.len() > 0) == (board@ != old_b),
            highlights@ == primary_marks(old_b, ps, t as int),
            rows_highlight@ == hit_houses(old_b, ps, t as int, 0),
            columns_highlight@ == hit_houses(old_b, ps, t as int, 1),
            blocks_highlight@ == hit_houses(old_b, ps, t as int, 2),
            board@ == old_b ==> rows_highlight@ == Set::<int>::empty() && columns_highlight@ == Set::<int>::empty()
                && blocks_highlight@ == Set::<int>::empty(),
        decreases primary_cells@.len() - t,
    {
        let (p, d) = primary_cells[t];
        assert(ps[t as int] == (p, d@));
        let mut relevant = false;
        let mask = DigitFlags::all_but(d);
        let houses = p.houses();
        let ghost before = board@;
        let ghost rows0 = rows_highlight@;
        let ghost columns0 = columns_highlight@;
        let ghost blocks0 = blocks_highlight@;
        let mut except: Vec<CellIndex> = Vec::new();
        except.push(p);
        let mut hi: usize = 0;
        while hi < 3
            invariant
                hi <= 3,
                houses@ == seq![HouseIndex::Row(p.0), HouseIndex::Column(p.1), HouseIndex::Block(p.block_of())],
                except@ == seq![p],
                mask@ == crate::flags::full_set().remove(d@),
                board@.len() == 81,
                before.len() == 81,
                forall|i: int| 0 <= i < 81 ==> (#[trigger] before[i]).subset_of(crate::flags::full_set()),
                board@ == Seq::new(81, |i: int|
                    if (exists|hh: int| 0 <= hh < hi && #[trigger] in_house(houses@[hh], cell_of(i))) && cell_of(i) != p {
                        before[i].remove(d@)
                    } else {
                        before[i]
                    }),
                relevant == (board@ != before),
                !relevant ==> rows_highlight@ == rows0 && columns_highlight@ == columns0 && blocks_highlight@ == blocks0,
                before == primaries_upto(old_b, ps, t as int),
                t < ps.len(),
                ps[t as int] == (p, d@),
                houses@ == houses_of(p),
                relevant == (exists|hh: int| 0 <= hh < hi && house_hit(old_b, ps, t as int, hh)),
                rows_highlight@ == (if 0 < hi && house_hit(old_b, ps, t as int, 0) { rows0.insert(p.0@) } else { rows0 }),
                columns_highlight@ == (if 1 < hi && house_hit(old_b, ps, t as int, 1) { columns0.insert(p.1@) } else { columns0 }),
                blocks_highlight@ == (if 2 < hi && house_hit(old_b, ps, t as int, 2) { blocks0.insert(p.block_of()@) } else { blocks0 }),
            decreases 3 - hi,
        {
            let house = houses[hi];
            let cells = house_cells_except(house, &except);
            let ghost mid = board@;
            let changed = board.apply_mask_cells(&cells, &mask);
            proof {
                assert forall|i: int| 0 <= i < 81 implies #[trigger] board@[i] ==
                    (if (exists|hh: int| 0 <= hh < hi + 1 && #[trigger] in_house(houses@[hh], cell_of(i))) && cell_of(i) != p {
                        before[i].remove(d@)
                    } else {
                        before[i]
                    }) by {
                    let c = cell_of(i);
                    let e0 = exists|hh: int| 0 <= hh < hi && #[trigger] in_house(houses@[hh], cell_of(i));
                    let e1 = exists|hh: int| 0 <= hh < hi + 1 && #[trigger] in_house(houses@[hh], cell_of(i));
                    if e0 {
                        let hh = choose|hh: int| 0 <= hh < hi && #[trigger] in_house(houses@[hh], cell_of(i));
                        assert(in_house(houses@[hh], cell_of(i)));
                    }
                    if in_house(house, c) {
                        assert(in_house(houses@[hi as int], cell_of(i)));
                    }
                    if e1 {
                        let hh = choose|hh: int| 0 <= hh < hi + 1 && #[trigger] in_house(houses@[hh], cell_of(i));
                        if hh < hi {
                            assert(e0);
                        }
                    }
                    assert(e1 == (e0 || in_house(house, c)));
                    assert(except@[0] == p);
                    assert(except@.contains(c) <==> c == p);
                    let mid_i = if e0 && c != p { before[i].remove(d@) } else { before[i] };
                    assert(mid[i] == mid_i);
                    if !cells@.contains(c) {
                        assert(board@[i] == mid[i]);
                    }
                    if cells@.contains(c) {
                        assert(board@[i] == mid[i].intersect(mask@));
                        if e0 && c != p {
                            assert(mid[i].intersect(mask@) =~= before[i].remove(d@));
                        } else {
                            assert(mid[i] == before[i]);
                            assert(mid[i].intersect(mask@) =~= before[i].remove(d@));
                        }
                    }
                }
                assert(board@ =~= Seq::new(81, |i: int|
                    if (exists|hh: int| 0 <= hh < hi + 1 && #[trigger] in_house(houses@[hh], cell_of(i))) && cell_of(i) != p {
                        before[i].remove(d@)
                    } else {
                        before[i]
                    }));
                assert(changed == house_hit(old_b, ps, t as int, hi as int)) by {
                    assert(forall|c: CellIndex| cells@.contains(c) <==> (in_house(house, c) && c != p)) by {
                        assert(except@[0] == p);
                    }
                    assert forall|i: int| 0 <= i < 81 implies (#[trigger] mid[i]).subset_of(crate::flags::full_set()) by {
                        assert(before[i].subset_of(crate::flags::full_set()));
                    }
                    lemma_masked_digit(mid, cells@, d@, |c: CellIndex| in_house(house, c) && c != p);
                    if changed {
                        let c = choose|c: CellIndex| (in_house(house, c) && c != p) && #[trigger] mid[c@].contains(d@);
                        CellIndex::lemma_flat(c);
                        assert(forall|h2: int| 0 <= h2 < hi ==> !in_house(houses@[h2], c)) by {
                            if exists|h2: int| 0 <= h2 < hi && #[trigger] in_house(houses@[h2], cell_of(c@)) {
                                assert(mid[c@] == before[c@].remove(d@));
                            }
                        }
                        assert(before[c@].contains(d@));
                        assert(house_hit(old_b, ps, t as int, hi as int));
                    }
                    if house_hit(old_b, ps, t as int, hi as int) {
                        let c = choose|c: CellIndex|
                            in_house(houses_of(ps[t as int].0)[hi as int], c) && c != ps[t as int].0 && (forall|h2: int| 0 <= h2 < hi ==> !in_house(
                                houses_of(ps[t as int].0)[h2],
                                c,
                            )) && #[trigger] primaries_upto(old_b, ps, t as int)[c@].contains(ps[t as int].1);
                        CellIndex::lemma_flat(c);
                        if exists|h2: int| 0 <= h2 < hi && #[trigger] in_house(houses@[h2], cell_of(c@)) {
                            let h2 = choose|h2: int| 0 <= h2 < hi && #[trigger] in_house(houses@[h2], cell_of(c@));
                            assert(!in_house(houses_of(ps[t as int].0)[h2], c));
                        }
                        assert(mid[c@] == before[c@]);
                        assert(cells@.contains(c));
                        assert(!masked(mid, cells@, mask@)[c@].contains(d@));
                    }
                }
                if !changed {
                    assert(board@ == mid);
                }
                if changed {
                    if board@ == before {
                        assert forall|j: int| 0 <= j < 81 implies mid[j] == board@[j] by {
                            assert(board@[j].subset_of(mid[j]));
                            assert(mid[j].subset_of(before[j]));
                            assert(mid[j] =~= board@[j]);
                        }
                        assert(mid =~= board@);
                    }
                }
            }
            if changed {
                relevant = true;
                match house {
                    HouseIndex::Block(b) => {
                        blocks_highlight = blocks_highlight.add(b);
                    },
                    HouseIndex::Column(c) => {
                        columns_highlight = columns_highlight.add(c);
                    },
                    HouseIndex::Row(r) => {
                        rows_highlight = rows_highlight.add(r);
                    },
                }
            }
            hi = hi + 1;
        }
        proof {
            assert forall|i: int| 0 <= i < 81 implies #[trigger] board@[i] == old_b[i].difference(primary_eliminations(ps.take(t + 1), cell_of(i))) by {
                let c = cell_of(i);
                CellIndex::lemma_cell_of(i);
                lemma_sees_houses(p, c);
                let e3 = exists|hh: int| 0 <= hh < 3 && #[trigger] in_house(houses@[hh], cell_of(i));
                if sees(p, c) {
                    if in_house(HouseIndex::Row(p.0), c) {
                        assert(in_house(houses@[0], c));
                    } else if in_house(HouseIndex::Column(p.1), c) {
                        assert(in_house(houses@[1], c));
                    } else {
                        assert(in_house(houses@[2], c));
                    }
                }
                if e3 {
                    let hh = choose|hh: int| 0 <= hh < 3 && #[trigger] in_house(houses@[hh], cell_of(i));
                    assert(sees(p, c));
                }
                let e_old = primary_eliminations(ps.take(t as int), c);
                let e_new = primary_eliminations(ps.take(t + 1), c);
                assert forall|x: int| e_new.contains(x) <==> (e_old.contains(x) || elim_pair((p, d@), c, x)) by {
                    if e_new.contains(x) {
                        let k = choose|k: int| 0 <= k < t + 1 && #[trigger] elim_pair(ps.take(t + 1)[k], c, x);
                        if k < t {
                            assert(ps.take(t as int)[k] == ps.take(t + 1)[k]);
                        }
                    }
                    if e_old.contains(x) {
                        let k = choose|k: int| 0 <= k < t && #[trigger] elim_pair(ps.take(t as int)[k], c, x);
                        assert(ps.take(t + 1)[k] == ps.take(t as int)[k]);
                    }
                    if elim_pair((p, d@), c, x) {
                        assert(ps.take(t + 1)[t as int] == (p, d@));
                    }
                }
                if e3 && c != p {
                    assert(old_b[i].difference(e_new) =~= old_b[i].difference(e_old).remove(d@));
                } else {
                    assert(old_b[i].difference(e_new) =~= old_b[i].difference(e_old));
                }
            }
            assert(board@ =~= Seq::new(81, |i: int| old_b[i].difference(primary_eliminations(ps.take(t + 1), cell_of(i)))));
            if relevant {
                if board@ == old_b {
                    assert forall|j: int| 0 <= j < 81 implies before[j] == board@[j] by {
                        assert(board@[j].subset_of(before[j]));
                        assert(before[j].subset_of(old_b[j]));
                        assert(before[j] =~= board@[j]);
                    }
                    assert(before =~= board@);
                }
            }
        }
        let ghost marks0 = highlights@;
        if relevant {
            highlights.push(Highlight::Digit((p, d)));
        }
        proof {
            DigitIndex::lemma_view_injective(d, d);
            assert(relevant == digit_hit(old_b, ps, t as int)) by {
                if relevant {
                    let hh = choose|hh: int| 0 <= hh < 3 && house_hit(old_b, ps, t as int, hh);
                    assert(hh == 0 || hh == 1 || hh == 2);
                }
            }
            assert(highlights@ == primary_marks(old_b, ps, t + 1));
            assert(primaries_upto(old_b, ps, t + 1) =~= board@);
            assert(kind_number(p, 0) == p.0@ && kind_number(p, 1) == p.1@ && kind_number(p, 2) == p.block_of()@);
            assert(rows_highlight@ =~= hit_houses(old_b, ps, t + 1, 0)) by {
                assert forall|x: int| hit_houses(old_b, ps, t + 1, 0).contains(x) implies rows_highlight@.contains(x) by {
                    let u = choose|u: int| 0 <= u < t + 1 && house_hit(old_b, ps, u, 0) && #[trigger] kind_number(ps[u].0, 0) == x;
                    if u < t {
                        assert(hit_houses(old_b, ps, t as int, 0).contains(x));
                    }
                }
                assert forall|x: int| rows_highlight@.contains(x) implies hit_houses(old_b, ps, t + 1, 0).contains(x) by {
                    if rows0.contains(x) {
                        let u = choose|u: int| 0 <= u < t && house_hit(old_b, ps, u, 0) && #[trigger] kind_number(ps[u].0, 0) == x;
                        assert(kind_number(ps[u].0, 0) == x);
                    } else {
                        assert(kind_number(ps[t as int].0, 0) == x);
                    }
                }
            }
            assert(columns_highlight@ =~= hit_houses(old_b, ps, t + 1, 1)) by {
                assert forall|x: int| hit_houses(old_b, ps, t + 1, 1).contains(x) implies columns_highlight@.contains(x) by {
                    let u = choose|u: int| 0 <= u < t + 1 && house_hit(old_b, ps, u, 1) && #[trigger] kind_number(ps[u].0, 1) == x;
                    if u < t {
                        assert(hit_houses(old_b, ps, t as int, 1).contains(x));
                    }
                }
                assert forall|x: int| columns_highlight@.contains(x) implies hit_houses(old_b, ps, t + 1, 1).contains(x) by {
                    if columns0.contains(x) {
                        let u = choose|u: int| 0 <= u < t && house_hit(old_b, ps, u, 1) && #[trigger] kind_number(ps[u].0, 1) == x;
                        assert(kind_number(ps[u].0, 1) == x);
                    } else {
                        assert(kind_number(ps[t as int].0, 1) == x);
                    }
                }
            }
            assert(blocks_highlight@ =~= hit_houses(old_b, ps, t + 1, 2)) by {
                assert forall|x: int| hit_houses(old_b, ps, t + 1, 2).contains(x) implies blocks_highlight@.contains(x) by {
                    let u = choose|u: int| 0 <= u < t + 1 && house_hit(old_b, ps, u, 2) && #[trigger] kind_number(ps[u].0, 2) == x;
                    if u < t {
                        assert(hit_houses(old_b, ps, t as int, 2).contains(x));
                    }
                }
                assert forall|x: int| blocks_highlight@.contains(x) implies hit_houses(old_b, ps, t + 1, 2).contains(x) by {
                    if blocks0.contains(x) {
                        let u = choose|u: int| 0 <= u < t && house_hit(old_b, ps, u, 2) && #[trigger] kind_number(ps[u].0, 2) == x;
                        assert(kind_number(ps[u].0, 2) == x);
                    } else {
                        assert(kind_number(ps[t as int].0, 2) == x);
                    }
                }
            }
        }
        t = t + 1;
    }
    let rows = rows_highlight.iter();
    let columns = columns_highlight.iter();
    let blocks = blocks_highlight.iter();
    let ghost core = highlights@;
    let ghost core_len = highlights@.len();
    let ghost row_marks = rows@.map_values(|r: RowIndex| Highlight::House(HouseIndex::Row(r)));
    let ghost column_marks = columns@.map_values(|c: ColumnIndex| Highlight::House(HouseIndex::Column(c)));
    let ghost block_marks = blocks@.map_values(|b: BlockIndex| Highlight::House(HouseIndex::Block(b)));
    let mut k: usize = 0;
    while k < rows.len()
        invariant
            k <= rows@.len(),
            highlights@.len() == core_len + k,
            highlights@ == core + row_marks.take(k as int),
            row_marks == rows@.map_values(|r: RowIndex| Highlight::House(HouseIndex::Row(r))),
        decreases rows@.len() - k,
    {
        highlights.push(Highlight::House(HouseIndex::Row(rows[k])));
        assert(row_marks.take(k + 1) =~= row_marks.take(k as int).push(row_marks[k as int]));
        k = k + 1;
    }
    assert(row_marks.take(rows@.len() as int) =~= row_marks);
    k = 0;
    while k < columns.len()
        invariant
            k <= columns@.len(),
            highlights@.len() == core_len + rows@.len() + k,
            highlights@ == core + row_marks + column_marks.take(k as int),
            column_marks == columns@.map_values(|c: ColumnIndex| Highlight::House(HouseIndex::Column(c))),
        decreases columns@.len() - k,
    {
        highlights.push(Highlight::House(HouseIndex::Column(columns[k])));
        assert(column_marks.take(k + 1) =~= column_marks.take(k as int).push(column_marks[k as int]));
        k = k + 1;
    }
    assert(column_marks.take(columns@.len() as int) =~= column_marks);
    k = 0;
    while k < blocks.len()
        invariant
            k <= blocks@.len(),
            highlights@.len() == core_len + rows@.len() + columns@.len() + k,
            highlights@ == core + row_marks + column_marks + block_marks.take(k as int),
            block_marks == blocks@.map_values(|b: BlockIndex| Highlight::House(HouseIndex::Block(b))),
        decreases blocks@.len() - k,
    {
        highlights.push(Highlight::House(HouseIndex::Block(blocks[k])));
        assert(block_marks.take(k + 1) =~= block_marks.take(k as int).push(block_marks[k as int]));
        k = k + 1;
    }
    assert(block_marks.take(blocks@.len() as int) =~= block_marks);
    proof {
        let m = ps.len() as int;
        assert(row_marks =~= ascending(hit_houses(old_b, ps, m, 0), 9).map_values(|x: int| Highlight::House(HouseIndex::Row(RowIndex::from_int(x))))) by {
            assert forall|q: int| 0 <= q < rows@.len() implies row_marks[q] == Highlight::House(HouseIndex::Row(RowIndex::from_int(rows@[q]@))) by {
                RowIndex::lemma_view_injective(rows@[q], rows@[q]);
            }
            assert(rows@.map_values(|r: RowIndex| r@).len() == rows@.len());
            assert forall|q: int| 0 <= q < rows@.len() implies rows@.map_values(|r: RowIndex| r@)[q] == rows@[q]@ by {}
        }
        assert(column_marks =~= ascending(hit_houses(old_b, ps, m, 1), 9).map_values(|x: int| Highlight::House(HouseIndex::Column(ColumnIndex::from_int(x))))) by {
            assert forall|q: int| 0 <= q < columns@.len() implies column_marks[q] == Highlight::House(HouseIndex::Column(ColumnIndex::from_int(columns@[q]@))) by {
                ColumnIndex::lemma_view_injective(columns@[q], columns@[q]);
            }
            assert(columns@.map_values(|c: ColumnIndex| c@).len() == columns@.len());
            assert forall|q: int| 0 <= q < columns@.len() implies columns@.map_values(|c: ColumnIndex| c@)[q] == columns@[q]@ by {}
        }
        assert(block_marks =~= ascending(hit_houses(old_b, ps, m, 2), 9).map_values(|x: int| Highlight::House(HouseIndex::Block(BlockIndex::from_int(x))))) by {
            assert forall|q: int| 0 <= q < blocks@.len() implies block_marks[q] == Highlight::House(HouseIndex::Block(BlockIndex::from_int(blocks@[q]@))) by {
                BlockIndex::lemma_view_injective(blocks@[q], blocks@[q]);
            }
            assert(blocks@.map_values(|b: BlockIndex| b@).len() == blocks@.len());
            assert forall|q: int| 0 <= q < blocks@.len() implies blocks@.map_values(|b: BlockIndex| b@)[q] == blocks@[q]@ by {}
        }
        assert(highlights@ == primaries_marks(old_b));
    }
    proof {
        assert(ps.take(ps.len() as int) =~= ps);
        assert(board@ =~= after_primaries(old_b));
        if board@ == old_b {
            crate::flags::lemma_ascending(Set::<int>::empty(), 9);
            let e = crate::flags::ascending(Set::<int>::empty(), 9);
            if e.len() > 0 {
                assert(Set::<int>::empty().contains(e[0]));
            }
            assert(rows@.map_values(|d: crate::index::RowIndex| d@).len() == 0);
            assert(columns@.map_values(|d: crate::index::ColumnIndex| d@).len() == 0);
            assert(blocks@.map_values(|d: crate::index::BlockIndex| d@).len() == 0);
        }
        lemma_primaries_sound(old_b);
    }
    if highlights.len() > 0 {
        ControlFlow::Break(highlights)
    } else {
        ControlFlow::Continue(())
    }
}

/// Removing placed digits from the cells that see them keeps every solution, and only removes
/// candidates.
pub proof fn lemma_primaries_sound(b: Seq<Set<int>>)
    requires
        b.len() == 81,
        forall|i: int| 0 <= i < 81 ==> (#[trigger] b[i]).finite(),
    ensures
        keeps_solutions(after_primaries(b), b),
        refines(after_primaries(b), b),
{
    let ps = placed_in(b, all_cells());
    assert forall|k: int| 0 <= k < all_cells().len() implies 0 <= (#[trigger] all_cells()[k])@ < b.len() by {
        CellIndex::lemma_cell_of(k);
    }
    lemma_placed_in(b, all_cells());
    assert forall|sol: Seq<int>| is_solution(sol) && admits(b, sol) implies #[trigger] admits(after_primaries(b), sol) by {
        assert forall|i: int| 0 <= i < 81 implies #[trigger] after_primaries(b)[i].contains(sol[i]) by {
            let c = cell_of(i);
            CellIndex::lemma_cell_of(i);
            if primary_eliminations(ps, c).contains(sol[i]) {
                let k = choose|k: int| 0 <= k < ps.len() && #[trigger] elim_pair(ps[k], c, sol[i]);
                let p = ps[k].0;
                assert(placed(b[p@], ps[k].1));
                CellIndex::lemma_flat(p);
                assert(b[p@].contains(sol[p@]));
                assert(sol[p@] == sol[c@]);
            }
        }
    }
}

} // verus!
