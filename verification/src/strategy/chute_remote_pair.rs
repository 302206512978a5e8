use std::ops::ControlFlow;

use vstd::prelude::*;

use crate::board::container::{cut_to, lemma_masked_cut, masked};
use crate::board::SudokuBoard;
use crate::flags::{ascending, full_set, DigitFlags};
use crate::highlight::{digit_marks, pair_marks, Highlight};
use crate::index::cell_index::{cell_of, line_through, sees};
use crate::index::region::{house_cells, in_house, lemma_house_cell_at, lemma_house_cells};
use crate::index::region::{block_cells, chute_cells};
use crate::index::intersect::intersection;
use crate::index::{third, rem3, BlockIndex, CellIndex, ChuteIndex, ColumnIndex, DigitIndex, HouseIndex, LineDirection, RegionIntersection, RowIndex, SudokuRegion};
use crate::rules::{admits, is_solution, keeps_solutions, lemma_house_holds_digit, position_of, refines};

use super::common::{index_combinations, index_combinations_of};

verus! {

/// The two forms of the chute remote pair: one digit of the pair seen in the third box segment,
/// or neither.
#[derive(Copy, Clone, PartialEq, Eq, Debug, Structural)]
pub enum CRPType {
    Single,
    Double,
}

/// The candidates of the pair that some cell of `segment` also has.
pub open spec fn seen_in(b: Seq<Set<int>>, segment: Set<CellIndex>, pair: Set<int>) -> Set<int> {
    pair.filter(|d: int| exists|z: CellIndex| segment.contains(z) && #[trigger] b[z@].contains(d))
}

/// The cell of house `h` that holds digit `d` in the grid.
pub open spec fn holder(sol: Seq<int>, h: HouseIndex, d: int) -> CellIndex {
    house_cells(h)[position_of(sol, h, d)]
}

/// In a grid, house `h` holds each digit in exactly one cell.
proof fn lemma_holder(sol: Seq<int>, h: HouseIndex, d: int)
    requires
        is_solution(sol),
        0 <= d < 9,
    ensures
        in_house(h, holder(sol, h, d)),
        sol[holder(sol, h, d)@] == d,
        forall|z: CellIndex| in_house(h, z) && #[trigger] sol[z@] == d ==> z == holder(sol, h, d),
{
    lemma_house_holds_digit(sol, h, d);
    lemma_house_cell_at(h, position_of(sol, h, d));
    assert forall|z: CellIndex| in_house(h, z) && #[trigger] sol[z@] == d implies z == holder(sol, h, d) by {
        lemma_house_cell_at(h, 0);
    }
}

/// Two cells of one house hold different digits in a grid.
proof fn lemma_house_distinct(sol: Seq<int>, h: HouseIndex, a: CellIndex, z: CellIndex)
    requires
        is_solution(sol),
        in_house(h, a),
        in_house(h, z),
        a != z,
    ensures
        sol[a@] != sol[z@],
{
    assert(sees(a, z));
}

/// What a grid that the board allows implies for a chute remote pair (see `lemma_crp_sound`).
pub open spec fn crp_facts(
    b: Seq<Set<int>>,
    sol: Seq<int>,
    cell_0: CellIndex,
    cell_1: CellIndex,
    line_0: HouseIndex,
    line_1: HouseIndex,
    line_other: HouseIndex,
    block_other: HouseIndex,
) -> bool {
    let pair = b[cell_0@];
    let seen = seen_in(b, Set::new(|z: CellIndex| in_house(line_other, z) && in_house(block_other, z)), pair);
    &&& (exists|x: int| seen == Set::<int>::empty().insert(x) && {
        &&& forall|w: CellIndex| in_house(HouseIndex::Block(cell_0.block_of()), w) && in_house(line_1, w) ==> #[trigger] sol[w@] != x
        &&& forall|w: CellIndex| in_house(HouseIndex::Block(cell_1.block_of()), w) && in_house(line_0, w) ==> #[trigger] sol[w@] != x
    }) || seen.len() != 1
    &&& seen == Set::<int>::empty() ==> {
        &&& forall|w: CellIndex| in_house(line_0, w) && w != cell_0 && !in_house(block_other, w) ==> !pair.contains(#[trigger] sol[w@])
        &&& forall|w: CellIndex| in_house(line_1, w) && w != cell_1 && !in_house(block_other, w) ==> !pair.contains(#[trigger] sol[w@])
    }
}

/// The chute remote pair is sound. Two cells with the same two candidates `pair` sit in different
/// lines and blocks of a chute, and the third block lies on their two lines and the third line.
/// When the pair shares a digit, that digit has to sit in the third block's segment of the third
/// line. So with exactly one digit of the pair seen in that segment, that digit is in one of the
/// two cells, and leaves the crossings of each cell's block with the other's line; with neither
/// seen, the two cells hold different digits, each line holds the other digit in the third block,
/// and both digits leave the rest of the two lines.
pub proof fn lemma_crp_sound(
    b: Seq<Set<int>>,
    sol: Seq<int>,
    cell_0: CellIndex,
    cell_1: CellIndex,
    line_0: HouseIndex,
    line_1: HouseIndex,
    line_other: HouseIndex,
    block_other: HouseIndex,
)
    requires
        b.len() == 81,
        is_solution(sol),
        admits(b, sol),
        b[cell_0@] == b[cell_1@],
        b[cell_0@].len() == 2,
        b[cell_0@].finite(),
        in_house(line_0, cell_0),
        in_house(line_1, cell_1),
        !in_house(line_1, cell_0),
        !in_house(line_0, cell_1),
        !sees(cell_0, cell_1),
        !in_house(block_other, cell_0),
        !in_house(block_other, cell_1),
        forall|z: CellIndex| #[trigger] in_house(block_other, z) ==> in_house(line_0, z) || in_house(line_1, z) || in_house(line_other, z),
    ensures
        crp_facts(b, sol, cell_0, cell_1, line_0, line_1, line_other, block_other),
{
    let pair = b[cell_0@];
    let segment = Set::new(|z: CellIndex| in_house(line_other, z) && in_house(block_other, z));
    let seen = seen_in(b, segment, pair);
    CellIndex::lemma_flat(cell_0);
    CellIndex::lemma_flat(cell_1);
    let a = sol[cell_0@];
    let bb = sol[cell_1@];
    assert(pair.contains(a) && pair.contains(bb));
    assert(0 <= a < 9 && 0 <= bb < 9);
    // A digit in both cells sits in the segment.
    assert forall|v: int| a == v && bb == v implies #[trigger] seen.contains(v) by {
        lemma_holder(sol, block_other, v);
        let z = holder(sol, block_other, v);
        CellIndex::lemma_flat(z);
        if in_house(line_0, z) {
            lemma_house_distinct(sol, line_0, cell_0, z);
        } else if in_house(line_1, z) {
            lemma_house_distinct(sol, line_1, cell_1, z);
        } else {
            assert(segment.contains(z) && b[z@].contains(v));
        }
    }
    // The pair is exactly the two digits when they differ.
    if a != bb {
        assert forall|v: int| pair.contains(v) implies v == a || v == bb by {
            if v != a && v != bb {
                let three = Set::<int>::empty().insert(a).insert(bb).insert(v);
                assert(three.subset_of(pair));
                vstd::set_lib::lemma_len_subset(three, pair);
            }
        }
    }
    if seen.len() == 1 {
        let x = seen.choose();
        vstd::set_lib::lemma_set_empty_equivalency_len(seen);
        assert(seen.finite()) by {
            assert(seen.subset_of(pair));
            vstd::set_lib::lemma_set_subset_finite(pair, seen);
        }
        assert(seen.contains(x));
        assert(seen == Set::<int>::empty().insert(x)) by {
            assert forall|v: int| seen.contains(v) implies v == x by {
                if v != x {
                    let two = Set::<int>::empty().insert(x).insert(v);
                    assert(two.subset_of(seen));
                    vstd::set_lib::lemma_len_subset(two, seen);
                }
            }
            assert(seen =~= Set::<int>::empty().insert(x));
        }
        assert(pair.contains(x));
        if a == bb {
            assert(seen.contains(a));
        }
        assert(x == a || x == bb);
        assert forall|w: CellIndex| in_house(HouseIndex::Block(cell_0.block_of()), w) && in_house(line_1, w) implies #[trigger] sol[w@] != x by {
            CellIndex::lemma_flat(w);
            if x == a {
                lemma_house_distinct(sol, HouseIndex::Block(cell_0.block_of()), cell_0, w);
            } else {
                lemma_house_distinct(sol, line_1, cell_1, w);
            }
        }
        assert forall|w: CellIndex| in_house(HouseIndex::Block(cell_1.block_of()), w) && in_house(line_0, w) implies #[trigger] sol[w@] != x by {
            CellIndex::lemma_flat(w);
            if x == a {
                lemma_house_distinct(sol, line_0, cell_0, w);
            } else {
                lemma_house_distinct(sol, HouseIndex::Block(cell_1.block_of()), cell_1, w);
            }
        }
    }
    if seen == Set::<int>::empty() {
        assert(a != bb) by {
            if a == bb {
                assert(seen.contains(a));
            }
        }
        // Each digit of the pair sits in the third block on the line of the cell without it.
        lemma_holder(sol, block_other, bb);
        let y0 = holder(sol, block_other, bb);
        CellIndex::lemma_flat(y0);
        if in_house(line_1, y0) {
            lemma_house_distinct(sol, line_1, cell_1, y0);
        }
        if in_house(line_other, y0) {
            assert(segment.contains(y0) && b[y0@].contains(bb));
            assert(seen.contains(bb));
        }
        assert(in_house(line_0, y0));
        lemma_holder(sol, block_other, a);
        let y1 = holder(sol, block_other, a);
        CellIndex::lemma_flat(y1);
        if in_house(line_0, y1) {
            lemma_house_distinct(sol, line_0, cell_0, y1);
        }
        if in_house(line_other, y1) {
            assert(segment.contains(y1) && b[y1@].contains(a));
            assert(seen.contains(a));
        }
        assert(in_house(line_1, y1));
        lemma_holder(sol, line_0, bb);
        lemma_holder(sol, line_1, a);
        assert forall|w: CellIndex| in_house(line_0, w) && w != cell_0 && !in_house(block_other, w) implies !pair.contains(#[trigger] sol[w@]) by {
            CellIndex::lemma_flat(w);
            lemma_house_distinct(sol, line_0, cell_0, w);
            if sol[w@] == bb {
                assert(w == holder(sol, line_0, bb));
                assert(y0 == holder(sol, line_0, bb));
            }
        }
        assert forall|w: CellIndex| in_house(line_1, w) && w != cell_1 && !in_house(block_other, w) implies !pair.contains(#[trigger] sol[w@]) by {
            CellIndex::lemma_flat(w);
            lemma_house_distinct(sol, line_1, cell_1, w);
            if sol[w@] == a {
                assert(w == holder(sol, line_1, a));
                assert(y1 == holder(sol, line_1, a));
            }
        }
    }
}

/// The chute's blocks are the blocks it holds, and every cell listed for the chute lies in one of
/// its blocks.
proof fn lemma_chute_blocks(ch: ChuteIndex)
    ensures
        forall|m: int| 0 <= m < 3 ==> ch.holds_block(#[trigger] ch.block_at(m)),
        forall|k: int| 0 <= k < 27 ==> ch.holds_block((#[trigger] chute_cells(ch)[k]).block_of()),
{
    assert forall|m: int| 0 <= m < 3 implies ch.holds_block(#[trigger] ch.block_at(m)) by {
        BlockIndex::lemma_from_int(3 * m + ch.index_of());
        BlockIndex::lemma_from_int(3 * ch.index_of() + m);
    }
    assert forall|k: int| 0 <= k < 27 implies ch.holds_block((#[trigger] chute_cells(ch)[k]).block_of()) by {
        let m = k / 9;
        let b = ch.block_at(m);
        lemma_house_cells(HouseIndex::Block(b));
        assert(in_house(HouseIndex::Block(b), house_cells(HouseIndex::Block(b))[k % 9]));
        BlockIndex::lemma_from_int(3 * m + ch.index_of());
        BlockIndex::lemma_from_int(3 * ch.index_of() + m);
    }
}

/// In a chute, a block of the chute lies on the chute's three lines: with two cells of the chute
/// in different lines and a third line of the chute apart from theirs, every cell of the block
/// is on one of the three.
proof fn lemma_third_block_lines(ch: ChuteIndex, cell_0: CellIndex, cell_1: CellIndex, k: int, m: int)
    requires
        ch.holds_block(cell_0.block_of()),
        ch.holds_block(cell_1.block_of()),
        0 <= k < 3,
        0 <= m < 3,
        !sees(cell_0, cell_1),
        ch.line_at(k) != line_through(cell_0, ch.direction_of()),
        ch.line_at(k) != line_through(cell_1, ch.direction_of()),
    ensures
        forall|z: CellIndex| #[trigger] in_house(HouseIndex::Block(ch.block_at(m)), z) ==> in_house(line_through(cell_0, ch.direction_of()), z)
            || in_house(line_through(cell_1, ch.direction_of()), z) || in_house(ch.line_at(k), z),
{
    let t = ch.index_of();
    RowIndex::lemma_view_injective(cell_0.0, cell_1.0);
    ColumnIndex::lemma_view_injective(cell_0.1, cell_1.1);
    BlockIndex::lemma_from_int(3 * third(cell_0.0@) + third(cell_0.1@));
    BlockIndex::lemma_from_int(3 * third(cell_1.0@) + third(cell_1.1@));
    RowIndex::lemma_from_int(3 * t + k);
    ColumnIndex::lemma_from_int(3 * t + k);
    BlockIndex::lemma_from_int(3 * m + t);
    BlockIndex::lemma_from_int(3 * t + m);
    assert forall|z: CellIndex| #[trigger] in_house(HouseIndex::Block(ch.block_at(m)), z) implies in_house(line_through(cell_0, ch.direction_of()), z)
        || in_house(line_through(cell_1, ch.direction_of()), z) || in_house(ch.line_at(k), z) by {
        RowIndex::lemma_view_injective(z.0, cell_0.0);
        RowIndex::lemma_view_injective(z.0, cell_1.0);
        ColumnIndex::lemma_view_injective(z.1, cell_0.1);
        ColumnIndex::lemma_view_injective(z.1, cell_1.1);
        RowIndex::lemma_view_injective(z.0, RowIndex::from_int(3 * t + k));
        ColumnIndex::lemma_view_injective(z.1, ColumnIndex::from_int(3 * t + k));
        BlockIndex::lemma_from_int(3 * third(z.0@) + third(z.1@));
    }
}

/// Two cells of a chute with the same two candidates, in different lines and blocks: the start
/// of a chute remote pair.
pub open spec fn crp_pattern(b: Seq<Set<int>>, ch: ChuteIndex, c0: CellIndex, c1: CellIndex) -> bool {
    &&& ch.holds_block(c0.block_of())
    &&& ch.holds_block(c1.block_of())
    &&& b[c0@].len() == 2
    &&& b[c0@] == b[c1@]
    &&& !sees(c0, c1)
}

/// The chute remote pair of `c0` and `c1`, with third line `lo` and third block `bo`, removes
/// nothing: with one of the pair's digits seen in the segment of `lo` in `bo` (`Single`), that
/// digit is already gone from the two crossing segments; with none seen (`Double`), the pair's
/// digits are already gone from the two lines outside `bo`.
pub open spec fn crp_clear(
    b: Seq<Set<int>>,
    c0: CellIndex,
    c1: CellIndex,
    dir: LineDirection,
    lo: HouseIndex,
    bo: BlockIndex,
    t: CRPType,
) -> bool {
    let l0 = line_through(c0, dir);
    let l1 = line_through(c1, dir);
    let seen = seen_in(b, Set::new(|z: CellIndex| in_house(lo, z) && in_house(HouseIndex::Block(bo), z)), b[c0@]);
    match t {
        CRPType::Single => seen.len() == 1 ==> forall|w: CellIndex|
            (in_house(HouseIndex::Block(c0.block_of()), w) && in_house(l1, w)) || (in_house(HouseIndex::Block(c1.block_of()), w)
                && in_house(l0, w)) ==> (#[trigger] b[w@]).disjoint(seen),
        CRPType::Double => seen.len() == 0 ==> forall|w: CellIndex|
            (in_house(l0, w) && w != c0 && w.block_of() != bo) || (in_house(l1, w) && w != c1 && w.block_of() != bo) ==> (
            #[trigger] b[w@]).disjoint(b[c0@]),
    }
}

/// The cells that the chute remote pair of `c0` and `c1` (lines of direction `dir`, third block
/// `bo`) clears: for `Single` the two crossing segments, for `Double` the two lines outside `bo`
/// but for the pair's own cells.
pub open spec fn crp_targets(c0: CellIndex, c1: CellIndex, dir: LineDirection, bo: BlockIndex, t: CRPType, w: CellIndex) -> bool {
    let l0 = line_through(c0, dir);
    let l1 = line_through(c1, dir);
    match t {
        CRPType::Single => (in_house(HouseIndex::Block(c0.block_of()), w) && in_house(l1, w)) || (in_house(HouseIndex::Block(c1.block_of()), w)
            && in_house(l0, w)),
        CRPType::Double => (in_house(l0, w) && w != c0 && w.block_of() != bo) || (in_house(l1, w) && w != c1 && w.block_of() != bo),
    }
}

/// The digits that the chute remote pair takes from its targets: for `Single` the digit of the
/// pair seen in the segment of `lo` in `bo`, for `Double` both digits of the pair.
pub open spec fn crp_removed(b: Seq<Set<int>>, c0: CellIndex, lo: HouseIndex, bo: BlockIndex, t: CRPType) -> Set<int> {
    match t {
        CRPType::Single => seen_in(b, Set::new(|z: CellIndex| in_house(lo, z) && in_house(HouseIndex::Block(bo), z)), b[c0@]),
        CRPType::Double => b[c0@],
    }
}

/// The board after the chute remote pair of `c0` and `c1` with third line `lo` and third block `bo`.
pub open spec fn after_crp(b: Seq<Set<int>>, c0: CellIndex, c1: CellIndex, dir: LineDirection, lo: HouseIndex, bo: BlockIndex, t: CRPType) -> Seq<
    Set<int>,
> {
    cut_to(b, full_set().difference(crp_removed(b, c0, lo, bo, t)), |w: CellIndex| crp_targets(c0, c1, dir, bo, t, w))
}

/// The chute remote pair of kind `t` on cells `c0` and `c1` of chute `ch`, with the chute's
/// third line `k` and third block `m`, removes a candidate.
pub open spec fn crp_applies(b: Seq<Set<int>>, ch: ChuteIndex, c0: CellIndex, c1: CellIndex, k: int, m: int, t: CRPType) -> bool {
    &&& crp_pattern(b, ch, c0, c1)
    &&& crp_third(ch, c0, c1, k, m)
    &&& !crp_clear(b, c0, c1, ch.direction_of(), ch.line_at(k), ch.block_at(m), t)
}

/// The position of a chute in the order in which they are searched: the vertical ones, then the
/// horizontal ones.
pub open spec fn chute_order(ch: ChuteIndex) -> int {
    match ch {
        ChuteIndex::V1 => 0,
        ChuteIndex::V2 => 1,
        ChuteIndex::V3 => 2,
        ChuteIndex::H1 => 3,
        ChuteIndex::H2 => 4,
        ChuteIndex::H3 => 5,
    }
}

/// No chute remote pair of kind `t` in a chute searched before `ch` removes a candidate.
pub open spec fn crp_clear_before(b: Seq<Set<int>>, ch: ChuteIndex, t: CRPType) -> bool {
    forall|ch2: ChuteIndex| chute_order(ch2) < chute_order(ch) ==> #[trigger] crp_chute_done(b, ch2, t)
}

/// Marks of each digit of `ds` in turn on every cell of `cells`.
pub open spec fn all_marks(cells: Seq<CellIndex>, ds: Seq<int>) -> Seq<Highlight>
    decreases ds.len(),
{
    if ds.len() == 0 {
        Seq::empty()
    } else {
        all_marks(cells, ds.drop_last()) + digit_marks(cells, ds.last())
    }
}

/// The highlights of the chute remote pair of `c0` and `c1` with third line `lo` and third
/// block `bo`: both digits of the pair in both cells, each digit of the pair seen in the
/// segment of `lo` in `bo` on every cell of that segment, then the segment's cells.
pub open spec fn crp_marks(b: Seq<Set<int>>, c0: CellIndex, c1: CellIndex, lo: HouseIndex, bo: BlockIndex) -> Seq<Highlight> {
    let segment = intersection(lo, HouseIndex::Block(bo));
    pair_marks(c0, c1, ascending(b[c0@], 9)) + all_marks(
        segment,
        ascending(seen_in(b, Set::new(|z: CellIndex| in_house(lo, z) && in_house(HouseIndex::Block(bo), z)), b[c0@]), 9),
    ) + segment.map_values(|c: CellIndex| Highlight::Cell(c))
}

/// The cells of `cells` with exactly two candidates, in order.
pub open spec fn bivalue_cells_of(b: Seq<Set<int>>, cells: Seq<CellIndex>) -> Seq<CellIndex>
    decreases cells.len(),
{
    if cells.len() == 0 {
        Seq::empty()
    } else if b[cells.last()@].len() == 2 {
        bivalue_cells_of(b, cells.drop_last()).push(cells.last())
    } else {
        bivalue_cells_of(b, cells.drop_last())
    }
}

/// The number of pairs of cells with two candidates in chute `ch`.
pub open spec fn crp_pair_count(b: Seq<Set<int>>, ch: ChuteIndex) -> int {
    index_combinations(bivalue_cells_of(b, chute_cells(ch)).len(), 2).len() as int
}

/// Pair number `q` of the cells with two candidates in chute `ch`, in the order of the index
/// combinations of those cells in chute order; the first cell comes before the second.
pub open spec fn chute_pair(b: Seq<Set<int>>, ch: ChuteIndex, q: int) -> (CellIndex, CellIndex) {
    let cells = bivalue_cells_of(b, chute_cells(ch));
    let c = index_combinations(cells.len(), 2)[q];
    (cells[c[0] as int], cells[c[1] as int])
}

/// No pair of chute `ch` before pair number `q` gives a chute remote pair of kind `t` that
/// removes a candidate.
pub open spec fn crp_pairs_clear_before(b: Seq<Set<int>>, ch: ChuteIndex, q: int, t: CRPType) -> bool {
    forall|q2: int, k: int, m: int|
        #![trigger chute_pair(b, ch, q2), crp_third(ch, chute_pair(b, ch, q2).0, chute_pair(b, ch, q2).1, k, m)]
        0 <= q2 < q && crp_pattern(b, ch, chute_pair(b, ch, q2).0, chute_pair(b, ch, q2).1) && crp_third(
            ch,
            chute_pair(b, ch, q2).0,
            chute_pair(b, ch, q2).1,
            k,
            m,
        ) ==> crp_clear(b, chute_pair(b, ch, q2).0, chute_pair(b, ch, q2).1, ch.direction_of(), ch.line_at(k), ch.block_at(m), t)
}

/// The third line and the third block of a chute for two of its cells.
pub open spec fn crp_third(ch: ChuteIndex, c0: CellIndex, c1: CellIndex, k: int, m: int) -> bool {
    &&& 0 <= k < 3
    &&& 0 <= m < 3
    &&& ch.line_at(k) != line_through(c0, ch.direction_of())
    &&& ch.line_at(k) != line_through(c1, ch.direction_of())
    &&& ch.block_at(m) != c0.block_of()
    &&& ch.block_at(m) != c1.block_of()
}

/// No chute remote pair of kind `t` removes a candidate.
pub open spec fn crp_done(b: Seq<Set<int>>, t: CRPType) -> bool {
    forall|ch: ChuteIndex, c0: CellIndex, c1: CellIndex, k: int, m: int|
        #[trigger] crp_pattern(b, ch, c0, c1) && #[trigger] crp_third(ch, c0, c1, k, m) ==> crp_clear(
            b,
            c0,
            c1,
            ch.direction_of(),
            ch.line_at(k),
            ch.block_at(m),
            t,
        )
}

/// For two cells of a chute in different lines and blocks, the chute has exactly one third line
/// and one third block.
proof fn lemma_crp_third(ch: ChuteIndex, c0: CellIndex, c1: CellIndex)
    requires
        ch.holds_block(c0.block_of()),
        ch.holds_block(c1.block_of()),
        !sees(c0, c1),
    ensures
        exists|k: int, m: int| crp_third(ch, c0, c1, k, m),
        forall|k: int, m: int, k2: int, m2: int| crp_third(ch, c0, c1, k, m) && crp_third(ch, c0, c1, k2, m2) ==> k == k2 && m == m2,
{
    let t = ch.index_of();
    let r0 = c0.0@;
    let r1 = c1.0@;
    let q0 = c0.1@;
    let q1 = c1.1@;
    RowIndex::lemma_view_injective(c0.0, c1.0);
    ColumnIndex::lemma_view_injective(c0.1, c1.1);
    BlockIndex::lemma_from_int(3 * third(r0) + third(q0));
    BlockIndex::lemma_from_int(3 * third(r1) + third(q1));
    assert(c0.block_of() != c1.block_of());
    let (k0, k1, m0, m1) = match ch.direction_of() {
        LineDirection::Horizontal => (rem3(r0), rem3(r1), third(q0), third(q1)),
        LineDirection::Vertical => (rem3(q0), rem3(q1), third(r0), third(r1)),
    };
    assert(k0 != k1);
    assert(m0 != m1);
    assert forall|k: int| 0 <= k < 3 implies (ch.line_at(k) == line_through(c0, ch.direction_of()) <==> k == k0) && (ch.line_at(k)
        == line_through(c1, ch.direction_of()) <==> k == k1) by {
        RowIndex::lemma_from_int(3 * t + k);
        ColumnIndex::lemma_from_int(3 * t + k);
        RowIndex::lemma_view_injective(RowIndex::from_int(3 * t + k), c0.0);
        RowIndex::lemma_view_injective(RowIndex::from_int(3 * t + k), c1.0);
        ColumnIndex::lemma_view_injective(ColumnIndex::from_int(3 * t + k), c0.1);
        ColumnIndex::lemma_view_injective(ColumnIndex::from_int(3 * t + k), c1.1);
    }
    assert forall|m: int| 0 <= m < 3 implies (ch.block_at(m) == c0.block_of() <==> m == m0) && (ch.block_at(m) == c1.block_of() <==> m
        == m1) by {
        BlockIndex::lemma_from_int(3 * t + m);
        BlockIndex::lemma_from_int(3 * m + t);
        BlockIndex::lemma_view_injective(ch.block_at(m), c0.block_of());
        BlockIndex::lemma_view_injective(ch.block_at(m), c1.block_of());
    }
    assert(crp_third(ch, c0, c1, 3 - k0 - k1, 3 - m0 - m1));
}

/// No chute remote pair of kind `t` in chute `ch` removes a candidate.
pub open spec fn crp_chute_done(b: Seq<Set<int>>, ch: ChuteIndex, t: CRPType) -> bool {
    forall|c0: CellIndex, c1: CellIndex, k: int, m: int|
        #[trigger] crp_pattern(b, ch, c0, c1) && #[trigger] crp_third(ch, c0, c1, k, m) ==> crp_clear(
            b,
            c0,
            c1,
            ch.direction_of(),
            ch.line_at(k),
            ch.block_at(m),
            t,
        )
}

/// Every cell of a block of the chute is listed among the chute's cells.
proof fn lemma_chute_cell(ch: ChuteIndex, z: CellIndex)
    requires
        ch.holds_block(z.block_of()),
    ensures
        exists|q: int| 0 <= q < 27 && chute_cells(ch)[q] == z,
{
    let b = z.block_of();
    let t = ch.index_of();
    BlockIndex::lemma_view_injective(b, b);
    let m = match ch.direction_of() {
        LineDirection::Horizontal => rem3(b@),
        LineDirection::Vertical => third(b@),
    };
    BlockIndex::lemma_from_int(3 * t + m);
    BlockIndex::lemma_from_int(3 * m + t);
    BlockIndex::lemma_view_injective(ch.block_at(m), b);
    assert(ch.block_at(m) == b);
    lemma_house_cells(HouseIndex::Block(b));
    assert(in_house(HouseIndex::Block(b), z));
    assert(house_cells(HouseIndex::Block(b)).contains(z));
    let p = choose|p: int| 0 <= p < 9 && house_cells(HouseIndex::Block(b))[p] == z;
    assert(chute_cells(ch)[9 * m + p] == block_cells(ch.block_at(m))[p]);
}

/// The line of the chute that is neither `line_0` nor `line_1`, if any.
fn other_line(lines: &Vec<HouseIndex>, line_0: HouseIndex, line_1: HouseIndex) -> (r: Option<HouseIndex>)
    ensures
        r matches Some(h) ==> lines@.contains(h) && h != line_0 && h != line_1,
        r is None ==> forall|k: int| 0 <= k < lines@.len() ==> #[trigger] lines@[k] == line_0 || lines@[k] == line_1,
{
    let mut i: usize = 0;
    while i < lines.len()
        invariant
            i <= lines@.len(),
            forall|k: int| 0 <= k < i ==> #[trigger] lines@[k] == line_0 || lines@[k] == line_1,
        decreases lines@.len() - i,
    {
        let h = lines[i];
        if h != line_0 && h != line_1 {
            return Some(h);
        }
        i = i + 1;
    }
    None
}

/// The block of the chute that is neither `block_0` nor `block_1`, if any.
fn other_block(blocks: &Vec<BlockIndex>, block_0: BlockIndex, block_1: BlockIndex) -> (r: Option<BlockIndex>)
    ensures
        r matches Some(b) ==> blocks@.contains(b) && b != block_0 && b != block_1,
        r is None ==> forall|m: int| 0 <= m < blocks@.len() ==> #[trigger] blocks@[m] == block_0 || blocks@[m] == block_1,
{
    let mut i: usize = 0;
    while i < blocks.len()
        invariant
            i <= blocks@.len(),
            forall|m: int| 0 <= m < i ==> #[trigger] blocks@[m] == block_0 || blocks@[m] == block_1,
        decreases blocks@.len() - i,
    {
        let b = blocks[i];
        if b != block_0 && b != block_1 {
            return Some(b);
        }
        i = i + 1;
    }
    None
}

/// The cells of `line`, other than `except`, outside `block`, in line order.
fn line_cells_outside(line: HouseIndex, except: CellIndex, block: BlockIndex) -> (r: Vec<CellIndex>)
    ensures
        forall|c: CellIndex| r@.contains(c) <==> (in_house(line, c) && c != except && c.block_of() != block),
{
    broadcast use vstd::seq_lib::lemma_seq_contains_after_push;
    proof {
        lemma_house_cells(line);
    }
    let cells = line.cell_indices();
    let mut r: Vec<CellIndex> = Vec::new();
    let mut i: usize = 0;
    while i < cells.len()
        invariant
            i <= cells@.len(),
            cells@ == house_cells(line),
            forall|c: CellIndex| r@.contains(c) <==> (cells@.take(i as int).contains(c) && c != except && c.block_of() != block),
        decreases cells@.len() - i,
    {
        let idx = cells[i];
        let ghost before = r@;
        if idx != except && idx.block() != block {
            r.push(idx);
        }
        assert(cells@.take(i + 1) =~= cells@.take(i as int).push(idx));
        assert forall|c: CellIndex| r@.contains(c) <==> (cells@.take(i + 1).contains(c) && c != except && c.block_of() != block) by {
            vstd::seq_lib::lemma_seq_contains_after_push(cells@.take(i as int), idx, c);
            vstd::seq_lib::lemma_seq_contains_after_push(before, idx, c);
        }
        i = i + 1;
    }
    assert(cells@.take(cells@.len() as int) =~= cells@);
    r
}

/// The candidates that the listed cells have, together.
fn candidates_of(board: &SudokuBoard, cells: &Vec<CellIndex>) -> (r: DigitFlags)
    ensures
        forall|d: int| r@.contains(d) <==> exists|k: int| 0 <= k < cells@.len() && #[trigger] board@[cells@[k]@].contains(d),
{
    let mut acc = DigitFlags::zero();
    let mut k: usize = 0;
    while k < cells.len()
        invariant
            k <= cells@.len(),
            forall|d: int| acc@.contains(d) <==> exists|t: int| 0 <= t < k && #[trigger] board@[cells@[t]@].contains(d),
        decreases cells@.len() - k,
    {
        let ghost before = acc@;
        acc = acc.union(board.get(cells[k]).digit_flags());
        assert forall|d: int| acc@.contains(d) <==> exists|t: int| 0 <= t < k + 1 && #[trigger] board@[cells@[t]@].contains(d) by {
            if acc@.contains(d) && !before.contains(d) {
                assert(board@[cells@[k as int]@].contains(d));
            }
            if exists|t: int| 0 <= t < k + 1 && #[trigger] board@[cells@[t]@].contains(d) {
                let t = choose|t: int| 0 <= t < k + 1 && #[trigger] board@[cells@[t]@].contains(d);
                if t < k {
                    assert(before.contains(d));
                }
            }
        }
        k = k + 1;
    }
    acc
}

/// Appends each of `cells` to `dst`.
fn append_cells(dst: &mut Vec<CellIndex>, cells: &Vec<CellIndex>)
    ensures
        final(dst)@ == old(dst)@ + cells@,
{
    let mut k: usize = 0;
    while k < cells.len()
        invariant
            k <= cells@.len(),
            dst@ == old(dst)@ + cells@.take(k as int),
        decreases cells@.len() - k,
    {
        dst.push(cells[k]);
        assert(cells@.take(k + 1) =~= cells@.take(k as int).push(cells@[k as int]));
        k = k + 1;
    }
    assert(cells@.take(cells@.len() as int) =~= cells@);
}

/// A cell is in a concatenation exactly when it is in one of the parts.
proof fn lemma_concat_contains(a: Seq<CellIndex>, b: Seq<CellIndex>, c: CellIndex)
    ensures
        (a + b).contains(c) <==> (a.contains(c) || b.contains(c)),
{
    if (a + b).contains(c) {
        let t = choose|t: int| 0 <= t < (a + b).len() && (a + b)[t] == c;
        if t >= a.len() {
            assert(b[t - a.len()] == c);
        }
    }
    if a.contains(c) {
        let t = choose|t: int| 0 <= t < a.len() && a[t] == c;
        assert((a + b)[t] == c);
    }
    if b.contains(c) {
        let t = choose|t: int| 0 <= t < b.len() && b[t] == c;
        assert((a + b)[a.len() + t] == c);
    }
}

/// The highlights of a chute remote pair: both digits of the pair in both cells, then each
/// digit seen in the segment on every cell of the segment, then the segment's cells.
fn crp_highlights(cell_0: CellIndex, cell_1: CellIndex, pair: DigitFlags, seen: DigitFlags, segment: &Vec<CellIndex>) -> (r: Vec<Highlight>)
    ensures
        r@ == pair_marks(cell_0, cell_1, ascending(pair@, 9)) + all_marks(segment@, ascending(seen@, 9)) + segment@.map_values(
            |c: CellIndex| Highlight::Cell(c),
        ),
{
    let mut highlights: Vec<Highlight> = Vec::new();
    let digits = pair.iter();
    let ghost ds = digits@.map_values(|d: DigitIndex| d@);
    let mut k: usize = 0;
    while k < digits.len()
        invariant
            k <= digits@.len(),
            ds == digits@.map_values(|d: DigitIndex| d@),
            highlights@ == pair_marks(cell_0, cell_1, ds.take(k as int)),
        decreases digits@.len() - k,
    {
        proof {
            DigitIndex::lemma_view_injective(digits@[k as int], digits@[k as int]);
            assert(ds.take(k + 1).drop_last() =~= ds.take(k as int));
        }
        highlights.push(Highlight::Digit((cell_0, digits[k])));
        highlights.push(Highlight::Digit((cell_1, digits[k])));
        k = k + 1;
    }
    proof {
        assert(ds.take(digits@.len() as int) =~= ds);
    }
    let ghost first = highlights@;
    let seen_digits = seen.iter();
    let ghost ss = seen_digits@.map_values(|d: DigitIndex| d@);
    let mut k: usize = 0;
    while k < seen_digits.len()
        invariant
            k <= seen_digits@.len(),
            ss == seen_digits@.map_values(|d: DigitIndex| d@),
            highlights@ == first + all_marks(segment@, ss.take(k as int)),
        decreases seen_digits@.len() - k,
    {
        let d = seen_digits[k];
        proof {
            DigitIndex::lemma_view_injective(d, d);
            assert(ss.take(k + 1).drop_last() =~= ss.take(k as int));
        }
        let ghost before = highlights@;
        let mut t: usize = 0;
        while t < segment.len()
            invariant
                t <= segment@.len(),
                d == DigitIndex::from_int(d@),
                highlights@ == before + digit_marks(segment@.take(t as int), d@),
            decreases segment@.len() - t,
        {
            highlights.push(Highlight::Digit((segment[t], d)));
            assert(digit_marks(segment@.take(t + 1), d@) =~= digit_marks(segment@.take(t as int), d@).push(Highlight::Digit((segment@[t as int], d))));
            t = t + 1;
        }
        proof {
            assert(segment@.take(segment@.len() as int) =~= segment@);
            assert(ss[k as int] == d@);
        }
        k = k + 1;
    }
    proof {
        assert(ss.take(seen_digits@.len() as int) =~= ss);
    }
    let ghost second = highlights@;
    let mut t: usize = 0;
    while t < segment.len()
        invariant
            t <= segment@.len(),
            highlights@ == second + segment@.take(t as int).map_values(|c: CellIndex| Highlight::Cell(c)),
        decreases segment@.len() - t,
    {
        highlights.push(Highlight::Cell(segment[t]));
        assert(segment@.take(t + 1).map_values(|c: CellIndex| Highlight::Cell(c)) =~= segment@.take(t as int).map_values(
            |c: CellIndex| Highlight::Cell(c),
        ).push(Highlight::Cell(segment@[t as int])));
        t = t + 1;
    }
    proof {
        assert(segment@.take(segment@.len() as int) =~= segment@);
    }
    highlights
}

/// Every grid that the board allows keeps its digit in the listed cells when the mask holds it.
proof fn lemma_masked_keeps(b: Seq<Set<int>>, cells: Seq<CellIndex>, mask: Set<int>)
    requires
        b.len() == 81,
        forall|sol: Seq<int>, w: CellIndex| is_solution(sol) && admits(b, sol) && cells.contains(w) ==> mask.contains(#[trigger] sol[w@]),
    ensures
        keeps_solutions(masked(b, cells, mask), b),
{
    assert forall|sol: Seq<int>| is_solution(sol) && admits(b, sol) implies #[trigger] admits(masked(b, cells, mask), sol) by {
        assert forall|i: int| 0 <= i < 81 implies #[trigger] masked(b, cells, mask)[i].contains(sol[i]) by {
            CellIndex::lemma_cell_of(i);
            if cells.contains(cell_of(i)) {
                assert(mask.contains(sol[cell_of(i)@]));
            }
        }
    }
}

/// One chute remote pair: tries the two cells, which lie in the chute with two candidates each,
/// and applies the removal of `crp_type` when it applies; the highlights come back when it
/// removed something.
#[verifier::rlimit(80)]
fn crp_pair(board: &mut SudokuBoard, chute: ChuteIndex, cell_0: CellIndex, cell_1: CellIndex, crp_type: CRPType) -> (r: Option<Vec<Highlight>>)
    requires
        chute.holds_block(cell_0.block_of()),
        chute.holds_block(cell_1.block_of()),
        old(board)@[cell_0@].len() == 2,
    ensures
        r is Some <==> final(board)@ != old(board)@,
        refines(final(board)@, old(board)@),
        keeps_solutions(final(board)@, old(board)@),
        r is None ==> forall|k: int, m: int| crp_pattern(old(board)@, chute, cell_0, cell_1) && #[trigger] crp_third(chute, cell_0, cell_1, k, m)
            ==> crp_clear(old(board)@, cell_0, cell_1, chute.direction_of(), chute.line_at(k), chute.block_at(m), crp_type),
        r matches Some(h) ==> exists|k: int, m: int|
            #[trigger] crp_applies(old(board)@, chute, cell_0, cell_1, k, m, crp_type) && final(board)@ == after_crp(
                old(board)@,
                cell_0,
                cell_1,
                chute.direction_of(),
                chute.line_at(k),
                chute.block_at(m),
                crp_type,
            ) && h@ == crp_marks(old(board)@, cell_0, cell_1, chute.line_at(k), chute.block_at(m)),
{
    let ghost b0 = board@;
    proof {
        SudokuBoard::lemma_view(*board);
        CellIndex::lemma_flat(cell_0);
        CellIndex::lemma_flat(cell_1);
    }
    let cell = board.get(cell_0);
    if !(cell == board.get(cell_1)) || cell_0.visible(&cell_1) {
        return None;
    }
    let direction = chute.direction();
    let line_0 = cell_0.line(direction);
    let line_1 = cell_1.line(direction);
    let block_0 = cell_0.block();
    let block_1 = cell_1.block();
    let lines = chute.lines();
    let blocks = chute.blocks();
    let (line_other, block_other) = match (other_line(&lines, line_0, line_1), other_block(&blocks, block_0, block_1)) {
        (Some(l), Some(bl)) => (l, bl),
        _ => {
            proof {
                if crp_pattern(b0, chute, cell_0, cell_1) {
                    lemma_crp_third(chute, cell_0, cell_1);
                    let (k, m) = choose|k: int, m: int| crp_third(chute, cell_0, cell_1, k, m);
                    assert(lines@[k] == chute.line_at(k));
                    assert(blocks@[m] == chute.block_at(m));
                }
            }
            return None;
        },
    };
    let ghost k_line = choose|k: int| 0 <= k < 3 && lines@[k] == line_other;
    let ghost m_block = choose|m: int| 0 <= m < 3 && blocks@[m] == block_other;
    assert(line_other == chute.line_at(k_line));
    assert(!(line_other is Block));
    let ghost seg_set = Set::new(|z: CellIndex| in_house(line_other, z) && in_house(HouseIndex::Block(block_other), z));
    let segment = line_other.intersect(&block_other);
    proof {
        crate::index::intersect::lemma_cells_in(house_cells(line_other), HouseIndex::Block(block_other), 9);
        lemma_house_cells(line_other);
        assert(house_cells(line_other).take(9) =~= house_cells(line_other));
        assert(segment@ == crate::index::intersect::cells_in(house_cells(line_other), HouseIndex::Block(block_other), 9));
        assert forall|z: CellIndex| segment@.contains(z) <==> seg_set.contains(z) by {
            if segment@.contains(z) {
                assert(crate::index::intersect::cells_in(house_cells(line_other), HouseIndex::Block(block_other), 9).contains(z));
                assert(house_cells(line_other).take(9).contains(z));
                assert(house_cells(line_other).contains(z));
            }
            if seg_set.contains(z) {
                assert(house_cells(line_other).contains(z));
                assert(house_cells(line_other).take(9).contains(z));
            }
        }
    }
    let digits_in_other = candidates_of(board, &segment).intersection(cell.digit_flags());
    let ghost seen = seen_in(b0, seg_set, b0[cell_0@]);
    assert(digits_in_other@ =~= seen) by {
        assert forall|d: int| digits_in_other@.contains(d) <==> seen.contains(d) by {
            if digits_in_other@.contains(d) {
                let k = choose|k: int| 0 <= k < segment@.len() && #[trigger] b0[segment@[k]@].contains(d);
                assert(segment@.contains(segment@[k]));
                assert(seg_set.contains(segment@[k]));
            }
            if seen.contains(d) {
                let z = choose|z: CellIndex| seg_set.contains(z) && #[trigger] b0[z@].contains(d);
                assert(segment@.contains(z));
                let k = choose|k: int| 0 <= k < segment@.len() && segment@[k] == z;
                assert(b0[segment@[k]@].contains(d));
            }
        }
    }
    proof {
        lemma_chute_blocks(chute);
        lemma_third_block_lines(chute, cell_0, cell_1, k_line, m_block);
        assert forall|sol: Seq<int>| is_solution(sol) && admits(b0, sol) implies #[trigger] crp_facts(b0, sol, cell_0, cell_1, line_0, line_1, line_other, HouseIndex::Block(block_other)) by {
            lemma_crp_sound(b0, sol, cell_0, cell_1, line_0, line_1, line_other, HouseIndex::Block(block_other));
        }
    }
    let mut changed = false;
    if digits_in_other.count() == 1 && crp_type == CRPType::Single {
        let mask = digits_in_other.complement();
        let mut roi = block_0.intersect(&line_1);
        proof {
            crate::index::intersect::lemma_cells_in(house_cells(line_1), HouseIndex::Block(block_0), 9);
            lemma_house_cells(line_1);
            assert(house_cells(line_1).take(9) =~= house_cells(line_1));
            crate::index::intersect::lemma_cells_in(house_cells(line_0), HouseIndex::Block(block_1), 9);
            lemma_house_cells(line_0);
            assert(house_cells(line_0).take(9) =~= house_cells(line_0));
        }
        let ghost first = roi@;
        let second = block_1.intersect(&line_0);
        append_cells(&mut roi, &second);
        proof {
            assert forall|sol: Seq<int>, w: CellIndex| is_solution(sol) && admits(b0, sol) && roi@.contains(w) implies mask@.contains(#[trigger] sol[w@]) by {
                lemma_concat_contains(first, second@, w);
                assert(crp_facts(b0, sol, cell_0, cell_1, line_0, line_1, line_other, HouseIndex::Block(block_other)));
                let x = choose|x: int| seen == Set::<int>::empty().insert(x) && {
                    &&& forall|w: CellIndex| in_house(HouseIndex::Block(cell_0.block_of()), w) && in_house(line_1, w) ==> #[trigger] sol[w@] != x
                    &&& forall|w: CellIndex| in_house(HouseIndex::Block(cell_1.block_of()), w) && in_house(line_0, w) ==> #[trigger] sol[w@] != x
                };
                CellIndex::lemma_flat(w);
                assert(0 <= sol[w@] < 9);
            }
            lemma_masked_keeps(b0, roi@, mask@);
        }
        changed = board.apply_mask_cells(&roi, &mask);
        proof {
            assert forall|w: CellIndex| roi@.contains(w) <==> #[trigger] crp_targets(cell_0, cell_1, direction, block_other, crp_type, w) by {
                lemma_concat_contains(first, second@, w);
            }
            lemma_masked_cut(b0, roi@, mask@, |w: CellIndex| crp_targets(cell_0, cell_1, direction, block_other, crp_type, w));
            if changed {
                let w = choose|w: CellIndex| #[trigger] crp_targets(cell_0, cell_1, direction, block_other, crp_type, w) && !b0[w@].subset_of(mask@);
                CellIndex::lemma_flat(w);
                assert(!b0[w@].disjoint(seen));
            }
            if !changed {
                assert forall|w: CellIndex|
                    (in_house(HouseIndex::Block(cell_0.block_of()), w) && in_house(line_1, w)) || (in_house(HouseIndex::Block(cell_1.block_of()), w)
                        && in_house(line_0, w)) implies (#[trigger] b0[w@]).disjoint(seen) by {
                    lemma_concat_contains(first, second@, w);
                    assert(house_cells(line_1).contains(w) || house_cells(line_0).contains(w));
                    assert(roi@.contains(w));
                    CellIndex::lemma_flat(w);
                    assert(masked(b0, roi@, mask@)[w@] == b0[w@]);
                }
            }
        }
    } else if digits_in_other.count() == 0 && crp_type == CRPType::Double {
        let mask = cell.digit_flags().complement();
        let mut roi = line_cells_outside(line_0, cell_0, block_other);
        let ghost first = roi@;
        let second = line_cells_outside(line_1, cell_1, block_other);
        append_cells(&mut roi, &second);
        proof {
            vstd::set_lib::lemma_set_empty_equivalency_len(seen);
            assert(seen.subset_of(b0[cell_0@]));
            vstd::set_lib::lemma_set_subset_finite(b0[cell_0@], seen);
            assert forall|sol: Seq<int>, w: CellIndex| is_solution(sol) && admits(b0, sol) && roi@.contains(w) implies mask@.contains(#[trigger] sol[w@]) by {
                lemma_concat_contains(first, second@, w);
                assert(crp_facts(b0, sol, cell_0, cell_1, line_0, line_1, line_other, HouseIndex::Block(block_other)));
                CellIndex::lemma_flat(w);
                assert(0 <= sol[w@] < 9);
            }
            lemma_masked_keeps(b0, roi@, mask@);
        }
        changed = board.apply_mask_cells(&roi, &mask);
        proof {
            assert forall|w: CellIndex| roi@.contains(w) <==> #[trigger] crp_targets(cell_0, cell_1, direction, block_other, crp_type, w) by {
                lemma_concat_contains(first, second@, w);
            }
            lemma_masked_cut(b0, roi@, mask@, |w: CellIndex| crp_targets(cell_0, cell_1, direction, block_other, crp_type, w));
            if changed {
                let w = choose|w: CellIndex| #[trigger] crp_targets(cell_0, cell_1, direction, block_other, crp_type, w) && !b0[w@].subset_of(mask@);
                CellIndex::lemma_flat(w);
                assert(!b0[w@].disjoint(b0[cell_0@]));
            }
            if !changed {
                assert forall|w: CellIndex|
                    (in_house(line_0, w) && w != cell_0 && w.block_of() != block_other) || (in_house(line_1, w) && w != cell_1 && w.block_of()
                        != block_other) implies (#[trigger] b0[w@]).disjoint(b0[cell_0@]) by {
                    lemma_concat_contains(first, second@, w);
                    assert(roi@.contains(w));
                    CellIndex::lemma_flat(w);
                    assert(masked(b0, roi@, mask@)[w@] == b0[w@]);
                }
            }
        }
    }
    proof {
        lemma_crp_third(chute, cell_0, cell_1);
        assert(crp_third(chute, cell_0, cell_1, k_line, m_block));
        assert(line_other == chute.line_at(k_line));
        assert(block_other == chute.block_at(m_block));
        if !changed {
            assert(crp_clear(b0, cell_0, cell_1, direction, line_other, block_other, crp_type));
        } else {
            assert(crp_pattern(b0, chute, cell_0, cell_1));
            assert(!crp_clear(b0, cell_0, cell_1, direction, line_other, block_other, crp_type));
            assert(crp_applies(b0, chute, cell_0, cell_1, k_line, m_block, crp_type));
        }
    }
    if changed {
        Some(crp_highlights(cell_0, cell_1, cell.digit_flags(), digits_in_other, &segment))
    } else {
        None
    }
}

/// The cells with two candidates among `cells` are cells of the list with two candidates, and
/// every such cell is among them.
proof fn lemma_bivalue_cells_of(b: Seq<Set<int>>, cells: Seq<CellIndex>)
    ensures
        forall|q: int| 0 <= q < bivalue_cells_of(b, cells).len() ==> cells.contains(#[trigger] bivalue_cells_of(b, cells)[q]) && b[bivalue_cells_of(
            b,
            cells,
        )[q]@].len() == 2,
        forall|c: CellIndex| cells.contains(c) && b[c@].len() == 2 ==> #[trigger] bivalue_cells_of(b, cells).contains(c),
    decreases cells.len(),
{
    if cells.len() > 0 {
        let rest = cells.drop_last();
        lemma_bivalue_cells_of(b, rest);
        let r = bivalue_cells_of(b, cells);
        let r0 = bivalue_cells_of(b, rest);
        assert(r =~= (if b[cells.last()@].len() == 2 { r0.push(cells.last()) } else { r0 }));
        assert forall|q: int| 0 <= q < r.len() implies cells.contains(#[trigger] r[q]) && b[r[q]@].len() == 2 by {
            if q < r0.len() {
                assert(r[q] == r0[q]);
                let t = choose|t: int| 0 <= t < rest.len() && rest[t] == r0[q];
                assert(cells[t] == rest[t]);
            } else {
                assert(r[q] == cells.last());
                assert(cells[cells.len() - 1] == cells.last());
            }
        }
        assert forall|c: CellIndex| cells.contains(c) && b[c@].len() == 2 implies #[trigger] r.contains(c) by {
            let t = choose|t: int| 0 <= t < cells.len() && cells[t] == c;
            if t < cells.len() - 1 {
                assert(rest[t] == c);
                assert(rest.contains(c));
                assert(r0.contains(c));
                let u = choose|u: int| 0 <= u < r0.len() && r0[u] == c;
                if b[cells.last()@].len() == 2 {
                    assert(r0.push(cells.last())[u] == c);
                }
                assert(r[u] == c);
            } else {
                assert(r[r.len() - 1] == c);
            }
        }
    }
}

/// The cells of the chute with exactly two candidates, in the chute's order: every such cell,
/// and only those.
fn chute_bivalues(board: &SudokuBoard, chute: ChuteIndex) -> (r: Vec<CellIndex>)
    ensures
        forall|q: int| 0 <= q < r@.len() ==> chute.holds_block((#[trigger] r@[q]).block_of()) && board@[r@[q]@].len() == 2,
        forall|z: CellIndex| chute.holds_block(z.block_of()) && board@[z@].len() == 2 ==> #[trigger] r@.contains(z),
        r@ == bivalue_cells_of(board@, chute_cells(chute)),
{
    let region = board.indexed_region(&chute);
    proof {
        lemma_chute_blocks(chute);
    }
    let ghost cs = chute_cells(chute);
    let mut bv_cells: Vec<CellIndex> = Vec::new();
    let mut k: usize = 0;
    while k < region.len()
        invariant
            k <= region@.len(),
            region@.len() == cs.len(),
            cs == chute_cells(chute),
            chute.region_cells() == cs,
            forall|q: int| 0 <= q < region@.len() ==> (#[trigger] region@[q]).0 == cs[q] && region@[q].1@ == board@[cs[q]@],
            bv_cells@ == bivalue_cells_of(board@, cs.take(k as int)),
        decreases region@.len() - k,
    {
        proof {
            assert(cs.take(k + 1).drop_last() =~= cs.take(k as int));
            assert(cs.take(k + 1).last() == cs[k as int]);
            assert(region@[k as int].0 == cs[k as int]);
        }
        if region[k].1.is_bivalue() {
            bv_cells.push(region[k].0);
        }
        k = k + 1;
    }
    proof {
        assert(cs.take(region@.len() as int) =~= cs);
        lemma_bivalue_cells_of(board@, cs);
        assert forall|q: int| 0 <= q < bv_cells@.len() implies chute.holds_block((#[trigger] bv_cells@[q]).block_of()) && board@[bv_cells@[q]@].len() == 2 by {
            assert(cs.contains(bv_cells@[q]));
            let t = choose|t: int| 0 <= t < cs.len() && cs[t] == bv_cells@[q];
        }
        assert forall|z: CellIndex| chute.holds_block(z.block_of()) && board@[z@].len() == 2 implies #[trigger] bv_cells@.contains(z) by {
            lemma_chute_cell(chute, z);
            let q = choose|q: int| 0 <= q < 27 && chute_cells(chute)[q] == z;
            assert(cs.contains(z));
        }
    }
    bv_cells
}

/// Chute remote pair: two identical bivalue cells of a chute in different lines and blocks.
/// When exactly one of their digits can sit in the third line's segment of the third block
/// (`Single`), that digit leaves the two cells' crossing segments; when neither can (`Double`),
/// both digits leave the rest of the two lines outside the third block. Stops at the first pair
/// for which this removes something.
#[verifier::spinoff_prover]
#[verifier::rlimit(80)]
pub fn apply_chute_remote_pair(board: &mut SudokuBoard, crp_type: CRPType) -> (r: ControlFlow<Vec<Highlight>>)
    ensures
        r is Break <==> final(board)@ != old(board)@,
        refines(final(board)@, old(board)@),
        keeps_solutions(final(board)@, old(board)@),
        r is Continue ==> crp_done(old(board)@, crp_type),
        r matches ControlFlow::Break(hl) ==> exists|ch: ChuteIndex, q: int, k: int, m: int|
            0 <= q < crp_pair_count(old(board)@, ch) && #[trigger] crp_applies(
                old(board)@,
                ch,
                chute_pair(old(board)@, ch, q).0,
                chute_pair(old(board)@, ch, q).1,
                k,
                m,
                crp_type,
            ) && final(board)@ == after_crp(
                old(board)@,
                chute_pair(old(board)@, ch, q).0,
                chute_pair(old(board)@, ch, q).1,
                ch.direction_of(),
                ch.line_at(k),
                ch.block_at(m),
                crp_type,
            ) && crp_clear_before(old(board)@, ch, crp_type) && crp_pairs_clear_before(old(board)@, ch, q, crp_type) && hl@ == crp_marks(
                old(board)@,
                chute_pair(old(board)@, ch, q).0,
                chute_pair(old(board)@, ch, q).1,
                ch.line_at(k),
                ch.block_at(m),
            ),
{
    let ghost b0 = board@;
    let chutes = ChuteIndex::iter();
    let mut ci: usize = 0;
    while ci < chutes.len()
        invariant
            ci <= chutes@.len(),
            chutes@ == seq![ChuteIndex::V1, ChuteIndex::V2, ChuteIndex::V3, ChuteIndex::H1, ChuteIndex::H2, ChuteIndex::H3],
            board@ == b0,
            old(board)@ == b0,
            forall|q: int| 0 <= q < ci ==> crp_chute_done(b0, #[trigger] chutes@[q], crp_type),
        decreases chutes@.len() - ci,
    {
        let chute = chutes[ci];
        let bv_cells = chute_bivalues(board, chute);
        let combos = index_combinations_of(bv_cells.len(), 2);
        let mut p: usize = 0;
        while p < combos.len()
            invariant
                p <= combos@.len(),
                board@ == b0,
                old(board)@ == b0,
                forall|i: int| 0 <= i < combos@.len() ==> super::common::is_combination(#[trigger] combos@[i]@, bv_cells@.len() as nat, 2),
                combos@.map_values(|c: Vec<usize>| c@) == index_combinations(bv_cells@.len() as nat, 2),
                bv_cells@ == bivalue_cells_of(b0, chute_cells(chute)),
                forall|q: int| 0 <= q < bv_cells@.len() ==> chute.holds_block((#[trigger] bv_cells@[q]).block_of()) && board@[bv_cells@[q]@].len() == 2,
                forall|c: Seq<usize>| super::common::is_combination(c, bv_cells@.len() as nat, 2) ==> exists|i: int|
                    0 <= i < combos@.len() && #[trigger] combos@[i]@ == c,
                ci < 6,
                chute == chutes@[ci as int],
                chutes@ == seq![ChuteIndex::V1, ChuteIndex::V2, ChuteIndex::V3, ChuteIndex::H1, ChuteIndex::H2, ChuteIndex::H3],
                forall|q: int| 0 <= q < ci ==> crp_chute_done(b0, #[trigger] chutes@[q], crp_type),
                forall|q: int, c0: CellIndex, c1: CellIndex, k: int, m: int|
                    #![trigger combos@[q], crp_third(chute, c0, c1, k, m)]
                    0 <= q < p && c0 == bv_cells@[combos@[q]@[0] as int] && c1 == bv_cells@[combos@[q]@[1] as int] && crp_pattern(b0, chute, c0, c1)
                        && crp_third(chute, c0, c1, k, m) ==> crp_clear(b0, c0, c1, chute.direction_of(), chute.line_at(k), chute.block_at(m), crp_type),
            decreases combos@.len() - p,
        {
            assert(super::common::is_combination(combos@[p as int]@, bv_cells@.len() as nat, 2));
            let cell_0 = bv_cells[combos[p][0]];
            let cell_1 = bv_cells[combos[p][1]];
            if let Some(highlights) = crp_pair(board, chute, cell_0, cell_1, crp_type) {
                proof {
                    assert(combos@.map_values(|c: Vec<usize>| c@)[p as int] == combos@[p as int]@);
                    assert(chute_pair(b0, chute, p as int) == (cell_0, cell_1));
                    assert forall|q2: int, k: int, m: int|
                        #![trigger chute_pair(b0, chute, q2), crp_third(chute, chute_pair(b0, chute, q2).0, chute_pair(b0, chute, q2).1, k, m)]
                        0 <= q2 < p && crp_pattern(b0, chute, chute_pair(b0, chute, q2).0, chute_pair(b0, chute, q2).1) && crp_third(
                            chute,
                            chute_pair(b0, chute, q2).0,
                            chute_pair(b0, chute, q2).1,
                            k,
                            m,
                        ) implies crp_clear(
                        b0,
                        chute_pair(b0, chute, q2).0,
                        chute_pair(b0, chute, q2).1,
                        chute.direction_of(),
                        chute.line_at(k),
                        chute.block_at(m),
                        crp_type,
                    ) by {
                        assert(combos@.map_values(|c: Vec<usize>| c@)[q2] == combos@[q2]@);
                    }
                    assert forall|ch2: ChuteIndex| chute_order(ch2) < chute_order(chute) implies #[trigger] crp_chute_done(b0, ch2, crp_type) by {
                        assert(chutes@[chute_order(ch2)] == ch2);
                    }
                    assert(crp_clear_before(b0, chute, crp_type));
                    assert(crp_pairs_clear_before(b0, chute, p as int, crp_type));
                    assert(combos@.len() == index_combinations(bv_cells@.len() as nat, 2).len());
                    assert(0 <= p < crp_pair_count(b0, chute));
                    let (k, m) = choose|k: int, m: int|
                        #[trigger] crp_applies(b0, chute, cell_0, cell_1, k, m, crp_type) && board@ == after_crp(
                            b0,
                            cell_0,
                            cell_1,
                            chute.direction_of(),
                            chute.line_at(k),
                            chute.block_at(m),
                            crp_type,
                        ) && highlights@ == crp_marks(b0, cell_0, cell_1, chute.line_at(k), chute.block_at(m));
                    assert(crp_applies(b0, chute, chute_pair(b0, chute, p as int).0, chute_pair(b0, chute, p as int).1, k, m, crp_type));
                }
                return ControlFlow::Break(highlights);
            }
            p = p + 1;
        }
        proof {
            assert forall|c0: CellIndex, c1: CellIndex, k: int, m: int|
                #[trigger] crp_pattern(b0, chute, c0, c1) && #[trigger] crp_third(chute, c0, c1, k, m) implies crp_clear(
                b0,
                c0,
                c1,
                chute.direction_of(),
                chute.line_at(k),
                chute.block_at(m),
                crp_type,
            ) by {
                assert(bv_cells@.contains(c0));
                assert(bv_cells@.contains(c1));
                let i0 = choose|i: int| 0 <= i < bv_cells@.len() && bv_cells@[i] == c0;
                let i1 = choose|i: int| 0 <= i < bv_cells@.len() && bv_cells@[i] == c1;
                assert(c0 != c1);
                if i0 < i1 {
                    let c = seq![i0 as usize, i1 as usize];
                    assert(super::common::is_combination(c, bv_cells@.len() as nat, 2));
                    let q = choose|q: int| 0 <= q < combos@.len() && #[trigger] combos@[q]@ == c;
                    assert(combos@[q]@[0] == i0 as usize);
                } else {
                    let c = seq![i1 as usize, i0 as usize];
                    assert(super::common::is_combination(c, bv_cells@.len() as nat, 2));
                    let q = choose|q: int| 0 <= q < combos@.len() && #[trigger] combos@[q]@ == c;
                    assert(combos@[q]@[0] == i1 as usize);
                    assert(crp_pattern(b0, chute, c1, c0));
                    assert(crp_third(chute, c1, c0, k, m));
                    assert(crp_clear(b0, c1, c0, chute.direction_of(), chute.line_at(k), chute.block_at(m), crp_type));
                }
            }
        }
        ci = ci + 1;
    }
    proof {
        assert forall|ch: ChuteIndex, c0: CellIndex, c1: CellIndex, k: int, m: int|
            #[trigger] crp_pattern(b0, ch, c0, c1) && #[trigger] crp_third(ch, c0, c1, k, m) implies crp_clear(
            b0,
            c0,
            c1,
            ch.direction_of(),
            ch.line_at(k),
            ch.block_at(m),
            crp_type,
        ) by {
            let q = match ch {
                ChuteIndex::V1 => 0int,
                ChuteIndex::V2 => 1int,
                ChuteIndex::V3 => 2int,
                ChuteIndex::H1 => 3int,
                ChuteIndex::H2 => 4int,
                ChuteIndex::H3 => 5int,
            };
            assert(chutes@[q] == ch);
            assert(crp_chute_done(b0, chutes@[q], crp_type));
        }
    }
    ControlFlow::Continue(())
}

} // verus!
