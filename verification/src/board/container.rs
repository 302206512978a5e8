use vstd::prelude::*;

use crate::error::SudokuError;
use crate::flags::{full_set, DigitFlags, SudokuFlags};
use crate::index::basic::{BlockIndex, ColumnIndex, DigitIndex, RowIndex, SudokuIndex};
use crate::index::cell_index::{cell_of, shared_houses_of};
use crate::index::region::house_cells;
use crate::index::{all_houses, CellIndex, HouseIndex, HouseRegion, SudokuRegion};

use super::SudokuCell;

verus! {

/// A 9x9 board of candidate sets, stored row by row.
#[derive(Debug)]
pub struct SudokuBoard(Vec<SudokuCell>);

/// Whether the candidates `s` are down to the single digit `d`.
pub open spec fn placed(s: Set<int>, d: int) -> bool {
    s == Set::<int>::empty().insert(d)
}

/// The placed digits of the listed cells, in list order: `(cell, digit)` for each cell with
/// exactly one candidate.
pub open spec fn placed_in(b: Seq<Set<int>>, cs: Seq<CellIndex>) -> Seq<(CellIndex, int)>
    decreases cs.len(),
{
    if cs.len() == 0 {
        Seq::empty()
    } else {
        let p = placed_in(b, cs.drop_last());
        let c = cs.last();
        if b[c@].len() == 1 {
            p.push((c, b[c@].choose()))
        } else {
            p
        }
    }
}

/// The listed cells with exactly two candidates, in list order, with those candidates.
pub open spec fn bivalues_in(b: Seq<Set<int>>, cs: Seq<CellIndex>) -> Seq<(CellIndex, Set<int>)>
    decreases cs.len(),
{
    if cs.len() == 0 {
        Seq::empty()
    } else {
        let p = bivalues_in(b, cs.drop_last());
        let c = cs.last();
        if b[c@].len() == 2 {
            p.push((c, b[c@]))
        } else {
            p
        }
    }
}

/// The 81 cells in flat order.
pub open spec fn all_cells() -> Seq<CellIndex> {
    Seq::new(81, |i: int| cell_of(i))
}

/// The candidate changes between two boards: `(cell, digit)` for each digit that is a candidate
/// on one board and not on the other, by cell then digit, over the first `t` pairs.
pub open spec fn diff_upto(a: Seq<Set<int>>, b: Seq<Set<int>>, t: int) -> Seq<(int, int)>
    decreases t,
{
    if t <= 0 {
        Seq::empty()
    } else {
        let p = diff_upto(a, b, t - 1);
        let i = (t - 1) / 9;
        let d = (t - 1) % 9;
        if a[i].contains(d) != b[i].contains(d) {
            p.push((i, d))
        } else {
            p
        }
    }
}

/// Whether house `h` has a cell placed on digit `d`.
pub open spec fn house_has(b: Seq<Set<int>>, h: HouseIndex, d: int) -> bool {
    exists|k: int| 0 <= k < 9 && #[trigger] placed(b[house_cells(h)[k]@], d)
}

/// Whether house `h` has a cell placed on each of the nine digits.
pub open spec fn house_complete(b: Seq<Set<int>>, h: HouseIndex) -> bool {
    forall|d: int| 0 <= d < 9 ==> #[trigger] house_has(b, h, d)
}

/// Whether every house has each of the nine digits placed.
pub open spec fn solved(b: Seq<Set<int>>) -> bool {
    forall|h: HouseIndex| house_complete(b, h)
}

/// The positions inside house `h` whose cell has digit `d` as candidate.
pub open spec fn positions_with(b: Seq<Set<int>>, h: HouseIndex, d: int) -> Set<int> {
    Set::new(|k: int| 0 <= k < 9 && b[house_cells(h)[k]@].contains(d))
}

impl SudokuBoard {
    #[verifier::type_invariant]
    spec fn inv(self) -> bool {
        self.0@.len() == 81
    }

    /// The candidates of the 81 cells, in flat order.
    pub closed spec fn view(&self) -> Seq<Set<int>> {
        Seq::new(81, |i: int| self.0@[i]@)
    }

    /// The board has 81 cells, each holding digits of `0..9`.
    pub broadcast proof fn lemma_view(b: SudokuBoard)
        ensures
            #[trigger] b@.len() == 81,
            forall|i: int| 0 <= i < 81 ==> (#[trigger] b@[i]).subset_of(full_set()) && b@[i].finite() && b@[i].len() <= 9,
    {
        assert forall|i: int| 0 <= i < 81 implies (#[trigger] b@[i]).subset_of(full_set()) && b@[i].finite() && b@[i].len() <= 9 by {
            b.0@[i].lemma_view();
        }
    }

    /// The board made of the given 81 cells, in flat order; fails for any other count.
    pub fn new(data: Vec<SudokuCell>) -> (r: Result<Self, SudokuError>)
        ensures
            data@.len() == 81 ==> (r matches Ok(b) && b@ == data@.map_values(|c: SudokuCell| c@)),
            data@.len() != 81 ==> r == Err::<Self, SudokuError>(SudokuError::InvalidBoardSize(data@.len() as usize)),
    {
        if data.len() == CellIndex::COUNT {
            let b = SudokuBoard(data);
            assert(b@ =~= data@.map_values(|c: SudokuCell| c@));
            Ok(b)
        } else {
            Err(SudokuError::InvalidBoardSize(data.len()))
        }
    }

    /// The cell at `idx`.
    pub fn get(&self, idx: CellIndex) -> (r: SudokuCell)
        ensures
            r@ == self@[idx@],
    {
        proof {
            use_type_invariant(self);
        }
        self.0[idx.flat()]
    }

    /// Replaces the cell at `idx`.
    pub fn set(&mut self, idx: CellIndex, value: SudokuCell)
        ensures
            final(self)@ == old(self)@.update(idx@, value@),
    {
        proof {
            use_type_invariant(&*self);
        }
        let i = idx.flat();
        let mut cells = self.iter();
        cells.set(i, value);
        *self = SudokuBoard(cells);
        assert(self@ =~= old(self)@.update(idx@, value@));
    }

    /// Keeps only the candidates in `mask` at cell `idx`; tells whether one was removed.
    pub fn apply_mask(&mut self, idx: CellIndex, mask: &DigitFlags) -> (r: bool)
        ensures
            final(self)@ == old(self)@.update(idx@, old(self)@[idx@].intersect(mask@)),
            r == (old(self)@[idx@].intersect(mask@) != old(self)@[idx@]),
    {
        let mut cell = self.get(idx);
        let changed = cell.apply_mask(mask);
        if changed {
            self.set(idx, cell);
        } else {
            assert(old(self)@.update(idx@, old(self)@[idx@].intersect(mask@)) =~= old(self)@);
        }
        changed
    }

    /// The cells of a region, in the region's order.
    pub fn region<Idx: SudokuRegion>(&self, idx: &Idx) -> (r: Vec<SudokuCell>)
        ensures
            r@.len() == idx.region_cells().len(),
            forall|k: int| 0 <= k < r@.len() ==> (#[trigger] r@[k])@ == self@[idx.region_cells()[k]@],
    {
        let cells = idx.cell_indices();
        let mut r: Vec<SudokuCell> = Vec::new();
        let mut i: usize = 0;
        while i < cells.len()
            invariant
                i <= cells@.len(),
                cells@ == idx.region_cells(),
                r@.len() == i,
                forall|k: int| 0 <= k < i ==> (#[trigger] r@[k])@ == self@[idx.region_cells()[k]@],
            decreases cells@.len() - i,
        {
            r.push(self.get(cells[i]));
            i = i + 1;
        }
        r
    }

    /// The cells of a region together with their indices, in the region's order.
    pub fn indexed_region<Idx: SudokuRegion>(&self, idx: &Idx) -> (r: Vec<(CellIndex, SudokuCell)>)
        ensures
            r@.len() == idx.region_cells().len(),
            forall|k: int| 0 <= k < r@.len() ==> (#[trigger] r@[k]).0 == idx.region_cells()[k] && r@[k].1@ == self@[idx.region_cells()[k]@],
    {
        let cells = idx.cell_indices();
        let mut r: Vec<(CellIndex, SudokuCell)> = Vec::new();
        let mut i: usize = 0;
        while i < cells.len()
            invariant
                i <= cells@.len(),
                cells@ == idx.region_cells(),
                r@.len() == i,
                forall|k: int| 0 <= k < i ==> (#[trigger] r@[k]).0 == idx.region_cells()[k] && r@[k].1@ == self@[idx.region_cells()[k]@],
            decreases cells@.len() - i,
        {
            r.push((cells[i], self.get(cells[i])));
            i = i + 1;
        }
        r
    }

    /// The cells of a house with their positions inside it.
    pub fn enumerate_house<Idx: HouseRegion>(&self, idx: &Idx) -> (r: Vec<(SudokuIndex, SudokuCell)>)
        ensures
            r@.len() == 9,
            forall|k: int| 0 <= k < 9 ==> (#[trigger] r@[k]).0@ == k && r@[k].1@ == self@[idx.region_cells()[k]@],
    {
        proof {
            idx.lemma_nine_cells();
        }
        let cells = self.region(idx);
        let mut r: Vec<(SudokuIndex, SudokuCell)> = Vec::new();
        let mut i: usize = 0;
        while i < 9
            invariant
                i <= 9,
                cells@.len() == 9,
                forall|k: int| 0 <= k < 9 ==> (#[trigger] cells@[k])@ == self@[idx.region_cells()[k]@],
                r@.len() == i,
                forall|k: int| 0 <= k < i ==> (#[trigger] r@[k]).0@ == k && r@[k].1@ == self@[idx.region_cells()[k]@],
            decreases 9 - i,
        {
            r.push((SudokuIndex::from_value(i), cells[i]));
            i = i + 1;
        }
        r
    }

    /// The positions inside the house whose cell has `digit` as candidate.
    pub fn cells_with<Idx: HouseRegion>(&self, house: &Idx, digit: DigitIndex) -> (r: SudokuFlags)
        ensures
            r@ == Set::new(|k: int| 0 <= k < 9 && self@[house.region_cells()[k]@].contains(digit@)),
    {
        let cells = self.enumerate_house(house);
        let mut r = SudokuFlags::zero();
        let mut i: usize = 0;
        while i < 9
            invariant
                i <= 9,
                cells@.len() == 9,
                forall|k: int| 0 <= k < 9 ==> (#[trigger] cells@[k]).0@ == k && cells@[k].1@ == self@[house.region_cells()[k]@],
                r@ == Set::new(|k: int| 0 <= k < i && self@[house.region_cells()[k]@].contains(digit@)),
            decreases 9 - i,
        {
            let (pos, cell) = cells[i];
            if cell.contains(digit) {
                r = r.add(pos);
            }
            assert(r@ =~= Set::new(|k: int| 0 <= k < i + 1 && self@[house.region_cells()[k]@].contains(digit@)));
            i = i + 1;
        }
        r
    }

    /// The set cells of the listed cells, with their digits, in list order.
    pub fn primaries_of(&self, cells: &Vec<CellIndex>) -> (r: Vec<(CellIndex, DigitIndex)>)
        ensures
            r@.map_values(|p: (CellIndex, DigitIndex)| (p.0, p.1@)) == placed_in(self@, cells@),
    {
        let mut r: Vec<(CellIndex, DigitIndex)> = Vec::new();
        let mut i: usize = 0;
        while i < cells.len()
            invariant
                i <= cells@.len(),
                r@.map_values(|p: (CellIndex, DigitIndex)| (p.0, p.1@)) == placed_in(self@, cells@.take(i as int)),
            decreases cells@.len() - i,
        {
            let c = cells[i];
            let cell = self.get(c);
            proof {
                assert(cells@.take(i + 1).drop_last() =~= cells@.take(i as int));
            }
            match cell.digit_value() {
                Some(d) => {
                    proof {
                        cell.lemma_view();
                        assert(cell@.contains(cell@.choose()));
                    }
                    r.push((c, d));
                },
                None => {},
            }
            assert(r@.map_values(|p: (CellIndex, DigitIndex)| (p.0, p.1@)) =~= placed_in(self@, cells@.take(i + 1)));
            i = i + 1;
        }
        assert(cells@.take(cells@.len() as int) =~= cells@);
        r
    }

    /// The set cells of the board, in flat order, with their digits.
    pub fn primaries(&self) -> (r: Vec<(CellIndex, DigitIndex)>)
        ensures
            r@.map_values(|p: (CellIndex, DigitIndex)| (p.0, p.1@)) == placed_in(self@, all_cells()),
    {
        let cells = CellIndex::iter();
        assert(cells@ =~= all_cells());
        self.primaries_of(&cells)
    }

    /// The set cells of a region, in the region's order, with their digits.
    pub fn primaries_in<Idx: SudokuRegion>(&self, region: &Idx) -> (r: Vec<(CellIndex, DigitIndex)>)
        ensures
            r@.map_values(|p: (CellIndex, DigitIndex)| (p.0, p.1@)) == placed_in(self@, region.region_cells()),
    {
        let cells = region.cell_indices();
        self.primaries_of(&cells)
    }

    /// The listed cells with exactly two candidates, in list order, with those candidates.
    pub fn bivalues_of(&self, cells: &Vec<CellIndex>) -> (r: Vec<(CellIndex, DigitFlags)>)
        ensures
            r@.map_values(|p: (CellIndex, DigitFlags)| (p.0, p.1@)) == bivalues_in(self@, cells@),
    {
        let mut r: Vec<(CellIndex, DigitFlags)> = Vec::new();
        let mut i: usize = 0;
        while i < cells.len()
            invariant
                i <= cells@.len(),
                r@.map_values(|p: (CellIndex, DigitFlags)| (p.0, p.1@)) == bivalues_in(self@, cells@.take(i as int)),
            decreases cells@.len() - i,
        {
            let c = cells[i];
            let cell = self.get(c);
            proof {
                assert(cells@.take(i + 1).drop_last() =~= cells@.take(i as int));
            }
            if cell.num_digits() == 2 {
                r.push((c, cell.digit_flags()));
            }
            assert(r@.map_values(|p: (CellIndex, DigitFlags)| (p.0, p.1@)) =~= bivalues_in(self@, cells@.take(i + 1)));
            i = i + 1;
        }
        assert(cells@.take(cells@.len() as int) =~= cells@);
        r
    }

    /// The cells of the board with exactly two candidates, in flat order.
    pub fn bivalues(&self) -> (r: Vec<(CellIndex, DigitFlags)>)
        ensures
            r@.map_values(|p: (CellIndex, DigitFlags)| (p.0, p.1@)) == bivalues_in(self@, all_cells()),
    {
        let cells = CellIndex::iter();
        assert(cells@ =~= all_cells());
        self.bivalues_of(&cells)
    }

    /// The cells of a region with exactly two candidates, in the region's order.
    pub fn bivalues_in<Region: SudokuRegion>(&self, region: &Region) -> (r: Vec<(CellIndex, DigitFlags)>)
        ensures
            r@.map_values(|p: (CellIndex, DigitFlags)| (p.0, p.1@)) == bivalues_in(self@, region.region_cells()),
    {
        let cells = region.cell_indices();
        self.bivalues_of(&cells)
    }

    /// The union of the candidates of the listed cells.
    pub fn digits_of(&self, cells: &Vec<CellIndex>) -> (r: DigitFlags)
        ensures
            forall|d: int| r@.contains(d) <==> exists|k: int| 0 <= k < cells@.len() && #[trigger] self@[cells@[k]@].contains(d),
    {
        let mut r = DigitFlags::zero();
        let mut i: usize = 0;
        while i < cells.len()
            invariant
                i <= cells@.len(),
                forall|d: int| r@.contains(d) <==> exists|k: int| 0 <= k < i && #[trigger] self@[cells@[k]@].contains(d),
            decreases cells@.len() - i,
        {
            let cell = self.get(cells[i]);
            let ghost old_r = r@;
            r = r.union(cell.digit_flags());
            assert forall|d: int| r@.contains(d) <==> exists|k: int| 0 <= k < i + 1 && #[trigger] self@[cells@[k]@].contains(d) by {
                if r@.contains(d) && !old_r.contains(d) {
                    assert(self@[cells@[i as int]@].contains(d));
                }
                if exists|k: int| 0 <= k < i + 1 && #[trigger] self@[cells@[k]@].contains(d) {
                    let k = choose|k: int| 0 <= k < i + 1 && #[trigger] self@[cells@[k]@].contains(d);
                    if k < i {
                        assert(old_r.contains(d));
                    }
                }
            }
            i = i + 1;
        }
        r
    }

    /// The 81 cells, in flat order.
    pub fn iter(&self) -> (r: Vec<SudokuCell>)
        ensures
            r@.len() == 81,
            forall|i: int| 0 <= i < 81 ==> (#[trigger] r@[i])@ == self@[i],
    {
        proof {
            use_type_invariant(self);
        }
        let mut r: Vec<SudokuCell> = Vec::new();
        let mut i: usize = 0;
        while i < 81
            invariant
                i <= 81,
                self.0@.len() == 81,
                r@.len() == i,
                forall|k: int| 0 <= k < i ==> (#[trigger] r@[k])@ == self@[k],
            decreases 81 - i,
        {
            r.push(self.0[i]);
            i = i + 1;
        }
        r
    }

    /// The 81 cells with their indices, in flat order.
    pub fn indexed_iter(&self) -> (r: Vec<(CellIndex, SudokuCell)>)
        ensures
            r@.len() == 81,
            forall|i: int| 0 <= i < 81 ==> (#[trigger] r@[i]).0 == cell_of(i) && r@[i].1@ == self@[i],
    {
        let cells = CellIndex::iter();
        let mut r: Vec<(CellIndex, SudokuCell)> = Vec::new();
        let mut i: usize = 0;
        while i < 81
            invariant
                i <= 81,
                cells@.len() == 81,
                forall|k: int| 0 <= k < 81 ==> #[trigger] cells@[k] == cell_of(k),
                r@.len() == i,
                forall|k: int| 0 <= k < i ==> (#[trigger] r@[k]).0 == cell_of(k) && r@[k].1@ == self@[k],
            decreases 81 - i,
        {
            proof {
                CellIndex::lemma_cell_of(i as int);
            }
            r.push((cells[i], self.get(cells[i])));
            i = i + 1;
        }
        r
    }

    /// Whether every cell still has a candidate.
    pub fn is_valid(&self) -> (r: bool)
        ensures
            r == forall|i: int| 0 <= i < 81 ==> #[trigger] self@[i] != Set::<int>::empty(),
    {
        let cells = self.iter();
        let mut i: usize = 0;
        while i < 81
            invariant
                i <= 81,
                cells@.len() == 81,
                forall|k: int| 0 <= k < 81 ==> (#[trigger] cells@[k])@ == self@[k],
                forall|k: int| 0 <= k < i ==> #[trigger] self@[k] != Set::<int>::empty(),
            decreases 81 - i,
        {
            if !cells[i].is_valid() {
                return false;
            }
            i = i + 1;
        }
        true
    }

    /// Whether every cell is down to at most one candidate.
    pub fn is_finished(&self) -> (r: bool)
        ensures
            r == forall|i: int| 0 <= i < 81 ==> (#[trigger] self@[i]).len() <= 1,
    {
        let cells = self.iter();
        let mut i: usize = 0;
        while i < 81
            invariant
                i <= 81,
                cells@.len() == 81,
                forall|k: int| 0 <= k < 81 ==> (#[trigger] cells@[k])@ == self@[k],
                forall|k: int| 0 <= k < i ==> (#[trigger] self@[k]).len() <= 1,
            decreases 81 - i,
        {
            if cells[i].num_digits() > 1 {
                return false;
            }
            i = i + 1;
        }
        true
    }
}

/// Questions on a list of cells asked of a board: its placed digits, its cells with two
/// candidates, and the union of its candidates.
pub trait SudokuBoardIter {
    fn primaries(self, board: &SudokuBoard) -> Vec<(CellIndex, DigitIndex)>;

    fn bivalues(self, board: &SudokuBoard) -> Vec<(CellIndex, DigitFlags)>;

    fn digits(self, board: &SudokuBoard) -> DigitFlags;
}

impl SudokuBoardIter for Vec<CellIndex> {
    /// The cells of the list placed on one digit, with that digit, in list order.
    fn primaries(self, board: &SudokuBoard) -> (r: Vec<(CellIndex, DigitIndex)>)
        ensures
            r@.map_values(|p: (CellIndex, DigitIndex)| (p.0, p.1@)) == placed_in(board@, self@),
    {
        board.primaries_of(&self)
    }

    /// The cells of the list with exactly two candidates, with those candidates, in list order.
    fn bivalues(self, board: &SudokuBoard) -> (r: Vec<(CellIndex, DigitFlags)>)
        ensures
            r@.map_values(|p: (CellIndex, DigitFlags)| (p.0, p.1@)) == bivalues_in(board@, self@),
    {
        board.bivalues_of(&self)
    }

    /// The union of the candidates of the listed cells.
    fn digits(self, board: &SudokuBoard) -> (r: DigitFlags)
        ensures
            forall|d: int| r@.contains(d) <==> exists|k: int| 0 <= k < self@.len() && #[trigger] board@[self@[k]@].contains(d),
    {
        board.digits_of(&self)
    }
}

/// The position of a house in `all_houses`.
pub open spec fn house_number(h: HouseIndex) -> int {
    match h {
        HouseIndex::Row(r) => r@,
        HouseIndex::Column(c) => 9 + c@,
        HouseIndex::Block(b) => 18 + b@,
    }
}

/// The house listed at position `k` of `all_houses` has house number `k`.
pub proof fn lemma_house_number_at(k: int)
    requires
        0 <= k < 27,
    ensures
        house_number(all_houses()[k]) == k,
{
    if k < 9 {
        RowIndex::lemma_from_int(k);
    } else if k < 18 {
        ColumnIndex::lemma_from_int(k - 9);
    } else {
        BlockIndex::lemma_from_int(k - 18);
    }
}

/// Every house is listed by `all_houses`, at its house number.
pub proof fn lemma_all_houses(h: HouseIndex)
    ensures
        0 <= house_number(h) < 27,
        all_houses()[house_number(h)] == h,
{
    match h {
        HouseIndex::Row(r) => RowIndex::lemma_view_injective(r, r),
        HouseIndex::Column(c) => ColumnIndex::lemma_view_injective(c, c),
        HouseIndex::Block(b) => BlockIndex::lemma_view_injective(b, b),
    }
}

/// The nine digits `0..9` form a set of nine members.
pub proof fn lemma_full_set()
    ensures
        full_set().finite(),
        full_set().len() == 9,
        forall|s: Set<int>| s.subset_of(full_set()) && s.finite() && s.len() == 9 ==> s == full_set(),
{
    vstd::set_lib::lemma_int_range(0, 9);
    assert(full_set() =~= vstd::set_lib::set_int_range(0, 9));
    assert forall|s: Set<int>| s.subset_of(full_set()) && s.finite() && s.len() == 9 implies s == full_set() by {
        vstd::set_lib::lemma_subset_equality(s, full_set());
    }
}

impl SudokuBoard {
    /// Whether every row, column and block has each of the nine digits placed.
    pub fn is_solved(&self) -> (r: bool)
        ensures
            r == solved(self@),
    {
        let houses = HouseIndex::iter();
        let mut i: usize = 0;
        while i < 27
            invariant
                i <= 27,
                houses@ == all_houses(),
                forall|k: int| 0 <= k < i ==> house_complete(self@, #[trigger] all_houses()[k]),
            decreases 27 - i,
        {
            let h = houses[i];
            let cells = self.region(&h);
            let mut placed_digits = DigitFlags::zero();
            let mut j: usize = 0;
            while j < 9
                invariant
                    j <= 9,
                    i < 27,
                    cells@.len() == 9,
                    h == all_houses()[i as int],
                    forall|k: int| 0 <= k < 9 ==> (#[trigger] cells@[k])@ == self@[house_cells(h)[k]@],
                    forall|d: int| placed_digits@.contains(d) <==>
                        exists|k: int| 0 <= k < j && #[trigger] placed(self@[house_cells(h)[k]@], d),
                decreases 9 - j,
            {
                let ghost old_p = placed_digits@;
                let dv = cells[j].digit_value();
                match dv {
                    Some(d) => {
                        placed_digits = placed_digits.add(d);
                    },
                    None => {},
                }
                assert forall|d: int| placed_digits@.contains(d) <==>
                    exists|k: int| 0 <= k < j + 1 && #[trigger] placed(self@[house_cells(h)[k]@], d) by {
                    if old_p.contains(d) {
                        let k = choose|k: int| 0 <= k < j && #[trigger] placed(self@[house_cells(h)[k]@], d);
                        assert(placed(self@[house_cells(h)[k]@], d));
                    }
                    if placed_digits@.contains(d) && !old_p.contains(d) {
                        assert(placed(self@[house_cells(h)[j as int]@], d));
                    }
                    if exists|k: int| 0 <= k < j + 1 && #[trigger] placed(self@[house_cells(h)[k]@], d) {
                        let k = choose|k: int| 0 <= k < j + 1 && #[trigger] placed(self@[house_cells(h)[k]@], d);
                        if k == j {
                            assert(cells@[k]@.len() == 1);
                            assert(dv is Some);
                            assert(cells@[k]@.contains(d));
                            assert(placed_digits@.contains(d));
                        } else {
                            assert(old_p.contains(d));
                        }
                    }
                }
                j = j + 1;
            }
            proof {
                placed_digits.lemma_view();
                lemma_full_set();
                assert(placed_digits@ == full_set() <==> house_complete(self@, h)) by {
                    if house_complete(self@, h) {
                        assert forall|d: int| full_set().contains(d) implies placed_digits@.contains(d) by {
                            assert(house_has(self@, h, d));
                        }
                        assert(placed_digits@ =~= full_set());
                    }
                    if placed_digits@ == full_set() {
                        assert forall|d: int| 0 <= d < 9 implies #[trigger] house_has(self@, h, d) by {
                            assert(placed_digits@.contains(d));
                        }
                    }
                }
            }
            if placed_digits.count() != 9 {
                return false;
            }
            i = i + 1;
        }
        assert forall|h: HouseIndex| house_complete(self@, h) by {
            lemma_all_houses(h);
        }
        true
    }

    /// The candidate changes from `prev` to this board: `(cell, digit)` for each digit that is a
    /// candidate on exactly one of them, by cell then by digit.
    pub fn diff(&self, prev: &SudokuBoard) -> (r: Vec<(CellIndex, DigitIndex)>)
        ensures
            r@.map_values(|p: (CellIndex, DigitIndex)| (p.0@, p.1@)) == diff_upto(self@, prev@, 729),
    {
        let a = self.iter();
        let b = prev.iter();
        let mut r: Vec<(CellIndex, DigitIndex)> = Vec::new();
        let mut t: usize = 0;
        while t < 729
            invariant
                t <= 729,
                a@.len() == 81,
                b@.len() == 81,
                forall|k: int| 0 <= k < 81 ==> (#[trigger] a@[k])@ == self@[k],
                forall|k: int| 0 <= k < 81 ==> (#[trigger] b@[k])@ == prev@[k],
                r@.map_values(|p: (CellIndex, DigitIndex)| (p.0@, p.1@)) == diff_upto(self@, prev@, t as int),
            decreases 729 - t,
        {
            let i = t / 9;
            let d = DigitIndex::from_value(t % 9);
            if a[i].contains(d) != b[i].contains(d) {
                let c = CellIndex(RowIndex::from_value(i / 9), ColumnIndex::from_value(i % 9));
                proof {
                    CellIndex::lemma_cell_of(i as int);
                }
                r.push((c, d));
            }
            assert(r@.map_values(|p: (CellIndex, DigitIndex)| (p.0@, p.1@)) =~= diff_upto(self@, prev@, t + 1));
            t = t + 1;
        }
        r
    }

    /// Whether the two cells share a house in which they are the only two cells with `digit`
    /// as candidate.
    pub fn is_bilocation_link(&self, cell_a: CellIndex, cell_b: CellIndex, digit: DigitIndex) -> (r: bool)
        ensures
            r == exists|k: int| 0 <= k < shared_houses_of(cell_a, cell_b).len()
                && (#[trigger] positions_with(self@, shared_houses_of(cell_a, cell_b)[k], digit@)).len() == 2,
    {
        let shared = cell_a.shared_houses(&cell_b);
        let mut i: usize = 0;
        while i < shared.len()
            invariant
                i <= shared@.len(),
                shared@ == shared_houses_of(cell_a, cell_b),
                forall|k: int| 0 <= k < i ==> (#[trigger] positions_with(self@, shared@[k], digit@)).len() != 2,
            decreases shared@.len() - i,
        {
            let h = shared[i];
            let with = self.cells_with(&h, digit);
            assert(with@ =~= positions_with(self@, h, digit@));
            if with.count() == 2 {
                return true;
            }
            i = i + 1;
        }
        false
    }
}

/// The board `b` with the candidates of the cells in `cells` cut down to `mask`.
pub open spec fn masked(b: Seq<Set<int>>, cells: Seq<CellIndex>, mask: Set<int>) -> Seq<Set<int>> {
    Seq::new(81, |i: int| if cells.contains(cell_of(i)) { b[i].intersect(mask) } else { b[i] })
}

/// The board `b` with the candidates of every cell that `p` picks cut down to `keep`.
pub open spec fn cut_to(b: Seq<Set<int>>, keep: Set<int>, p: spec_fn(CellIndex) -> bool) -> Seq<Set<int>> {
    Seq::new(81, |i: int| if p(cell_of(i)) { b[i].intersect(keep) } else { b[i] })
}

/// Masking the listed cells is cutting the cells they pick down to the mask; when that changes
/// the board, one of them had a candidate outside the mask.
pub proof fn lemma_masked_cut(b: Seq<Set<int>>, cells: Seq<CellIndex>, keep: Set<int>, p: spec_fn(CellIndex) -> bool)
    requires
        b.len() == 81,
        forall|c: CellIndex| cells.contains(c) <==> #[trigger] p(c),
    ensures
        masked(b, cells, keep) == cut_to(b, keep, p),
        masked(b, cells, keep) != b ==> exists|c: CellIndex| #[trigger] p(c) && !b[c@].subset_of(keep),
{
    let m = masked(b, cells, keep);
    assert(m =~= cut_to(b, keep, p));
    if m != b {
        if forall|i: int| 0 <= i < 81 ==> m[i] == b[i] {
            assert(m =~= b);
        }
        let i = choose|i: int| 0 <= i < 81 && m[i] != b[i];
        CellIndex::lemma_cell_of(i);
        if b[i].subset_of(keep) {
            assert(m[i] =~= b[i]);
        }
        assert(p(cell_of(i)) && !b[cell_of(i)@].subset_of(keep));
    }
}

/// The board `b` with digit `d` taken from every cell that `p` picks.
pub open spec fn without_digit(b: Seq<Set<int>>, d: int, p: spec_fn(CellIndex) -> bool) -> Seq<Set<int>> {
    Seq::new(81, |i: int| if p(cell_of(i)) { b[i].remove(d) } else { b[i] })
}

/// Cutting the listed cells down to all digits but `d` takes `d` from them; when that changes the
/// board, one of them had `d`.
pub proof fn lemma_masked_digit(b: Seq<Set<int>>, cells: Seq<CellIndex>, d: int, p: spec_fn(CellIndex) -> bool)
    requires
        b.len() == 81,
        forall|i: int| 0 <= i < 81 ==> (#[trigger] b[i]).subset_of(full_set()),
        forall|c: CellIndex| cells.contains(c) <==> #[trigger] p(c),
    ensures
        masked(b, cells, full_set().remove(d)) == without_digit(b, d, p),
        masked(b, cells, full_set().remove(d)) != b ==> exists|c: CellIndex| #[trigger] p(c) && b[c@].contains(d),
{
    let m = masked(b, cells, full_set().remove(d));
    let w = without_digit(b, d, p);
    assert forall|i: int| 0 <= i < 81 implies #[trigger] m[i] == w[i] by {
        if p(cell_of(i)) {
            assert(m[i] =~= w[i]);
        }
    }
    assert(m =~= w);
    if m != b {
        if forall|i: int| 0 <= i < 81 ==> m[i] == b[i] {
            assert(m =~= b);
        }
        let i = choose|i: int| 0 <= i < 81 && m[i] != b[i];
        CellIndex::lemma_cell_of(i);
        if !b[i].contains(d) {
            assert(m[i] =~= b[i]);
        }
        assert(p(cell_of(i)) && b[cell_of(i)@].contains(d));
    }
}

/// Every member of `placed_in(b, cs)` is a listed cell whose candidates are that one digit.
pub proof fn lemma_placed_in(b: Seq<Set<int>>, cs: Seq<CellIndex>)
    requires
        forall|i: int| 0 <= i < b.len() ==> (#[trigger] b[i]).finite(),
        forall|k: int| 0 <= k < cs.len() ==> 0 <= (#[trigger] cs[k])@ < b.len(),
    ensures
        forall|k: int| 0 <= k < placed_in(b, cs).len() ==> {
            &&& cs.contains(#[trigger] placed_in(b, cs)[k].0)
            &&& placed(b[placed_in(b, cs)[k].0@], placed_in(b, cs)[k].1)
        },
        forall|k: int| 0 <= k < cs.len() && b[cs[k]@].len() == 1 ==> exists|l: int| 0 <= l < placed_in(b, cs).len() && #[trigger] placed_in(b, cs)[l].0 == cs[k],
    decreases cs.len(),
{
    if cs.len() > 0 {
        let init = cs.drop_last();
        assert forall|k: int| 0 <= k < init.len() implies 0 <= (#[trigger] init[k])@ < b.len() by {
            assert(init[k] == cs[k]);
        }
        lemma_placed_in(b, init);
        let p = placed_in(b, init);
        let c = cs.last();
        assert forall|k: int| 0 <= k < placed_in(b, cs).len() implies {
            &&& cs.contains(#[trigger] placed_in(b, cs)[k].0)
            &&& placed(b[placed_in(b, cs)[k].0@], placed_in(b, cs)[k].1)
        } by {
            if k < p.len() {
                assert(placed_in(b, cs)[k] == p[k]);
                let j = choose|j: int| 0 <= j < init.len() && init[j] == p[k].0;
                assert(cs[j] == p[k].0);
            } else {
                assert(cs[cs.len() - 1] == c);
                assert(b[c@].contains(b[c@].choose()));
                crate::board::cell_value::lemma_singleton(b[c@], b[c@].choose());
            }
        }
        assert forall|k: int| 0 <= k < cs.len() && b[cs[k]@].len() == 1 implies exists|l: int| 0 <= l < placed_in(b, cs).len() && #[trigger] placed_in(b, cs)[l].0 == cs[k] by {
            if k < cs.len() - 1 {
                assert(init[k] == cs[k]);
                let l = choose|l: int| 0 <= l < p.len() && #[trigger] p[l].0 == init[k];
                assert(placed_in(b, cs)[l] == p[l]);
            } else {
                assert(placed_in(b, cs)[p.len() as int].0 == c);
            }
        }
    }
}

impl SudokuBoard {
    /// Keeps only the candidates in `mask` in each listed cell; tells whether a candidate was
    /// removed.
    pub fn apply_mask_cells(&mut self, cells: &Vec<CellIndex>, mask: &DigitFlags) -> (r: bool)
        ensures
            final(self)@ == masked(old(self)@, cells@, mask@),
            r == (final(self)@ != old(self)@),
            refines_board(final(self)@, old(self)@),
    {
        let mut changed = false;
        let mut i: usize = 0;
        while i < cells.len()
            invariant
                i <= cells@.len(),
                self@ == masked(old(self)@, cells@.take(i as int), mask@),
                changed == (self@ != old(self)@),
            decreases cells@.len() - i,
        {
            let ghost before = self@;
            let c = cells[i];
            proof {
                CellIndex::lemma_flat(c);
            }
            let ch = self.apply_mask(c, mask);
            proof {
                let m0 = masked(old(self)@, cells@.take(i as int), mask@);
                let m1 = masked(old(self)@, cells@.take(i + 1), mask@);
                assert(cells@.take(i + 1) =~= cells@.take(i as int).push(c));
                assert(cell_of(c@) == c);
                assert forall|j: int| 0 <= j < 81 implies #[trigger] self@[j] == m1[j] by {
                    CellIndex::lemma_cell_of(j);
                    CellIndex::lemma_flat_injective(cell_of(j), c);
                    if j == c@ {
                        assert(cells@.take(i + 1)[i as int] == c);
                        assert(cells@.take(i + 1).contains(c));
                        if cells@.take(i as int).contains(c) {
                            assert(before[j] == old(self)@[j].intersect(mask@));
                            assert(self@[j] =~= old(self)@[j].intersect(mask@));
                        } else {
                            assert(before[j] == old(self)@[j]);
                        }
                    } else {
                        assert(cell_of(j) != c);
                        assert(cells@.take(i + 1).contains(cell_of(j)) == cells@.take(i as int).contains(cell_of(j))) by {
                            if cells@.take(i + 1).contains(cell_of(j)) {
                                let k = choose|k: int| 0 <= k < i + 1 && #[trigger] cells@.take(i + 1)[k] == cell_of(j);
                                assert(k < i);
                                assert(cells@.take(i as int)[k] == cell_of(j));
                            }
                            if cells@.take(i as int).contains(cell_of(j)) {
                                let k = choose|k: int| 0 <= k < i && #[trigger] cells@.take(i as int)[k] == cell_of(j);
                                assert(cells@.take(i + 1)[k] == cell_of(j));
                            }
                        }
                        assert(self@[j] == before[j]);
                    }
                }
                assert(self@ =~= m1);
                assert(before[c@].subset_of(old(self)@[c@]));
                if ch {
                    assert(self@[c@] != before[c@]);
                    if self@[c@] == old(self)@[c@] {
                        assert(before[c@] =~= self@[c@]);
                    }
                    assert(self@[c@] != old(self)@[c@]);
                } else {
                    assert(before.update(c@, before[c@]) =~= before);
                    assert(self@ == before);
                }
            }
            changed = changed || ch;
            i = i + 1;
        }
        assert(cells@.take(cells@.len() as int) =~= cells@);
        changed
    }
}

/// Whether `new` only removes candidates from `old`.
pub open spec fn refines_board(new: Seq<Set<int>>, old: Seq<Set<int>>) -> bool {
    forall|i: int| 0 <= i < 81 ==> (#[trigger] new[i]).subset_of(old[i])
}

impl Clone for SudokuBoard {
    fn clone(&self) -> (r: Self)
        ensures
            r@ == self@,
    {
        let cells = self.iter();
        let r = SudokuBoard(cells);
        assert(r@ =~= self@);
        r
    }
}

impl SudokuBoard {
    /// Whether the two boards have the same candidates in every cell.
    pub fn same_cells(&self, other: &SudokuBoard) -> (r: bool)
        ensures
            r == (self@ == other@),
    {
        let a = self.iter();
        let b = other.iter();
        let mut i: usize = 0;
        while i < 81
            invariant
                i <= 81,
                a@.len() == 81,
                b@.len() == 81,
                forall|k: int| 0 <= k < 81 ==> (#[trigger] a@[k])@ == self@[k],
                forall|k: int| 0 <= k < 81 ==> (#[trigger] b@[k])@ == other@[k],
                forall|k: int| 0 <= k < i ==> self@[k] == #[trigger] other@[k],
            decreases 81 - i,
        {
            if a[i] != b[i] {
                assert(self@[i as int] != other@[i as int]);
                return false;
            }
            i = i + 1;
        }
        proof {
            SudokuBoard::lemma_view(*self);
            SudokuBoard::lemma_view(*other);
        }
        assert(self@ =~= other@);
        true
    }
}

impl PartialEq for SudokuBoard {
    fn eq(&self, other: &Self) -> (r: bool) {
        self.same_cells(other)
    }
}

impl vstd::std_specs::cmp::PartialEqSpecImpl for SudokuBoard {
    open spec fn obeys_eq_spec() -> bool {
        true
    }

    open spec fn eq_spec(&self, other: &Self) -> bool {
        self@ == other@
    }
}

impl Eq for SudokuBoard {
}

} // verus!
