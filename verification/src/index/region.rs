use vstd::prelude::*;

use crate::error::SudokuError;
use super::{rem3, third, BlockIndex, CellIndex, ChuteIndex, ColumnIndex, HouseIndex, RowIndex, SudokuIndex};

verus! {

/// The cells of a row, from left to right.
pub open spec fn row_cells(r: RowIndex) -> Seq<CellIndex> {
    Seq::new(9, |k: int| CellIndex(r, ColumnIndex::from_int(k)))
}

/// The cells of a column, from top to bottom.
pub open spec fn column_cells(c: ColumnIndex) -> Seq<CellIndex> {
    Seq::new(9, |k: int| CellIndex(RowIndex::from_int(k), c))
}

/// The cells of a block, row by row.
pub open spec fn block_cells(b: BlockIndex) -> Seq<CellIndex> {
    Seq::new(
        9,
        |k: int| CellIndex(RowIndex::from_int(3 * third(b@) + third(k)), ColumnIndex::from_int(3 * rem3(b@) + rem3(k))),
    )
}

/// The nine cells of a house, in the house's own order.
pub open spec fn house_cells(h: HouseIndex) -> Seq<CellIndex> {
    match h {
        HouseIndex::Row(r) => row_cells(r),
        HouseIndex::Column(c) => column_cells(c),
        HouseIndex::Block(b) => block_cells(b),
    }
}

/// The 27 cells of a chute: its first block, then its second, then its third.
pub open spec fn chute_cells(ch: ChuteIndex) -> Seq<CellIndex> {
    Seq::new(27, |k: int| block_cells(ch.block_at(k / 9))[k % 9])
}

/// Whether the cell lies in the house.
pub open spec fn in_house(h: HouseIndex, c: CellIndex) -> bool {
    match h {
        HouseIndex::Row(r) => c.0 == r,
        HouseIndex::Column(col) => c.1 == col,
        HouseIndex::Block(b) => c.block_of() == b,
    }
}

/// A house holds a cell exactly when the cell is one of the house's nine cells, and the nine
/// cells are distinct.
pub proof fn lemma_house_cells(h: HouseIndex)
    ensures
        house_cells(h).len() == 9,
        forall|c: CellIndex| house_cells(h).contains(c) <==> in_house(h, c),
        forall|k: int, l: int| 0 <= k < 9 && 0 <= l < 9 && k != l ==> house_cells(h)[k] != house_cells(h)[l],
        forall|k: int| 0 <= k < 9 ==> in_house(h, #[trigger] house_cells(h)[k]),
{
    let s = house_cells(h);
    assert forall|k: int| 0 <= k < 9 implies in_house(h, #[trigger] s[k]) by {
        lemma_house_cell_at(h, k);
    }
    assert forall|c: CellIndex| in_house(h, c) implies s.contains(c) by {
        let k = house_position(h, c);
        lemma_house_cell_at(h, k);
    }
    assert forall|k: int, l: int| 0 <= k < 9 && 0 <= l < 9 && k != l implies s[k] != s[l] by {
        lemma_house_cell_at(h, k);
        lemma_house_cell_at(h, l);
    }
}

/// The position of a cell inside a house that holds it.
pub open spec fn house_position(h: HouseIndex, c: CellIndex) -> int {
    match h {
        HouseIndex::Row(_) => c.1@,
        HouseIndex::Column(_) => c.0@,
        HouseIndex::Block(_) => 3 * rem3(c.0@) + rem3(c.1@),
    }
}

/// The `k`-th cell of a house lies in it at position `k`, and every cell of the house sits at
/// its position.
pub proof fn lemma_house_cell_at(h: HouseIndex, k: int)
    requires
        0 <= k < 9,
    ensures
        in_house(h, house_cells(h)[k]),
        house_position(h, house_cells(h)[k]) == k,
        forall|c: CellIndex| in_house(h, c) ==> 0 <= house_position(h, c) < 9 && (house_cells(h)[house_position(h, c)] == c),
{
    RowIndex::lemma_from_int(k);
    ColumnIndex::lemma_from_int(k);
    match h {
        HouseIndex::Row(r) => {
            assert forall|c: CellIndex| in_house(h, c) implies 0 <= house_position(h, c) < 9 && (house_cells(h)[house_position(h, c)] == c) by {
                ColumnIndex::lemma_view_injective(c.1, c.1);
            }
        },
        HouseIndex::Column(col) => {
            assert forall|c: CellIndex| in_house(h, c) implies 0 <= house_position(h, c) < 9 && (house_cells(h)[house_position(h, c)] == c) by {
                RowIndex::lemma_view_injective(c.0, c.0);
            }
        },
        HouseIndex::Block(b) => {
            BlockIndex::lemma_view_injective(b, b);
            RowIndex::lemma_from_int(3 * third(b@) + third(k));
            ColumnIndex::lemma_from_int(3 * rem3(b@) + rem3(k));
            BlockIndex::lemma_from_int(3 * third(b@) + rem3(b@));
            assert forall|c: CellIndex| in_house(h, c) implies 0 <= house_position(h, c) < 9 && (house_cells(h)[house_position(h, c)] == c) by {
                RowIndex::lemma_view_injective(c.0, c.0);
                ColumnIndex::lemma_view_injective(c.1, c.1);
                let p = house_position(h, c);
                BlockIndex::lemma_from_int(3 * third(c.0@) + third(c.1@));
                RowIndex::lemma_from_int(3 * third(b@) + third(p));
                ColumnIndex::lemma_from_int(3 * rem3(b@) + rem3(p));
                RowIndex::lemma_view_injective(c.0, RowIndex::from_int(3 * third(b@) + third(p)));
                ColumnIndex::lemma_view_injective(c.1, ColumnIndex::from_int(3 * rem3(b@) + rem3(p)));
            }
        },
    }
}

/// A part of the board made of a fixed list of cells.
pub trait SudokuRegion {
    /// The cells of the region, in the region's own order.
    spec fn region_cells(&self) -> Seq<CellIndex>;

    /// How many cells the region has.
    fn cell_count(&self) -> (r: usize)
        ensures
            r == self.region_cells().len(),
    ;

    /// Cell number `flat_index` of the region.
    fn cell_index(&self, flat_index: usize) -> (r: Result<CellIndex, SudokuError>)
        ensures
            flat_index < self.region_cells().len() ==> r == Ok::<CellIndex, SudokuError>(
                self.region_cells()[flat_index as int],
            ),
    ;

    /// All the cells of the region, in order.
    fn cell_indices(&self) -> (r: Vec<CellIndex>)
        ensures
            r@ == self.region_cells(),
    {
        let n = self.cell_count();
        let mut r: Vec<CellIndex> = Vec::new();
        let mut i: usize = 0;
        while i < n
            invariant
                i <= n,
                n == self.region_cells().len(),
                r@ == self.region_cells().take(i as int),
            decreases n - i,
        {
            match self.cell_index(i) {
                Ok(c) => r.push(c),
                Err(_) => {},
            }
            assert(r@ =~= self.region_cells().take(i + 1));
            i = i + 1;
        }
        assert(r@ =~= self.region_cells());
        r
    }

    /// Whether the cell belongs to the region.
    fn contains(&self, cell_idx: CellIndex) -> (r: bool)
        ensures
            r == self.region_cells().contains(cell_idx),
    {
        let cells = self.cell_indices();
        let mut i: usize = 0;
        while i < cells.len()
            invariant
                i <= cells@.len(),
                cells@ == self.region_cells(),
                forall|k: int| 0 <= k < i ==> cells@[k] != cell_idx,
            decreases cells@.len() - i,
        {
            if cells[i] == cell_idx {
                return true;
            }
            i = i + 1;
        }
        false
    }

    /// The flat numbers of the region's cells, in order.
    fn flat_indices(&self) -> (r: Vec<usize>)
        ensures
            r@.len() == self.region_cells().len(),
            forall|k: int| 0 <= k < r@.len() ==> r@[k] == #[trigger] self.region_cells()[k]@,
    {
        let cells = self.cell_indices();
        let mut r: Vec<usize> = Vec::new();
        let mut i: usize = 0;
        while i < cells.len()
            invariant
                i <= cells@.len(),
                cells@ == self.region_cells(),
                r@.len() == i,
                forall|k: int| 0 <= k < i ==> r@[k] == #[trigger] self.region_cells()[k]@,
            decreases cells@.len() - i,
        {
            r.push(cells[i].flat());
            i = i + 1;
        }
        r
    }
}

/// A house: a region of nine cells whose positions are numbered by `SudokuIndex`.
pub trait HouseRegion: SudokuRegion {
    /// Houses have nine cells.
    proof fn lemma_nine_cells(&self)
        ensures
            self.region_cells().len() == 9,
    ;

    /// The cell at position `index` of the house.
    fn get(&self, index: SudokuIndex) -> (r: CellIndex)
        ensures
            r == self.region_cells()[index@],
    {
        proof {
            self.lemma_nine_cells();
        }
        match self.cell_index(index.value()) {
            Ok(c) => c,
            Err(_) => CellIndex(RowIndex::R1, ColumnIndex::C1),
        }
    }
}

impl SudokuRegion for RowIndex {
    open spec fn region_cells(&self) -> Seq<CellIndex> {
        row_cells(*self)
    }

    fn cell_count(&self) -> (r: usize) {
        9
    }

    fn cell_index(&self, flat_index: usize) -> (r: Result<CellIndex, SudokuError>)
        ensures
            flat_index >= 9 ==> r == Err::<CellIndex, SudokuError>(SudokuError::InvalidValue(flat_index)),
    {
        let c = ColumnIndex::new(flat_index)?;
        Ok(CellIndex(*self, c))
    }
}

impl SudokuRegion for ColumnIndex {
    open spec fn region_cells(&self) -> Seq<CellIndex> {
        column_cells(*self)
    }

    fn cell_count(&self) -> (r: usize) {
        9
    }

    fn cell_index(&self, flat_index: usize) -> (r: Result<CellIndex, SudokuError>)
        ensures
            flat_index >= 9 ==> r == Err::<CellIndex, SudokuError>(SudokuError::InvalidValue(flat_index)),
    {
        let row = RowIndex::new(flat_index)?;
        Ok(CellIndex(row, *self))
    }
}

impl SudokuRegion for BlockIndex {
    open spec fn region_cells(&self) -> Seq<CellIndex> {
        block_cells(*self)
    }

    fn cell_count(&self) -> (r: usize) {
        9
    }

    /// Cell `flat_index` of the block, counted row by row; past the ninth cell the count runs on
    /// into the rows below the block, and fails once it leaves the board.
    fn cell_index(&self, flat_index: usize) -> (r: Result<CellIndex, SudokuError>)
        ensures
            3 * third(self@) + flat_index / 3 >= 9 ==> r == Err::<CellIndex, SudokuError>(
                SudokuError::InvalidValue((3 * third(self@) + flat_index / 3) as usize),
            ),
            3 * third(self@) + flat_index / 3 < 9 ==> r == Ok::<CellIndex, SudokuError>(
                CellIndex(
                    RowIndex::from_int(3 * third(self@) + flat_index / 3),
                    ColumnIndex::from_int(3 * rem3(self@) + flat_index % 3),
                ),
            ),
    {
        let row = RowIndex::new(self.chute_row() * 3 + flat_index / 3)?;
        let col = ColumnIndex::new(self.chute_column() * 3 + flat_index % 3)?;
        Ok(CellIndex(row, col))
    }
}

impl SudokuRegion for HouseIndex {
    open spec fn region_cells(&self) -> Seq<CellIndex> {
        house_cells(*self)
    }

    fn cell_count(&self) -> (r: usize) {
        9
    }

    fn cell_index(&self, flat_index: usize) -> (r: Result<CellIndex, SudokuError>) {
        match self {
            HouseIndex::Block(inner) => inner.cell_index(flat_index),
            HouseIndex::Row(inner) => inner.cell_index(flat_index),
            HouseIndex::Column(inner) => inner.cell_index(flat_index),
        }
    }
}

impl SudokuRegion for ChuteIndex {
    open spec fn region_cells(&self) -> Seq<CellIndex> {
        chute_cells(*self)
    }

    fn cell_count(&self) -> (r: usize) {
        27
    }

    fn cell_index(&self, flat_index: usize) -> (r: Result<CellIndex, SudokuError>) {
        let block = self.block(flat_index / 9)?;
        block.cell_index(flat_index % 9)
    }
}

impl HouseRegion for RowIndex {
    proof fn lemma_nine_cells(&self) {
    }
}

impl HouseRegion for ColumnIndex {
    proof fn lemma_nine_cells(&self) {
    }
}

impl HouseRegion for BlockIndex {
    proof fn lemma_nine_cells(&self) {
    }
}

impl HouseRegion for HouseIndex {
    proof fn lemma_nine_cells(&self) {
    }
}

} // verus!
