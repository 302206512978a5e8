use vstd::prelude::*;

use super::basic::{BlockIndex, ColumnIndex, RowIndex};
use super::cell_index::CellIndex;
use super::region::{block_cells, column_cells, house_cells, row_cells};
use super::HouseIndex;

verus! {

/// A house whose nine cells are numbered `0..9`.
pub trait HouseIndexer {
    /// The nine cells, in the house's own order.
    spec fn indexed_cells(&self) -> Seq<CellIndex>;

    /// Cell number `idx` of the house.
    fn cell_index(&self, idx: usize) -> (r: CellIndex)
        requires
            idx < 9,
        ensures
            r == self.indexed_cells()[idx as int],
    ;

    /// Whether the cell is one of the nine.
    fn contains(&self, cell_idx: CellIndex) -> (r: bool)
        ensures
            r == exists|k: int| 0 <= k < 9 && #[trigger] self.indexed_cells()[k] == cell_idx,
    {
        let mut i: usize = 0;
        while i < 9
            invariant
                i <= 9,
                forall|k: int| 0 <= k < i ==> #[trigger] self.indexed_cells()[k] != cell_idx,
            decreases 9 - i,
        {
            if <Self as HouseIndexer>::cell_index(self, i) == cell_idx {
                return true;
            }
            i = i + 1;
        }
        false
    }

    /// The nine cells, in order.
    fn cell_indices(&self) -> (r: [CellIndex; 9])
        ensures
            forall|k: int| 0 <= k < 9 ==> #[trigger] r@[k] == self.indexed_cells()[k],
    {
        [
            <Self as HouseIndexer>::cell_index(self, 0),
            <Self as HouseIndexer>::cell_index(self, 1),
            <Self as HouseIndexer>::cell_index(self, 2),
            <Self as HouseIndexer>::cell_index(self, 3),
            <Self as HouseIndexer>::cell_index(self, 4),
            <Self as HouseIndexer>::cell_index(self, 5),
            <Self as HouseIndexer>::cell_index(self, 6),
            <Self as HouseIndexer>::cell_index(self, 7),
            <Self as HouseIndexer>::cell_index(self, 8),
        ]
    }

    /// The flat numbers of the nine cells, in order.
    fn flat_indices(&self) -> (r: [usize; 9])
        ensures
            forall|k: int| 0 <= k < 9 ==> #[trigger] r@[k] == self.indexed_cells()[k]@,
    {
        let cells = <Self as HouseIndexer>::cell_indices(self);
        [
            cells[0].flat(),
            cells[1].flat(),
            cells[2].flat(),
            cells[3].flat(),
            cells[4].flat(),
            cells[5].flat(),
            cells[6].flat(),
            cells[7].flat(),
            cells[8].flat(),
        ]
    }
}

impl HouseIndexer for RowIndex {
    open spec fn indexed_cells(&self) -> Seq<CellIndex> {
        row_cells(*self)
    }

    fn cell_index(&self, idx: usize) -> (r: CellIndex) {
        CellIndex::new(*self, ColumnIndex::from_value(idx))
    }
}

impl HouseIndexer for ColumnIndex {
    open spec fn indexed_cells(&self) -> Seq<CellIndex> {
        column_cells(*self)
    }

    fn cell_index(&self, idx: usize) -> (r: CellIndex) {
        CellIndex::new(RowIndex::from_value(idx), *self)
    }
}

impl HouseIndexer for BlockIndex {
    open spec fn indexed_cells(&self) -> Seq<CellIndex> {
        block_cells(*self)
    }

    fn cell_index(&self, idx: usize) -> (r: CellIndex) {
        let row = RowIndex::from_value(self.chute_row() * 3 + idx / 3);
        let col = ColumnIndex::from_value(self.chute_column() * 3 + idx % 3);
        CellIndex::new(row, col)
    }
}

impl HouseIndexer for HouseIndex {
    open spec fn indexed_cells(&self) -> Seq<CellIndex> {
        house_cells(*self)
    }

    fn cell_index(&self, idx: usize) -> (r: CellIndex) {
        match self {
            HouseIndex::Block(inner) => <BlockIndex as HouseIndexer>::cell_index(inner, idx),
            HouseIndex::Row(inner) => <RowIndex as HouseIndexer>::cell_index(inner, idx),
            HouseIndex::Column(inner) => <ColumnIndex as HouseIndexer>::cell_index(inner, idx),
        }
    }
}

} // verus!
