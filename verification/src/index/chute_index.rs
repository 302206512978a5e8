use vstd::prelude::*;

use crate::error::SudokuError;
use super::cell_index::CellIndex;
use super::region::{house_cells, in_house, lemma_house_cells};
use super::{line_of, rem3, third, BlockIndex, ColumnIndex, HouseIndex, LineDirection, RowIndex};

verus! {

/// A chute: three blocks side by side. `V1..V3` are the stacks of blocks (left to right),
/// `H1..H3` the bands (top to bottom).
#[derive(Clone, Copy, Debug, PartialEq, Eq, Structural, Hash)]
pub enum ChuteIndex {
    V1,
    V2,
    V3,
    H1,
    H2,
    H3,
}

/// The block numbered `n`, or the error for a number outside `0..9`.
pub open spec fn block_number_result(n: int) -> Result<BlockIndex, SudokuError> {
    if n < 9 {
        Ok(BlockIndex::from_int(n))
    } else {
        Err(SudokuError::InvalidValue(n as usize))
    }
}

impl ChuteIndex {
    /// The orientation of the chute's lines.
    pub open spec fn direction_of(self) -> LineDirection {
        match self {
            ChuteIndex::V1 | ChuteIndex::V2 | ChuteIndex::V3 => LineDirection::Vertical,
            ChuteIndex::H1 | ChuteIndex::H2 | ChuteIndex::H3 => LineDirection::Horizontal,
        }
    }

    /// The position of the chute among those of its direction.
    pub open spec fn index_of(self) -> int {
        match self {
            ChuteIndex::V1 | ChuteIndex::H1 => 0,
            ChuteIndex::V2 | ChuteIndex::H2 => 1,
            ChuteIndex::V3 | ChuteIndex::H3 => 2,
        }
    }

    /// The chute of the given direction and position (`0 <= index < 3`).
    pub open spec fn from_parts(direction: LineDirection, index: int) -> Self {
        match direction {
            LineDirection::Vertical => if index == 0 {
                ChuteIndex::V1
            } else if index == 1 {
                ChuteIndex::V2
            } else {
                ChuteIndex::V3
            },
            LineDirection::Horizontal => if index == 0 {
                ChuteIndex::H1
            } else if index == 1 {
                ChuteIndex::H2
            } else {
                ChuteIndex::H3
            },
        }
    }

    /// Line number `i` (`0 <= i < 3`) of the chute.
    pub open spec fn line_at(self, i: int) -> HouseIndex {
        line_of(self.direction_of(), 3 * self.index_of() + i)
    }

    /// Block number `i` (`0 <= i < 3`) of the chute, from left to right or top to bottom.
    pub open spec fn block_at(self, i: int) -> BlockIndex {
        match self.direction_of() {
            LineDirection::Vertical => BlockIndex::from_int(3 * i + self.index_of()),
            LineDirection::Horizontal => BlockIndex::from_int(3 * self.index_of() + i),
        }
    }

    /// Whether the block lies in the chute.
    pub open spec fn holds_block(self, b: BlockIndex) -> bool {
        match self.direction_of() {
            LineDirection::Vertical => rem3(b@) == self.index_of(),
            LineDirection::Horizontal => third(b@) == self.index_of(),
        }
    }

    /// Whether the house lies in the chute.
    pub open spec fn holds_house(self, h: HouseIndex) -> bool {
        match h {
            HouseIndex::Row(r) => self.direction_of() == LineDirection::Horizontal && third(r@) == self.index_of(),
            HouseIndex::Column(c) => self.direction_of() == LineDirection::Vertical && third(c@) == self.index_of(),
            HouseIndex::Block(b) => self.holds_block(b),
        }
    }

    /// A house lies in the chute exactly when every one of its cells lies in one of the chute's
    /// blocks.
    pub proof fn lemma_holds_house_cells(self, h: HouseIndex)
        ensures
            self.holds_house(h) <==> forall|c: CellIndex| #[trigger] in_house(h, c) ==> self.holds_block(c.block_of()),
    {
        let t = self.index_of();
        match h {
            HouseIndex::Row(r) => {
                RowIndex::lemma_view_injective(r, r);
                assert forall|y: int| 0 <= y < 9 implies #[trigger] BlockIndex::from_int(3 * third(r@) + third(y))@ == 3 * third(r@) + third(y) by {
                    BlockIndex::lemma_from_int(3 * third(r@) + third(y));
                }
                if self.holds_house(h) {
                    assert forall|c: CellIndex| #[trigger] in_house(h, c) implies self.holds_block(c.block_of()) by {
                        ColumnIndex::lemma_view_injective(c.1, c.1);
                        assert(c.block_of()@ == 3 * third(r@) + third(c.1@));
                    }
                } else {
                    let y = if self.direction_of() == LineDirection::Vertical { 3 * ((t + 1) % 3) } else { 0 };
                    ColumnIndex::lemma_from_int(y);
                    let c = CellIndex(r, ColumnIndex::from_int(y));
                    assert(c.block_of()@ == 3 * third(r@) + third(y));
                    assert(in_house(h, c) && !self.holds_block(c.block_of()));
                }
            },
            HouseIndex::Column(col) => {
                ColumnIndex::lemma_view_injective(col, col);
                assert forall|x: int| 0 <= x < 9 implies #[trigger] BlockIndex::from_int(3 * third(x) + third(col@))@ == 3 * third(x) + third(col@) by {
                    BlockIndex::lemma_from_int(3 * third(x) + third(col@));
                }
                if self.holds_house(h) {
                    assert forall|c: CellIndex| #[trigger] in_house(h, c) implies self.holds_block(c.block_of()) by {
                        RowIndex::lemma_view_injective(c.0, c.0);
                        assert(c.block_of()@ == 3 * third(c.0@) + third(col@));
                    }
                } else {
                    let x = if self.direction_of() == LineDirection::Horizontal { 3 * ((t + 1) % 3) } else { 0 };
                    RowIndex::lemma_from_int(x);
                    let c = CellIndex(RowIndex::from_int(x), col);
                    assert(c.block_of()@ == 3 * third(x) + third(col@));
                    assert(in_house(h, c) && !self.holds_block(c.block_of()));
                }
            },
            HouseIndex::Block(b) => {
                lemma_house_cells(h);
                let c = house_cells(h)[0];
                assert(in_house(h, c));
            },
        }
    }

    /// The chute of `direction` with position `index`; fails unless `index < 3`.
    pub fn new(direction: LineDirection, index: usize) -> (r: Result<Self, SudokuError>)
        ensures
            index < 3 ==> r == Ok::<Self, SudokuError>(Self::from_parts(direction, index as int)),
            index >= 3 ==> r == Err::<Self, SudokuError>(SudokuError::InvalidValue(index)),
    {
        match (direction, index) {
            (LineDirection::Vertical, 0) => Ok(ChuteIndex::V1),
            (LineDirection::Vertical, 1) => Ok(ChuteIndex::V2),
            (LineDirection::Vertical, 2) => Ok(ChuteIndex::V3),
            (LineDirection::Horizontal, 0) => Ok(ChuteIndex::H1),
            (LineDirection::Horizontal, 1) => Ok(ChuteIndex::H2),
            (LineDirection::Horizontal, 2) => Ok(ChuteIndex::H3),
            _ => Err(SudokuError::InvalidValue(index)),
        }
    }

    /// Whether both are the same chute.
    pub fn const_eq(&self, other: &ChuteIndex) -> (r: bool)
        ensures
            r == (*self == *other),
    {
        self.index_value() == other.index_value() && self.direction().const_eq(&other.direction())
    }

    /// Line number `index` of the chute; fails when the line number `3 * position + index`
    /// is not below 9.
    pub fn line(&self, index: usize) -> (r: Result<HouseIndex, SudokuError>)
        requires
            3 * self.index_of() + index <= usize::MAX,
        ensures
            index < 3 ==> r == Ok::<HouseIndex, SudokuError>(self.line_at(index as int)),
            3 * self.index_of() + index >= 9 ==> r == Err::<HouseIndex, SudokuError>(
                SudokuError::InvalidValue((3 * self.index_of() + index) as usize),
            ),
            3 * self.index_of() + index < 9 ==> r == Ok::<HouseIndex, SudokuError>(
                line_of(self.direction_of(), 3 * self.index_of() + index),
            ),
    {
        match self.index() {
            (LineDirection::Vertical, index_value) => match ColumnIndex::new(index_value * 3 + index) {
                Ok(c) => Ok(HouseIndex::Column(c)),
                Err(e) => Err(e),
            },
            (LineDirection::Horizontal, index_value) => match RowIndex::new(index_value * 3 + index) {
                Ok(r) => Ok(HouseIndex::Row(r)),
                Err(e) => Err(e),
            },
        }
    }

    /// The three lines of the chute, in increasing order.
    pub fn lines(&self) -> (r: Vec<HouseIndex>)
        ensures
            r@ == seq![self.line_at(0), self.line_at(1), self.line_at(2)],
    {
        let mut r = Vec::new();
        let mut i: usize = 0;
        while i < 3
            invariant
                i <= 3,
                r@ == seq![self.line_at(0), self.line_at(1), self.line_at(2)].take(i as int),
            decreases 3 - i,
        {
            let l = self.line(i);
            match l {
                Ok(h) => r.push(h),
                Err(_) => {},
            }
            assert(r@ =~= seq![self.line_at(0), self.line_at(1), self.line_at(2)].take(i + 1));
            i = i + 1;
        }
        assert(r@ =~= seq![self.line_at(0), self.line_at(1), self.line_at(2)]);
        r
    }

    /// Block number `index` of the chute; fails when that block number is not below 9.
    pub fn block(&self, index: usize) -> (r: Result<BlockIndex, SudokuError>)
        requires
            match self.direction_of() {
                LineDirection::Vertical => 3 * index + self.index_of() <= usize::MAX,
                LineDirection::Horizontal => 3 * self.index_of() + index <= usize::MAX,
            },
        ensures
            index < 3 ==> r == Ok::<BlockIndex, SudokuError>(self.block_at(index as int)),
            r == match self.direction_of() {
                LineDirection::Vertical => block_number_result(3 * index + self.index_of()),
                LineDirection::Horizontal => block_number_result(3 * self.index_of() + index),
            },
    {
        match self.index() {
            (LineDirection::Vertical, block_column) => BlockIndex::from_index(index, block_column),
            (LineDirection::Horizontal, block_row) => BlockIndex::from_index(block_row, index),
        }
    }

    /// The three blocks of the chute, from left to right or from top to bottom.
    pub fn blocks(&self) -> (r: Vec<BlockIndex>)
        ensures
            r@ == seq![self.block_at(0), self.block_at(1), self.block_at(2)],
    {
        let mut r = Vec::new();
        let mut i: usize = 0;
        while i < 3
            invariant
                i <= 3,
                r@ == seq![self.block_at(0), self.block_at(1), self.block_at(2)].take(i as int),
            decreases 3 - i,
        {
            match self.block(i) {
                Ok(b) => r.push(b),
                Err(_) => {},
            }
            assert(r@ =~= seq![self.block_at(0), self.block_at(1), self.block_at(2)].take(i + 1));
            i = i + 1;
        }
        assert(r@ =~= seq![self.block_at(0), self.block_at(1), self.block_at(2)]);
        r
    }

    /// All six chutes: the stacks, then the bands.
    pub fn iter() -> (r: Vec<ChuteIndex>)
        ensures
            r@ == seq![ChuteIndex::V1, ChuteIndex::V2, ChuteIndex::V3, ChuteIndex::H1, ChuteIndex::H2, ChuteIndex::H3],
    {
        let mut r = Vec::new();
        r.push(ChuteIndex::V1);
        r.push(ChuteIndex::V2);
        r.push(ChuteIndex::V3);
        r.push(ChuteIndex::H1);
        r.push(ChuteIndex::H2);
        r.push(ChuteIndex::H3);
        r
    }

    pub fn direction(&self) -> (r: LineDirection)
        ensures
            r == self.direction_of(),
    {
        match self {
            ChuteIndex::V1 | ChuteIndex::V2 | ChuteIndex::V3 => LineDirection::Vertical,
            ChuteIndex::H1 | ChuteIndex::H2 | ChuteIndex::H3 => LineDirection::Horizontal,
        }
    }

    pub fn index_value(&self) -> (r: usize)
        ensures
            r == self.index_of(),
            r < 3,
    {
        match self {
            ChuteIndex::V1 | ChuteIndex::H1 => 0,
            ChuteIndex::V2 | ChuteIndex::H2 => 1,
            ChuteIndex::V3 | ChuteIndex::H3 => 2,
        }
    }

    /// The direction and the position of the chute.
    pub fn index(&self) -> (r: (LineDirection, usize))
        ensures
            r == (self.direction_of(), self.index_of() as usize),
    {
        (self.direction(), self.index_value())
    }

    pub fn contains_block(&self, block: BlockIndex) -> (r: bool)
        ensures
            r == self.holds_block(block),
    {
        match (self, block.chute_row(), block.chute_column()) {
            (ChuteIndex::V1, _, 0) | (ChuteIndex::V2, _, 1) | (ChuteIndex::V3, _, 2) | (ChuteIndex::H1, 0, _) | (
                ChuteIndex::H2,
                1,
                _,
            ) | (ChuteIndex::H3, 2, _) => true,
            _ => false,
        }
    }

    pub fn contains_row(&self, row: RowIndex) -> (r: bool)
        ensures
            r == self.holds_house(HouseIndex::Row(row)),
    {
        match (self, row.value() / 3) {
            (ChuteIndex::H1, 0) | (ChuteIndex::H2, 1) | (ChuteIndex::H3, 2) => true,
            _ => false,
        }
    }

    pub fn contains_column(&self, column: ColumnIndex) -> (r: bool)
        ensures
            r == self.holds_house(HouseIndex::Column(column)),
    {
        match (self, column.value() / 3) {
            (ChuteIndex::V1, 0) | (ChuteIndex::V2, 1) | (ChuteIndex::V3, 2) => true,
            _ => false,
        }
    }

    /// Whether the house lies in the chute.
    pub fn contains(&self, house: HouseIndex) -> (r: bool)
        ensures
            r == self.holds_house(house),
    {
        match house {
            HouseIndex::Row(row) => self.contains_row(row),
            HouseIndex::Column(column) => self.contains_column(column),
            HouseIndex::Block(block) => self.contains_block(block),
        }
    }
}

impl BlockIndex {
    /// The block with block-row `row` and block-column `column`; fails unless `3 * row + column < 9`.
    pub fn from_index(row: usize, column: usize) -> (r: Result<Self, SudokuError>)
        requires
            row * 3 + column <= usize::MAX,
        ensures
            row * 3 + column < 9 ==> r == Ok::<Self, SudokuError>(BlockIndex::from_int(row * 3 + column)),
            row * 3 + column >= 9 ==> r == Err::<Self, SudokuError>(SudokuError::InvalidValue((row * 3 + column) as usize)),
    {
        Self::new(row * 3 + column)
    }

    /// The block with the given number; the number must be below 9.
    pub fn from_flat_index(index: usize) -> (r: Self)
        requires
            index < 9,
        ensures
            r@ == index,
    {
        Self::from_value(index)
    }

    /// The number of the block, from 0 to 8.
    pub fn flat_index(&self) -> (r: usize)
        ensures
            r == self@,
    {
        self.value()
    }

    /// The band of the block: 0 at the top, 2 at the bottom.
    pub fn chute_row(&self) -> (r: usize)
        ensures
            r == third(self@),
    {
        self.value() / 3
    }

    /// The stack of the block: 0 on the left, 2 on the right.
    pub fn chute_column(&self) -> (r: usize)
        ensures
            r == rem3(self@),
    {
        self.value() % 3
    }

    /// The band and the stack of the block.
    pub fn index(&self) -> (r: (usize, usize))
        ensures
            r == (third(self@) as usize, rem3(self@) as usize),
    {
        (self.chute_row(), self.chute_column())
    }
}

impl RowIndex {
    /// The band that holds the row.
    pub fn chute(&self) -> (r: ChuteIndex)
        ensures
            r == ChuteIndex::from_parts(LineDirection::Horizontal, third(self@)),
    {
        ChuteIndex::from_value_parts(LineDirection::Horizontal, self.value() / 3)
    }
}

impl ColumnIndex {
    /// The stack that holds the column.
    pub fn chute(&self) -> (r: ChuteIndex)
        ensures
            r == ChuteIndex::from_parts(LineDirection::Vertical, third(self@)),
    {
        ChuteIndex::from_value_parts(LineDirection::Vertical, self.value() / 3)
    }
}

impl ChuteIndex {
    fn from_value_parts(direction: LineDirection, index: usize) -> (r: Self)
        requires
            index < 3,
        ensures
            r == Self::from_parts(direction, index as int),
    {
        match Self::new(direction, index) {
            Ok(c) => c,
            Err(_) => ChuteIndex::V1,
        }
    }
}

} // verus!
