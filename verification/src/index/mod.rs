use vstd::prelude::*;

pub mod basic;
pub mod cell_index;
pub mod chute_index;
pub mod indexer;
pub mod intersect;
pub mod region;

pub use basic::{BlockIndex, ColumnIndex, DigitIndex, RowIndex, SudokuIndex};
pub use cell_index::CellIndex;
pub use chute_index::ChuteIndex;
pub use intersect::RegionIntersection;
pub use region::{HouseRegion, SudokuRegion};

use crate::error::SudokuError;

verus! {

/// Which third of `0..9` holds `x`: 0, 1 or 2.
pub open spec fn third(x: int) -> int {
    if x < 3 {
        0
    } else if x < 6 {
        1
    } else {
        2
    }
}

/// The position of `x` inside its third.
pub open spec fn rem3(x: int) -> int {
    x - 3 * third(x)
}

/// The direction of a chute: a stack of three block columns or a band of three block rows.
pub type ChuteDirection = LineDirection;

/// A row, a column or a block: the three kinds of house.
#[derive(Clone, Copy, Debug, PartialEq, Eq, Structural, PartialOrd, Ord, Hash)]
pub enum HouseIndex {
    Row(RowIndex),
    Column(ColumnIndex),
    Block(BlockIndex),
}

/// The orientation of a line: vertical lines are columns, horizontal ones rows.
#[derive(Clone, Copy, Debug, PartialEq, Eq, Structural, Hash)]
pub enum LineDirection {
    Vertical,
    Horizontal,
}

/// A digit placed (or candidate) in a given cell.
pub type SudokuSubCellIndex = (CellIndex, DigitIndex);

/// The 27 houses: the nine rows, then the nine columns, then the nine blocks.
pub open spec fn all_houses() -> Seq<HouseIndex> {
    Seq::new(
        27,
        |k: int|
            if k < 9 {
                HouseIndex::Row(RowIndex::from_int(k))
            } else if k < 18 {
                HouseIndex::Column(ColumnIndex::from_int(k - 9))
            } else {
                HouseIndex::Block(BlockIndex::from_int(k - 18))
            },
    )
}

/// The line of `direction` with number `i`.
pub open spec fn line_of(direction: LineDirection, i: int) -> HouseIndex {
    match direction {
        LineDirection::Horizontal => HouseIndex::Row(RowIndex::from_int(i)),
        LineDirection::Vertical => HouseIndex::Column(ColumnIndex::from_int(i)),
    }
}

impl HouseIndex {
    /// All 27 houses: rows, then columns, then blocks, each in increasing order.
    pub fn iter() -> (r: Vec<HouseIndex>)
        ensures
            r@ == all_houses(),
    {
        let mut r: Vec<HouseIndex> = Vec::new();
        let mut i: usize = 0;
        while i < 27
            invariant
                i <= 27,
                r@ == all_houses().take(i as int),
            decreases 27 - i,
        {
            let h = if i < 9 {
                HouseIndex::Row(RowIndex::from_value(i))
            } else if i < 18 {
                HouseIndex::Column(ColumnIndex::from_value(i - 9))
            } else {
                HouseIndex::Block(BlockIndex::from_value(i - 18))
            };
            r.push(h);
            assert(r@ =~= all_houses().take(i + 1));
            i = i + 1;
        }
        assert(r@ =~= all_houses());
        r
    }

    /// The 18 lines: the rows, then the columns.
    pub fn rows_and_columns() -> (r: Vec<HouseIndex>)
        ensures
            r@ == all_houses().take(18),
    {
        let mut r: Vec<HouseIndex> = Vec::new();
        let mut i: usize = 0;
        while i < 18
            invariant
                i <= 18,
                r@ == all_houses().take(i as int),
            decreases 18 - i,
        {
            let h = if i < 9 {
                HouseIndex::Row(RowIndex::from_value(i))
            } else {
                HouseIndex::Column(ColumnIndex::from_value(i - 9))
            };
            r.push(h);
            assert(r@ =~= all_houses().take(i + 1));
            i = i + 1;
        }
        r
    }

    /// The line that crosses this one at its cell number `idx`: for a column the row of that
    /// cell, for a row its column; a block is crossed by no single line.
    pub fn crossed_by(&self, idx: usize) -> (r: Option<HouseIndex>)
        requires
            idx < 9,
        ensures
            r == match *self {
                HouseIndex::Column(_) => Some(HouseIndex::Row(RowIndex::from_int(idx as int))),
                HouseIndex::Row(_) => Some(HouseIndex::Column(ColumnIndex::from_int(idx as int))),
                HouseIndex::Block(_) => None::<HouseIndex>,
            },
    {
        match self {
            HouseIndex::Column(_) => Some(HouseIndex::Row(RowIndex::from_value(idx))),
            HouseIndex::Row(_) => Some(HouseIndex::Column(ColumnIndex::from_value(idx))),
            HouseIndex::Block(_) => None,
        }
    }
}

impl LineDirection {
    /// Whether both directions are the same.
    pub fn const_eq(&self, other: &Self) -> (r: bool)
        ensures
            r == (*self == *other),
    {
        match (self, other) {
            (LineDirection::Vertical, LineDirection::Vertical) => true,
            (LineDirection::Horizontal, LineDirection::Horizontal) => true,
            _ => false,
        }
    }

    /// The perpendicular direction.
    pub fn other(self) -> (r: Self)
        ensures
            r != self,
    {
        match self {
            LineDirection::Horizontal => LineDirection::Vertical,
            LineDirection::Vertical => LineDirection::Horizontal,
        }
    }

    /// Both directions: vertical, then horizontal.
    pub fn iter() -> (r: Vec<LineDirection>)
        ensures
            r@ == seq![LineDirection::Vertical, LineDirection::Horizontal],
    {
        let mut r = Vec::new();
        r.push(LineDirection::Vertical);
        r.push(LineDirection::Horizontal);
        r
    }

    /// The line of this direction with number `index`; fails outside `0..9`.
    pub fn line(&self, index: usize) -> (r: Result<HouseIndex, SudokuError>)
        ensures
            index < 9 ==> r == Ok::<HouseIndex, SudokuError>(line_of(*self, index as int)),
            index >= 9 ==> r == Err::<HouseIndex, SudokuError>(SudokuError::InvalidValue(index)),
    {
        match self {
            LineDirection::Horizontal => match RowIndex::new(index) {
                Ok(r) => Ok(HouseIndex::Row(r)),
                Err(e) => Err(e),
            },
            LineDirection::Vertical => match ColumnIndex::new(index) {
                Ok(c) => Ok(HouseIndex::Column(c)),
                Err(e) => Err(e),
            },
        }
    }

    /// The nine lines of this direction, in increasing order.
    pub fn lines(&self) -> (r: [HouseIndex; 9])
        ensures
            forall|i: int| 0 <= i < 9 ==> #[trigger] r@[i] == line_of(*self, i),
    {
        match self {
            LineDirection::Horizontal => [
                HouseIndex::Row(RowIndex::R1),
                HouseIndex::Row(RowIndex::R2),
                HouseIndex::Row(RowIndex::R3),
                HouseIndex::Row(RowIndex::R4),
                HouseIndex::Row(RowIndex::R5),
                HouseIndex::Row(RowIndex::R6),
                HouseIndex::Row(RowIndex::R7),
                HouseIndex::Row(RowIndex::R8),
                HouseIndex::Row(RowIndex::R9),
            ],
            LineDirection::Vertical => [
                HouseIndex::Column(ColumnIndex::C1),
                HouseIndex::Column(ColumnIndex::C2),
                HouseIndex::Column(ColumnIndex::C3),
                HouseIndex::Column(ColumnIndex::C4),
                HouseIndex::Column(ColumnIndex::C5),
                HouseIndex::Column(ColumnIndex::C6),
                HouseIndex::Column(ColumnIndex::C7),
                HouseIndex::Column(ColumnIndex::C8),
                HouseIndex::Column(ColumnIndex::C9),
            ],
        }
    }
}

impl From<RowIndex> for HouseIndex {
    fn from(value: RowIndex) -> (r: Self) {
        HouseIndex::Row(value)
    }
}

impl vstd::std_specs::convert::FromSpecImpl<RowIndex> for HouseIndex {
    open spec fn obeys_from_spec() -> bool {
        true
    }

    open spec fn from_spec(v: RowIndex) -> Self {
        HouseIndex::Row(v)
    }
}

impl From<ColumnIndex> for HouseIndex {
    fn from(value: ColumnIndex) -> (r: Self) {
        HouseIndex::Column(value)
    }
}

impl vstd::std_specs::convert::FromSpecImpl<ColumnIndex> for HouseIndex {
    open spec fn obeys_from_spec() -> bool {
        true
    }

    open spec fn from_spec(v: ColumnIndex) -> Self {
        HouseIndex::Column(v)
    }
}

impl From<BlockIndex> for HouseIndex {
    fn from(value: BlockIndex) -> (r: Self) {
        HouseIndex::Block(value)
    }
}

impl vstd::std_specs::convert::FromSpecImpl<BlockIndex> for HouseIndex {
    open spec fn obeys_from_spec() -> bool {
        true
    }

    open spec fn from_spec(v: BlockIndex) -> Self {
        HouseIndex::Block(v)
    }
}

} // verus!
