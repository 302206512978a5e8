use vstd::prelude::*;

use crate::error::SudokuError;
use super::region::{house_cells, in_house, lemma_house_cells};
use super::{third, BlockIndex, ColumnIndex, HouseIndex, LineDirection, RowIndex, SudokuRegion};

verus! {

/// The line of `direction` through cell `c`.
pub open spec fn line_through(c: CellIndex, direction: LineDirection) -> HouseIndex {
    match direction {
        LineDirection::Horizontal => HouseIndex::Row(c.0),
        LineDirection::Vertical => HouseIndex::Column(c.1),
    }
}

/// A cell of the board, given by its row and its column.
#[derive(Clone, Copy, Debug, PartialEq, Eq, Structural, PartialOrd, Ord, Hash)]
pub struct CellIndex(pub RowIndex, pub ColumnIndex);

/// The cell with flat number `i` (row-major, `0 <= i < 81`).
pub open spec fn cell_of(i: int) -> CellIndex {
    CellIndex(RowIndex::from_int(i / 9), ColumnIndex::from_int(i % 9))
}

/// Whether two cells share a row, a column or a block (a cell sees itself).
pub open spec fn sees(a: CellIndex, b: CellIndex) -> bool {
    a.0 == b.0 || a.1 == b.1 || a.block_of() == b.block_of()
}

impl CellIndex {
    pub const COUNT: usize = 81;

    /// The flat, row-major number of the cell.
    pub open spec fn view(self) -> int {
        9 * self.0@ + self.1@
    }

    /// The block that holds the cell.
    pub open spec fn block_of(self) -> BlockIndex {
        BlockIndex::from_int(3 * third(self.0@) + third(self.1@))
    }

    /// The cell whose flat number is `c@` is `c`, and flat numbers lie in `0..81`.
    pub proof fn lemma_flat(c: CellIndex)
        ensures
            0 <= c@ < 81,
            cell_of(c@) == c,
            0 <= c.block_of()@ < 9,
    {
        RowIndex::lemma_view_injective(c.0, c.0);
        ColumnIndex::lemma_view_injective(c.1, c.1);
        assert(c@ / 9 == c.0@);
        assert(c@ % 9 == c.1@);
        BlockIndex::lemma_from_int(3 * third(c.0@) + third(c.1@));
    }

    /// Flat numbers in `0..81` name their cell, and distinct cells have distinct numbers.
    pub proof fn lemma_cell_of(i: int)
        requires
            0 <= i < 81,
        ensures
            cell_of(i)@ == i,
    {
        RowIndex::lemma_from_int(i / 9);
        ColumnIndex::lemma_from_int(i % 9);
    }

    /// Distinct cells have distinct flat numbers.
    pub proof fn lemma_flat_injective(a: CellIndex, b: CellIndex)
        ensures
            (a@ == b@) <==> (a == b),
    {
        Self::lemma_flat(a);
        Self::lemma_flat(b);
    }

    pub fn new(r: RowIndex, c: ColumnIndex) -> (res: Self)
        ensures
            res == CellIndex(r, c),
    {
        CellIndex(r, c)
    }

    pub fn row(&self) -> (r: RowIndex)
        ensures
            r == self.0,
    {
        self.0
    }

    pub fn column(&self) -> (c: ColumnIndex)
        ensures
            c == self.1,
    {
        self.1
    }

    /// The block that holds the cell.
    pub fn block(&self) -> (b: BlockIndex)
        ensures
            b == self.block_of(),
    {
        let r = self.0.value();
        let c = self.1.value();
        let br: usize = if r < 3 {
            0
        } else if r < 6 {
            1
        } else {
            2
        };
        let bc: usize = if c < 3 {
            0
        } else if c < 6 {
            1
        } else {
            2
        };
        BlockIndex::from_value(br * 3 + bc)
    }

    /// The flat, row-major number of the cell.
    pub fn flat(&self) -> (r: usize)
        ensures
            r == self@,
            r < 81,
    {
        self.0.value() * 9 + self.1.value()
    }

    /// The row, the column and the block of the cell, in that order.
    pub fn houses(&self) -> (r: [HouseIndex; 3])
        ensures
            r@ == seq![HouseIndex::Row(self.0), HouseIndex::Column(self.1), HouseIndex::Block(self.block_of())],
    {
        let r = [HouseIndex::Row(self.row()), HouseIndex::Column(self.column()), HouseIndex::Block(self.block())];
        assert(r@ =~= seq![HouseIndex::Row(self.0), HouseIndex::Column(self.1), HouseIndex::Block(self.block_of())]);
        r
    }

    /// Whether the cells share a row, a column or a block.
    pub fn visible(&self, other: &CellIndex) -> (r: bool)
        ensures
            r == sees(*self, *other),
    {
        self.row().value() == other.row().value() || self.column().value() == other.column().value()
            || self.block().value() == other.block().value()
    }

    /// Whether the cells share a row, a column or a block.
    pub fn share_house(&self, other: &CellIndex) -> (r: bool)
        ensures
            r == sees(*self, *other),
    {
        self.visible(other)
    }

    /// The houses that hold both cells: their block, then their row, then their column.
    pub fn shared_houses(&self, other: &CellIndex) -> (r: Vec<HouseIndex>)
        ensures
            r@ == shared_houses_of(*self, *other),
    {
        let mut shared: Vec<HouseIndex> = Vec::new();
        if self.block() == other.block() {
            shared.push(HouseIndex::Block(self.block()));
        }
        if self.row() == other.row() {
            shared.push(HouseIndex::Row(self.row()));
        }
        if self.column() == other.column() {
            shared.push(HouseIndex::Column(self.column()));
        }
        shared
    }

    /// The cells other than these two that see both of them, by decreasing flat number.
    pub fn cells_visible_with(&self, other: &CellIndex) -> (r: Vec<CellIndex>)
        ensures
            forall|c: CellIndex| r@.contains(c) <==> visible_pair(*self, *other, c),
            forall|i: int, j: int| 0 <= i < j < r@.len() ==> r@[j]@ < r@[i]@,
    {
        let mut r: Vec<CellIndex> = Vec::new();
        let mut i: usize = 81;
        while i > 0
            invariant
                i <= 81,
                forall|k: int| 0 <= k < r@.len() ==> i <= (#[trigger] r@[k])@ < 81,
                forall|k: int, l: int| 0 <= k < l < r@.len() ==> r@[l]@ < r@[k]@,
                forall|c: CellIndex| #![trigger visible_pair(*self, *other, c)]
                    i <= c@ ==> (r@.contains(c) <==> visible_pair(*self, *other, c)),
            decreases i,
        {
            i = i - 1;
            let c = CellIndex(RowIndex::from_value(i / 9), ColumnIndex::from_value(i % 9));
            proof {
                Self::lemma_cell_of(i as int);
            }
            let ghost old_r = r@;
            if c != *self && c != *other && c.visible(self) && c.visible(other) {
                r.push(c);
            }
            assert forall|d: CellIndex| #![trigger visible_pair(*self, *other, d)]
                i <= d@ implies (r@.contains(d) <==> visible_pair(*self, *other, d)) by {
                Self::lemma_flat_injective(c, d);
                if d@ > i {
                    if r@.contains(d) {
                        let k = choose|k: int| 0 <= k < r@.len() && r@[k] == d;
                        if k < old_r.len() {
                            assert(old_r[k] == d);
                        }
                    }
                    if old_r.contains(d) {
                        let k = choose|k: int| 0 <= k < old_r.len() && old_r[k] == d;
                        assert(r@[k] == d);
                    }
                } else {
                    if r@.contains(d) {
                        let k = choose|k: int| 0 <= k < r@.len() && r@[k] == d;
                        if k < old_r.len() {
                            assert(old_r[k] == d);
                        }
                    }
                    if visible_pair(*self, *other, d) {
                        assert(r@[r@.len() - 1] == d);
                    }
                }
            }
        }
        assert forall|c: CellIndex| r@.contains(c) <==> visible_pair(*self, *other, c) by {
            Self::lemma_flat(c);
        }
        r
    }

    /// The cell with flat number `i`; fails when `i` is 81 or more.
    pub fn from_flat(i: usize) -> (r: Result<CellIndex, SudokuError>)
        ensures
            i < 81 ==> r == Ok::<CellIndex, SudokuError>(cell_of(i as int)),
            i >= 81 ==> r == Err::<CellIndex, SudokuError>(SudokuError::InvalidValue(i / 9)),
    {
        let row = RowIndex::new(i / 9)?;
        let column = ColumnIndex::new(i % 9)?;
        Ok(CellIndex(row, column))
    }

    /// The 81 cells, in flat order.
    pub fn iter() -> (r: Vec<CellIndex>)
        ensures
            r@.len() == 81,
            forall|i: int| 0 <= i < 81 ==> #[trigger] r@[i] == cell_of(i),
    {
        let mut r: Vec<CellIndex> = Vec::new();
        let mut i: usize = 0;
        while i < 81
            invariant
                i <= 81,
                r@.len() == i,
                forall|k: int| 0 <= k < i ==> #[trigger] r@[k] == cell_of(k),
            decreases 81 - i,
        {
            r.push(CellIndex(RowIndex::from_value(i / 9), ColumnIndex::from_value(i % 9)));
            i = i + 1;
        }
        r
    }

    /// The 81 cells, in flat order, each made from its flat number.
    pub fn domain() -> (r: Vec<CellIndex>)
        ensures
            r@.len() == 81,
            forall|i: int| 0 <= i < 81 ==> #[trigger] r@[i] == cell_of(i),
    {
        let mut r: Vec<CellIndex> = Vec::new();
        let mut i: usize = 0;
        while i < 81
            invariant
                i <= 81,
                r@.len() == i,
                forall|k: int| 0 <= k < i ==> #[trigger] r@[k] == cell_of(k),
            decreases 81 - i,
        {
            match Self::from_flat(i) {
                Ok(c) => r.push(c),
                Err(_) => {},
            }
            i = i + 1;
        }
        r
    }

    /// The line of `direction` through the cell: its row when horizontal, its column when vertical.
    pub fn line(&self, direction: LineDirection) -> (r: HouseIndex)
        ensures
            r == match direction {
                LineDirection::Horizontal => HouseIndex::Row(self.0),
                LineDirection::Vertical => HouseIndex::Column(self.1),
            },
    {
        match direction {
            LineDirection::Horizontal => HouseIndex::Row(self.row()),
            LineDirection::Vertical => HouseIndex::Column(self.column()),
        }
    }
}

/// Whether `c` is a third cell that sees both `a` and `b`.
pub open spec fn visible_pair(a: CellIndex, b: CellIndex, c: CellIndex) -> bool {
    c != a && c != b && sees(c, a) && sees(c, b)
}

/// The houses shared by two cells: block, then row, then column, each when shared.
pub open spec fn shared_houses_of(a: CellIndex, b: CellIndex) -> Seq<HouseIndex> {
    let s1 = if a.block_of() == b.block_of() {
        seq![HouseIndex::Block(a.block_of())]
    } else {
        Seq::<HouseIndex>::empty()
    };
    let s2 = if a.0 == b.0 {
        s1.push(HouseIndex::Row(a.0))
    } else {
        s1
    };
    if a.1 == b.1 {
        s2.push(HouseIndex::Column(a.1))
    } else {
        s2
    }
}

/// Whether `c` lies in one of the shared houses `hs` after the `k`-th.
pub open spec fn in_later_house(hs: Seq<HouseIndex>, k: int, c: CellIndex) -> bool {
    exists|l: int| k < l < hs.len() && #[trigger] in_house(hs[l], c)
}

/// Whether `c` is one of the cells that `visible_with` lists from the first `i` shared houses
/// `hs` of `a` and `b`: another cell of such a house that no later shared house holds.
pub open spec fn listed_upto(hs: Seq<HouseIndex>, a: CellIndex, b: CellIndex, i: int, c: CellIndex) -> bool {
    &&& c != a
    &&& c != b
    &&& exists|k: int| 0 <= k < i && #[trigger] in_house(hs[k], c) && !in_later_house(hs, k, c)
}

impl CellIndex {
    /// The cells other than these two in the houses they share, house by house (block, row,
    /// column), each cell once; when they share no house, the two cells at the crossings of
    /// one's row with the other's column.
    pub fn visible_with(&self, other: &CellIndex) -> (r: Vec<CellIndex>)
        ensures
            shared_houses_of(*self, *other).len() == 0 ==> r@ == seq![CellIndex(self.0, other.1), CellIndex(other.0, self.1)],
            shared_houses_of(*self, *other).len() > 0 ==> {
                &&& forall|c: CellIndex| r@.contains(c) <==> (c != *self && c != *other && exists|k: int|
                    0 <= k < shared_houses_of(*self, *other).len() && #[trigger] in_house(shared_houses_of(*self, *other)[k], c))
                &&& r@.no_duplicates()
            },
    {
        broadcast use vstd::seq_lib::lemma_seq_contains_after_push;
        let shared = self.shared_houses(other);
        let ghost hs = shared@;
        let mut cells: Vec<CellIndex> = Vec::new();
        let mut i: usize = 0;
        while i < shared.len()
            invariant
                i <= shared@.len(),
                hs == shared@,
                hs.len() <= 3,
                forall|c: CellIndex| #[trigger] cells@.contains(c) <==> listed_upto(hs, *self, *other, i as int, c),
                cells@.no_duplicates(),
                i > 0 && i == hs.len() ==> cells@.len() > 0,
            decreases shared@.len() - i,
        {
            let house = shared[i];
            proof {
                lemma_house_cells(house);
            }
            let in_house_cells = house.cell_indices();
            let ghost before = cells@;
            let mut u: usize = 0;
            while u < 9
                invariant
                    u <= 9,
                    i < hs.len(),
                    hs == shared@,
                    house == hs[i as int],
                    in_house_cells@ == house_cells(house),
                    house_cells(house).len() == 9,
                    forall|k: int, l: int| 0 <= k < 9 && 0 <= l < 9 && k != l ==> house_cells(house)[k] != house_cells(house)[l],
                    forall|k: int| 0 <= k < 9 ==> in_house(house, #[trigger] house_cells(house)[k]),
                    forall|c: CellIndex| #[trigger] cells@.contains(c) <==> (listed_upto(hs, *self, *other, i as int, c) || (exists|t: int|
                        0 <= t < u && #[trigger] house_cells(house)[t] == c && c != *self && c != *other && !in_later_house(hs, i as int, c))),
                    cells@.no_duplicates(),
                    hs.len() <= 3,
                    i + 1 == hs.len() && u >= 3 ==> cells@.len() > 0,
                decreases 9 - u,
            {
                let c = in_house_cells[u];
                let mut later = false;
                let mut l: usize = i + 1;
                while l < shared.len()
                    invariant
                        i < l <= shared@.len(),
                        hs == shared@,
                        later == exists|m: int| i < m < l && #[trigger] in_house(hs[m], c),
                    decreases shared@.len() - l,
                {
                    proof {
                        lemma_house_cells(shared@[l as int]);
                    }
                    if shared[l].contains(c) {
                        later = true;
                    }
                    l = l + 1;
                }
                assert(later == in_later_house(hs, i as int, c));
                let ghost mid = cells@;
                if c != *self && c != *other && !later {
                    proof {
                        if mid.contains(c) {
                            if !listed_upto(hs, *self, *other, i as int, c) {
                                let t = choose|t: int| 0 <= t < u && #[trigger] house_cells(house)[t] == c && c != *self && c != *other && !in_later_house(hs, i as int, c);
                                assert(house_cells(house)[t] == house_cells(house)[u as int]);
                            } else {
                                let k = choose|k: int| 0 <= k < i && #[trigger] in_house(hs[k], c) && !in_later_house(hs, k, c);
                                assert(in_house(hs[i as int], c));
                            }
                        }
                    }
                    cells.push(c);
                }
                proof {
                    assert forall|x: CellIndex| #[trigger] cells@.contains(x) <==> (listed_upto(hs, *self, *other, i as int, x) || (exists|t: int|
                        0 <= t < u + 1 && #[trigger] house_cells(house)[t] == x && x != *self && x != *other && !in_later_house(hs, i as int, x))) by {
                        vstd::seq_lib::lemma_seq_contains_after_push(mid, c, x);
                        if x == c {
                            assert(house_cells(house)[u as int] == x);
                        }
                        if exists|t: int| 0 <= t < u + 1 && #[trigger] house_cells(house)[t] == x && x != *self && x != *other && !in_later_house(hs, i as int, x) {
                            let t = choose|t: int| 0 <= t < u + 1 && #[trigger] house_cells(house)[t] == x && x != *self && x != *other && !in_later_house(hs, i as int, x);
                            if t < u {
                                assert(exists|t2: int| 0 <= t2 < u && #[trigger] house_cells(house)[t2] == x && x != *self && x != *other && !in_later_house(hs, i as int, x));
                            }
                        }
                    }
                    if u == 2 && i + 1 == hs.len() && cells@.len() == 0 {
                        assert forall|t: int| 0 <= t < 3 implies house_cells(house)[t] == *self || house_cells(house)[t] == *other by {
                            assert(!in_later_house(hs, i as int, house_cells(house)[t]));
                            if house_cells(house)[t] != *self && house_cells(house)[t] != *other {
                                assert(cells@.contains(house_cells(house)[t]));
                            }
                        }
                        assert(house_cells(house)[0] != house_cells(house)[1]);
                        assert(house_cells(house)[0] != house_cells(house)[2]);
                        assert(house_cells(house)[1] != house_cells(house)[2]);
                    }
                }
                u = u + 1;
            }
            proof {
                assert forall|c: CellIndex| #[trigger] cells@.contains(c) <==> listed_upto(hs, *self, *other, i + 1, c) by {
                    if listed_upto(hs, *self, *other, i + 1, c) {
                        let k = choose|k: int| 0 <= k < i + 1 && #[trigger] in_house(hs[k], c) && !in_later_house(hs, k, c);
                        if k == i {
                            assert(house_cells(house).contains(c));
                            let t = choose|t: int| 0 <= t < 9 && house_cells(house)[t] == c;
                            assert(exists|t2: int| 0 <= t2 < 9 && #[trigger] house_cells(house)[t2] == c && c != *self && c != *other && !in_later_house(hs, i as int, c));
                        }
                    }
                    if exists|t: int| 0 <= t < 9 && #[trigger] house_cells(house)[t] == c && c != *self && c != *other && !in_later_house(hs, i as int, c) {
                        let t = choose|t: int| 0 <= t < 9 && #[trigger] house_cells(house)[t] == c && c != *self && c != *other && !in_later_house(hs, i as int, c);
                        assert(in_house(hs[i as int], c));
                    }
                }
            }
            i = i + 1;
        }
        proof {
            if hs.len() == 0 && cells@.len() > 0 {
                assert(cells@.contains(cells@[0]));
            }
        }
        if cells.len() == 0 {
            cells.push(CellIndex(self.row(), other.column()));
            cells.push(CellIndex(other.row(), self.column()));
            assert(cells@ =~= seq![CellIndex(self.0, other.1), CellIndex(other.0, self.1)]);
        } else {
            proof {
                assert forall|c: CellIndex| cells@.contains(c) <==> (c != *self && c != *other && exists|k: int| 0 <= k < hs.len() && #[trigger] in_house(hs[k], c)) by {
                    if c != *self && c != *other && exists|k: int| 0 <= k < hs.len() && #[trigger] in_house(hs[k], c) {
                        lemma_last_house(hs, c);
                    }
                }
            }
        }
        cells
    }
}

/// A cell of some shared house has a last shared house that holds it.
proof fn lemma_last_house(hs: Seq<HouseIndex>, c: CellIndex)
    requires
        exists|k: int| 0 <= k < hs.len() && #[trigger] in_house(hs[k], c),
    ensures
        exists|k: int| 0 <= k < hs.len() && #[trigger] in_house(hs[k], c) && !in_later_house(hs, k, c),
    decreases hs.len(),
{
    let k0 = choose|k: int| 0 <= k < hs.len() && #[trigger] in_house(hs[k], c);
    if in_later_house(hs, k0, c) {
        let l = choose|l: int| k0 < l < hs.len() && #[trigger] in_house(hs[l], c);
        lemma_last_house_from(hs, c, l);
    }
}

/// From a shared house that holds `c`, some house at or after it is the last to hold it.
proof fn lemma_last_house_from(hs: Seq<HouseIndex>, c: CellIndex, k: int)
    requires
        0 <= k < hs.len(),
        in_house(hs[k], c),
    ensures
        exists|m: int| 0 <= m < hs.len() && #[trigger] in_house(hs[m], c) && !in_later_house(hs, m, c),
    decreases hs.len() - k,
{
    if in_later_house(hs, k, c) {
        let l = choose|l: int| k < l < hs.len() && #[trigger] in_house(hs[l], c);
        lemma_last_house_from(hs, c, l);
    }
}

/// All the cells lie in one row.
pub open spec fn same_row(cells: Seq<CellIndex>) -> bool {
    forall|i: int, j: int| 0 <= i < cells.len() && 0 <= j < cells.len() ==> (#[trigger] cells[i]).0 == (#[trigger] cells[j]).0
}

/// All the cells lie in one column.
pub open spec fn same_column(cells: Seq<CellIndex>) -> bool {
    forall|i: int, j: int| 0 <= i < cells.len() && 0 <= j < cells.len() ==> (#[trigger] cells[i]).1 == (#[trigger] cells[j]).1
}

/// All the cells lie in one block.
pub open spec fn same_block(cells: Seq<CellIndex>) -> bool {
    forall|i: int, j: int| 0 <= i < cells.len() && 0 <= j < cells.len() ==> (#[trigger] cells[i]).block_of() == (#[trigger] cells[j]).block_of()
}

/// Questions on a sequence of cells: whether they all share a row, a column, a block, or some
/// house.
pub trait CellIndexIter {
    fn share_row(self) -> bool;

    fn share_column(self) -> bool;

    fn share_block(self) -> bool;

    fn share_house(self) -> bool;
}

impl CellIndexIter for Vec<CellIndex> {
    /// Whether all the cells lie in one row; true of no cells.
    fn share_row(self) -> (r: bool)
        ensures
            r == same_row(self@),
    {
        let mut i: usize = 1;
        while i < self.len()
            invariant
                1 <= i,
                i <= self@.len() || self@.len() == 0,
                forall|k: int| 0 <= k < i && k < self@.len() ==> (#[trigger] self@[k]).0 == self@[0].0,
            decreases self@.len() - i,
        {
            if self[i].row() != self[0].row() {
                return false;
            }
            i = i + 1;
        }
        true
    }

    /// Whether all the cells lie in one column; true of no cells.
    fn share_column(self) -> (r: bool)
        ensures
            r == same_column(self@),
    {
        let mut i: usize = 1;
        while i < self.len()
            invariant
                1 <= i,
                i <= self@.len() || self@.len() == 0,
                forall|k: int| 0 <= k < i && k < self@.len() ==> (#[trigger] self@[k]).1 == self@[0].1,
            decreases self@.len() - i,
        {
            if self[i].column() != self[0].column() {
                return false;
            }
            i = i + 1;
        }
        true
    }

    /// Whether all the cells lie in one block; true of no cells.
    fn share_block(self) -> (r: bool)
        ensures
            r == same_block(self@),
    {
        let mut i: usize = 1;
        while i < self.len()
            invariant
                1 <= i,
                i <= self@.len() || self@.len() == 0,
                forall|k: int| 0 <= k < i && k < self@.len() ==> (#[trigger] self@[k]).block_of() == self@[0].block_of(),
            decreases self@.len() - i,
        {
            if self[i].block() != self[0].block() {
                return false;
            }
            i = i + 1;
        }
        true
    }

    /// Whether there are cells and they all lie in one row, one column or one block.
    fn share_house(self) -> (r: bool)
        ensures
            r == (self@.len() > 0 && (same_row(self@) || same_column(self@) || same_block(self@))),
    {
        if self.len() == 0 {
            return false;
        }
        let rows = self.clone();
        let columns = self.clone();
        proof {
            assert(rows@ =~= self@);
            assert(columns@ =~= self@);
        }
        rows.share_row() || columns.share_column() || self.share_block()
    }
}

} // verus!
