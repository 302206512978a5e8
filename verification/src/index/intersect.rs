use vstd::prelude::*;

use super::region::{house_cells, in_house, lemma_house_cells};
use super::{BlockIndex, CellIndex, ColumnIndex, HouseIndex, RowIndex, SudokuRegion};

verus! {

/// The cells of `base`, in order, that lie in `other`, among the first `m`.
pub open spec fn cells_in(base: Seq<CellIndex>, other: HouseIndex, m: int) -> Seq<CellIndex>
    decreases m,
{
    if m <= 0 {
        Seq::empty()
    } else if in_house(other, base[m - 1]) {
        cells_in(base, other, m - 1).push(base[m - 1])
    } else {
        cells_in(base, other, m - 1)
    }
}

/// The cells common to two houses: those of the line, in line order, when a block meets a row or
/// a column; otherwise those of the first house, in its order.
pub open spec fn intersection(a: HouseIndex, b: HouseIndex) -> Seq<CellIndex> {
    if a is Block && !(b is Block) {
        cells_in(house_cells(b), a, 9)
    } else {
        cells_in(house_cells(a), b, 9)
    }
}

/// Every cell of `cells_in` lies in both houses, and a cell of `base` that lies in `other` is
/// there.
pub proof fn lemma_cells_in(base: Seq<CellIndex>, other: HouseIndex, m: int)
    requires
        0 <= m <= base.len(),
    ensures
        forall|c: CellIndex| #![trigger cells_in(base, other, m).contains(c)] #![trigger base.take(m).contains(c)]
            cells_in(base, other, m).contains(c) <==> (in_house(other, c) && base.take(m).contains(c)),
    decreases m,
{
    broadcast use vstd::seq_lib::lemma_seq_contains_after_push;
    if m > 0 {
        lemma_cells_in(base, other, m - 1);
        assert(base.take(m) =~= base.take(m - 1).push(base[m - 1]));
        assert forall|c: CellIndex| cells_in(base, other, m).contains(c) <==> (in_house(other, c) && base.take(m).contains(c)) by {
            vstd::seq_lib::lemma_seq_contains_after_push(base.take(m - 1), base[m - 1], c);
            vstd::seq_lib::lemma_seq_contains_after_push(cells_in(base, other, m - 1), base[m - 1], c);
            assert(cells_in(base, other, m - 1).contains(c) <==> (in_house(other, c) && base.take(m - 1).contains(c)));
        }
    }
}

/// The cells of `base`, in order, that lie in `other`.
fn house_intersection(base: HouseIndex, other: HouseIndex) -> (r: Vec<CellIndex>)
    ensures
        r@ == cells_in(house_cells(base), other, 9),
{
    proof {
        lemma_house_cells(base);
        lemma_house_cells(other);
    }
    let cells = base.cell_indices();
    let mut r: Vec<CellIndex> = Vec::new();
    let mut u: usize = 0;
    while u < 9
        invariant
            u <= 9,
            cells@ == house_cells(base),
            cells@.len() == 9,
            forall|c: CellIndex| house_cells(other).contains(c) <==> in_house(other, c),
            r@ == cells_in(house_cells(base), other, u as int),
        decreases 9 - u,
    {
        if other.contains(cells[u]) {
            r.push(cells[u]);
        }
        u = u + 1;
    }
    r
}

/// The cells common to two houses, as `intersection` orders them.
fn intersect_houses(a: HouseIndex, b: HouseIndex) -> (r: Vec<CellIndex>)
    ensures
        r@ == intersection(a, b),
{
    match a {
        HouseIndex::Block(_) => match b {
            HouseIndex::Block(_) => house_intersection(a, b),
            _ => house_intersection(b, a),
        },
        _ => house_intersection(a, b),
    }
}

/// The cells that two regions have in common.
pub trait RegionIntersection<Rhs> {
    /// The common cells, in the order `intersect` gives them.
    spec fn intersect_spec(&self, rhs: &Rhs) -> Seq<CellIndex>;

    /// The cells common to both regions.
    fn intersect(&self, rhs: &Rhs) -> (r: Vec<CellIndex>)
        ensures
            r@ == self.intersect_spec(rhs),
    ;
}

impl RegionIntersection<RowIndex> for RowIndex {
    open spec fn intersect_spec(&self, rhs: &RowIndex) -> Seq<CellIndex> {
        intersection(HouseIndex::Row(*self), HouseIndex::Row(*rhs))
    }

    fn intersect(&self, rhs: &RowIndex) -> (r: Vec<CellIndex>) {
        intersect_houses(HouseIndex::Row(*self), HouseIndex::Row(*rhs))
    }
}

impl RegionIntersection<ColumnIndex> for RowIndex {
    open spec fn intersect_spec(&self, rhs: &ColumnIndex) -> Seq<CellIndex> {
        intersection(HouseIndex::Row(*self), HouseIndex::Column(*rhs))
    }

    fn intersect(&self, rhs: &ColumnIndex) -> (r: Vec<CellIndex>) {
        intersect_houses(HouseIndex::Row(*self), HouseIndex::Column(*rhs))
    }
}

impl RegionIntersection<BlockIndex> for RowIndex {
    open spec fn intersect_spec(&self, rhs: &BlockIndex) -> Seq<CellIndex> {
        intersection(HouseIndex::Row(*self), HouseIndex::Block(*rhs))
    }

    fn intersect(&self, rhs: &BlockIndex) -> (r: Vec<CellIndex>) {
        intersect_houses(HouseIndex::Row(*self), HouseIndex::Block(*rhs))
    }
}

impl RegionIntersection<HouseIndex> for RowIndex {
    open spec fn intersect_spec(&self, rhs: &HouseIndex) -> Seq<CellIndex> {
        intersection(HouseIndex::Row(*self), *rhs)
    }

    fn intersect(&self, rhs: &HouseIndex) -> (r: Vec<CellIndex>) {
        intersect_houses(HouseIndex::Row(*self), *rhs)
    }
}

impl RegionIntersection<RowIndex> for ColumnIndex {
    open spec fn intersect_spec(&self, rhs: &RowIndex) -> Seq<CellIndex> {
        intersection(HouseIndex::Column(*self), HouseIndex::Row(*rhs))
    }

    fn intersect(&self, rhs: &RowIndex) -> (r: Vec<CellIndex>) {
        intersect_houses(HouseIndex::Column(*self), HouseIndex::Row(*rhs))
    }
}

impl RegionIntersection<ColumnIndex> for ColumnIndex {
    open spec fn intersect_spec(&self, rhs: &ColumnIndex) -> Seq<CellIndex> {
        intersection(HouseIndex::Column(*self), HouseIndex::Column(*rhs))
    }

    fn intersect(&self, rhs: &ColumnIndex) -> (r: Vec<CellIndex>) {
        intersect_houses(HouseIndex::Column(*self), HouseIndex::Column(*rhs))
    }
}

impl RegionIntersection<BlockIndex> for ColumnIndex {
    open spec fn intersect_spec(&self, rhs: &BlockIndex) -> Seq<CellIndex> {
        intersection(HouseIndex::Column(*self), HouseIndex::Block(*rhs))
    }

    fn intersect(&self, rhs: &BlockIndex) -> (r: Vec<CellIndex>) {
        intersect_houses(HouseIndex::Column(*self), HouseIndex::Block(*rhs))
    }
}

impl RegionIntersection<HouseIndex> for ColumnIndex {
    open spec fn intersect_spec(&self, rhs: &HouseIndex) -> Seq<CellIndex> {
        intersection(HouseIndex::Column(*self), *rhs)
    }

    fn intersect(&self, rhs: &HouseIndex) -> (r: Vec<CellIndex>) {
        intersect_houses(HouseIndex::Column(*self), *rhs)
    }
}

impl RegionIntersection<RowIndex> for BlockIndex {
    open spec fn intersect_spec(&self, rhs: &RowIndex) -> Seq<CellIndex> {
        intersection(HouseIndex::Block(*self), HouseIndex::Row(*rhs))
    }

    fn intersect(&self, rhs: &RowIndex) -> (r: Vec<CellIndex>) {
        intersect_houses(HouseIndex::Block(*self), HouseIndex::Row(*rhs))
    }
}

impl RegionIntersection<ColumnIndex> for BlockIndex {
    open spec fn intersect_spec(&self, rhs: &ColumnIndex) -> Seq<CellIndex> {
        intersection(HouseIndex::Block(*self), HouseIndex::Column(*rhs))
    }

    fn intersect(&self, rhs: &ColumnIndex) -> (r: Vec<CellIndex>) {
        intersect_houses(HouseIndex::Block(*self), HouseIndex::Column(*rhs))
    }
}

impl RegionIntersection<BlockIndex> for BlockIndex {
    open spec fn intersect_spec(&self, rhs: &BlockIndex) -> Seq<CellIndex> {
        intersection(HouseIndex::Block(*self), HouseIndex::Block(*rhs))
    }

    fn intersect(&self, rhs: &BlockIndex) -> (r: Vec<CellIndex>) {
        intersect_houses(HouseIndex::Block(*self), HouseIndex::Block(*rhs))
    }
}

impl RegionIntersection<HouseIndex> for BlockIndex {
    open spec fn intersect_spec(&self, rhs: &HouseIndex) -> Seq<CellIndex> {
        intersection(HouseIndex::Block(*self), *rhs)
    }

    fn intersect(&self, rhs: &HouseIndex) -> (r: Vec<CellIndex>) {
        intersect_houses(HouseIndex::Block(*self), *rhs)
    }
}

impl RegionIntersection<RowIndex> for HouseIndex {
    open spec fn intersect_spec(&self, rhs: &RowIndex) -> Seq<CellIndex> {
        intersection(*self, HouseIndex::Row(*rhs))
    }

    fn intersect(&self, rhs: &RowIndex) -> (r: Vec<CellIndex>) {
        intersect_houses(*self, HouseIndex::Row(*rhs))
    }
}

impl RegionIntersection<ColumnIndex> for HouseIndex {
    open spec fn intersect_spec(&self, rhs: &ColumnIndex) -> Seq<CellIndex> {
        intersection(*self, HouseIndex::Column(*rhs))
    }

    fn intersect(&self, rhs: &ColumnIndex) -> (r: Vec<CellIndex>) {
        intersect_houses(*self, HouseIndex::Column(*rhs))
    }
}

impl RegionIntersection<BlockIndex> for HouseIndex {
    open spec fn intersect_spec(&self, rhs: &BlockIndex) -> Seq<CellIndex> {
        intersection(*self, HouseIndex::Block(*rhs))
    }

    fn intersect(&self, rhs: &BlockIndex) -> (r: Vec<CellIndex>) {
        intersect_houses(*self, HouseIndex::Block(*rhs))
    }
}

impl RegionIntersection<HouseIndex> for HouseIndex {
    open spec fn intersect_spec(&self, rhs: &HouseIndex) -> Seq<CellIndex> {
        intersection(*self, *rhs)
    }

    fn intersect(&self, rhs: &HouseIndex) -> (r: Vec<CellIndex>) {
        intersect_houses(*self, *rhs)
    }
}

} // verus!
