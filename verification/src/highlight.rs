use vstd::prelude::*;

use crate::index::{CellIndex, DigitIndex, HouseIndex};

verus! {

/// Something a solving step points at: a candidate in a cell, a house, or a cell.
#[derive(Clone, Copy, Debug, PartialEq, Eq)]
pub enum Highlight {
    Digit((CellIndex, DigitIndex)),
    House(HouseIndex),
    Cell(CellIndex),
}

/// The cells of `cells` whose candidates include `d`, in order.
pub open spec fn cells_having(b: Seq<Set<int>>, cells: Seq<CellIndex>, d: int) -> Seq<CellIndex>
    decreases cells.len(),
{
    if cells.len() == 0 {
        Seq::empty()
    } else if b[cells.last()@].contains(d) {
        cells_having(b, cells.drop_last(), d).push(cells.last())
    } else {
        cells_having(b, cells.drop_last(), d)
    }
}

/// A mark of digit `d` on each of `cells`, in order.
pub open spec fn digit_marks(cells: Seq<CellIndex>, d: int) -> Seq<Highlight> {
    cells.map_values(|c: CellIndex| Highlight::Digit((c, DigitIndex::from_int(d))))
}

/// For each digit of `digits` in turn, a mark on each cell of `cells` that has it, in order.
pub open spec fn group_marks(b: Seq<Set<int>>, cells: Seq<CellIndex>, digits: Seq<int>) -> Seq<Highlight>
    decreases digits.len(),
{
    if digits.len() == 0 {
        Seq::empty()
    } else {
        group_marks(b, cells, digits.drop_last()) + digit_marks(cells_having(b, cells, digits.last()), digits.last())
    }
}

/// Marks of each digit of `ds` in turn on both cells.
pub open spec fn pair_marks(c0: CellIndex, c1: CellIndex, ds: Seq<int>) -> Seq<Highlight>
    decreases ds.len(),
{
    if ds.len() == 0 {
        Seq::empty()
    } else {
        pair_marks(c0, c1, ds.drop_last()) + seq![
            Highlight::Digit((c0, DigitIndex::from_int(ds.last()))),
            Highlight::Digit((c1, DigitIndex::from_int(ds.last()))),
        ]
    }
}

/// The cells that the node numbers of chain `p` stand for, in order.
pub open spec fn chain_marks(nodes: Seq<CellIndex>, p: Seq<usize>) -> Seq<Highlight> {
    p.map_values(|x: usize| Highlight::Cell(nodes[x as int]))
}

impl From<HouseIndex> for Highlight {
    fn from(value: HouseIndex) -> (r: Self) {
        Highlight::House(value)
    }
}

impl vstd::std_specs::convert::FromSpecImpl<HouseIndex> for Highlight {
    open spec fn obeys_from_spec() -> bool {
        true
    }

    open spec fn from_spec(v: HouseIndex) -> Self {
        Highlight::House(v)
    }
}

impl From<(CellIndex, DigitIndex)> for Highlight {
    fn from(value: (CellIndex, DigitIndex)) -> (r: Self) {
        Highlight::Digit(value)
    }
}

impl vstd::std_specs::convert::FromSpecImpl<(CellIndex, DigitIndex)> for Highlight {
    open spec fn obeys_from_spec() -> bool {
        true
    }

    open spec fn from_spec(v: (CellIndex, DigitIndex)) -> Self {
        Highlight::Digit(v)
    }
}

impl From<CellIndex> for Highlight {
    fn from(value: CellIndex) -> (r: Self) {
        Highlight::Cell(value)
    }
}

impl vstd::std_specs::convert::FromSpecImpl<CellIndex> for Highlight {
    open spec fn obeys_from_spec() -> bool {
        true
    }

    open spec fn from_spec(v: CellIndex) -> Self {
        Highlight::Cell(v)
    }
}

} // verus!
