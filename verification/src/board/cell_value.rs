use vstd::prelude::*;

use crate::error::SudokuError;
use crate::flags::{full_set, DigitFlags};
use crate::index::DigitIndex;

verus! {

/// The candidates still open for one cell of the board.
#[derive(Clone, Copy, Debug, Hash)]
pub struct SudokuCell(DigitFlags);

/// A finite set of length one is the singleton of any of its members.
pub proof fn lemma_singleton(s: Set<int>, x: int)
    requires
        s.finite(),
        s.len() == 1,
        s.contains(x),
    ensures
        s == Set::<int>::empty().insert(x),
{
    s.remove(x).lemma_len0_is_empty();
    assert(s =~= Set::<int>::empty().insert(x));
}

impl SudokuCell {
    /// The candidate digits of the cell.
    pub closed spec fn view(self) -> Set<int> {
        self.0@
    }

    /// The candidates are digits of `0..9`, finitely many.
    pub proof fn lemma_view(self)
        ensures
            self@.subset_of(full_set()),
            self@.finite(),
            self@.len() <= 9,
    {
        self.0.lemma_view();
    }

    /// A cell with every digit as candidate.
    pub fn new() -> (r: Self)
        ensures
            r@ == full_set(),
    {
        SudokuCell(DigitFlags::all())
    }

    /// A cell with the given candidates.
    pub fn from_flags(flags: DigitFlags) -> (r: Self)
        ensures
            r@ == flags@,
    {
        SudokuCell(flags)
    }

    /// A cell set to the digit `d`.
    pub fn digit(d: DigitIndex) -> (r: Self)
        ensures
            r@ == Set::<int>::empty().insert(d@),
    {
        SudokuCell(DigitFlags::only(d))
    }

    /// Whether the cell has a candidate left.
    pub fn is_valid(&self) -> (r: bool)
        ensures
            r == (self@ != Set::<int>::empty()),
    {
        self.0.any()
    }

    /// Whether the cell is down to one candidate.
    pub fn is_digit(&self) -> (r: bool)
        ensures
            r == (self@.len() == 1),
    {
        self.0.count() == 1
    }

    /// The digit of the cell, when it is down to one candidate.
    pub fn digit_value(&self) -> (r: Option<DigitIndex>)
        ensures
            r is Some <==> self@.len() == 1,
            r matches Some(d) ==> self@ == Set::<int>::empty().insert(d@),
    {
        if self.is_digit() {
            match self.0.first() {
                Some(d) => {
                    proof {
                        self.lemma_view();
                        lemma_singleton(self@, d@);
                    }
                    Some(d)
                },
                None => {
                    proof {
                        assert(self@.len() == 0);
                    }
                    None
                },
            }
        } else {
            None
        }
    }

    /// Whether the cell has exactly two candidates.
    pub fn is_bivalue(&self) -> (r: bool)
        ensures
            r == (self@.len() == 2),
    {
        self.0.count() == 2
    }

    /// How many candidates the cell has.
    pub fn num_digits(&self) -> (r: usize)
        ensures
            r == self@.len(),
            r <= 9,
    {
        self.0.count()
    }

    /// Keeps only the candidates in `mask`; tells whether a candidate was removed.
    pub fn apply_mask(&mut self, mask: &DigitFlags) -> (r: bool)
        ensures
            final(self)@ == old(self)@.intersect(mask@),
            r == (old(self)@.intersect(mask@) != old(self)@),
    {
        if self.would_change(mask) {
            self.0 = self.0.intersection(*mask);
            true
        } else {
            proof {
                assert(self@.intersect(mask@) =~= self@);
            }
            false
        }
    }

    /// Whether keeping only the candidates in `mask` would remove one.
    pub fn would_change(&self, mask: &DigitFlags) -> (r: bool)
        ensures
            r == (self@.intersect(mask@) != self@),
    {
        self.0.intersection(*mask) != self.0
    }

    /// Whether `d` is a candidate.
    pub fn contains(&self, d: DigitIndex) -> (r: bool)
        ensures
            r == self@.contains(d@),
    {
        self.0.contains(d)
    }

    /// The candidates as a set of digits.
    pub fn digit_flags(&self) -> (r: DigitFlags)
        ensures
            r@ == self@,
    {
        self.0
    }

    /// The candidates, in increasing order.
    pub fn digits(&self) -> (r: Vec<DigitIndex>)
        ensures
            r@.map_values(|d: DigitIndex| d@) == crate::flags::ascending(self@, 9),
    {
        self.0.iter()
    }

    /// The cell that a puzzle character stands for: `.` and `0` leave the cell open, `1` to `9`
    /// set it; any other character is refused.
    pub fn try_from(c: char) -> (r: Result<Self, SudokuError>)
        ensures
            r is Ok <==> char_cell_ok(c),
            r matches Ok(cell) ==> cell@ == char_candidates(c),
            r is Err ==> r == Err::<Self, SudokuError>(SudokuError::InvalidDigit(c)),
    {
        match c {
            '.' | '0' => Ok(Self::new()),
            '1' => Ok(Self::digit(DigitIndex::D1)),
            '2' => Ok(Self::digit(DigitIndex::D2)),
            '3' => Ok(Self::digit(DigitIndex::D3)),
            '4' => Ok(Self::digit(DigitIndex::D4)),
            '5' => Ok(Self::digit(DigitIndex::D5)),
            '6' => Ok(Self::digit(DigitIndex::D6)),
            '7' => Ok(Self::digit(DigitIndex::D7)),
            '8' => Ok(Self::digit(DigitIndex::D8)),
            '9' => Ok(Self::digit(DigitIndex::D9)),
            _ => Err(SudokuError::InvalidDigit(c)),
        }
    }

    /// The character of the cell: its digit `1` to `9` when set, `0` when still open.
    pub fn to_char(&self) -> (r: char)
        ensures
            r == cell_char(self@),
    {
        match self.digit_value() {
            Some(d) => {
                proof {
                    self.lemma_view();
                    assert(self@.contains(self@.choose()));
                }
                digit_char(d)
            },
            None => '0',
        }
    }
}

/// The puzzle character of digit `d` (`0 <= d < 9`): `'1'` to `'9'`.
pub open spec fn digit_char_spec(d: int) -> char {
    if d == 0 {
        '1'
    } else if d == 1 {
        '2'
    } else if d == 2 {
        '3'
    } else if d == 3 {
        '4'
    } else if d == 4 {
        '5'
    } else if d == 5 {
        '6'
    } else if d == 6 {
        '7'
    } else if d == 7 {
        '8'
    } else {
        '9'
    }
}

/// The character written for a cell with candidates `s`: its digit when it has exactly one,
/// else `'0'`.
pub open spec fn cell_char(s: Set<int>) -> char {
    if s.len() == 1 {
        digit_char_spec(s.choose())
    } else {
        '0'
    }
}

/// The digit that a puzzle character sets, if it is one of `1` to `9`.
pub open spec fn char_digit(c: char) -> Option<int> {
    if c == '1' {
        Some(0int)
    } else if c == '2' {
        Some(1int)
    } else if c == '3' {
        Some(2int)
    } else if c == '4' {
        Some(3int)
    } else if c == '5' {
        Some(4int)
    } else if c == '6' {
        Some(5int)
    } else if c == '7' {
        Some(6int)
    } else if c == '8' {
        Some(7int)
    } else if c == '9' {
        Some(8int)
    } else {
        None
    }
}

/// What a puzzle character decodes to: an open cell, a set cell, or the error naming it.
pub open spec fn char_cell_ok(c: char) -> bool {
    c == '.' || c == '0' || char_digit(c) is Some
}

/// The candidates that a valid puzzle character stands for.
pub open spec fn char_candidates(c: char) -> Set<int> {
    match char_digit(c) {
        Some(d) => Set::<int>::empty().insert(d),
        None => full_set(),
    }
}

fn digit_char(d: DigitIndex) -> (r: char)
    ensures
        r == digit_char_spec(d@),
{
    match d {
        DigitIndex::D1 => '1',
        DigitIndex::D2 => '2',
        DigitIndex::D3 => '3',
        DigitIndex::D4 => '4',
        DigitIndex::D5 => '5',
        DigitIndex::D6 => '6',
        DigitIndex::D7 => '7',
        DigitIndex::D8 => '8',
        DigitIndex::D9 => '9',
    }
}

impl PartialEq for SudokuCell {
    fn eq(&self, other: &Self) -> (r: bool) {
        self.0 == other.0
    }
}

impl vstd::std_specs::cmp::PartialEqSpecImpl for SudokuCell {
    open spec fn obeys_eq_spec() -> bool {
        true
    }

    open spec fn eq_spec(&self, other: &Self) -> bool {
        self@ == other@
    }
}

impl Eq for SudokuCell {
}

impl Default for SudokuCell {
    fn default() -> (r: Self)
        ensures
            r@ == full_set(),
    {
        Self::new()
    }
}

} // verus!
