use vstd::prelude::*;

use crate::error::SudokuError;

verus! {

/// A position inside a house, from 0 to 8.
#[derive(Clone, Copy, Debug, PartialEq, Eq, Structural, PartialOrd, Ord, Hash)]
pub enum SudokuIndex {
    I1, I2, I3, I4, I5, I6, I7, I8, I9,
}

impl SudokuIndex {
    pub const COUNT: usize = 9;

    /// The number that this index stands for.
    pub open spec fn view(self) -> int {
        match self {
            SudokuIndex::I1 => 0,
            SudokuIndex::I2 => 1,
            SudokuIndex::I3 => 2,
            SudokuIndex::I4 => 3,
            SudokuIndex::I5 => 4,
            SudokuIndex::I6 => 5,
            SudokuIndex::I7 => 6,
            SudokuIndex::I8 => 7,
            SudokuIndex::I9 => 8,
        }
    }

    /// The index that stands for `i`, for `0 <= i < 9`.
    pub open spec fn from_int(i: int) -> Self {
        if i == 0 {
            SudokuIndex::I1
        } else if i == 1 {
            SudokuIndex::I2
        } else if i == 2 {
            SudokuIndex::I3
        } else if i == 3 {
            SudokuIndex::I4
        } else if i == 4 {
            SudokuIndex::I5
        } else if i == 5 {
            SudokuIndex::I6
        } else if i == 6 {
            SudokuIndex::I7
        } else if i == 7 {
            SudokuIndex::I8
        } else {
            SudokuIndex::I9
        }
    }

    /// Builds the index for `index`; fails for values outside `0..9`.
    pub fn new(index: usize) -> (r: Result<Self, SudokuError>)
        ensures
            index < 9 ==> r == Ok::<Self, SudokuError>(Self::from_int(index as int)),
            index >= 9 ==> r == Err::<Self, SudokuError>(SudokuError::InvalidValue(index)),
    {
        match index {
            0 => Ok(SudokuIndex::I1),
            1 => Ok(SudokuIndex::I2),
            2 => Ok(SudokuIndex::I3),
            3 => Ok(SudokuIndex::I4),
            4 => Ok(SudokuIndex::I5),
            5 => Ok(SudokuIndex::I6),
            6 => Ok(SudokuIndex::I7),
            7 => Ok(SudokuIndex::I8),
            8 => Ok(SudokuIndex::I9),
            _ => Err(SudokuError::InvalidValue(index)),
        }
    }

    /// Builds the index for a value already known to be in range.
    pub fn from_value(index: usize) -> (r: Self)
        requires
            index < 9,
        ensures
            r == Self::from_int(index as int),
            r@ == index,
    {
        match index {
            0 => SudokuIndex::I1,
            1 => SudokuIndex::I2,
            2 => SudokuIndex::I3,
            3 => SudokuIndex::I4,
            4 => SudokuIndex::I5,
            5 => SudokuIndex::I6,
            6 => SudokuIndex::I7,
            7 => SudokuIndex::I8,
            _ => SudokuIndex::I9,
        }
    }

    /// The number that this index stands for, in `0..9`.
    pub fn value(&self) -> (r: usize)
        ensures
            r == self@,
            r < 9,
    {
        match self {
            SudokuIndex::I1 => 0,
            SudokuIndex::I2 => 1,
            SudokuIndex::I3 => 2,
            SudokuIndex::I4 => 3,
            SudokuIndex::I5 => 4,
            SudokuIndex::I6 => 5,
            SudokuIndex::I7 => 6,
            SudokuIndex::I8 => 7,
            SudokuIndex::I9 => 8,
        }
    }

    /// Whether both indices stand for the same number.
    pub fn const_eq(&self, other: &Self) -> (r: bool)
        ensures
            r == (*self == *other),
    {
        proof {
            Self::lemma_view_injective(*self, *other);
        }
        self.value() == other.value()
    }

    /// All nine indices, in increasing order.
    pub fn iter() -> (r: Vec<Self>)
        ensures
            r@.len() == 9,
            forall|i: int| 0 <= i < 9 ==> (#[trigger] r@[i])@ == i,
    {
        let mut r: Vec<Self> = Vec::new();
        let mut i: usize = 0;
        while i < 9
            invariant
                i <= 9,
                r@.len() == i,
                forall|j: int| 0 <= j < i ==> (#[trigger] r@[j])@ == j,
            decreases 9 - i,
        {
            r.push(Self::from_value(i));
            i = i + 1;
        }
        r
    }

    /// Distinct indices stand for distinct numbers, and every number of `0..9` for one index.
    pub proof fn lemma_view_injective(a: Self, b: Self)
        ensures
            0 <= a@ < 9,
            (a@ == b@) <==> (a == b),
            Self::from_int(a@) == a,
    {
    }

    /// `from_int` is a right inverse of the view on `0..9`.
    pub proof fn lemma_from_int(i: int)
        requires
            0 <= i < 9,
        ensures
            Self::from_int(i)@ == i,
    {
    }
}

/// A sudoku digit, stored as 0 for the digit 1 up to 8 for the digit 9.
#[derive(Clone, Copy, Debug, PartialEq, Eq, Structural, PartialOrd, Ord, Hash)]
pub enum DigitIndex {
    D1, D2, D3, D4, D5, D6, D7, D8, D9,
}

impl DigitIndex {
    pub const COUNT: usize = 9;

    /// The number that this index stands for.
    pub open spec fn view(self) -> int {
        match self {
            DigitIndex::D1 => 0,
            DigitIndex::D2 => 1,
            DigitIndex::D3 => 2,
            DigitIndex::D4 => 3,
            DigitIndex::D5 => 4,
            DigitIndex::D6 => 5,
            DigitIndex::D7 => 6,
            DigitIndex::D8 => 7,
            DigitIndex::D9 => 8,
        }
    }

    /// The index that stands for `i`, for `0 <= i < 9`.
    pub open spec fn from_int(i: int) -> Self {
        if i == 0 {
            DigitIndex::D1
        } else if i == 1 {
            DigitIndex::D2
        } else if i == 2 {
            DigitIndex::D3
        } else if i == 3 {
            DigitIndex::D4
        } else if i == 4 {
            DigitIndex::D5
        } else if i == 5 {
            DigitIndex::D6
        } else if i == 6 {
            DigitIndex::D7
        } else if i == 7 {
            DigitIndex::D8
        } else {
            DigitIndex::D9
        }
    }

    /// Builds the index for `index`; fails for values outside `0..9`.
    pub fn new(index: usize) -> (r: Result<Self, SudokuError>)
        ensures
            index < 9 ==> r == Ok::<Self, SudokuError>(Self::from_int(index as int)),
            index >= 9 ==> r == Err::<Self, SudokuError>(SudokuError::InvalidValue(index)),
    {
        match index {
            0 => Ok(DigitIndex::D1),
            1 => Ok(DigitIndex::D2),
            2 => Ok(DigitIndex::D3),
            3 => Ok(DigitIndex::D4),
            4 => Ok(DigitIndex::D5),
            5 => Ok(DigitIndex::D6),
            6 => Ok(DigitIndex::D7),
            7 => Ok(DigitIndex::D8),
            8 => Ok(DigitIndex::D9),
            _ => Err(SudokuError::InvalidValue(index)),
        }
    }

    /// Builds the index for a value already known to be in range.
    pub fn from_value(index: usize) -> (r: Self)
        requires
            index < 9,
        ensures
            r == Self::from_int(index as int),
            r@ == index,
    {
        match index {
            0 => DigitIndex::D1,
            1 => DigitIndex::D2,
            2 => DigitIndex::D3,
            3 => DigitIndex::D4,
            4 => DigitIndex::D5,
            5 => DigitIndex::D6,
            6 => DigitIndex::D7,
            7 => DigitIndex::D8,
            _ => DigitIndex::D9,
        }
    }

    /// The number that this index stands for, in `0..9`.
    pub fn value(&self) -> (r: usize)
        ensures
            r == self@,
            r < 9,
    {
        match self {
            DigitIndex::D1 => 0,
            DigitIndex::D2 => 1,
            DigitIndex::D3 => 2,
            DigitIndex::D4 => 3,
            DigitIndex::D5 => 4,
            DigitIndex::D6 => 5,
            DigitIndex::D7 => 6,
            DigitIndex::D8 => 7,
            DigitIndex::D9 => 8,
        }
    }

    /// The position of this index among the nine, in `0..9`: its number.
    pub fn index(&self) -> (r: usize)
        ensures
            r == self@,
            r < 9,
    {
        self.value()
    }

    /// Whether both indices stand for the same number.
    pub fn const_eq(&self, other: &Self) -> (r: bool)
        ensures
            r == (*self == *other),
    {
        proof {
            Self::lemma_view_injective(*self, *other);
        }
        self.value() == other.value()
    }

    /// All nine indices, in increasing order.
    pub fn iter() -> (r: Vec<Self>)
        ensures
            r@.len() == 9,
            forall|i: int| 0 <= i < 9 ==> (#[trigger] r@[i])@ == i,
    {
        let mut r: Vec<Self> = Vec::new();
        let mut i: usize = 0;
        while i < 9
            invariant
                i <= 9,
                r@.len() == i,
                forall|j: int| 0 <= j < i ==> (#[trigger] r@[j])@ == j,
            decreases 9 - i,
        {
            r.push(Self::from_value(i));
            i = i + 1;
        }
        r
    }

    /// Distinct indices stand for distinct numbers, and every number of `0..9` for one index.
    pub proof fn lemma_view_injective(a: Self, b: Self)
        ensures
            0 <= a@ < 9,
            (a@ == b@) <==> (a == b),
            Self::from_int(a@) == a,
    {
    }

    /// `from_int` is a right inverse of the view on `0..9`.
    pub proof fn lemma_from_int(i: int)
        requires
            0 <= i < 9,
        ensures
            Self::from_int(i)@ == i,
    {
    }
}

/// A row of the board, from top (0) to bottom (8).
#[derive(Clone, Copy, Debug, PartialEq, Eq, Structural, PartialOrd, Ord, Hash)]
pub enum RowIndex {
    R1, R2, R3, R4, R5, R6, R7, R8, R9,
}

impl RowIndex {
    pub const COUNT: usize = 9;

    /// The number that this index stands for.
    pub open spec fn view(self) -> int {
        match self {
            RowIndex::R1 => 0,
            RowIndex::R2 => 1,
            RowIndex::R3 => 2,
            RowIndex::R4 => 3,
            RowIndex::R5 => 4,
            RowIndex::R6 => 5,
            RowIndex::R7 => 6,
            RowIndex::R8 => 7,
            RowIndex::R9 => 8,
        }
    }

    /// The index that stands for `i`, for `0 <= i < 9`.
    pub open spec fn from_int(i: int) -> Self {
        if i == 0 {
            RowIndex::R1
        } else if i == 1 {
            RowIndex::R2
        } else if i == 2 {
            RowIndex::R3
        } else if i == 3 {
            RowIndex::R4
        } else if i == 4 {
            RowIndex::R5
        } else if i == 5 {
            RowIndex::R6
        } else if i == 6 {
            RowIndex::R7
        } else if i == 7 {
            RowIndex::R8
        } else {
            RowIndex::R9
        }
    }

    /// Builds the index for `index`; fails for values outside `0..9`.
    pub fn new(index: usize) -> (r: Result<Self, SudokuError>)
        ensures
            index < 9 ==> r == Ok::<Self, SudokuError>(Self::from_int(index as int)),
            index >= 9 ==> r == Err::<Self, SudokuError>(SudokuError::InvalidValue(index)),
    {
        match index {
            0 => Ok(RowIndex::R1),
            1 => Ok(RowIndex::R2),
            2 => Ok(RowIndex::R3),
            3 => Ok(RowIndex::R4),
            4 => Ok(RowIndex::R5),
            5 => Ok(RowIndex::R6),
            6 => Ok(RowIndex::R7),
            7 => Ok(RowIndex::R8),
            8 => Ok(RowIndex::R9),
            _ => Err(SudokuError::InvalidValue(index)),
        }
    }

    /// Builds the index for a value already known to be in range.
    pub fn from_value(index: usize) -> (r: Self)
        requires
            index < 9,
        ensures
            r == Self::from_int(index as int),
            r@ == index,
    {
        match index {
            0 => RowIndex::R1,
            1 => RowIndex::R2,
            2 => RowIndex::R3,
            3 => RowIndex::R4,
            4 => RowIndex::R5,
            5 => RowIndex::R6,
            6 => RowIndex::R7,
            7 => RowIndex::R8,
            _ => RowIndex::R9,
        }
    }

    /// The number that this index stands for, in `0..9`.
    pub fn value(&self) -> (r: usize)
        ensures
            r == self@,
            r < 9,
    {
        match self {
            RowIndex::R1 => 0,
            RowIndex::R2 => 1,
            RowIndex::R3 => 2,
            RowIndex::R4 => 3,
            RowIndex::R5 => 4,
            RowIndex::R6 => 5,
            RowIndex::R7 => 6,
            RowIndex::R8 => 7,
            RowIndex::R9 => 8,
        }
    }

    /// The position of this index among the nine, in `0..9`: its number.
    pub fn index(&self) -> (r: usize)
        ensures
            r == self@,
            r < 9,
    {
        self.value()
    }

    /// Whether both indices stand for the same number.
    pub fn const_eq(&self, other: &Self) -> (r: bool)
        ensures
            r == (*self == *other),
    {
        proof {
            Self::lemma_view_injective(*self, *other);
        }
        self.value() == other.value()
    }

    /// All nine indices, in increasing order.
    pub fn iter() -> (r: Vec<Self>)
        ensures
            r@.len() == 9,
            forall|i: int| 0 <= i < 9 ==> (#[trigger] r@[i])@ == i,
    {
        let mut r: Vec<Self> = Vec::new();
        let mut i: usize = 0;
        while i < 9
            invariant
                i <= 9,
                r@.len() == i,
                forall|j: int| 0 <= j < i ==> (#[trigger] r@[j])@ == j,
            decreases 9 - i,
        {
            r.push(Self::from_value(i));
            i = i + 1;
        }
        r
    }

    /// Distinct indices stand for distinct numbers, and every number of `0..9` for one index.
    pub proof fn lemma_view_injective(a: Self, b: Self)
        ensures
            0 <= a@ < 9,
            (a@ == b@) <==> (a == b),
            Self::from_int(a@) == a,
    {
    }

    /// `from_int` is a right inverse of the view on `0..9`.
    pub proof fn lemma_from_int(i: int)
        requires
            0 <= i < 9,
        ensures
            Self::from_int(i)@ == i,
    {
    }
}

/// A column of the board, from left (0) to right (8).
#[derive(Clone, Copy, Debug, PartialEq, Eq, Structural, PartialOrd, Ord, Hash)]
pub enum ColumnIndex {
    C1, C2, C3, C4, C5, C6, C7, C8, C9,
}

impl ColumnIndex {
    pub const COUNT: usize = 9;

    /// The number that this index stands for.
    pub open spec fn view(self) -> int {
        match self {
            ColumnIndex::C1 => 0,
            ColumnIndex::C2 => 1,
            ColumnIndex::C3 => 2,
            ColumnIndex::C4 => 3,
            ColumnIndex::C5 => 4,
            ColumnIndex::C6 => 5,
            ColumnIndex::C7 => 6,
            ColumnIndex::C8 => 7,
            ColumnIndex::C9 => 8,
        }
    }

    /// The index that stands for `i`, for `0 <= i < 9`.
    pub open spec fn from_int(i: int) -> Self {
        if i == 0 {
            ColumnIndex::C1
        } else if i == 1 {
            ColumnIndex::C2
        } else if i == 2 {
            ColumnIndex::C3
        } else if i == 3 {
            ColumnIndex::C4
        } else if i == 4 {
            ColumnIndex::C5
        } else if i == 5 {
            ColumnIndex::C6
        } else if i == 6 {
            ColumnIndex::C7
        } else if i == 7 {
            ColumnIndex::C8
        } else {
            ColumnIndex::C9
        }
    }

    /// Builds the index for `index`; fails for values outside `0..9`.
    pub fn new(index: usize) -> (r: Result<Self, SudokuError>)
        ensures
            index < 9 ==> r == Ok::<Self, SudokuError>(Self::from_int(index as int)),
            index >= 9 ==> r == Err::<Self, SudokuError>(SudokuError::InvalidValue(index)),
    {
        match index {
            0 => Ok(ColumnIndex::C1),
            1 => Ok(ColumnIndex::C2),
            2 => Ok(ColumnIndex::C3),
            3 => Ok(ColumnIndex::C4),
            4 => Ok(ColumnIndex::C5),
            5 => Ok(ColumnIndex::C6),
            6 => Ok(ColumnIndex::C7),
            7 => Ok(ColumnIndex::C8),
            8 => Ok(ColumnIndex::C9),
            _ => Err(SudokuError::InvalidValue(index)),
        }
    }

    /// Builds the index for a value already known to be in range.
    pub fn from_value(index: usize) -> (r: Self)
        requires
            index < 9,
        ensures
            r == Self::from_int(index as int),
            r@ == index,
    {
        match index {
            0 => ColumnIndex::C1,
            1 => ColumnIndex::C2,
            2 => ColumnIndex::C3,
            3 => ColumnIndex::C4,
            4 => ColumnIndex::C5,
            5 => ColumnIndex::C6,
            6 => ColumnIndex::C7,
            7 => ColumnIndex::C8,
            _ => ColumnIndex::C9,
        }
    }

    /// The number that this index stands for, in `0..9`.
    pub fn value(&self) -> (r: usize)
        ensures
            r == self@,
            r < 9,
    {
        match self {
            ColumnIndex::C1 => 0,
            ColumnIndex::C2 => 1,
            ColumnIndex::C3 => 2,
            ColumnIndex::C4 => 3,
            ColumnIndex::C5 => 4,
            ColumnIndex::C6 => 5,
            ColumnIndex::C7 => 6,
            ColumnIndex::C8 => 7,
            ColumnIndex::C9 => 8,
        }
    }

    /// The position of this index among the nine, in `0..9`: its number.
    pub fn index(&self) -> (r: usize)
        ensures
            r == self@,
            r < 9,
    {
        self.value()
    }

    /// Whether both indices stand for the same number.
    pub fn const_eq(&self, other: &Self) -> (r: bool)
        ensures
            r == (*self == *other),
    {
        proof {
            Self::lemma_view_injective(*self, *other);
        }
        self.value() == other.value()
    }

    /// All nine indices, in increasing order.
    pub fn iter() -> (r: Vec<Self>)
        ensures
            r@.len() == 9,
            forall|i: int| 0 <= i < 9 ==> (#[trigger] r@[i])@ == i,
    {
        let mut r: Vec<Self> = Vec::new();
        let mut i: usize = 0;
        while i < 9
            invariant
                i <= 9,
                r@.len() == i,
                forall|j: int| 0 <= j < i ==> (#[trigger] r@[j])@ == j,
            decreases 9 - i,
        {
            r.push(Self::from_value(i));
            i = i + 1;
        }
        r
    }

    /// Distinct indices stand for distinct numbers, and every number of `0..9` for one index.
    pub proof fn lemma_view_injective(a: Self, b: Self)
        ensures
            0 <= a@ < 9,
            (a@ == b@) <==> (a == b),
            Self::from_int(a@) == a,
    {
    }

    /// `from_int` is a right inverse of the view on `0..9`.
    pub proof fn lemma_from_int(i: int)
        requires
            0 <= i < 9,
        ensures
            Self::from_int(i)@ == i,
    {
    }
}

/// A 3x3 block, numbered row by row from the top-left (0) to the bottom-right (8).
#[derive(Clone, Copy, Debug, PartialEq, Eq, Structural, PartialOrd, Ord, Hash)]
pub enum BlockIndex {
    R1C1, R1C2, R1C3, R2C1, R2C2, R2C3, R3C1, R3C2, R3C3,
}

impl BlockIndex {
    pub const COUNT: usize = 9;

    /// The number that this index stands for.
    pub open spec fn view(self) -> int {
        match self {
            BlockIndex::R1C1 => 0,
            BlockIndex::R1C2 => 1,
            BlockIndex::R1C3 => 2,
            BlockIndex::R2C1 => 3,
            BlockIndex::R2C2 => 4,
            BlockIndex::R2C3 => 5,
            BlockIndex::R3C1 => 6,
            BlockIndex::R3C2 => 7,
            BlockIndex::R3C3 => 8,
        }
    }

    /// The index that stands for `i`, for `0 <= i < 9`.
    pub open spec fn from_int(i: int) -> Self {
        if i == 0 {
            BlockIndex::R1C1
        } else if i == 1 {
            BlockIndex::R1C2
        } else if i == 2 {
            BlockIndex::R1C3
        } else if i == 3 {
            BlockIndex::R2C1
        } else if i == 4 {
            BlockIndex::R2C2
        } else if i == 5 {
            BlockIndex::R2C3
        } else if i == 6 {
            BlockIndex::R3C1
        } else if i == 7 {
            BlockIndex::R3C2
        } else {
            BlockIndex::R3C3
        }
    }

    /// Builds the index for `index`; fails for values outside `0..9`.
    pub fn new(index: usize) -> (r: Result<Self, SudokuError>)
        ensures
            index < 9 ==> r == Ok::<Self, SudokuError>(Self::from_int(index as int)),
            index >= 9 ==> r == Err::<Self, SudokuError>(SudokuError::InvalidValue(index)),
    {
        match index {
            0 => Ok(BlockIndex::R1C1),
            1 => Ok(BlockIndex::R1C2),
            2 => Ok(BlockIndex::R1C3),
            3 => Ok(BlockIndex::R2C1),
            4 => Ok(BlockIndex::R2C2),
            5 => Ok(BlockIndex::R2C3),
            6 => Ok(BlockIndex::R3C1),
            7 => Ok(BlockIndex::R3C2),
            8 => Ok(BlockIndex::R3C3),
            _ => Err(SudokuError::InvalidValue(index)),
        }
    }

    /// Builds the index for a value already known to be in range.
    pub fn from_value(index: usize) -> (r: Self)
        requires
            index < 9,
        ensures
            r == Self::from_int(index as int),
            r@ == index,
    {
        match index {
            0 => BlockIndex::R1C1,
            1 => BlockIndex::R1C2,
            2 => BlockIndex::R1C3,
            3 => BlockIndex::R2C1,
            4 => BlockIndex::R2C2,
            5 => BlockIndex::R2C3,
            6 => BlockIndex::R3C1,
            7 => BlockIndex::R3C2,
            _ => BlockIndex::R3C3,
        }
    }

    /// The number that this index stands for, in `0..9`.
    pub fn value(&self) -> (r: usize)
        ensures
            r == self@,
            r < 9,
    {
        match self {
            BlockIndex::R1C1 => 0,
            BlockIndex::R1C2 => 1,
            BlockIndex::R1C3 => 2,
            BlockIndex::R2C1 => 3,
            BlockIndex::R2C2 => 4,
            BlockIndex::R2C3 => 5,
            BlockIndex::R3C1 => 6,
            BlockIndex::R3C2 => 7,
            BlockIndex::R3C3 => 8,
        }
    }

    /// Whether both indices stand for the same number.
    pub fn const_eq(&self, other: &Self) -> (r: bool)
        ensures
            r == (*self == *other),
    {
        proof {
            Self::lemma_view_injective(*self, *other);
        }
        self.value() == other.value()
    }

    /// All nine indices, in increasing order.
    pub fn iter() -> (r: Vec<Self>)
        ensures
            r@.len() == 9,
            forall|i: int| 0 <= i < 9 ==> (#[trigger] r@[i])@ == i,
    {
        let mut r: Vec<Self> = Vec::new();
        let mut i: usize = 0;
        while i < 9
            invariant
                i <= 9,
                r@.len() == i,
                forall|j: int| 0 <= j < i ==> (#[trigger] r@[j])@ == j,
            decreases 9 - i,
        {
            r.push(Self::from_value(i));
            i = i + 1;
        }
        r
    }

    /// Distinct indices stand for distinct numbers, and every number of `0..9` for one index.
    pub proof fn lemma_view_injective(a: Self, b: Self)
        ensures
            0 <= a@ < 9,
            (a@ == b@) <==> (a == b),
            Self::from_int(a@) == a,
    {
    }

    /// `from_int` is a right inverse of the view on `0..9`.
    pub proof fn lemma_from_int(i: int)
        requires
            0 <= i < 9,
        ensures
            Self::from_int(i)@ == i,
    {
    }
}

} // verus!
