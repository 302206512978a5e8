use vstd::prelude::*;

use crate::error::SudokuError;

use crate::flags::full_set;

use super::cell_value::{cell_char, char_candidates, char_cell_ok, char_digit, digit_char_spec};
use super::container::lemma_full_set;
use super::{SudokuBoard, SudokuCell};

verus! {

/// Appends one character to a string, through `String::push`, whose documentation says that it
/// appends the given `char` to the end of the string.
#[verifier::external_body]
fn push_char(s: &mut String, c: char)
    ensures
        final(s)@ == old(s)@.push(c),
{
    s.push(c)
}

/// The puzzle string of the cells: one character per cell, its digit or `0` when open.
pub fn encode_cells(cells: &Vec<SudokuCell>) -> (r: String)
    ensures
        r@ == cells@.map_values(|c: SudokuCell| cell_char(c@)),
{
    let mut r = String::new();
    let mut i: usize = 0;
    while i < cells.len()
        invariant
            i <= cells@.len(),
            r@ == cells@.take(i as int).map_values(|c: SudokuCell| cell_char(c@)),
        decreases cells@.len() - i,
    {
        let ch = cells[i].to_char();
        push_char(&mut r, ch);
        assert(r@ =~= cells@.take(i + 1).map_values(|c: SudokuCell| cell_char(c@)));
        i = i + 1;
    }
    assert(cells@.take(cells@.len() as int) =~= cells@);
    r
}

/// A cell placed on one digit, or open to all nine, is written as a puzzle character that reads
/// back as the same candidates.
pub proof fn lemma_cell_roundtrip(s: Set<int>)
    requires
        s.subset_of(full_set()),
        s.finite(),
        s.len() == 1 || s == full_set(),
    ensures
        char_cell_ok(cell_char(s)),
        char_candidates(cell_char(s)) == s,
{
    lemma_full_set();
    if s.len() == 1 {
        let d = s.choose();
        assert(s.contains(d));
        assert(0 <= d < 9);
        assert(char_digit(digit_char_spec(d)) == Some(d));
        assert(s.remove(d).len() == 0);
        vstd::set_lib::lemma_set_empty_equivalency_len(s.remove(d));
        assert(s =~= Set::<int>::empty().insert(d)) by {
            assert forall|x: int| s.contains(x) implies x == d by {
                if x != d {
                    assert(s.remove(d).contains(x));
                }
            }
        }
    } else {
        assert(cell_char(s) == '0');
        assert(char_digit('0') is None);
    }
}

/// Writing a board whose cells are each placed or open as a puzzle string gives 81 puzzle
/// characters that read back, cell by cell, as the same board.
pub proof fn lemma_board_roundtrip(b: Seq<Set<int>>)
    requires
        b.len() == 81,
        forall|i: int| 0 <= i < 81 ==> (#[trigger] b[i]).subset_of(full_set()) && b[i].finite() && (b[i].len() == 1
            || b[i] == full_set()),
    ensures
        ({
            let text = Seq::new(81, |i: int| cell_char(b[i]));
            &&& forall|k: int| 0 <= k < text.len() ==> char_cell_ok(#[trigger] text[k])
            &&& forall|k: int| 0 <= k < 81 ==> char_candidates(#[trigger] text[k]) == b[k]
        }),
{
    assert forall|k: int| 0 <= k < 81 implies char_cell_ok(cell_char(#[trigger] b[k])) && char_candidates(cell_char(b[k])) == b[k] by {
        lemma_cell_roundtrip(b[k]);
    }
}

/// The index of the first character of `s` that is not a puzzle character, if any.
pub open spec fn first_bad_char(s: Seq<char>) -> int {
    choose|k: int| 0 <= k < s.len() && !char_cell_ok(s[k]) && forall|l: int| 0 <= l < k ==> char_cell_ok(s[l])
}

/// The cells of a puzzle string, one per character; fails on the first character that is
/// neither `.` nor a digit.
pub fn decode_cells(game: &str) -> (r: Result<Vec<SudokuCell>, SudokuError>)
    ensures
        (forall|k: int| 0 <= k < game@.len() ==> char_cell_ok(#[trigger] game@[k])) ==> (r matches Ok(v) && v@.len()
            == game@.len() && forall|k: int| 0 <= k < v@.len() ==> (#[trigger] v@[k])@ == char_candidates(game@[k])),
        !(forall|k: int| 0 <= k < game@.len() ==> char_cell_ok(#[trigger] game@[k])) ==> r == Err::<Vec<SudokuCell>, SudokuError>(
            SudokuError::InvalidDigit(game@[first_bad_char(game@)]),
        ),
{
    let n = game.unicode_len();
    let mut v: Vec<SudokuCell> = Vec::new();
    let mut i: usize = 0;
    while i < n
        invariant
            i <= n,
            n == game@.len(),
            v@.len() == i,
            forall|k: int| 0 <= k < i ==> char_cell_ok(#[trigger] game@[k]),
            forall|k: int| 0 <= k < i ==> (#[trigger] v@[k])@ == char_candidates(game@[k]),
        decreases n - i,
    {
        let c = game.get_char(i);
        match SudokuCell::try_from(c) {
            Ok(cell) => v.push(cell),
            Err(e) => {
                proof {
                    let k = first_bad_char(game@);
                    assert(!char_cell_ok(game@[i as int]));
                    assert(exists|k: int| 0 <= k < game@.len() && !char_cell_ok(game@[k]) && forall|l: int| 0 <= l < k ==> char_cell_ok(game@[l]));
                    if k < i {
                        assert(char_cell_ok(game@[k]));
                    }
                    if k > i {
                        assert(char_cell_ok(game@[i as int]));
                    }
                }
                return Err(e);
            },
        }
        i = i + 1;
    }
    Ok(v)
}

/// Writing cells as a puzzle string.
pub trait SudokuStringEncoding {
    fn encode_sudoku_string(self) -> String;
}

/// Reading a value from a puzzle string.
pub trait SudokuStringDecoding: Sized {
    fn decode_sudoku_string(game: &str) -> Result<Self, SudokuError>;
}

impl SudokuStringEncoding for Vec<SudokuCell> {
    fn encode_sudoku_string(self) -> (r: String)
        ensures
            r@ == self@.map_values(|c: SudokuCell| cell_char(c@)),
    {
        encode_cells(&self)
    }
}

impl<'board> SudokuStringEncoding for &'board SudokuBoard {
    fn encode_sudoku_string(self) -> (r: String)
        ensures
            r@ == Seq::new(81, |i: int| cell_char(self@[i])),
    {
        let cells = self.iter();
        let r = encode_cells(&cells);
        assert(r@ =~= Seq::new(81, |i: int| cell_char(self@[i])));
        r
    }
}

impl SudokuStringDecoding for Vec<SudokuCell> {
    fn decode_sudoku_string(game: &str) -> (r: Result<Self, SudokuError>)
        ensures
            (forall|k: int| 0 <= k < game@.len() ==> char_cell_ok(#[trigger] game@[k])) ==> (r matches Ok(v) && v@.len()
                == game@.len() && forall|k: int| 0 <= k < v@.len() ==> (#[trigger] v@[k])@ == char_candidates(game@[k])),
            !(forall|k: int| 0 <= k < game@.len() ==> char_cell_ok(#[trigger] game@[k])) ==> r == Err::<Self, SudokuError>(
                SudokuError::InvalidDigit(game@[first_bad_char(game@)]),
            ),
    {
        decode_cells(game)
    }
}

impl SudokuStringDecoding for SudokuBoard {
    /// The board of an 81-character puzzle string; fails on the first bad character, then on a
    /// string of any other length.
    fn decode_sudoku_string(game: &str) -> (r: Result<Self, SudokuError>)
        ensures
            (forall|k: int| 0 <= k < game@.len() ==> char_cell_ok(#[trigger] game@[k])) && game@.len() == 81 ==> (r matches Ok(b)
                && forall|k: int| 0 <= k < 81 ==> #[trigger] b@[k] == char_candidates(game@[k])),
            (forall|k: int| 0 <= k < game@.len() ==> char_cell_ok(#[trigger] game@[k])) && game@.len() != 81 ==> r
                == Err::<Self, SudokuError>(SudokuError::InvalidBoardSize(game@.len() as usize)),
            !(forall|k: int| 0 <= k < game@.len() ==> char_cell_ok(#[trigger] game@[k])) ==> r == Err::<Self, SudokuError>(
                SudokuError::InvalidDigit(game@[first_bad_char(game@)]),
            ),
    {
        let cells = decode_cells(game)?;
        SudokuBoard::new(cells)
    }
}

} // verus!
