//! Collections of puzzles written one per line.
use vstd::prelude::*;

use vstd::std_specs::iter::IteratorSpec;

use crate::error::SudokuError;

use super::cell_value::{char_candidates, char_cell_ok};
use super::encoding::first_bad_char;
use super::{SudokuBoard, SudokuCell};

verus! {

broadcast use {vstd::string::axiom_spec_iter, vstd::string::next_postcondition};

/// Whether `c` has the Unicode `White_Space` property.
pub open spec fn white_space(c: char) -> bool {
    ||| '\u{9}' <= c <= '\u{d}'
    ||| c == ' '
    ||| c == '\u{85}'
    ||| c == '\u{a0}'
    ||| c == '\u{1680}'
    ||| '\u{2000}' <= c <= '\u{200a}'
    ||| c == '\u{2028}'
    ||| c == '\u{2029}'
    ||| c == '\u{202f}'
    ||| c == '\u{205f}'
    ||| c == '\u{3000}'
}

/// Whether `c` has the Unicode `White_Space` property.
pub fn is_white_space(c: char) -> (r: bool)
    ensures
        r == white_space(c),
{
    ('\u{9}' <= c && c <= '\u{d}') || c == ' ' || c == '\u{85}' || c == '\u{a0}' || c == '\u{1680}' || ('\u{2000}' <= c && c
        <= '\u{200a}') || c == '\u{2028}' || c == '\u{2029}' || c == '\u{202f}' || c == '\u{205f}' || c == '\u{3000}'
}

/// The text without its leading white space.
pub open spec fn trim_start(s: Seq<char>) -> Seq<char>
    decreases s.len(),
{
    if s.len() > 0 && white_space(s[0]) {
        trim_start(s.drop_first())
    } else {
        s
    }
}

/// The text without its trailing white space.
pub open spec fn trim_end(s: Seq<char>) -> Seq<char>
    decreases s.len(),
{
    if s.len() > 0 && white_space(s.last()) {
        trim_end(s.drop_last())
    } else {
        s
    }
}

/// The text without white space at either end.
pub open spec fn trim(s: Seq<char>) -> Seq<char> {
    trim_end(trim_start(s))
}

/// Where the line that starts at `i` ends: at the next `\n`, or at the end of the text.
pub open spec fn line_end(s: Seq<char>, i: int) -> int
    decreases s.len() - i,
{
    if i >= s.len() {
        s.len() as int
    } else if s[i] == '\n' {
        i
    } else {
        line_end(s, i + 1)
    }
}

/// The lines of the text from position `start` on, without their `\n`; text after the last
/// `\n` is a line when it is not empty.
pub open spec fn lines_from(s: Seq<char>, start: int) -> Seq<Seq<char>>
    decreases s.len() + 1 - start,
{
    if start < 0 || start >= s.len() {
        Seq::empty()
    } else {
        let e = line_end(s, start);
        proof {
            lemma_line_end_bounds(s, start);
        }
        seq![s.subrange(start, e)] + lines_from(s, e + 1)
    }
}

/// A line ends at or after its start, and at the latest at the end of the text.
pub proof fn lemma_line_end_bounds(s: Seq<char>, i: int)
    requires
        0 <= i,
    ensures
        i <= s.len() ==> i <= line_end(s, i) <= s.len(),
        i > s.len() ==> line_end(s, i) == s.len(),
    decreases s.len() - i,
{
    if i < s.len() && s[i] != '\n' {
        lemma_line_end_bounds(s, i + 1);
    }
}

/// Whether a puzzle line describes a board: 81 puzzle characters.
pub open spec fn board_line(s: Seq<char>) -> bool {
    &&& s.len() == 81
    &&& forall|k: int| 0 <= k < s.len() ==> char_cell_ok(#[trigger] s[k])
}

/// The error that reading a puzzle line fails with: the first character that is not a puzzle
/// character, else the length.
pub open spec fn line_error(s: Seq<char>) -> SudokuError {
    if forall|k: int| 0 <= k < s.len() ==> char_cell_ok(#[trigger] s[k]) {
        SudokuError::InvalidBoardSize(s.len() as usize)
    } else {
        SudokuError::InvalidDigit(s[first_bad_char(s)])
    }
}

/// The position of the first line that does not describe a board.
pub open spec fn first_bad_line(ls: Seq<Seq<char>>) -> int {
    choose|k: int| 0 <= k < ls.len() && !board_line(ls[k]) && forall|l: int| 0 <= l < k ==> board_line(#[trigger] ls[l])
}

/// The puzzle lines of a text: its lines, each without white space at either end.
pub open spec fn puzzle_lines(s: Seq<char>) -> Seq<Seq<char>> {
    lines_from(s, 0).map_values(|l: Seq<char>| trim(l))
}

/// The characters of the text, in order.
fn chars_of(text: &str) -> (r: Vec<char>)
    ensures
        r@ == text@,
{
    let mut chars = text.chars();
    let mut r: Vec<char> = Vec::new();
    loop
        invariant
            chars.obeys_prophetic_iter_laws(),
            chars.decrease() is Some,
            r@ + chars.remaining() == text@,
        ensures
            r@ == text@,
        decreases chars.decrease()->0,
    {
        let ghost before = chars.remaining();
        match chars.next() {
            Some(c) => {
                r.push(c);
                assert(r@ + chars.remaining() =~= text@) by {
                    assert(before =~= seq![c] + chars.remaining());
                }
            },
            None => {
                assert(chars.remaining().len() == 0);
                assert(r@ =~= text@);
                break;
            },
        }
    }
    r
}

/// The board that the characters `from..to` describe; fails as reading a puzzle string does.
fn decode_chars(chars: &Vec<char>, from: usize, to: usize) -> (r: Result<SudokuBoard, SudokuError>)
    requires
        from <= to <= chars@.len(),
    ensures
        board_line(chars@.subrange(from as int, to as int)) ==> (r matches Ok(b) && forall|k: int| 0 <= k < 81 ==> #[trigger] b@[k]
            == char_candidates(chars@[from + k])),
        !board_line(chars@.subrange(from as int, to as int)) ==> r == Err::<SudokuBoard, SudokuError>(
            line_error(chars@.subrange(from as int, to as int)),
        ),
{
    let ghost s = chars@.subrange(from as int, to as int);
    let mut cells: Vec<SudokuCell> = Vec::new();
    let mut i: usize = from;
    while i < to
        invariant
            from <= i <= to,
            to <= chars@.len(),
            s == chars@.subrange(from as int, to as int),
            cells@.len() == i - from,
            forall|k: int| 0 <= k < i - from ==> char_cell_ok(#[trigger] s[k]),
            forall|k: int| 0 <= k < i - from ==> (#[trigger] cells@[k])@ == char_candidates(s[k]),
        decreases to - i,
    {
        match SudokuCell::try_from(chars[i]) {
            Ok(cell) => cells.push(cell),
            Err(e) => {
                proof {
                    let j = (i - from) as int;
                    assert(!char_cell_ok(s[j]));
                    let k = first_bad_char(s);
                    assert(exists|k: int| 0 <= k < s.len() && !char_cell_ok(s[k]) && forall|l: int| 0 <= l < k ==> char_cell_ok(s[l]));
                    if k < j {
                        assert(char_cell_ok(s[k]));
                    }
                    if k > j {
                        assert(char_cell_ok(s[j]));
                    }
                }
                return Err(e);
            },
        }
        i = i + 1;
    }
    let r = SudokuBoard::new(cells);
    proof {
        if s.len() == 81 {
            assert forall|k: int| 0 <= k < 81 implies #[trigger] r->Ok_0@[k] == char_candidates(chars@[from + k]) by {
                assert(s[k] == chars@[from + k]);
            }
        }
    }
    r
}

/// The text from `start` on has the line `s.subrange(start, line_end)` first.
proof fn lemma_lines_step(s: Seq<char>, start: int)
    requires
        0 <= start < s.len(),
    ensures
        start <= line_end(s, start) <= s.len(),
        lines_from(s, start) == seq![s.subrange(start, line_end(s, start))] + lines_from(s, line_end(s, start) + 1),
{
    lemma_line_end_bounds(s, start);
}

/// Dropping leading white space from a later start leaves the same text.
proof fn lemma_trim_start_step(s: Seq<char>, a: int, e: int)
    requires
        0 <= a < e <= s.len(),
        white_space(s[a]),
    ensures
        trim_start(s.subrange(a, e)) == trim_start(s.subrange(a + 1, e)),
{
    assert(s.subrange(a, e).drop_first() =~= s.subrange(a + 1, e));
}

/// Dropping trailing white space from an earlier end leaves the same text.
proof fn lemma_trim_end_step(s: Seq<char>, a: int, b: int)
    requires
        0 <= a < b <= s.len(),
        white_space(s[b - 1]),
    ensures
        trim_end(s.subrange(a, b)) == trim_end(s.subrange(a, b - 1)),
{
    assert(s.subrange(a, b).drop_last() =~= s.subrange(a, b - 1));
}

/// The line that starts at `i` ends where the one at `i + 1` does, unless `i` holds its `\n`.
proof fn lemma_line_end_step(s: Seq<char>, i: int)
    requires
        0 <= i < s.len(),
        s[i] != '\n',
    ensures
        line_end(s, i) == line_end(s, i + 1),
{
}

/// The end of the line that starts at `start`, and the bounds of that line without white space
/// at either end.
fn line_bounds(chars: &Vec<char>, start: usize) -> (r: (usize, usize, usize))
    requires
        start < chars@.len(),
    ensures
        r.0 == line_end(chars@, start as int),
        start <= r.1 <= r.2 <= r.0 <= chars@.len(),
        chars@.subrange(r.1 as int, r.2 as int) == trim(chars@.subrange(start as int, r.0 as int)),
{
    let ghost s = chars@;
    let n = chars.len();
    let mut e: usize = start;
    while e < n && chars[e] != '\n'
        invariant
            start <= e <= n,
            n == s.len(),
            chars@ == s,
            line_end(s, start as int) == line_end(s, e as int),
        decreases n - e,
    {
        proof {
            lemma_line_end_step(s, e as int);
        }
        e = e + 1;
    }
    assert(line_end(s, e as int) == e);
    let ghost line = s.subrange(start as int, e as int);
    let mut a: usize = start;
    while a < e && is_white_space(chars[a])
        invariant
            start <= a <= e,
            e <= n,
            n == s.len(),
            chars@ == s,
            line == s.subrange(start as int, e as int),
            trim_start(line) == trim_start(s.subrange(a as int, e as int)),
        decreases e - a,
    {
        proof {
            lemma_trim_start_step(s, a as int, e as int);
        }
        a = a + 1;
    }
    assert(trim_start(s.subrange(a as int, e as int)) == s.subrange(a as int, e as int));
    let mut b: usize = e;
    while b > a && is_white_space(chars[b - 1])
        invariant
            a <= b <= e,
            e <= n,
            n == s.len(),
            chars@ == s,
            trim_end(s.subrange(a as int, e as int)) == trim_end(s.subrange(a as int, b as int)),
        decreases b - a,
    {
        proof {
            lemma_trim_end_step(s, a as int, b as int);
        }
        b = b - 1;
    }
    assert(trim_end(s.subrange(a as int, b as int)) == s.subrange(a as int, b as int));
    (e, a, b)
}

/// The boards of a text with one puzzle per line, white space around each line ignored; fails
/// on the first line that is not a puzzle of 81 characters, as reading that line alone does.
#[verifier::rlimit(40)]
pub fn decode_games(text: &str) -> (r: Result<Vec<SudokuBoard>, SudokuError>)
    ensures
        (forall|k: int| 0 <= k < puzzle_lines(text@).len() ==> board_line(#[trigger] puzzle_lines(text@)[k])) ==> (r matches Ok(
            v,
        ) && v@.len() == puzzle_lines(text@).len() && forall|k: int, i: int|
            0 <= k < v@.len() && 0 <= i < 81 ==> #[trigger] v@[k]@[i] == char_candidates(puzzle_lines(text@)[k][i])),
        !(forall|k: int| 0 <= k < puzzle_lines(text@).len() ==> board_line(#[trigger] puzzle_lines(text@)[k])) ==> r == Err::<
            Vec<SudokuBoard>,
            SudokuError,
        >(line_error(puzzle_lines(text@)[first_bad_line(puzzle_lines(text@))])),
{
    let chars = chars_of(text);
    let ghost s = text@;
    let ghost all = puzzle_lines(s);
    let n = chars.len();
    let mut boards: Vec<SudokuBoard> = Vec::new();
    let ghost mut done: Seq<Seq<char>> = Seq::empty();
    let mut start: usize = 0;
    while start < n
        invariant
            chars@ == s,
            n == s.len(),
            start <= n,
            all == puzzle_lines(s),
            s == text@,
            lines_from(s, 0) == done + lines_from(s, start as int),
            boards@.len() == done.len(),
            forall|k: int| 0 <= k < done.len() ==> board_line(#[trigger] trim(done[k])),
            forall|k: int, i: int| 0 <= k < done.len() && 0 <= i < 81 ==> #[trigger] boards@[k]@[i] == char_candidates(trim(done[k])[i]),
        decreases n - start,
    {
        proof {
            lemma_lines_step(s, start as int);
        }
        let (e, a, b) = line_bounds(&chars, start);
        let ghost line = s.subrange(start as int, e as int);
        let decoded = decode_chars(&chars, a, b);
        proof {
            assert(lines_from(s, 0) == done.push(line) + lines_from(s, e + 1)) by {
                assert(done + (seq![line] + lines_from(s, e + 1)) =~= done.push(line) + lines_from(s, e + 1));
            }
        }
        match decoded {
            Ok(board) => {
                proof {
                    assert forall|i: int| 0 <= i < 81 implies #[trigger] board@[i] == char_candidates(trim(line)[i]) by {
                        assert(trim(line)[i] == chars@[a + i]);
                    }
                }
                boards.push(board);
                proof {
                    done = done.push(line);
                }
            },
            Err(err) => {
                proof {
                    let k = done.len() as int;
                    let ls = lines_from(s, 0);
                    assert(ls.len() > k);
                    assert(ls[k] == line);
                    assert(all[k] == trim(ls[k]));
                    assert(!board_line(all[k]));
                    assert forall|l: int| 0 <= l < k implies board_line(#[trigger] all[l]) by {
                        assert(ls[l] == done[l]);
                    }
                    let f = first_bad_line(all);
                    assert(exists|f: int| 0 <= f < all.len() && !board_line(all[f]) && forall|l: int| 0 <= l < f ==> board_line(#[trigger] all[l]));
                    if f < k {
                        assert(board_line(all[f]));
                    }
                    if f > k {
                        assert(board_line(all[k]));
                    }
                    assert(f == k);
                    assert(chars@.subrange(a as int, b as int) == trim(line));
                    assert(err == line_error(all[k]));
                    assert(0 <= k < all.len());
                    assert(all == puzzle_lines(text@));
                }
                return Err(err);
            },
        }
        if e < n {
            start = e + 1;
        } else {
            assert(lines_from(s, e + 1) == lines_from(s, n as int));
            start = n;
        }
    }
    proof {
        assert(lines_from(s, start as int) == Seq::<Seq<char>>::empty());
        assert(lines_from(s, 0) =~= done);
        assert forall|k: int, i: int| 0 <= k < boards@.len() && 0 <= i < 81 implies #[trigger] boards@[k]@[i] == char_candidates(all[k][i]) by {
            assert(all[k] == trim(done[k]));
        }
    }
    Ok(boards)
}

/// No puzzle character (a digit or `.`) is white space, nor is any visible ASCII character;
/// the ASCII white space is the space and the controls from tab to carriage return.
pub proof fn lemma_puzzle_chars_not_white_space(c: char)
    ensures
        char_cell_ok(c) ==> !white_space(c),
        '!' <= c <= '~' ==> !white_space(c),
        c <= '\u{7f}' ==> (white_space(c) <==> (c == ' ' || c == '\t' || c == '\n' || c == '\u{b}' || c == '\u{c}' || c == '\r')),
{
}

/// A line of puzzle characters loses nothing to trimming.
pub proof fn lemma_trim_keeps_puzzle_chars(l: Seq<char>)
    requires
        forall|k: int| 0 <= k < l.len() ==> char_cell_ok(#[trigger] l[k]),
    ensures
        trim(l) == l,
{
    if l.len() > 0 {
        lemma_puzzle_chars_not_white_space(l[0]);
        lemma_puzzle_chars_not_white_space(l.last());
    }
    assert(trim_start(l) == l);
}

/// A text that is one line of 81 puzzle characters holds exactly one puzzle line, that line
/// itself, and it describes a board: reading the text gives the board of its 81 characters.
pub proof fn lemma_one_puzzle_line(l: Seq<char>)
    requires
        l.len() == 81,
        forall|k: int| 0 <= k < l.len() ==> char_cell_ok(#[trigger] l[k]),
    ensures
        puzzle_lines(l) == seq![l],
        board_line(puzzle_lines(l)[0]),
{
    assert forall|k: int| 0 <= k < l.len() implies l[k] != '\n' by {
        assert(char_cell_ok(l[k]));
    }
    lemma_line_end_no_newline(l, 0);
    assert(l.subrange(0, 81) =~= l);
    assert(lines_from(l, 82) == Seq::<Seq<char>>::empty());
    assert(lines_from(l, 0) =~= seq![l]);
    lemma_trim_keeps_puzzle_chars(l);
    assert(puzzle_lines(l) =~= seq![l]);
}

/// In a text without `\n` from position `i` on, the line from `i` runs to the end.
proof fn lemma_line_end_no_newline(s: Seq<char>, i: int)
    requires
        0 <= i <= s.len(),
        forall|k: int| i <= k < s.len() ==> s[k] != '\n',
    ensures
        line_end(s, i) == s.len(),
    decreases s.len() - i,
{
    if i < s.len() {
        lemma_line_end_no_newline(s, i + 1);
    }
}

} // verus!
