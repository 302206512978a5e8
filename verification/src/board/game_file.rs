//! Puzzle files: an XML document whose `game` elements carry a puzzle in their `data`
//! attribute, or else a text with one puzzle per line.
use vstd::prelude::*;

use xml::reader::{EventReader, XmlEvent};

use crate::error::SudokuError;

use super::cell_value::char_candidates;
use super::games::{board_line, decode_games, line_error, puzzle_lines};
use super::{SudokuBoard, SudokuStringDecoding};
use vstd::utf8::{decode_utf8, valid_utf8};

verus! {

/// The events of the XML document in `bytes`, in document order, up to its end: for a start
/// element, its local name with the local names and values of its attributes, in order, and
/// `None` for any other event; `None` in place of the whole when reading the document fails.
pub uninterp spec fn xml_events(bytes: Seq<u8>) -> Option<Seq<Option<(Seq<char>, Seq<(Seq<char>, Seq<char>)>)>>>;

/// The text that the bytes spell in UTF-8; `None` when they are not valid UTF-8.
pub open spec fn utf8_text(bytes: Seq<u8>) -> Option<Seq<char>> {
    if valid_utf8(bytes) {
        Some(decode_utf8(bytes))
    } else {
        None
    }
}

/// One event as a plain value.
pub open spec fn event_view(e: Option<(String, Vec<(String, String)>)>) -> Option<(Seq<char>, Seq<(Seq<char>, Seq<char>)>)> {
    match e {
        Some(st) => Some((st.0@, st.1@.map_values(|a: (String, String)| (a.0@, a.1@)))),
        None => None,
    }
}

/// The events as plain values.
pub open spec fn event_views(v: Seq<Option<(String, Vec<(String, String)>)>>) -> Seq<Option<(Seq<char>, Seq<(Seq<char>, Seq<char>)>)>> {
    v.map_values(|e: Option<(String, Vec<(String, String)>)>| event_view(e))
}

/// Reads the bytes with `xml::reader::EventReader` and converts each event, one for one: a
/// `StartElement` into its local name and its attributes' local names and values, any other
/// event into `None`; gives `None` at the first error event. Trusted: the contract says only
/// that the result is the named value `xml_events` of the bytes, a function of the bytes alone.
#[verifier::external_body]
fn xml_events_of(bytes: &[u8]) -> (r: Option<Vec<Option<(String, Vec<(String, String)>)>>>)
    ensures
        r is None <==> xml_events(bytes@) is None,
        r matches Some(v) ==> xml_events(bytes@) == Some(event_views(v@)),
{
    let mut events = Vec::new();
    for event in EventReader::new(bytes) {
        match event {
            Ok(XmlEvent::StartElement { name, attributes, .. }) => {
                events.push(Some((name.local_name, attributes.into_iter().map(|a| (a.name.local_name, a.value)).collect())));
            },
            Ok(_) => events.push(None),
            Err(_) => return None,
        }
    }
    Some(events)
}

/// Decodes the bytes with `std::str::from_utf8`. Trusted: the contract says that it fails
/// exactly on bytes that are not valid UTF-8, and otherwise gives the text they encode.
#[verifier::external_body]
fn utf8_text_of(bytes: &[u8]) -> (r: Option<String>)
    ensures
        r is None <==> !valid_utf8(bytes@),
        r matches Some(s) ==> s@ == decode_utf8(bytes@),
{
    std::str::from_utf8(bytes).ok().map(|s| s.to_string())
}

/// The value of the first attribute named `key`, if any.
pub open spec fn first_value(attrs: Seq<(Seq<char>, Seq<char>)>, key: Seq<char>) -> Option<Seq<char>>
    decreases attrs.len(),
{
    if attrs.len() == 0 {
        None
    } else if attrs[0].0 == key {
        Some(attrs[0].1)
    } else {
        first_value(attrs.drop_first(), key)
    }
}

/// The puzzles of the events: for each start of a `game` element with a `data` attribute, in
/// order, the value of its first `data` attribute.
pub open spec fn game_data(es: Seq<Option<(Seq<char>, Seq<(Seq<char>, Seq<char>)>)>>) -> Seq<Seq<char>>
    decreases es.len(),
{
    if es.len() == 0 {
        Seq::empty()
    } else {
        match es.last() {
            Some((name, attrs)) => if name == "game"@ && first_value(attrs, "data"@) is Some {
                game_data(es.drop_last()).push(first_value(attrs, "data"@)->0)
            } else {
                game_data(es.drop_last())
            },
            None => game_data(es.drop_last()),
        }
    }
}

/// The board of an 81-character puzzle string.
pub open spec fn board_of(s: Seq<char>) -> Seq<Set<int>> {
    Seq::new(81, |k: int| char_candidates(s[k]))
}

/// `r` is what decoding the puzzle string `s` gives: its board, or the error for its first bad
/// character, else for its length.
pub open spec fn decoded_as(s: Seq<char>, r: Result<SudokuBoard, SudokuError>) -> bool {
    if board_line(s) {
        r matches Ok(b) && b@ == board_of(s)
    } else {
        r == Err::<SudokuBoard, SudokuError>(line_error(s))
    }
}

/// The boards of the puzzle strings that decode, in order.
pub open spec fn ok_boards(ds: Seq<Seq<char>>) -> Seq<Seq<Set<int>>>
    decreases ds.len(),
{
    if ds.len() == 0 {
        Seq::empty()
    } else if board_line(ds.last()) {
        ok_boards(ds.drop_last()).push(board_of(ds.last()))
    } else {
        ok_boards(ds.drop_last())
    }
}

/// The puzzle strings that do not decode, in order, each with its error.
pub open spec fn failed_games(ds: Seq<Seq<char>>) -> Seq<(Seq<char>, SudokuError)>
    decreases ds.len(),
{
    if ds.len() == 0 {
        Seq::empty()
    } else if board_line(ds.last()) {
        failed_games(ds.drop_last())
    } else {
        failed_games(ds.drop_last()).push((ds.last(), line_error(ds.last())))
    }
}

/// The part of a file that is read as XML: its first ten million bytes.
pub open spec fn xml_part(bytes: Seq<u8>) -> Seq<u8> {
    if bytes.len() > 10_000_000 {
        bytes.subrange(0, 10_000_000)
    } else {
        bytes
    }
}

/// The boards of a text with one puzzle per line, when every line is a puzzle; none otherwise.
pub open spec fn line_boards(t: Seq<char>) -> Seq<Seq<Set<int>>> {
    if forall|k: int| 0 <= k < puzzle_lines(t).len() ==> board_line(#[trigger] puzzle_lines(t)[k]) {
        puzzle_lines(t).map_values(|l: Seq<char>| board_of(l))
    } else {
        Seq::empty()
    }
}

/// The first value of the attribute `key`, if some attribute has that name.
fn first_attribute(attrs: &Vec<(String, String)>, key: &String) -> (r: Option<String>)
    ensures
        r is None <==> first_value(attrs@.map_values(|a: (String, String)| (a.0@, a.1@)), key@) is None,
        r matches Some(v) ==> first_value(attrs@.map_values(|a: (String, String)| (a.0@, a.1@)), key@) == Some(v@),
{
    let ghost av = attrs@.map_values(|a: (String, String)| (a.0@, a.1@));
    let mut j: usize = 0;
    assert(av.subrange(0, av.len() as int) =~= av);
    while j < attrs.len()
        invariant
            j <= attrs@.len(),
            av == attrs@.map_values(|a: (String, String)| (a.0@, a.1@)),
            first_value(av, key@) == first_value(av.subrange(j as int, av.len() as int), key@),
        decreases attrs@.len() - j,
    {
        assert(av.subrange(j as int, av.len() as int)[0] == av[j as int]);
        if attrs[j].0 == *key {
            return Some(attrs[j].1.clone());
        }
        assert(av.subrange(j as int, av.len() as int).drop_first() =~= av.subrange(j + 1, av.len() as int));
        j = j + 1;
    }
    None
}

/// For each start of a `game` element with a `data` attribute among the events, in order, the
/// value of its first `data` attribute and what decoding that value as a puzzle gives.
pub fn xml_games(events: &Vec<Option<(String, Vec<(String, String)>)>>) -> (r: Vec<(String, Result<SudokuBoard, SudokuError>)>)
    ensures
        r@.len() == game_data(event_views(events@)).len(),
        forall|k: int| 0 <= k < r@.len() ==> (#[trigger] r@[k]).0@ == game_data(event_views(events@))[k],
        forall|k: int| 0 <= k < r@.len() ==> decoded_as(game_data(event_views(events@))[k], (#[trigger] r@[k]).1),
{
    let ghost es = event_views(events@);
    let game = "game".to_owned();
    let data = "data".to_owned();
    let mut r: Vec<(String, Result<SudokuBoard, SudokuError>)> = Vec::new();
    let mut i: usize = 0;
    while i < events.len()
        invariant
            i <= events@.len(),
            es == event_views(events@),
            game@ == "game"@,
            data@ == "data"@,
            r@.len() == game_data(es.take(i as int)).len(),
            forall|k: int| 0 <= k < r@.len() ==> (#[trigger] r@[k]).0@ == game_data(es.take(i as int))[k],
            forall|k: int| 0 <= k < r@.len() ==> decoded_as(game_data(es.take(i as int))[k], (#[trigger] r@[k]).1),
        decreases events@.len() - i,
    {
        assert(es.take(i + 1).drop_last() =~= es.take(i as int));
        assert(es.take(i + 1).last() == es[i as int]);
        if let Some(st) = &events[i] {
            let value = first_attribute(&st.1, &data);
            if st.0 == game {
                if let Some(v) = value {
                    let decoded = SudokuBoard::decode_sudoku_string(v.as_str());
                    proof {
                        if board_line(v@) {
                            let b = decoded->Ok_0;
                            SudokuBoard::lemma_view(b);
                            assert(b@ =~= board_of(v@));
                        }
                    }
                    r.push((v, decoded));
                }
            }
        }
        i = i + 1;
    }
    assert(es.take(events@.len() as int) =~= es);
    r
}

/// The games of a puzzle file. When the file's first ten million bytes read as an XML document,
/// the boards of its `game` elements that decode, and, for the others, their `data` value with
/// the decoding error; otherwise, when the file is UTF-8 text whose every line is a puzzle, the
/// boards of its lines, and else nothing.
pub fn games_of_file(bytes: &[u8]) -> (r: (Vec<SudokuBoard>, Vec<(String, SudokuError)>))
    ensures
        xml_events(xml_part(bytes@)) matches Some(es) ==> {
            &&& r.0@.map_values(|b: SudokuBoard| b@) == ok_boards(game_data(es))
            &&& r.1@.map_values(|f: (String, SudokuError)| (f.0@, f.1)) == failed_games(game_data(es))
        },
        xml_events(xml_part(bytes@)) is None ==> {
            &&& r.1@.len() == 0
            &&& utf8_text(bytes@) matches Some(t) ==> r.0@.map_values(|b: SudokuBoard| b@) == line_boards(t)
            &&& utf8_text(bytes@) is None ==> r.0@.len() == 0
        },
{
    let part = if bytes.len() > 10_000_000 {
        vstd::slice::slice_subrange(bytes, 0, 10_000_000)
    } else {
        bytes
    };
    let mut boards: Vec<SudokuBoard> = Vec::new();
    let mut failures: Vec<(String, SudokuError)> = Vec::new();
    match xml_events_of(part) {
        Some(events) => {
            let games = xml_games(&events);
            let ghost ds = game_data(event_views(events@));
            let mut k: usize = 0;
            while k < games.len()
                invariant
                    k <= games@.len(),
                    games@.len() == ds.len(),
                    forall|j: int| 0 <= j < games@.len() ==> (#[trigger] games@[j]).0@ == ds[j],
                    forall|j: int| 0 <= j < games@.len() ==> decoded_as(ds[j], (#[trigger] games@[j]).1),
                    boards@.map_values(|b: SudokuBoard| b@) == ok_boards(ds.take(k as int)),
                    failures@.map_values(|f: (String, SudokuError)| (f.0@, f.1)) == failed_games(ds.take(k as int)),
                decreases games@.len() - k,
            {
                assert(ds.take(k + 1).drop_last() =~= ds.take(k as int));
                assert(ds.take(k + 1).last() == ds[k as int]);
                assert(decoded_as(ds[k as int], games@[k as int].1));
                let value = games[k].0.clone();
                assert(value@ == ds[k as int]);
                match &games[k].1 {
                    Ok(b) => {
                        boards.push(b.clone());
                        assert(boards@.map_values(|b: SudokuBoard| b@) =~= ok_boards(ds.take(k as int)).push(board_of(ds[k as int])));
                    },
                    Err(e) => {
                        failures.push((value, *e));
                        assert(failures@.map_values(|f: (String, SudokuError)| (f.0@, f.1)) =~= failed_games(ds.take(k as int)).push(
                            (ds[k as int], line_error(ds[k as int])),
                        ));
                    },
                }
                k = k + 1;
            }
            assert(ds.take(games@.len() as int) =~= ds);
        },
        None => {
            if let Some(text) = utf8_text_of(bytes) {
                if let Ok(v) = decode_games(text.as_str()) {
                    boards = v;
                    proof {
                        let ls = puzzle_lines(text@);
                        assert forall|k: int| 0 <= k < boards@.len() implies (#[trigger] boards@[k])@ == board_of(ls[k]) by {
                            SudokuBoard::lemma_view(boards@[k]);
                            assert(boards@[k]@ =~= board_of(ls[k]));
                        }
                        assert(boards@.map_values(|b: SudokuBoard| b@) =~= line_boards(text@));
                    }
                }
            }
        },
    }
    (boards, failures)
}

/// The puzzle that one event carries: for the start of a `game` element, the value of its
/// first `data` attribute, if it has one.
pub open spec fn game_value(e: Option<(Seq<char>, Seq<(Seq<char>, Seq<char>)>)>) -> Option<Seq<char>> {
    match e {
        Some((name, attrs)) => if name == "game"@ {
            first_value(attrs, "data"@)
        } else {
            None
        },
        None => None,
    }
}

/// The puzzles of the events, whatever their place in the document: every event that carries a
/// puzzle gives it, and every puzzle comes from such an event, earlier puzzles from earlier
/// events.
pub proof fn lemma_game_data_law(es: Seq<Option<(Seq<char>, Seq<(Seq<char>, Seq<char>)>)>>)
    ensures
        forall|i: int| 0 <= i < es.len() && (#[trigger] game_value(es[i])) is Some ==> game_data(es).contains(game_value(es[i])->0),
        forall|t: int|
            0 <= t < game_data(es).len() ==> exists|i: int| 0 <= i < es.len() && #[trigger] game_value(es[i]) == Some(#[trigger] game_data(es)[t]),
        game_data(es).len() <= es.len(),
    decreases es.len(),
{
    if es.len() > 0 {
        let rest = es.drop_last();
        lemma_game_data_law(rest);
        let cur = game_data(es);
        let prev = game_data(rest);
        let last = es[es.len() - 1];
        assert(es.last() == last);
        if game_value(last) is Some {
            assert(cur == prev.push(game_value(last)->0));
        } else {
            assert(cur == prev);
        }
        assert forall|i: int| 0 <= i < es.len() && (#[trigger] game_value(es[i])) is Some implies cur.contains(game_value(es[i])->0) by {
            if i == es.len() - 1 {
                assert(cur[cur.len() - 1] == game_value(es[i])->0);
            } else {
                assert(rest[i] == es[i]);
                assert(game_value(rest[i]) is Some);
                let t = choose|t: int| 0 <= t < prev.len() && prev[t] == game_value(es[i])->0;
                assert(cur[t] == prev[t]);
            }
        }
        assert forall|t: int| 0 <= t < cur.len() implies exists|i: int| 0 <= i < es.len() && #[trigger] game_value(es[i]) == Some(#[trigger] cur[t]) by {
            if t < prev.len() {
                assert(cur[t] == prev[t]);
                let i = choose|i: int| 0 <= i < rest.len() && #[trigger] game_value(rest[i]) == Some(#[trigger] prev[t]);
                assert(es[i] == rest[i]);
            } else {
                assert(game_value(es[es.len() - 1]) == Some(cur[t]));
            }
        }
    }
}

} // verus!
