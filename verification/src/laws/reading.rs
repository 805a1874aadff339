//! How records are read, and which rows are looked for.
use vstd::prelude::*;
use crate::data::json::{is_space, space_end, value_stop, Kind};
use crate::data::json_path::{named, Place};
use crate::data::jsonl::{maybe_text, ColumnType};
use crate::data::scan::{are_rows, finds, height_of, keeps, meets, Quest};
use crate::data::rows::{Asked, Predicate};
use crate::data::span::{is_window, kind_at, patched_kind, path_at, window_of};
use crate::laws::names::a_name_leads_to_the_first_that_has_it;
use crate::search::regex_finds;
use crate::text::texts;

verus! {

/// A value is what it starts with: a quote a string, a bracket a document, a
/// letter its word, and a digit or a minus a number.
pub proof fn a_value_is_what_it_starts_with(line: Seq<u8>, at: int, kind: Kind, end: int)
    requires
        value_stop(line, at) == Some((kind, end)),
    ensures
        0 <= at < line.len(),
        kind == Kind::Str <==> line[at] == '"' as u8,
        kind == Kind::Nested <==> line[at] == '{' as u8 || line[at] == '[' as u8,
        kind == Kind::Bool <==> line[at] == 't' as u8 || line[at] == 'f' as u8,
        kind == Kind::Null <==> line[at] == 'n' as u8,
        kind == Kind::Int || kind == Kind::Float <==> line[at] == '-' as u8 || '0' as u8 <= line[at] <= '9' as u8,
        kind == Kind::Null ==> line.subrange(at, end) == seq!['n' as u8, 'u' as u8, 'l' as u8, 'l' as u8],
        kind == Kind::Bool ==> line.subrange(at, end) == seq!['t' as u8, 'r' as u8, 'u' as u8, 'e' as u8]
            || line.subrange(at, end) == seq!['f' as u8, 'a' as u8, 'l' as u8, 's' as u8, 'e' as u8],
{
}

/// White space is a blank, a tab or a carriage return.
pub proof fn white_space_is_skipped(line: Seq<u8>, at: int)
    requires
        0 <= at <= line.len(),
    ensures
        ({
            let end = space_end(line, at);
            &&& at <= end <= line.len()
            &&& forall|i: int| at <= i < end ==> #[trigger] line[i] == ' ' as u8 || line[i] == '\t' as u8 || line[i]
                == '\r' as u8
            &&& end < line.len() ==> line[end] != ' ' as u8 && line[end] != '\t' as u8 && line[end] != '\r' as u8
        }),
    decreases line.len() - at,
{
    if at < line.len() && is_space(line[at]) {
        white_space_is_skipped(line, at + 1);
    }
}

/// The last of the fields of one name is the one that is found by it.
pub proof fn the_last_field_of_a_name_is_found(places: Seq<Place>, place: Place, key: Seq<u8>)
    ensures
        place.key == key ==> named(places.push(place), key) == Some(places.len() as int),
        place.key != key ==> named(places.push(place), key) == named(places, key),
        named(Seq::empty(), key) is None,
{
    assert(places.push(place).drop_last() =~= places);
}

/// A window on a table has the columns asked for, one by one, and of each the
/// cells from the first one asked for on.
pub proof fn a_window_has_what_was_asked_for(
    out: Seq<Vec<Option<String>>>,
    columns: Seq<Seq<Option<Seq<char>>>>,
    wanted: Seq<usize>,
    skip: usize,
    take: usize,
    k: int,
    row: int,
)
    requires
        is_window(out, columns, wanted, skip, take),
        0 <= k < wanted.len(),
        wanted[k] < columns.len(),
        0 <= row < take,
        skip + row < columns[wanted[k] as int].len(),
    ensures
        out.len() == wanted.len(),
        row < out[k]@.len(),
        maybe_text(out[k]@[row]) == columns[wanted[k] as int][skip + row],
        out[k]@.len() <= take,
{
    let column = columns[wanted[k] as int];
    let text = crate::data::span::column_text(out[k]@);
    assert(text == window_of(column, skip, take));
    assert(text.len() == out[k]@.len());
    assert(text[row] == maybe_text(out[k]@[row]));
}

/// A column keeps its kind while everything in it is of it, and is text from then
/// on.
pub proof fn a_column_becomes_text(kind: ColumnType, kinds: Seq<ColumnType>, column: usize, paths: Seq<Vec<String>>)
    ensures
        patched_kind(true, kind) == kind,
        patched_kind(false, kind) == ColumnType::Text,
        column < kinds.len() ==> kind_at(kinds, column) == kinds[column as int],
        column >= kinds.len() ==> kind_at(kinds, column) == ColumnType::Text,
        column >= paths.len() ==> path_at(paths, column).len() == 0,
        column < paths.len() ==> path_at(paths, column).len() == paths[column as int]@.len(),
{
}

/// A row is found where the pattern is in one of its cells: in the column searched,
/// or in any.
pub proof fn a_row_is_found_by_one_of_its_cells(
    columns: Seq<Vec<Option<String>>>,
    names: Seq<String>,
    pattern: Seq<char>,
    row: int,
    at: int,
)
    requires
        0 <= at < names.len(),
        forall|i: int| 0 <= i < at ==> texts(names)[i] != texts(names)[at],
    ensures
        (exists|c: int|
            0 <= c < names.len() && (maybe_text((#[trigger] columns[c])@[row]) matches Some(text) && regex_finds(
                pattern,
                text,
            ))) <==> finds(columns, names, None, pattern, row),
        finds(columns, names, Some(names[at]@), pattern, row) <==> (maybe_text(columns[at]@[row]) matches Some(
            text,
        ) && regex_finds(pattern, text)),
{
    a_name_leads_to_the_first_that_has_it(texts(names), names[at]@);
    assert(texts(names)[at] == names[at]@);
    if exists|c: int|
        0 <= c < names.len() && (maybe_text((#[trigger] columns[c])@[row]) matches Some(text) && regex_finds(
            pattern,
            text,
        )) {
        let c = choose|c: int|
            0 <= c < names.len() && (maybe_text((#[trigger] columns[c])@[row]) matches Some(text)
                && regex_finds(pattern, text));
        assert(crate::data::scan::is_searched(names, None, c));
        assert(meets(Asked::Matches(pattern), maybe_text(columns[c]@[row])));
    }
    if finds(columns, names, None, pattern, row) {
        let c = choose|c: int| #[trigger]
            crate::data::scan::is_searched(names, None, c) && meets(
                Asked::Matches(pattern),
                maybe_text(columns[c]@[row]),
            );
        assert(maybe_text(columns[c]@[row]) is Some);
    }
    if maybe_text(columns[at]@[row]) is Some && regex_finds(pattern, maybe_text(columns[at]@[row])->Some_0) {
        assert(crate::data::scan::is_searched(names, Some(names[at]@), at));
        assert(meets(Asked::Matches(pattern), maybe_text(columns[at]@[row])));
    }
}

/// The rows of a scan are numbered from where it starts, and each is there just
/// when it is wanted.
pub proof fn a_scan_has_the_rows_wanted(
    out: Vec<usize>,
    columns: Seq<Vec<Option<String>>>,
    names: Seq<String>,
    tests: &[Predicate],
    start: usize,
    row: int,
)
    requires
        Quest::Kept(tests).is_sought(Some(out), columns, names, start),
        0 <= row < height_of(columns),
        start + row <= usize::MAX,
    ensures
        out@.contains((start + row) as usize) <==> keeps(columns, names, tests@, row),
        forall|i: int, j: int| 0 <= i < j < out@.len() ==> out@[i] < out@[j],
{
    let quest = Quest::Kept(tests);
    let wanted = |r: int| quest.wants(columns, names, r);
    assert(are_rows(out@, start, height_of(columns), wanted));
    let at = (start + row) as usize;
    assert(out@.contains(at) <==> start <= at < start + height_of(columns) && wanted(at - start));
    assert(at - start == row);
}

} // verus!
