//! How the bytes of a span become rows.
//!
//! The one place where the kinds of file differ once the index has said which
//! bytes to read: everything above this treats them the same.
use vstd::prelude::*;
use polars::prelude::{
    Column, CsvParseOptions, CsvReadOptions, DataFrame, DataType, Schema, SerReader,
};
use crate::data::documents::{is_column, page_under};
use crate::data::json_path::keys_of;
use crate::data::jsonl::{maybe_text, page_lines, ColumnType};
use crate::data::read_back::separates;
use crate::data::typed::{are_held, is_short, part, short, short_cell, BLOCK, MOST_ROWS};
use crate::text::texts;

verus! {

/// Every column of a table has as many rows as the others.
pub open spec fn is_even(columns: Seq<Seq<Option<Seq<char>>>>) -> bool {
    forall|a: int, b: int|
        0 <= a < columns.len() && 0 <= b < columns.len() ==> (#[trigger] columns[a]).len() == (
        #[trigger] columns[b]).len()
}

/// A table of a number of columns.
pub open spec fn is_table(columns: Seq<Seq<Option<Seq<char>>>>, width: nat) -> bool {
    columns.len() == width && is_even(columns)
}

/// The cells of a table as sequences of characters, a column at a time.
pub open spec fn columns_text(columns: Seq<Vec<Option<String>>>) -> Seq<Seq<Option<Seq<char>>>> {
    columns.map_values(|column: Vec<Option<String>>| column_text(column@))
}

/// No name stands twice.
pub open spec fn distinct(names: Seq<String>) -> bool {
    forall|a: int, b: int| 0 <= a < b < names.len() ==> (#[trigger] names[a])@ != (#[trigger] names[b])@
}

/// Whether what follows some bytes stands between quotes: an odd number of quotes
/// stands in them.
pub open spec fn between_quotes(bytes: Seq<u8>) -> bool
    decreases bytes.len(),
{
    bytes.len() > 0 && between_quotes(bytes.drop_last()) != (bytes.last() == 34)
}

/// A quote that opens stands at the start of a field, or right behind the one
/// that closed, which makes the two a quote inside a field. Text that is written
/// as it should be is like this.
pub open spec fn quotes_open_fields(bytes: Seq<u8>, separator: u8) -> bool {
    forall|i: int|
        0 <= i < bytes.len() && #[trigger] bytes[i] == 34 && !between_quotes(bytes.take(i)) ==> i == 0
            || bytes[i - 1] == separator || bytes[i - 1] == 10 || bytes[i - 1] == 34
}

/// Where in a field some bytes end.
#[derive(Clone, Copy, Debug, PartialEq, Eq, Structural)]
pub enum Spot {
    /// Where a field begins.
    Start,
    /// In a field that no quote opened.
    Plain,
    /// Between quotes.
    Quoted,
    /// Behind a quote that closed.
    Closed,
}

/// One byte further. A quote opens a field only at its start; a separator or a
/// line ending that is not between quotes ends it.
pub open spec fn step(spot: Spot, byte: u8, separator: u8) -> Spot {
    match spot {
        Spot::Quoted => if byte == 34 {
            Spot::Closed
        } else {
            Spot::Quoted
        },
        _ => if byte == separator || byte == 10 {
            Spot::Start
        } else if spot == Spot::Start {
            if byte == 34 {
                Spot::Quoted
            } else {
                Spot::Plain
            }
        } else if spot == Spot::Closed && byte == 34 {
            Spot::Quoted
        } else {
            spot
        },
    }
}

/// Where in a field some bytes end, which begin with one.
pub open spec fn spot(bytes: Seq<u8>, separator: u8) -> Spot
    decreases bytes.len(),
{
    if bytes.len() == 0 {
        Spot::Start
    } else {
        step(spot(bytes.drop_last(), separator), bytes.last(), separator)
    }
}

/// Where the last of the first `n` bytes' lines begins: behind the last line
/// ending that an even number of quotes stands before.
pub open spec fn last_line(bytes: Seq<u8>, n: nat) -> nat
    decreases n,
{
    if n == 0 || n > bytes.len() {
        0
    } else if bytes[n - 1] == 10 && !between_quotes(bytes.take(n - 1)) {
        n
    } else {
        last_line(bytes, (n - 1) as nat)
    }
}

/// A byte that a line ending, or a carriage return that is all of a line, is not.
pub open spec fn is_ink(bytes: Seq<u8>, i: int) -> bool {
    &&& 0 <= i < bytes.len()
    &&& bytes[i] != 10
    &&& !(bytes[i] == 13 && (i == 0 || bytes[i - 1] == 10) && i + 1 < bytes.len() && bytes[i + 1] == 10)
}

/// Something stands in these lines, so that one of them is the header.
pub open spec fn has_ink(bytes: Seq<u8>) -> bool {
    exists|i: int| #[trigger] is_ink(bytes, i)
}

/// How many bytes there are but for a carriage return at the end.
pub open spec fn but_for_cr(bytes: Seq<u8>) -> int {
    if bytes.len() > 0 && bytes.last() == 13 {
        bytes.len() - 1
    } else {
        bytes.len() as int
    }
}

/// The last field of what stands behind the header is a quote that opens it and
/// that nothing follows, but perhaps a carriage return.
pub open spec fn ends_in_lone_quote(bytes: Seq<u8>, separator: u8) -> bool {
    let n = but_for_cr(bytes);
    let line = last_line(bytes, bytes.len()) as int;
    &&& n > 0
    &&& bytes[n - 1] == 34
    &&& has_ink(bytes.take(line))
    &&& spot(bytes.subrange(line, n - 1), separator) == Spot::Start
}

/// The most bytes of delimited text that are read at a time.
pub const MOST_BYTES: usize = 4294967294;

/// Delimited text that is not read: there is too much of it, or it ends in a
/// quote alone and not all of its columns are text.
pub open spec fn is_refused(bytes: Seq<u8>, kinds: Seq<ColumnType>, separator: u8) -> bool {
    ||| bytes.len() > MOST_BYTES
    ||| ends_in_lone_quote(bytes, separator) && exists|k: int|
        0 <= k < kinds.len() && #[trigger] kinds[k] != ColumnType::Text
}

fn step_of(at: Spot, byte: u8, separator: u8) -> (out: Spot)
    ensures
        out == step(at, byte, separator),
{
    let line_end: bool = byte == separator || byte == 10;
    match at {
        Spot::Quoted => if byte == 34 {
            Spot::Closed
        } else {
            Spot::Quoted
        },
        Spot::Start => if line_end {
            Spot::Start
        } else if byte == 34 {
            Spot::Quoted
        } else {
            Spot::Plain
        },
        Spot::Plain => if line_end {
            Spot::Start
        } else {
            Spot::Plain
        },
        Spot::Closed => if line_end {
            Spot::Start
        } else if byte == 34 {
            Spot::Quoted
        } else {
            Spot::Closed
        },
    }
}

fn spot_in(bytes: &Vec<u8>, from: usize, to: usize, separator: u8) -> (out: Spot)
    requires
        from <= to <= bytes@.len(),
    ensures
        out == spot(bytes@.subrange(from as int, to as int), separator),
{
    let mut at = Spot::Start;
    let mut i: usize = from;
    while i < to
        invariant
            from <= i <= to <= bytes@.len(),
            at == spot(bytes@.subrange(from as int, i as int), separator),
        decreases to - i,
    {
        assert(bytes@.subrange(from as int, i + 1).drop_last() =~= bytes@.subrange(
            from as int,
            i as int,
        ));
        at = step_of(at, bytes[i], separator);
        i += 1;
    }
    at
}

fn line_in(bytes: &Vec<u8>) -> (line: usize)
    ensures
        line == last_line(bytes@, bytes@.len()),
        line <= bytes@.len(),
{
    let mut line: usize = 0;
    let mut between: bool = false;
    let mut i: usize = 0;
    while i < bytes.len()
        invariant
            line <= i <= bytes@.len(),
            line == last_line(bytes@, i as nat),
            between == between_quotes(bytes@.take(i as int)),
        decreases bytes.len() - i,
    {
        assert(bytes@.take(i + 1).drop_last() =~= bytes@.take(i as int));
        if bytes[i] == 10 && !between {
            line = i + 1;
        }
        between = between != (bytes[i] == 34);
        i += 1;
    }
    line
}

fn ink_in(bytes: &Vec<u8>, to: usize) -> (ink: bool)
    requires
        to <= bytes@.len(),
    ensures
        ink == has_ink(bytes@.take(to as int)),
{
    let ghost all = bytes@.take(to as int);
    let mut i: usize = 0;
    while i < to
        invariant
            i <= to <= bytes@.len(),
            all == bytes@.take(to as int),
            forall|k: int| 0 <= k < i ==> !#[trigger] is_ink(all, k),
        decreases to - i,
    {
        let blank: bool = bytes[i] == 10 || (bytes[i] == 13 && (i == 0 || bytes[i - 1] == 10) && i + 1 < to
            && bytes[i + 1] == 10);
        assert(blank == !is_ink(all, i as int));
        if !blank {
            return true;
        }
        i += 1;
    }
    false
}

fn has_lone_quote(bytes: &Vec<u8>, separator: u8) -> (b: bool)
    ensures
        b == ends_in_lone_quote(bytes@, separator),
{
    let len: usize = bytes.len();
    let n: usize = if len > 0 && bytes[len - 1] == 13 {
        len - 1
    } else {
        len
    };
    if n == 0 || bytes[n - 1] != 34 {
        return false;
    }
    let line = line_in(bytes);
    proof {
        lemma_line_ends_in_break(bytes@, bytes@.len());
    }
    if !ink_in(bytes, line) {
        return false;
    }
    match spot_in(bytes, line, n - 1, separator) {
        Spot::Start => true,
        _ => false,
    }
}

/// The last line begins behind a line ending, if not with the text.
proof fn lemma_line_ends_in_break(bytes: Seq<u8>, n: nat)
    requires
        n <= bytes.len(),
    ensures
        last_line(bytes, n) <= n,
        last_line(bytes, n) > 0 ==> bytes[last_line(bytes, n) - 1] == 10,
    decreases n,
{
    if n > 0 && !(bytes[n - 1] == 10 && !between_quotes(bytes.take(n - 1))) {
        lemma_line_ends_in_break(bytes, (n - 1) as nat);
    }
}

fn refuses(bytes: &Vec<u8>, kinds: &[ColumnType], separator: u8) -> (b: bool)
    ensures
        b == is_refused(bytes@, kinds@, separator),
{
    if bytes.len() > MOST_BYTES {
        return true;
    }
    let mut k: usize = 0;
    while k < kinds.len()
        invariant
            k <= kinds@.len(),
            bytes@.len() <= MOST_BYTES,
            forall|j: int| 0 <= j < k ==> #[trigger] kinds@[j] == ColumnType::Text,
        decreases kinds.len() - k,
    {
        match kinds[k] {
            ColumnType::Text => {},
            _ => {
                assert(kinds@[k as int] != ColumnType::Text);
                return has_lone_quote(bytes, separator);
            },
        }
        k += 1;
    }
    false
}

/// A table that Polars holds.
#[verifier::external_body]
pub struct Frame {
    df: DataFrame,
}

/// What a table that Polars holds shows: its columns, each cell as the text that
/// Polars gives for it, or nothing where a column has no text form.
pub uninterp spec fn frame_text(frame: Frame) -> Option<Seq<Seq<Option<Seq<char>>>>>;

/// How many rows a table that Polars holds has.
pub uninterp spec fn frame_height(frame: Frame) -> nat;

/// The cells that Polars reads in delimited text with its header in front, the
/// columns named and typed as given; nothing where it refuses the text.
pub uninterp spec fn delimited_cells(
    bytes: Seq<u8>,
    names: Seq<Seq<char>>,
    kinds: Seq<ColumnType>,
    separator: u8,
) -> Option<Seq<Seq<Option<Seq<char>>>>>;

/// Reads delimited text with its header in front, by Polars'
/// `CsvReader::finish`, every column as the type it is given. The table has a
/// column for each name, all of one height, and shows what is called
/// [`delimited_cells`] here. Polars cuts the text into parts for its threads at
/// line breaks that an even number of quotes stands before, and then reads a
/// quote only where it opens a field. So where a quote stands inside a field that
/// none opened, what is read depends on the number of threads, and is left
/// unsaid. Every row takes a byte or more, so there are no more rows than bytes.
/// It panics where there is no column to read, and where the last field is an
/// opening quote alone in a column of numbers or truth values: the two ends that
/// it strips from a quoted field are then one byte. Such a field in a column of
/// text is an error, as are more fields than columns. It counts the bytes of a
/// field in 32 bits.
#[verifier::external_body]
fn parse_span(bytes: Vec<u8>, names: &[String], kinds: &[ColumnType], separator: u8) -> (out: Option<
    Frame,
>)
    requires
        names@.len() == kinds@.len(),
        names@.len() > 0,
        distinct(names@),
        separates(separator),
        !is_refused(bytes@, kinds@, separator),
    ensures
        out matches Some(frame) ==> frame_height(frame) <= bytes@.len(),
        out matches Some(frame) ==> (frame_text(frame) matches Some(cells) ==> is_table(
            cells,
            names@.len(),
        )),
        quotes_open_fields(bytes@, separator) ==> delimited_cells(
            bytes@,
            texts(names@),
            kinds@,
            separator,
        ) == (match out {
            Some(frame) => frame_text(frame),
            None => None,
        }),
{
    let dtype = |kind: &ColumnType| match kind {
        ColumnType::Text => DataType::String,
        ColumnType::Float => DataType::Float64,
        ColumnType::Int => DataType::Int64,
        ColumnType::Bool => DataType::Boolean,
    };
    let schema: Schema = names.iter().zip(kinds).map(|(n, k)| (n.as_str().into(), dtype(k))).collect();
    let options = CsvReadOptions::default().with_has_header(true).with_schema(Some(schema.into()));
    let options = options.with_parse_options(CsvParseOptions::default().with_separator(separator));
    let df = options.into_reader_with_file_handle(std::io::Cursor::new(bytes)).finish().ok()?;
    Some(Frame { df })
}

/// The cells of a table as text, by Polars' `Column::cast` to its text type,
/// which gives `None` for a missing value and fails where a column has no text
/// form. A column of more rows than Polars counts makes it panic.
#[verifier::external_body]
fn cells_of(frame: Frame) -> (out: Option<Vec<Vec<Option<String>>>>)
    requires
        frame_height(frame) <= MOST_ROWS,
    ensures
        match out {
            Some(columns) => frame_text(frame) == Some(columns_text(columns@)),
            None => frame_text(frame) is None,
        },
{
    let text = |c: &Column| c.cast(&DataType::String).ok();
    let texts: Option<Vec<Column>> = frame.df.columns().iter().map(text).collect();
    texts?.iter().map(|c| Some(c.str().ok()?.iter().map(|v| v.map(str::to_string)).collect())).collect()
}

/// Whether Polars can read a text as one kind.
pub uninterp spec fn casts_to(text: Seq<char>, kind: ColumnType) -> bool;

/// Every value of a column can be read as one kind. What is too long to be held
/// cannot.
pub open spec fn all_read_as(values: Seq<Option<Seq<char>>>, kind: ColumnType) -> bool {
    forall|k: int|
        0 <= k < values.len() ==> (#[trigger] values[k] matches Some(text) ==> is_short(text)
            && casts_to(text, kind))
}

/// Whether every value of a column can be read as one kind, by Polars'
/// `Column::strict_cast`, which fails where one cannot and looks at nothing but
/// the value and the kind. More rows than Polars counts, or a cell longer than it
/// counts, make it panic.
#[verifier::external_body]
fn casts(values: Vec<Option<String>>, kind: ColumnType) -> (r: bool)
    requires
        are_held(values@),
    ensures
        r == forall|k: int|
            0 <= k < values@.len() ==> (#[trigger] values@[k] matches Some(text) ==> casts_to(
                text@,
                kind,
            )),
{
    let dtype = match kind {
        ColumnType::Text => DataType::String,
        ColumnType::Float => DataType::Float64,
        ColumnType::Int => DataType::Int64,
        ColumnType::Bool => DataType::Boolean,
    };
    Column::new("".into(), values).strict_cast(&dtype).is_ok()
}

/// A column's cells as sequences of characters.
pub open spec fn column_text(column: Seq<Option<String>>) -> Seq<Option<Seq<char>>> {
    column.map_values(|cell: Option<String>| maybe_text(cell))
}

/// What a column reads as once edits are written into it. Typing `42` into a
/// number is still a number; only a value that does not fit leaves the column as
/// text, which is what the file will read as next time.
pub open spec fn patched_kind(fits: bool, kind: ColumnType) -> ColumnType {
    if fits {
        kind
    } else {
        ColumnType::Text
    }
}

/// Whether one of the values `from` up to `to` is too long to be held.
fn any_long(values: &Vec<Option<String>>, from: usize, to: usize) -> (b: bool)
    requires
        from <= to <= values@.len(),
    ensures
        b == exists|k: int|
            from <= k < to && maybe_text(#[trigger] values@[k]) is Some && !is_short(
                maybe_text(values@[k])->Some_0,
            ),
{
    let mut i: usize = from;
    while i < to
        invariant
            from <= i <= to <= values@.len(),
            forall|k: int|
                from <= k < i ==> (maybe_text(#[trigger] values@[k]) is Some ==> is_short(
                    maybe_text(values@[k])->Some_0,
                )),
        decreases to - i,
    {
        if let Some(text) = &values[i] {
            if !short(text.as_str()) {
                assert(maybe_text(values@[i as int]) is Some);
                return true;
            }
        }
        i += 1;
    }
    false
}

/// What a column with edits written into it reads as.
pub fn kind_of(values: Vec<Option<String>>, kind: ColumnType) -> (out: ColumnType)
    ensures
        out == patched_kind(all_read_as(column_text(values@), kind), kind),
{
    let ghost all = column_text(values@);
    let mut from: usize = 0;
    while from < values.len()
        invariant
            from <= values@.len(),
            all == column_text(values@),
            all_read_as(all.take(from as int), kind),
        decreases values.len() - from,
    {
        let to: usize = if values.len() - from > BLOCK {
            from + BLOCK
        } else {
            values.len()
        };
        let block = part(&values, from, to);
        let ghost here = block@;
        assert forall|k: int| 0 <= k < here.len() implies maybe_text(#[trigger] here[k]) == short_cell(
            all[from + k],
        ) by {}
        if any_long(&values, from, to) {
            proof {
                let k = choose|k: int|
                    from <= k < to && maybe_text(#[trigger] values@[k]) is Some && !is_short(
                        maybe_text(values@[k])->Some_0,
                    );
                assert(all[k] == maybe_text(values@[k]));
            }
            return ColumnType::Text;
        }
        assert forall|k: int| 0 <= k < here.len() implies maybe_text(#[trigger] here[k]) == all[from + k] by {
            assert(maybe_text(values@[from + k]) == all[from + k]);
        }
        if !casts(block, kind) {
            proof {
                let k = choose|k: int|
                    0 <= k < here.len() && !(#[trigger] here[k] matches Some(text) ==> casts_to(
                        text@,
                        kind,
                    ));
                assert(maybe_text(here[k]) == all[from + k]);
            }
            return ColumnType::Text;
        }
        assert forall|k: int| 0 <= k < to implies (#[trigger] all.take(to as int)[k] matches Some(text)
            ==> is_short(text) && casts_to(text, kind)) by {
            if k < from {
                assert(all.take(from as int)[k] == all[k]);
            } else {
                assert(maybe_text(here[k - from]) == all[from + (k - from)]);
                assert(maybe_text(values@[from + (k - from)]) == all[k]);
            }
        }
        from = to;
    }
    assert(all.take(from as int) =~= all);
    kind
}

/// Rows `skip` up to `skip + take` of a column, as far as there are such.
pub open spec fn window_of(column: Seq<Option<Seq<char>>>, skip: usize, take: usize) -> Seq<
    Option<Seq<char>>,
> {
    let from = if skip < column.len() { skip as int } else { column.len() as int };
    let to = if from + take < column.len() { from + take } else { column.len() as int };
    column.subrange(from, to)
}

/// The columns asked for, each cut to the rows asked for. A column that there is
/// not has no rows.
pub open spec fn is_window(
    out: Seq<Vec<Option<String>>>,
    columns: Seq<Seq<Option<Seq<char>>>>,
    wanted: Seq<usize>,
    skip: usize,
    take: usize,
) -> bool {
    &&& out.len() == wanted.len()
    &&& forall|k: int|
        0 <= k < wanted.len() ==> column_text(#[trigger] out[k]@) == if wanted[k] < columns.len() {
            window_of(columns[wanted[k] as int], skip, take)
        } else {
            Seq::empty()
        }
}

/// A page of some table of `width` columns.
pub open spec fn is_cut_from_a_table(
    page: Seq<Vec<Option<String>>>,
    width: nat,
    wanted: Seq<usize>,
    skip: usize,
    take: usize,
) -> bool {
    exists|columns: Seq<Seq<Option<Seq<char>>>>|
        is_table(columns, width) && #[trigger] is_window(page, columns, wanted, skip, take)
}

/// What comes of reading a span of delimited text: rows of the cells that are
/// called [`delimited_cells`], or none where there are none. Of text with quotes
/// out of place only that the rows are some table's, and nothing is read of text
/// that is refused.
pub open spec fn is_read_from(
    out: Option<Vec<Vec<Option<String>>>>,
    cells: Option<Seq<Seq<Option<Seq<char>>>>>,
    well_quoted: bool,
    refused: bool,
    width: nat,
    wanted: Seq<usize>,
    skip: usize,
    take: usize,
) -> bool {
    match out {
        Some(page) => {
            &&& !refused
            &&& is_cut_from_a_table(page@, width, wanted, skip, take)
            &&& well_quoted ==> (cells matches Some(columns) && is_window(
                page@,
                columns,
                wanted,
                skip,
                take,
            ))
        },
        None => well_quoted && !refused ==> cells is None,
    }
}

/// Some rows of a column.
pub fn cut(column: &Vec<Option<String>>, skip: usize, take: usize) -> (out: Vec<Option<String>>)
    ensures
        column_text(out@) == window_of(column_text(column@), skip, take),
{
    let n: usize = column.len();
    let from: usize = if skip < n { skip } else { n };
    let to: usize = if take < n - from { from + take } else { n };
    let mut out: Vec<Option<String>> = Vec::new();
    let mut i: usize = from;
    let ghost all = column_text(column@);
    assert(column_text(out@) =~= all.subrange(from as int, from as int));
    while i < to
        invariant
            from <= i <= to <= column.len(),
            all == column_text(column@),
            column_text(out@) == all.subrange(from as int, i as int),
        decreases to - i,
    {
        let ghost before = out@;
        let cell: Option<String> = match &column[i] {
            Some(text) => Some(text.clone()),
            None => None,
        };
        assert(maybe_text(cell) == all[i as int]);
        out.push(cell);
        assert(column_text(out@) =~= column_text(before).push(maybe_text(cell)));
        assert(all.subrange(from as int, i + 1) =~= all.subrange(from as int, i as int).push(
            all[i as int],
        ));
        i += 1;
    }
    out
}

/// Rows and columns of a table.
pub fn window(columns: &Vec<Vec<Option<String>>>, wanted: &[usize], skip: usize, take: usize) -> (out: Vec<
    Vec<Option<String>>,
>)
    ensures
        is_window(out@, columns_text(columns@), wanted@, skip, take),
{
    let mut out: Vec<Vec<Option<String>>> = Vec::new();
    let mut k: usize = 0;
    while k < wanted.len()
        invariant
            k <= wanted.len(),
            is_window(out@, columns_text(columns@), wanted@.take(k as int), skip, take),
        decreases wanted.len() - k,
    {
        let ghost before = out@;
        let column: Vec<Option<String>> = if wanted[k] < columns.len() {
            cut(&columns[wanted[k]], skip, take)
        } else {
            Vec::new()
        };
        assert(wanted@[k as int] >= columns@.len() ==> column_text(column@) =~= Seq::empty());
        out.push(column);
        proof {
            let upto = wanted@.take(k + 1);
            assert forall|j: int| 0 <= j < upto.len() implies column_text(#[trigger] out@[j]@)
                == if upto[j] < columns_text(columns@).len() {
                window_of(columns_text(columns@)[upto[j] as int], skip, take)
            } else {
                Seq::empty()
            } by {
                if j < k {
                    assert(out@[j] == before[j]);
                    assert(upto[j] == wanted@.take(k as int)[j]);
                }
            }
        }
        k += 1;
    }
    assert(wanted@.take(k as int) =~= wanted@);
    out
}

/// How the bytes of a span are read.
pub enum Records<'a> {
    Delimited { separator: u8, names: &'a [String], kinds: &'a [ColumnType] },
    /// The keys that lead to each column, and its type.
    Json { paths: &'a [Vec<String>], kinds: &'a [ColumnType] },
}

/// Where a column lives, or nowhere.
pub open spec fn path_at(paths: Seq<Vec<String>>, column: usize) -> Seq<Seq<u8>> {
    if column < paths.len() {
        keys_of(paths[column as int]@)
    } else {
        Seq::empty()
    }
}

/// What a column is typed as; one that there is not is text.
pub open spec fn kind_at(kinds: Seq<ColumnType>, column: usize) -> ColumnType {
    if column < kinds.len() {
        kinds[column as int]
    } else {
        ColumnType::Text
    }
}

impl<'a> Records<'a> {
    /// Bytes can be read this way.
    pub open spec fn wf(self) -> bool {
        self matches Records::Delimited { separator, names, kinds } ==> names@.len() == kinds@.len()
            && names@.len() > 0 && distinct(names@) && separates(separator)
    }

    /// This comes of reading the columns `wanted` of rows `skip` up to
    /// `skip + take`.
    pub open spec fn reads(
        self,
        out: Option<Vec<Vec<Option<String>>>>,
        bytes: Seq<u8>,
        wanted: Seq<usize>,
        skip: usize,
        take: usize,
    ) -> bool {
        match self {
            Records::Delimited { separator, names, kinds } => is_read_from(
                out,
                delimited_cells(bytes, texts(names@), kinds@, separator),
                quotes_open_fields(bytes, separator),
                is_refused(bytes, kinds@, separator),
                names@.len(),
                wanted,
                skip,
                take,
            ),
            Records::Json { paths, kinds } => out matches Some(page) && page@.len() == wanted.len() && forall|
                k: int,
            |
                0 <= k < wanted.len() ==> is_column(
                    #[trigger] page@[k],
                    page_lines(bytes, skip, take),
                    path_at(paths@, wanted[k]),
                    kind_at(kinds@, wanted[k]),
                ),
        }
    }

    /// Rows `skip` up to `skip + take` of a span, as the columns `wanted` names.
    ///
    /// A span begins at the checkpoint before the page, which can be a whole
    /// stride earlier, so the window is named here rather than cut off
    /// afterwards: JSON records ahead of the page are then walked past instead
    /// of being built.
    pub fn parse(&self, bytes: Vec<u8>, wanted: &[usize], skip: usize, take: usize) -> (out: Option<
        Vec<Vec<Option<String>>>,
    >)
        requires
            self.wf(),
        ensures
            self.reads(out, bytes@, wanted@, skip, take),
    {
        match self {
            Records::Delimited { separator, names, kinds } => {
                if refuses(&bytes, kinds, *separator) {
                    return None;
                }
                let frame = match parse_span(bytes, names, kinds, *separator) {
                    Some(frame) => frame,
                    None => {
                        return None;
                    },
                };
                match cells_of(frame) {
                    Some(columns) => {
                        let page = window(&columns, wanted, skip, take);
                        assert(is_table(columns_text(columns@), names@.len()));
                        assert(is_window(page@, columns_text(columns@), wanted@, skip, take));
                        Some(page)
                    },
                    None => None,
                }
            },
            Records::Json { paths, kinds } => {
                let nowhere: &[String] = &[];
                let mut picked: Vec<&[String]> = Vec::new();
                let mut types: Vec<ColumnType> = Vec::new();
                let mut k: usize = 0;
                while k < wanted.len()
                    invariant
                        k <= wanted.len(),
                        picked@.len() == k,
                        types@.len() == k,
                        nowhere@.len() == 0,
                        forall|j: int|
                            0 <= j < k ==> #[trigger] types@[j] == kind_at(kinds@, wanted@[j]),
                        forall|j: int|
                            0 <= j < k ==> keys_of((#[trigger] picked@[j])@) == path_at(
                                paths@,
                                wanted@[j],
                            ),
                    decreases wanted.len() - k,
                {
                    let path: &[String] = if wanted[k] < paths.len() {
                        paths[wanted[k]].as_slice()
                    } else {
                        nowhere
                    };
                    assert(keys_of(path@) =~= path_at(paths@, wanted@[k as int]));
                    picked.push(path);
                    types.push(
                        if wanted[k] < kinds.len() {
                            kinds[wanted[k]]
                        } else {
                            ColumnType::Text
                        },
                    );
                    k += 1;
                }
                Some(page_under(bytes.as_slice(), picked.as_slice(), types.as_slice(), skip, take))
            },
        }
    }
}

} // verus!
