//! What a file is taken for, and what of it becomes a table.
use vstd::prelude::*;
use crate::data::json::{Kind, Member};
use crate::data::jsonl::{
    bit_of, cell_text, cell_under, common_keys, escape_char, has, hex_digit, kinds_of, names_of,
    page_lines, ranks, shown_count, shown_floor, span_lines, type_of, unescaped, ColumnType, Field,
};
use crate::data::loader::{
    format_of, in_quotes, lines_of, separates, separator_of, sample_lines, sniffed, unquoted, without_cr,
    FileFormat,
};

verus! {

/// A file is taken for what its name ends in.
pub proof fn a_file_is_what_its_name_ends_in(e: Seq<char>)
    ensures
        format_of(Some(e)) == FileFormat::Csv <==> e == seq!['c', 's', 'v'],
        format_of(Some(e)) == FileFormat::Tsv <==> e == seq!['t', 's', 'v'] || e == seq!['t', 'a', 'b'],
        format_of(Some(e)) == FileFormat::Text <==> e == seq!['t', 'x', 't'],
        format_of(Some(e)) == FileFormat::JsonLines <==> e == seq!['j', 's', 'o', 'n', 'l'] || e
            == seq!['n', 'd', 'j', 's', 'o', 'n'],
        format_of(Some(e)) == FileFormat::Parquet <==> e == seq!['p', 'a', 'r', 'q', 'u', 'e', 't'],
        format_of(None) == FileFormat::Unknown,
{
    reveal_strlit("csv");
    reveal_strlit("tsv");
    reveal_strlit("tab");
    reveal_strlit("txt");
    reveal_strlit("jsonl");
    reveal_strlit("ndjson");
    reveal_strlit("parquet");
    assert("csv"@ =~= seq!['c', 's', 'v']);
    assert("tsv"@ =~= seq!['t', 's', 'v']);
    assert("tab"@ =~= seq!['t', 'a', 'b']);
    assert("txt"@ =~= seq!['t', 'x', 't']);
    assert("jsonl"@ =~= seq!['j', 's', 'o', 'n', 'l']);
    assert("ndjson"@ =~= seq!['n', 'd', 'j', 's', 'o', 'n']);
    assert("parquet"@ =~= seq!['p', 'a', 'r', 'q', 'u', 'e', 't']);
    assert("csv"@[0] == 'c' && "tsv"@[0] == 't' && "tsv"@[1] == 's' && "tab"@[0] == 't' && "tab"@[1] == 'a');
    assert("txt"@[0] == 't' && "txt"@[1] == 'x' && "jsonl"@[0] == 'j' && "ndjson"@[0] == 'n' && "parquet"@[0]
        == 'p');
}

/// A comma or a tab stands between the fields of a file whose name says so, and in
/// any other text what its first lines agree on: a tab before a comma, a comma
/// before a semicolon, a semicolon before a bar, and a tab where nothing fits.
pub proof fn fields_are_apart_by_what_the_lines_agree_on(sample: Seq<u8>)
    ensures
        separator_of(FileFormat::Csv, sample) == Some(',' as u8),
        separator_of(FileFormat::Tsv, sample) == Some('\t' as u8),
        separator_of(FileFormat::Text, sample) == Some(sniffed(sample)),
        separator_of(FileFormat::JsonLines, sample) is None,
        separator_of(FileFormat::Parquet, sample) is None,
        separator_of(FileFormat::Unknown, sample) is None,
        ({
            let lines = sample_lines(sample);
            let (tab, comma, semicolon, bar) = ('\t' as u8, ',' as u8, ';' as u8, '|' as u8);
            &&& separates(lines, tab) ==> sniffed(sample) == tab
            &&& !separates(lines, tab) && separates(lines, comma) ==> sniffed(sample) == comma
            &&& !separates(lines, tab) && !separates(lines, comma) && separates(lines, semicolon) ==> sniffed(
                sample,
            ) == semicolon
            &&& !separates(lines, tab) && !separates(lines, comma) && !separates(lines, semicolon) && separates(
                lines,
                bar,
            ) ==> sniffed(sample) == bar
            &&& !separates(lines, sniffed(sample)) ==> sniffed(sample) == tab
        }),
        sample_lines(sample).len() <= 5,
{
}

/// What stands between quotes is no separator.
pub proof fn what_is_quoted_does_not_separate(line: Seq<u8>, delim: u8)
    requires
        delim != '"' as u8,
    ensures
        in_quotes(line.push('"' as u8)) == !in_quotes(line),
        in_quotes(line.push(delim)) == in_quotes(line),
        !in_quotes(Seq::empty()),
        !in_quotes(line) ==> unquoted(line.push(delim), delim) == unquoted(line, delim) + 1,
        in_quotes(line) ==> unquoted(line.push(delim), delim) == unquoted(line, delim),
        forall|b: u8| b != delim ==> #[trigger] unquoted(line.push(b), delim) == unquoted(line, delim),
        unquoted(Seq::empty(), delim) == 0,
{
    assert(line.push('"' as u8).drop_last() =~= line);
    assert(line.push(delim).drop_last() =~= line);
    assert forall|b: u8| b != delim implies #[trigger] unquoted(line.push(b), delim) == unquoted(line, delim) by {
        assert(line.push(b).drop_last() =~= line);
    }
}

/// Lines end at line feeds: what stands before one is lines of its own, and what
/// stands behind it others.
pub proof fn lines_end_at_line_feeds(a: Seq<u8>, b: Seq<u8>)
    ensures
        lines_of(a + seq![10u8] + b) == lines_of(a) + lines_of(b),
        !b.contains(10) ==> lines_of(b) == seq![b],
        lines_of(b).len() > 0,
    decreases b.len(),
{
    let all = a + seq![10u8] + b;
    if b.len() == 0 {
        assert(all.drop_last() =~= a);
        assert(all.last() == 10);
        assert(lines_of(all) =~= lines_of(a) + lines_of(b));
        assert(b =~= Seq::<u8>::empty());
    } else {
        let front = b.drop_last();
        lines_end_at_line_feeds(a, front);
        assert(all.drop_last() =~= a + seq![10u8] + front);
        assert(all.last() == b.last());
        assert(lines_of(all) =~= lines_of(a) + lines_of(b));
        if !b.contains(10) {
            assert(b.last() == b[b.len() - 1]);
            assert(!front.contains(10)) by {
                if front.contains(10) {
                    let i = choose|i: int| 0 <= i < front.len() && front[i] == 10;
                    assert(b[i] == 10);
                }
            }
            assert(lines_of(b) =~= seq![b]) by {
                assert(front.push(b.last()) =~= b);
            }
        }
    }
}

/// A carriage return at the end of a line is not part of it, and anything else is.
pub proof fn a_line_ends_before_its_carriage_return(line: Seq<u8>)
    ensures
        without_cr(line.push(13)) == line,
        line.len() > 0 && line.last() != 13 ==> without_cr(line) == line,
        without_cr(Seq::empty()).len() == 0,
{
    assert(line.push(13).drop_last() =~= line);
}

/// A column holds text if anything in it is text or a document, else fractions if
/// there are any, else whole numbers, else truth values; nothing at all is text.
pub proof fn a_column_holds_what_all_its_values_are(kinds: u8)
    ensures
        ({
            let text = has(kinds, Kind::Str) || has(kinds, Kind::Nested);
            let (fractions, whole, truths) = (
                has(kinds, Kind::Float),
                has(kinds, Kind::Int),
                has(kinds, Kind::Bool),
            );
            &&& type_of(kinds) == ColumnType::Text <==> text || (!fractions && !whole && !truths)
            &&& type_of(kinds) == ColumnType::Float <==> !text && fractions
            &&& type_of(kinds) == ColumnType::Int <==> !text && !fractions && whole
            &&& type_of(kinds) == ColumnType::Bool <==> !text && !fractions && !whole && truths
        }),
        type_of(bit_of(Kind::Str)) == ColumnType::Text,
        type_of(bit_of(Kind::Nested)) == ColumnType::Text,
        type_of(bit_of(Kind::Float)) == ColumnType::Float,
        type_of(bit_of(Kind::Int)) == ColumnType::Int,
        type_of(bit_of(Kind::Bool)) == ColumnType::Bool,
        type_of(bit_of(Kind::Null)) == ColumnType::Text,
{
    assert(1u8 & 2 == 0 && 1u8 & 4 == 0 && 1u8 & 8 == 0 && 1u8 & 16 == 0 && 1u8 & 32 == 0) by (bit_vector);
    assert(2u8 & 2 != 0 && 2u8 & 4 == 0 && 2u8 & 8 == 0 && 2u8 & 16 == 0 && 2u8 & 32 == 0) by (bit_vector);
    assert(4u8 & 4 != 0 && 4u8 & 8 == 0 && 4u8 & 16 == 0 && 4u8 & 32 == 0) by (bit_vector);
    assert(8u8 & 8 != 0 && 8u8 & 16 == 0 && 8u8 & 32 == 0) by (bit_vector);
    assert(16u8 & 16 != 0 && 32u8 & 32 != 0) by (bit_vector);
}

/// The keys shown at first are those in a fifth of the records or more, if that
/// leaves some out and some in.
pub proof fn common_keys_are_shown_at_first(entries: Seq<Field>, entry: Field, rows: usize, floor: nat)
    ensures
        rows > 0 ==> 5 * shown_floor(rows) >= rows && 5 * (shown_floor(rows) - 1) < rows,
        shown_floor(rows) >= 1,
        common_keys(entries.push(entry), floor) == common_keys(entries, floor) + (if entry.rows >= floor {
            1nat
        } else {
            0
        }),
        common_keys(Seq::empty(), floor) == 0,
        ({
            let m = common_keys(entries, shown_floor(rows));
            &&& 0 < m < entries.len() ==> shown_count(entries, rows) == Some(m)
            &&& m == 0 || m >= entries.len() ==> shown_count(entries, rows) is None
        }),
{
    assert(entries.push(entry).drop_last() =~= entries);
}

/// Keys stand in the order of how many records have them, most first, and as they
/// came where as many do.
pub proof fn the_most_common_key_comes_first(entries: Seq<Field>, i: usize, j: usize)
    requires
        i < entries.len(),
        j < entries.len(),
    ensures
        entries[i as int].rows > entries[j as int].rows ==> ranks(entries, i, j) && !ranks(entries, j, i),
        entries[i as int].rows == entries[j as int].rows && i < j ==> ranks(entries, i, j) && !ranks(
            entries,
            j,
            i,
        ),
{
}

/// An escape stands for its character, one with a number for the character of
/// that number.
pub proof fn an_escape_stands_for_its_character(c: char, rest: Seq<char>)
    requires
        c != 'u',
    ensures
        ({
            let one = if c == 'n' {
                10u32
            } else if c == 't' {
                9
            } else if c == 'r' {
                13
            } else if c == 'b' {
                8
            } else if c == 'f' {
                12
            } else {
                c as u32
            };
            &&& unescaped(seq!['\\', c] + rest).len() == unescaped(rest).len() + 1
            &&& unescaped(seq!['\\', c] + rest)[0] as u32 == one
            &&& unescaped(seq!['\\', c] + rest).skip(1) == unescaped(rest)
        }),
{
    let all = seq!['\\', c] + rest;
    assert(all.skip(2) =~= rest);
    assert(unescaped(all) == seq![escape_char(c)] + unescaped(rest));
    assert(unescaped(all).skip(1) =~= unescaped(rest));
}

/// Digits to the base of sixteen count on through the letters, large or small.
pub proof fn letters_count_on_from_nine(c: char)
    ensures
        '0' <= c <= '9' ==> hex_digit(c) == Some((c as u32 - '0' as u32) as u32),
        'a' <= c <= 'f' ==> hex_digit(c) == Some((c as u32 - 'a' as u32 + 10) as u32),
        'A' <= c <= 'F' ==> hex_digit(c) == Some((c as u32 - 'A' as u32 + 10) as u32),
        hex_digit(c) is Some ==> ('0' <= c <= '9' || 'a' <= c <= 'f' || 'A' <= c <= 'F'),
{
}

/// A key that a record names twice has the value that it is named with last, and
/// one that it does not name has none; nothing is what a null is.
pub proof fn the_last_of_two_values_counts(ms: Seq<Member>, m: Member, key: Seq<u8>)
    ensures
        m.key == key ==> cell_under(ms.push(m), key) == cell_text(m.kind, m.raw),
        m.key != key ==> cell_under(ms.push(m), key) == cell_under(ms, key),
        cell_under(Seq::empty(), key) is None,
        m.kind == Kind::Null ==> cell_text(m.kind, m.raw) is None,
        m.kind != Kind::Null ==> cell_text(m.kind, m.raw) is Some,
{
    assert(ms.push(m).drop_last() =~= ms);
}

/// The columns wanted, one by one: those that there are, by their names and kinds.
pub proof fn columns_wanted_are_named_in_order(
    wanted: Seq<usize>,
    column: usize,
    names: Seq<Seq<char>>,
    kinds: Seq<ColumnType>,
)
    ensures
        column < names.len() ==> names_of(wanted.push(column), names) == names_of(wanted, names).push(
            names[column as int],
        ),
        column >= names.len() ==> names_of(wanted.push(column), names) == names_of(wanted, names),
        column < kinds.len() ==> kinds_of(wanted.push(column), kinds) == kinds_of(wanted, kinds).push(
            kinds[column as int],
        ),
        column >= kinds.len() ==> kinds_of(wanted.push(column), kinds) == kinds_of(wanted, kinds),
        names_of(Seq::empty(), names).len() == 0,
        kinds_of(Seq::empty(), kinds).len() == 0,
{
    assert(wanted.push(column).drop_last() =~= wanted);
}

/// The lines of a page are those from the first one asked for on, as many as were
/// asked for or as there are; the line feed at the end begins no line.
pub proof fn a_page_is_the_lines_asked_for(bytes: Seq<u8>, skip: usize, take: usize)
    ensures
        ({
            let lines = span_lines(bytes);
            let page = page_lines(bytes, skip, take);
            &&& skip + take <= lines.len() ==> page.len() == take
            &&& skip <= lines.len() < skip + take ==> page.len() == lines.len() - skip
            &&& skip > lines.len() ==> page.len() == 0
            &&& forall|i: int| 0 <= i < page.len() ==> #[trigger] page[i] == lines[skip + i]
        }),
        span_lines(bytes.push(10)) == lines_of(bytes),
        bytes.len() > 0 && bytes.last() != 10 ==> span_lines(bytes) == lines_of(bytes),
{
    let ended = bytes.push(10);
    assert(ended.drop_last() =~= bytes);
    assert(lines_of(ended).drop_last() =~= lines_of(bytes));
}

} // verus!
