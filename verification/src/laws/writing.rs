//! What is written to a file.
use vstd::prelude::*;
use vstd::utf8::encode_utf8;
use crate::data::edit::Pending;
use crate::data::json_writer::{field_text, line_ending, spliced, Adding, JsonColumn};
use crate::data::save::are_columns;
use crate::data::store::Store;
use crate::data::writer::{
    body, doubled, encoded, joined, needs_quotes, record_bytes, shape_of, verdict, Record, SpliceError,
    Tally,
};
use crate::text::ascii_byte_in_text;

verus! {

/// A value goes into a file as it is, unless something in it would end it there:
/// then it goes in quotes, its own quotes doubled.
pub proof fn a_value_is_quoted_where_it_must_be(value: Seq<char>, separator: u8)
    requires
        separator < 128,
    ensures
        ({
            let special = value.contains(separator as char) || value.contains('"') || value.contains('\n')
                || value.contains('\r');
            &&& !special ==> encoded(value, separator) == value
            &&& special ==> encoded(value, separator) == seq!['"'] + doubled(value) + seq!['"']
        }),
        forall|c: char| #[trigger]
            doubled(value.push(c)) == doubled(value) + (if c == '"' {
                seq!['"', '"']
            } else {
                seq![c]
            }),
        doubled(Seq::empty()).len() == 0,
{
    let bytes = encode_utf8(value);
    ascii_byte_in_text(value, separator);
    ascii_byte_in_text(value, 34);
    ascii_byte_in_text(value, 10);
    ascii_byte_in_text(value, 13);
    assert(34u8 as char == '"' && 10u8 as char == '\n' && 13u8 as char == '\r');
    if bytes.contains(separator) {
        let i = choose|i: int| 0 <= i < bytes.len() && bytes[i] == separator;
        assert(bytes[i] == separator);
    }
    if bytes.contains(34) {
        let i = choose|i: int| 0 <= i < bytes.len() && bytes[i] == 34;
        assert(bytes[i] == 34);
    }
    if bytes.contains(10) {
        let i = choose|i: int| 0 <= i < bytes.len() && bytes[i] == 10;
        assert(bytes[i] == 10);
    }
    if bytes.contains(13) {
        let i = choose|i: int| 0 <= i < bytes.len() && bytes[i] == 13;
        assert(bytes[i] == 13);
    }
    if needs_quotes(value, separator) {
        let i = choose|i: int|
            0 <= i < encode_utf8(value).len() && {
                let b = #[trigger] encode_utf8(value)[i];
                b == separator || b == 34 || b == 10 || b == 13
            };
        assert(bytes.contains(bytes[i]));
    }
    assert forall|c: char| #[trigger] doubled(value.push(c)) == doubled(value) + (if c == '"' {
        seq!['"', '"']
    } else {
        seq![c]
    }) by {
        assert(value.push(c).drop_last() =~= value);
        assert(doubled(value).push(c) =~= doubled(value) + seq![c]);
    }
}

/// Fields stand one behind another with the separator between them, and the line
/// ending behind the last.
pub proof fn fields_stand_apart(fields: Seq<Seq<u8>>, field: Seq<u8>, eol: Seq<u8>, separator: u8)
    ensures
        joined(seq![field], separator) == field,
        fields.len() > 0 ==> joined(fields.push(field), separator) == joined(fields, separator) + seq![separator]
            + field,
        record_bytes(Record { fields, eol }, separator) == joined(fields, separator) + eol,
{
    if fields.len() > 0 {
        assert(fields.push(field).drop_last() =~= fields);
        assert(joined(fields, separator).push(separator) =~= joined(fields, separator) + seq![separator]);
    }
}

/// A field that was edited is written with its new value, and any other as it
/// stands in the file.
pub proof fn only_edited_fields_are_written_anew(p: Pending, row: usize, field: usize, raw: Seq<u8>, separator: u8)
    ensures
        !p.cells.contains_key((row, field)) ==> p.field(row, field, raw, separator) == raw,
        p.cells.contains_key((row, field)) ==> p.field(row, field, raw, separator) == encode_utf8(
            encoded(p.cells[(row, field)], separator),
        ),
{
}

/// The header is written as it is. A row that was taken out is not written, and
/// any other is, with its line ending; what was put in before a row stands before
/// it.
pub proof fn rows_are_written_in_their_order(p: Pending, records: Seq<Record>, record: Record, separator: u8)
    requires
        records.len() <= usize::MAX,
    ensures
        ({
            let before = body(p, 1, records, separator).bytes;
            let after = body(p, 1, records.push(record), separator).bytes;
            let row = (records.len() - 1) as usize;
            let ids = p.added_at(row);
            let new_rows = p.new_rows(ids, shape_of(records), separator);
            &&& records.len() == 0 ==> after == before + joined(record.fields, separator) + record.eol
            &&& records.len() > 0 && p.struck.contains(row) ==> after == before + new_rows
            &&& records.len() > 0 && !p.struck.contains(row) ==> after == before + new_rows + joined(
                p.fields(row, record.fields, separator),
                separator,
            ) + record.eol
        }),
        body(p, 1, Seq::empty(), separator).bytes.len() == 0,
{
    assert(records.push(record).drop_last() =~= records);
    if records.len() == 0 {
        let before = body(p, 1, records, separator).bytes;
        assert(before + (joined(record.fields, separator) + record.eol) =~= before + joined(
            record.fields,
            separator,
        ) + record.eol);
    }
}

/// A new row has a field for each column of the header and the header's line
/// ending, and new rows stand in their order.
pub proof fn a_new_row_has_the_headers_shape(p: Pending, header: Record, rest: Seq<Record>, ids: Seq<usize>, id: usize, separator: u8)
    requires
        header.eol.len() > 0,
    ensures
        ({
            let shape = shape_of(seq![header] + rest);
            &&& shape.columns == header.fields.len()
            &&& shape.newline == header.eol
            &&& p.new_rows(ids.push(id), shape, separator) == p.new_rows(ids, shape, separator) + p.new_row(
                id,
                shape,
                separator,
            )
            &&& p.new_row(id, shape, separator) == joined(
                Seq::new(
                    header.fields.len(),
                    |f: int|
                        if p.cells.contains_key((id, f as usize)) {
                            encode_utf8(encoded(p.cells[(id, f as usize)], separator))
                        } else {
                            Seq::empty()
                        },
                ),
                separator,
            ) + header.eol
        }),
{
    let records = seq![header] + rest;
    assert(records[0] == header);
    let shape = shape_of(records);
    assert(ids.push(id).drop_last() =~= ids);
    assert(Seq::new(shape.columns, |f: int| p.field(id, f as usize, Seq::empty(), separator)) =~= Seq::new(
        header.fields.len(),
        |f: int|
            if p.cells.contains_key((id, f as usize)) {
                encode_utf8(encoded(p.cells[(id, f as usize)], separator))
            } else {
                Seq::empty()
            },
    ));
}

/// A file is written only if everything pending found its place in it and it has
/// the rows that were shown; else the first thing that did not is told of.
pub proof fn a_file_is_written_whole_or_not_at_all(p: Pending, tally: Tally, expected: usize)
    requires
        p.cells.dom().len() <= usize::MAX,
        p.added_count() <= usize::MAX,
        p.struck.len() <= usize::MAX,
    ensures
        verdict(p, tally, expected) is Ok <==> tally.rows == expected && tally.applied == p.cells.dom().len()
            && tally.added == p.added_count() && tally.dropped == p.struck.len(),
        tally.rows != expected ==> verdict(p, tally, expected) == Err::<(), SpliceError>(
            SpliceError::Rows { rows: tally.rows, expected },
        ),
        verdict(p, tally, expected) matches Err(SpliceError::Edits { missing, total }) ==> tally.rows == expected
            && total == p.cells.dom().len() && (tally.applied <= total ==> missing == total - tally.applied),
        verdict(p, tally, expected) matches Err(SpliceError::Added { missing, total }) ==> tally.rows == expected
            && tally.applied == p.cells.dom().len() && total == p.added_count() && (tally.added <= total
            ==> missing == total - tally.added),
        verdict(p, tally, expected) matches Err(SpliceError::Deleted { missing, total }) ==> tally.rows
            == expected && total == p.struck.len() && (tally.dropped <= total ==> missing == total
            - tally.dropped),
{
}

/// The columns that a file of records is written with lead where the store's do,
/// each with its own kind.
pub proof fn columns_are_written_by_their_paths(columns: Seq<JsonColumn>, store: Store, c: int)
    requires
        are_columns(columns, store),
        0 <= c < store.paths@.len(),
    ensures
        columns.len() == store.paths@.len(),
        columns[c].path@ == store.paths@[c]@,
        columns[c].kind == store.types@[c],
{
}

/// What is put in stands between what was before it and what was behind it.
pub proof fn what_is_put_in_stands_in_its_place(line: Seq<u8>, from: int, to: int, bytes: Seq<u8>, path: Seq<Seq<u8>>, value: Seq<u8>)
    requires
        0 <= from <= to <= line.len(),
        path.len() == 1,
    ensures
        spliced(line, from, to, bytes) == line.subrange(0, from) + bytes + line.subrange(to, line.len() as int),
        field_text(path, value) == seq!['"' as u8] + path[0] + seq!['"' as u8, ':' as u8] + value,
{
    assert(line.take(from) =~= line.subrange(0, from));
    assert(line.skip(to) =~= line.subrange(to, line.len() as int));
}

/// A key is added to the record itself if the path ends there, and with the
/// documents round it only in a new record.
pub proof fn a_key_is_added_where_it_belongs(depth: nat)
    ensures
        Adding::Here.allows(1),
        depth > 1 ==> !Adding::Here.allows(depth),
        Adding::Anywhere.allows(depth),
        !Adding::Nowhere.allows(depth),
        Adding::Here.within() == Adding::Nowhere,
        Adding::Nowhere.within() == Adding::Nowhere,
        Adding::Anywhere.within() == Adding::Anywhere,
{
}

/// New records end as the first one does.
pub proof fn new_records_end_as_the_first_does(line: Seq<u8>, rest: Seq<Seq<u8>>)
    ensures
        line.len() > 0 && line.last() == 13 ==> line_ending(seq![line] + rest) == seq![13u8, 10u8],
        line.len() == 0 || line.last() != 13 ==> line_ending(seq![line] + rest) == seq![10u8],
        line_ending(Seq::empty()) == seq![10u8],
{
    assert((seq![line] + rest)[0] == line);
}

} // verus!
