//! Reading a written file of records back.
//!
//! A record is a line, so a file that is written is read back as it was meant
//! just when nothing that is put into a record breaks its line.
use vstd::prelude::*;
use vstd::utf8::encode_utf8;
use crate::data::edit::Pending;
use crate::data::json_path::{adding_at, keys_of, lemma_named, lemma_places_within, named, places};
use crate::data::json_read_back::lemma_number_flat;
use crate::data::json_writer::{
    escape_of, escaped, field_text, is_open, json_body, json_output, json_value, lemma_record_lines,
    line_ending, passes, placed, quoted, spliced, Adding, JsonColumn,
};
use crate::data::jsonl::{record_lines, ColumnType};
use crate::data::loader::lines_of;
use crate::text::ascii_byte_in_text;

verus! {

/// No newline stands in some bytes.
pub open spec fn is_one_line(bytes: Seq<u8>) -> bool {
    forall|k: int| 0 <= k < bytes.len() ==> #[trigger] bytes[k] != 10
}

/// No newline stands in any of some keys.
pub open spec fn are_one_line(keys: Seq<Seq<u8>>) -> bool {
    forall|d: int| 0 <= d < keys.len() ==> is_one_line(#[trigger] keys[d])
}

/// Every key that leads to a column can stand in a record.
pub open spec fn keys_stand(columns: Seq<JsonColumn>) -> bool {
    forall|c: int| 0 <= c < columns.len() ==> are_one_line(keys_of((#[trigger] columns[c]).path@))
}

/// What stands between a record and the newline behind it.
pub open spec fn line_tail(lines: Seq<Seq<u8>>) -> Seq<u8> {
    line_ending(lines).drop_last()
}

/// The records that are added, in their order.
pub open spec fn new_lines(p: Pending, ids: Seq<usize>, columns: Seq<JsonColumn>, tail: Seq<u8>) -> Seq<Seq<u8>>
    decreases ids.len(),
{
    if ids.len() == 0 {
        Seq::empty()
    } else {
        new_lines(p, ids.drop_last(), columns, tail).push(p.json_document(ids.last(), columns).0 + tail)
    }
}

/// The first `n` records of a file as they are to be: with their edits, without
/// those that are struck, and with those that are added before them.
pub open spec fn edited_lines(p: Pending, columns: Seq<JsonColumn>, lines: Seq<Seq<u8>>, n: nat) -> Seq<Seq<u8>>
    decreases n,
{
    if n == 0 {
        Seq::empty()
    } else {
        let row = (n - 1) as usize;
        let before = edited_lines(p, columns, lines, (n - 1) as nat) + new_lines(
            p,
            p.added_at(row),
            columns,
            line_tail(lines),
        );
        if p.struck.contains(row) {
            before
        } else {
            before.push(p.json_record(row, lines[n - 1], columns).0)
        }
    }
}

/// The records of a file as they are to be. A last record without a newline is
/// given a line ending where records are added behind it.
pub open spec fn edited_file(p: Pending, columns: Seq<JsonColumn>, bytes: Seq<u8>) -> Seq<Seq<u8>> {
    let lines = record_lines(bytes);
    let tail = line_tail(lines);
    let main = edited_lines(p, columns, lines, lines.len());
    let ids = p.added_at(lines.len() as usize);
    if ids.len() == 0 {
        main
    } else if is_open(bytes) && !p.struck.contains((lines.len() - 1) as usize) {
        main.drop_last().push(main.last() + tail) + new_lines(p, ids, columns, tail)
    } else {
        main + new_lines(p, ids, columns, tail)
    }
}

/// A record begins behind these bytes.
spec fn is_settled(bytes: Seq<u8>) -> bool {
    bytes.len() == 0 || bytes.last() == 10
}

proof fn lemma_line_goes_on(a: Seq<u8>, x: Seq<u8>)
    requires
        is_one_line(x),
    ensures
        lines_of(a).len() > 0,
        lines_of(a + x) == lines_of(a).drop_last().push(lines_of(a).last() + x),
    decreases x.len(),
{
    lemma_record_lines(a);
    if x.len() == 0 {
        assert(a + x =~= a);
        assert(lines_of(a).last() + x =~= lines_of(a).last());
        assert(lines_of(a) =~= lines_of(a).drop_last().push(lines_of(a).last()));
    } else {
        let front = x.drop_last();
        lemma_line_goes_on(a, front);
        assert((a + x).drop_last() =~= a + front);
        let before = lines_of(a + front);
        assert(before.drop_last() =~= lines_of(a).drop_last());
        assert(before.last().push(x.last()) =~= lines_of(a).last() + x);
        assert(x[x.len() - 1] != 10);
    }
}

/// A line behind a file that ends in a newline.
proof fn lemma_line_behind(a: Seq<u8>, x: Seq<u8>)
    requires
        is_settled(a),
        is_one_line(x),
    ensures
        x.len() > 0 ==> record_lines(a + x) == record_lines(a).push(x),
        is_settled(a + x + seq![10u8]),
        record_lines(a + x + seq![10u8]) == record_lines(a).push(x),
{
    lemma_record_lines(a);
    lemma_line_goes_on(a, x);
    let all = lines_of(a);
    assert(all.last() + x =~= x) by {
        assert(all.last().len() == 0);
    }
    assert(record_lines(a) == all.drop_last());
    assert(lines_of(a + x).last() == x);
    let closed = a + x + seq![10u8];
    assert(closed.drop_last() =~= a + x);
    assert(closed.last() == 10);
    assert(lines_of(closed) == lines_of(a + x).push(Seq::empty()));
    assert(lines_of(closed).drop_last() =~= lines_of(a + x));
}

proof fn lemma_joined(a: Seq<u8>, b: Seq<u8>)
    requires
        is_one_line(a),
        is_one_line(b),
    ensures
        is_one_line(a + b),
{
    assert forall|k: int| 0 <= k < (a + b).len() implies #[trigger] (a + b)[k] != 10 by {
        if k < a.len() {
            assert(a[k] != 10);
        } else {
            assert(b[k - a.len()] != 10);
        }
    }
}

proof fn lemma_escaped_is_one_line(text: Seq<char>)
    ensures
        !escaped(text).contains('\n'),
    decreases text.len(),
{
    if text.len() > 0 {
        lemma_escaped_is_one_line(text.drop_last());
        let front = escaped(text.drop_last());
        let c = text.last();
        let back = escape_of(c);
        assert forall|k: int| 0 <= k < back.len() implies #[trigger] back[k] != '\n' by {
            if (c as u32) < 32 && k >= 4 && back.len() == 6 {
                let n = if k == 4 { c as u32 / 16 } else { c as u32 % 16 };
                assert(n < 16);
            }
        }
        if escaped(text).contains('\n') {
            let k = choose|k: int| 0 <= k < escaped(text).len() && escaped(text)[k] == '\n';
            if k < front.len() {
                assert(front[k] == '\n');
                assert(front.contains('\n'));
            } else {
                assert(back[k - front.len()] == '\n');
            }
        }
    }
}

/// A cell is written without a newline, whatever was typed.
proof fn lemma_value_is_one_line(text: Seq<char>, kind: ColumnType)
    ensures
        is_one_line(json_value(text, kind)),
{
    let bytes = json_value(text, kind);
    if text.len() == 0 {
    } else if passes(encode_utf8(text), kind) {
        if kind != ColumnType::Bool {
            lemma_number_flat(bytes, 0);
        }
    } else {
        lemma_escaped_is_one_line(text);
        ascii_byte_in_text(quoted(text), 10);
        assert(10u8 as char == '\n');
        assert(!quoted(text).contains('\n')) by {
            let all = quoted(text);
            let inner = escaped(text);
            assert forall|k: int| 0 <= k < all.len() implies #[trigger] all[k] != '\n' by {
                if 0 < k < all.len() - 1 {
                    assert(all[k] == inner[k - 1]);
                    assert(inner.contains(inner[k - 1]));
                }
            }
        }
        assert forall|k: int| 0 <= k < bytes.len() implies #[trigger] bytes[k] != 10 by {
            assert(bytes.contains(bytes[k]));
        }
    }
}

proof fn lemma_field_is_one_line(path: Seq<Seq<u8>>, value: Seq<u8>)
    requires
        path.len() > 0,
        are_one_line(path),
        is_one_line(value),
    ensures
        is_one_line(field_text(path, value)),
    decreases path.len(),
{
    assert(is_one_line(path[0]));
    lemma_joined(seq![34u8], path[0]);
    if path.len() == 1 {
        lemma_joined(seq![34u8] + path[0], seq![34u8, 58u8]);
        lemma_joined(seq![34u8] + path[0] + seq![34u8, 58u8], value);
    } else {
        let rest = path.skip(1);
        assert forall|d: int| 0 <= d < rest.len() implies is_one_line(#[trigger] rest[d]) by {
            assert(rest[d] == path[d + 1]);
        }
        lemma_field_is_one_line(rest, value);
        let front = seq![34u8] + path[0] + seq![34u8, 58u8, 123u8];
        lemma_joined(seq![34u8] + path[0], seq![34u8, 58u8, 123u8]);
        lemma_joined(front, field_text(rest, value));
        lemma_joined(front + field_text(rest, value), seq![125u8]);
    }
}

proof fn lemma_spliced_is_one_line(doc: Seq<u8>, from: int, to: int, bytes: Seq<u8>)
    requires
        0 < from <= to <= doc.len(),
        is_one_line(doc),
        is_one_line(bytes),
    ensures
        is_one_line(spliced(doc, from, to, bytes)),
        spliced(doc, from, to, bytes).len() > 0,
{
    assert forall|k: int| 0 <= k < doc.take(from).len() implies #[trigger] doc.take(from)[k] != 10 by {
        assert(doc[k] != 10);
    }
    assert forall|k: int| 0 <= k < doc.skip(to).len() implies #[trigger] doc.skip(to)[k] != 10 by {
        assert(doc[k + to] != 10);
    }
    lemma_joined(doc.take(from), bytes);
    lemma_joined(doc.take(from) + bytes, doc.skip(to));
}

proof fn lemma_placed_is_one_line(doc: Seq<u8>, path: Seq<Seq<u8>>, value: Seq<u8>, adding: Adding)
    requires
        is_one_line(doc),
        are_one_line(path),
        is_one_line(value),
    ensures
        placed(doc, path, value, adding) matches Some(now) ==> is_one_line(now) && now.len() > 0,
    decreases path.len(),
{
    if path.len() > 0 && places(doc) is Some {
        let ps = places(doc)->Some_0;
        lemma_places_within(doc);
        lemma_named(ps, path[0]);
        match named(ps, path[0]) {
            Some(i) => {
                let (from, to) = (ps[i].from, ps[i].to);
                if path.len() == 1 {
                    lemma_spliced_is_one_line(doc, from, to, value);
                } else {
                    let inner = doc.subrange(from, to);
                    let rest = path.skip(1);
                    assert forall|d: int| 0 <= d < rest.len() implies is_one_line(#[trigger] rest[d]) by {
                        assert(rest[d] == path[d + 1]);
                    }
                    assert forall|k: int| 0 <= k < inner.len() implies #[trigger] inner[k] != 10 by {
                        assert(doc[k + from] != 10);
                    }
                    lemma_placed_is_one_line(inner, rest, value, adding.within());
                    if let Some(now) = placed(inner, rest, value, adding.within()) {
                        lemma_spliced_is_one_line(doc, from, to, now);
                    }
                }
            },
            None => {
                let at = adding_at(doc, ps);
                let comma = if ps.len() == 0 { Seq::empty() } else { seq![44u8] };
                lemma_field_is_one_line(path, value);
                lemma_joined(comma, field_text(path, value));
                if ps.len() > 0 {
                    assert(ps[ps.len() - 1].to < doc.len());
                }
                lemma_spliced_is_one_line(doc, at, at, comma + field_text(path, value));
            },
        }
    }
}

proof fn lemma_row_is_one_line(
    p: Pending,
    row: usize,
    doc: Seq<u8>,
    columns: Seq<JsonColumn>,
    adding: Adding,
    n: nat,
)
    requires
        n <= columns.len(),
        keys_stand(columns),
        is_one_line(doc),
    ensures
        is_one_line(p.json_row(row, doc, columns, adding, n).0),
        doc.len() > 0 ==> p.json_row(row, doc, columns, adding, n).0.len() > 0,
    decreases n,
{
    if n > 0 {
        lemma_row_is_one_line(p, row, doc, columns, adding, (n - 1) as nat);
        let before = p.json_row(row, doc, columns, adding, (n - 1) as nat).0;
        let column = columns[n - 1];
        let cell = (row, (n - 1) as usize);
        if p.cells.contains_key(cell) {
            lemma_value_is_one_line(p.cells[cell], column.kind);
            assert(are_one_line(keys_of(column.path@)));
            lemma_placed_is_one_line(
                before,
                keys_of(column.path@),
                json_value(p.cells[cell], column.kind),
                adding,
            );
        }
    }
}

proof fn lemma_lines_are_one_line(bytes: Seq<u8>)
    ensures
        forall|k: int| 0 <= k < lines_of(bytes).len() ==> is_one_line(#[trigger] lines_of(bytes)[k]),
    decreases bytes.len(),
{
    lemma_record_lines(bytes);
    if bytes.len() > 0 {
        let front = bytes.drop_last();
        lemma_lines_are_one_line(front);
        lemma_record_lines(front);
        let before = lines_of(front);
        let now = lines_of(bytes);
        assert forall|k: int| 0 <= k < now.len() implies is_one_line(#[trigger] now[k]) by {
            if k < before.len() - 1 {
                assert(now[k] == before[k]);
            } else if bytes.last() == 10 {
                if k == before.len() - 1 {
                    assert(now[k] == before[k]);
                }
            } else {
                assert(is_one_line(before[before.len() - 1]));
                let line = now[k];
                assert forall|j: int| 0 <= j < line.len() implies #[trigger] line[j] != 10 by {
                    if j < line.len() - 1 {
                        assert(line[j] == before.last()[j]);
                    }
                }
            }
        }
    }
}

/// The line ending of a file is a newline, with a tail of one line before it.
proof fn lemma_tail(lines: Seq<Seq<u8>>)
    ensures
        is_one_line(line_tail(lines)),
        line_ending(lines) == line_tail(lines) + seq![10u8],
{
    assert(line_ending(lines) =~= line_tail(lines) + seq![10u8]);
}

proof fn lemma_documents_behind(
    p: Pending,
    a: Seq<u8>,
    ids: Seq<usize>,
    columns: Seq<JsonColumn>,
    lines: Seq<Seq<u8>>,
)
    requires
        is_settled(a),
        keys_stand(columns),
    ensures
        ({
            let now = a + p.json_documents(ids, columns, line_ending(lines)).0;
            &&& is_settled(now)
            &&& record_lines(now) == record_lines(a) + new_lines(p, ids, columns, line_tail(lines))
        }),
    decreases ids.len(),
{
    let newline = line_ending(lines);
    let tail = line_tail(lines);
    if ids.len() == 0 {
        assert(a + Seq::<u8>::empty() =~= a);
        assert(record_lines(a) + new_lines(p, ids, columns, tail) =~= record_lines(a));
    } else {
        let front = ids.drop_last();
        let before = p.json_documents(front, columns, newline).0;
        let doc = p.json_document(ids.last(), columns).0;
        lemma_documents_behind(p, a, front, columns, lines);
        lemma_tail(lines);
        lemma_row_is_one_line(
            p,
            ids.last(),
            seq![123u8, 125u8],
            columns,
            Adding::Anywhere,
            columns.len(),
        );
        lemma_joined(doc, tail);
        lemma_line_behind(a + before, doc + tail);
        assert(a + (before + doc + newline) =~= a + before + (doc + tail) + seq![10u8]);
        assert((record_lines(a) + new_lines(p, front, columns, tail)).push(doc + tail)
            =~= record_lines(a) + new_lines(p, ids, columns, tail));
    }
}

/// What is written for records that a newline follows each.
proof fn lemma_body(p: Pending, columns: Seq<JsonColumn>, lines: Seq<Seq<u8>>, open: bool, n: nat)
    requires
        keys_stand(columns),
        n <= lines.len(),
        open ==> n < lines.len(),
        forall|k: int| 0 <= k < lines.len() ==> is_one_line(#[trigger] lines[k]),
    ensures
        ({
            let now = json_body(p, columns, lines, open, n).bytes;
            is_settled(now) && record_lines(now) == edited_lines(p, columns, lines, n)
        }),
    decreases n,
{
    if n == 0 {
        assert(lines_of(Seq::<u8>::empty()).drop_last() =~= Seq::empty());
    } else {
        let row = (n - 1) as usize;
        let w = json_body(p, columns, lines, open, (n - 1) as nat);
        lemma_body(p, columns, lines, open, (n - 1) as nat);
        lemma_documents_behind(p, w.bytes, p.added_at(row), columns, lines);
        let before = w.with_documents(p, row, columns, line_ending(lines)).bytes;
        assert(is_one_line(lines[n - 1]));
        lemma_row_is_one_line(p, row, lines[n - 1], columns, Adding::Here, columns.len());
        lemma_line_behind(before, p.json_record(row, lines[n - 1], columns).0);
    }
}

/// A file of JSON records that is written is read back as the records it was
/// meant to hold: those of the file that are not struck, each with its edits,
/// and between them those that are added, all in their order. An edit can hold
/// newlines, quotes or anything else, and a struck record leaves no blank line
/// behind.
pub proof fn the_records_written_are_read_back(p: Pending, columns: Seq<JsonColumn>, bytes: Seq<u8>)
    requires
        keys_stand(columns),
    ensures
        record_lines(json_output(p, columns, bytes).bytes) == edited_file(p, columns, bytes),
{
    let lines = record_lines(bytes);
    let open = is_open(bytes);
    let tail = line_tail(lines);
    let newline = line_ending(lines);
    let n = lines.len();
    let ids = p.added_at(n as usize);
    lemma_record_lines(bytes);
    lemma_lines_are_one_line(bytes);
    lemma_tail(lines);
    assert forall|k: int| 0 <= k < lines.len() implies is_one_line(#[trigger] lines[k]) by {
        assert(lines[k] == lines_of(bytes)[k]);
    }
    let main = json_body(p, columns, lines, open, n).bytes;
    if !open {
        lemma_body(p, columns, lines, open, n);
        if ids.len() > 0 {
            assert(main + Seq::<u8>::empty() =~= main);
            lemma_documents_behind(p, main, ids, columns, lines);
        }
    } else {
        assert(n > 0);
        let row = (n - 1) as usize;
        let w = json_body(p, columns, lines, open, (n - 1) as nat);
        lemma_body(p, columns, lines, open, (n - 1) as nat);
        lemma_documents_behind(p, w.bytes, p.added_at(row), columns, lines);
        let before = w.with_documents(p, row, columns, newline).bytes;
        let last = p.json_record(row, lines[n - 1], columns).0;
        assert(is_one_line(lines[n - 1]));
        assert(lines[n - 1].len() > 0);
        lemma_row_is_one_line(p, row, lines[n - 1], columns, Adding::Here, columns.len());
        if p.struck.contains(row) {
            assert(main == before);
            if ids.len() > 0 {
                assert(main + Seq::<u8>::empty() =~= main);
                lemma_documents_behind(p, main, ids, columns, lines);
            }
        } else {
            assert(main =~= before + last);
            lemma_line_behind(before, last);
            if ids.len() > 0 {
                assert(last[last.len() - 1] != 10);
                assert(main.last() == last.last());
                lemma_joined(last, tail);
                lemma_line_behind(before, last + tail);
                let closed = before + (last + tail) + seq![10u8];
                assert(main + newline =~= closed);
                lemma_documents_behind(p, closed, ids, columns, lines);
                let all = edited_lines(p, columns, lines, n);
                assert(all.drop_last() =~= record_lines(before));
            }
        }
    }
}

} // verus!
