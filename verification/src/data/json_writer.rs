//! Writing pending edits back to a file of JSON records.
//!
//! Written the way delimited text is: a record's own bytes go through and only
//! the edited value is replaced, so key order, spacing, escaping and every
//! other record survive exactly. A value is written as a number or a boolean
//! when the column holds such and the text will pass as one, and as a string
//! otherwise; an empty cell is `null`. A key that a record does not have is
//! added at the end of it, but only at the top level: adding one further in
//! would mean inventing the documents above it. A new record is a document
//! built from the cells that were typed, nesting included.
use vstd::prelude::*;
use vstd::utf8::encode_utf8;
use crate::data::edit::{at_most_max, Overlay, Pending};
use crate::data::json::{false_word, null_word, number_end, number_stop, true_word, Kind};
use crate::data::json_path::{
    adding_at, keys_of, lemma_named, lemma_places_within, named, places, spot, Spot,
};
use crate::data::jsonl::{cut, line_spans, record_lines, span_lines, ColumnType};
use crate::data::loader::lines_of;
use crate::data::writer::{verdict, SpliceError, Tally, Written};
use crate::text;
use crate::text::decimal_text;

verus! {

/// Where a column lives in a record, and what it may be written as.
#[derive(Debug)]
pub struct JsonColumn<'a> {
    /// The keys that lead to it.
    pub path: &'a [String],
    pub kind: ColumnType,
}

/// A hexadecimal digit.
pub open spec fn hex_char(n: u32) -> char {
    if n < 10 {
        (48 + n) as u8 as char
    } else {
        (87 + n) as u8 as char
    }
}

/// A character as it stands in a JSON string.
pub open spec fn escape_of(c: char) -> Seq<char> {
    if c == '"' || c == '\\' {
        seq!['\\', c]
    } else if c == '\n' {
        seq!['\\', 'n']
    } else if c == '\r' {
        seq!['\\', 'r']
    } else if c == '\t' {
        seq!['\\', 't']
    } else if (c as u32) < 32 {
        seq!['\\', 'u', '0', '0', hex_char(c as u32 / 16), hex_char(c as u32 % 16)]
    } else {
        seq![c]
    }
}

/// A text as it stands in a JSON string.
pub open spec fn escaped(text: Seq<char>) -> Seq<char>
    decreases text.len(),
{
    if text.len() == 0 {
        Seq::empty()
    } else {
        escaped(text.drop_last()) + escape_of(text.last())
    }
}

/// A text as a JSON string.
pub open spec fn quoted(text: Seq<char>) -> Seq<char> {
    seq!['"'] + escaped(text) + seq!['"']
}

/// A text will pass as a value of the column's own kind.
pub open spec fn passes(text: Seq<u8>, kind: ColumnType) -> bool {
    text.len() > 0 && match kind {
        ColumnType::Int => number_stop(text, 0) == Some((Kind::Int, text.len() as int)),
        ColumnType::Float => number_stop(text, 0) matches Some((_, end)) && end == text.len(),
        ColumnType::Bool => text == true_word() || text == false_word(),
        ColumnType::Text => false,
    }
}

/// A cell as it is written.
pub open spec fn json_value(text: Seq<char>, kind: ColumnType) -> Seq<u8> {
    if text.len() == 0 {
        null_word()
    } else if passes(encode_utf8(text), kind) {
        encode_utf8(text)
    } else {
        encode_utf8(quoted(text))
    }
}

fn hex(n: u8) -> (c: char)
    requires
        n < 16,
    ensures
        c == hex_char(n as u32),
{
    if n < 10 {
        (48 + n) as char
    } else {
        (87 + n) as char
    }
}

/// A text as a JSON string.
pub fn quote(value: &str) -> (out: String)
    ensures
        out@ == quoted(value@),
{
    let chars = text::chars(value);
    let mut out = String::new();
    text::push(&mut out, '"');
    let mut i: usize = 0;
    assert(value@.take(0) =~= Seq::empty());
    assert(out@ =~= seq!['"'] + escaped(value@.take(0)));
    while i < chars.len()
        invariant
            i <= chars.len(),
            chars@ == value@,
            out@ == seq!['"'] + escaped(value@.take(i as int)),
        decreases chars.len() - i,
    {
        let c = chars[i];
        let ghost before = out@;
        assert(value@.take(i + 1).drop_last() =~= value@.take(i as int));
        if c == '"' || c == '\\' {
            text::push(&mut out, '\\');
            text::push(&mut out, c);
        } else if c == '\n' {
            text::push(&mut out, '\\');
            text::push(&mut out, 'n');
        } else if c == '\r' {
            text::push(&mut out, '\\');
            text::push(&mut out, 'r');
        } else if c == '\t' {
            text::push(&mut out, '\\');
            text::push(&mut out, 't');
        } else if (c as u32) < 32 {
            let n: u8 = (c as u32) as u8;
            text::push(&mut out, '\\');
            text::push(&mut out, 'u');
            text::push(&mut out, '0');
            text::push(&mut out, '0');
            text::push(&mut out, hex(n / 16));
            text::push(&mut out, hex(n % 16));
        } else {
            text::push(&mut out, c);
        }
        assert(out@ =~= before + escape_of(c));
        assert(out@ =~= seq!['"'] + escaped(value@.take(i + 1)));
        i += 1;
    }
    assert(value@.take(i as int) =~= value@);
    text::push(&mut out, '"');
    assert(out@ =~= quoted(value@));
    out
}

fn is_word(text: &[u8], a: u8, b: u8, c: u8, d: u8) -> (r: bool)
    ensures
        r == (text@ == seq![a, b, c, d]),
{
    if text.len() != 4 {
        return false;
    }
    let r = text[0] == a && text[1] == b && text[2] == c && text[3] == d;
    proof {
        let want = seq![a, b, c, d];
        assert(want[0] == a && want[1] == b && want[2] == c && want[3] == d);
        if r {
            assert(text@ =~= want);
        }
    }
    r
}

fn fits(text: &[u8], kind: ColumnType) -> (r: bool)
    ensures
        r == passes(text@, kind),
{
    if text.len() == 0 {
        return false;
    }
    match kind {
        ColumnType::Int => match number_end(text, 0) {
            Some((k, end)) => k == Kind::Int && end == text.len(),
            None => false,
        },
        ColumnType::Float => match number_end(text, 0) {
            Some((_, end)) => end == text.len(),
            None => false,
        },
        ColumnType::Bool => {
            let yes = is_word(text, 116, 114, 117, 101);
            let no = text.len() == 5 && text[0] == 102 && text[1] == 97 && text[2] == 108 && text[3]
                == 115 && text[4] == 101;
            proof {
                let want = false_word();
                assert(want[0] == 102 && want[1] == 97 && want[2] == 108 && want[3] == 115 && want[4]
                    == 101);
                if no {
                    assert(text@ =~= want);
                }
            }
            yes || no
        },
        ColumnType::Text => false,
    }
}

/// A cell as it is written.
pub fn encode(value: &str, kind: ColumnType) -> (out: Vec<u8>)
    ensures
        out@ == json_value(value@, kind),
{
    let bytes = value.as_bytes();
    proof {
        if value@.len() == 0 {
            assert(encode_utf8(value@) =~= Seq::empty());
        } else {
            crate::text::lemma_scalar_bytes(value@[0], 0);
            assert(encode_utf8(value@).len() > 0);
        }
    }
    if bytes.len() == 0 {
        let out = vec![110u8, 117, 108, 108];
        assert(out@ =~= null_word());
        return out;
    }
    if fits(bytes, kind) {
        return text::bytes_of(bytes);
    }
    let text = quote(value);
    text::bytes_of(text.as_str().as_bytes())
}

/// Where a missing key may be added.
#[derive(Clone, Copy, Debug, PartialEq, Eq, Structural)]
pub enum Adding {
    Nowhere,
    /// In the document itself, if the path ends there.
    Here,
    /// At any depth, inventing the documents on the way.
    Anywhere,
}

impl Adding {
    pub open spec fn within(self) -> Adding {
        match self {
            Adding::Here => Adding::Nowhere,
            other => other,
        }
    }

    pub open spec fn allows(self, depth: nat) -> bool {
        self == Adding::Anywhere || (self == Adding::Here && depth == 1)
    }
}

/// A field with the documents that its path asks for.
pub open spec fn field_text(path: Seq<Seq<u8>>, value: Seq<u8>) -> Seq<u8>
    decreases path.len(),
{
    if path.len() <= 1 {
        seq![34u8] + path[0] + seq![34u8, 58u8] + value
    } else {
        seq![34u8] + path[0] + seq![34u8, 58u8, 123u8] + field_text(path.skip(1), value) + seq![125u8]
    }
}

/// A line with bytes in place of those between two places.
pub open spec fn spliced(line: Seq<u8>, from: int, to: int, bytes: Seq<u8>) -> Seq<u8> {
    line.take(from) + bytes + line.skip(to)
}

/// A document with a value put where a path leads, `None` where there is no
/// place for it.
pub open spec fn placed(doc: Seq<u8>, path: Seq<Seq<u8>>, value: Seq<u8>, adding: Adding) -> Option<Seq<u8>>
    decreases path.len(),
{
    if path.len() == 0 {
        None
    } else {
        match places(doc) {
            None => None,
            Some(ps) => match named(ps, path[0]) {
                Some(i) => {
                    let (from, to) = (ps[i].from, ps[i].to);
                    if path.len() == 1 {
                        Some(spliced(doc, from, to, value))
                    } else {
                        match placed(doc.subrange(from, to), path.skip(1), value, adding.within()) {
                            None => None,
                            Some(inner) => Some(spliced(doc, from, to, inner)),
                        }
                    }
                },
                None => if adding.allows(path.len()) {
                    let at = adding_at(doc, ps);
                    let comma = if ps.len() == 0 { Seq::empty() } else { seq![44u8] };
                    Some(spliced(doc, at, at, comma + field_text(path, value)))
                } else {
                    None
                },
            },
        }
    }
}

/// Bytes behind others.
fn push_bytes(out: &mut Vec<u8>, more: &[u8])
    ensures
        final(out)@ == old(out)@ + more@,
{
    out.extend_from_slice(more);
}

fn splice_bytes(line: &[u8], from: usize, to: usize, bytes: &[u8]) -> (out: Vec<u8>)
    requires
        from <= to <= line.len(),
    ensures
        out@ == spliced(line@, from as int, to as int, bytes@),
{
    let mut out = text::bytes_of(vstd::slice::slice_subrange(line, 0, from));
    push_bytes(&mut out, bytes);
    push_bytes(&mut out, vstd::slice::slice_subrange(line, to, line.len()));
    assert(line@.subrange(0, from as int) =~= line@.take(from as int));
    assert(line@.subrange(to as int, line@.len() as int) =~= line@.skip(to as int));
    out
}

fn field(path: &[String], depth: usize, value: &[u8]) -> (out: Vec<u8>)
    requires
        depth < path.len(),
    ensures
        out@ == field_text(keys_of(path@).skip(depth as int), value@),
    decreases path.len() - depth,
{
    let ghost keys = keys_of(path@).skip(depth as int);
    assert(keys[0] == encode_utf8(path@[depth as int]@));
    let mut out = vec![34u8];
    push_bytes(&mut out, path[depth].as_str().as_bytes());
    out.push(34);
    out.push(58);
    if depth + 1 == path.len() {
        push_bytes(&mut out, value);
        assert(out@ =~= field_text(keys, value@));
    } else {
        assert(keys.skip(1) =~= keys_of(path@).skip(depth + 1));
        let inner = field(path, depth + 1, value);
        out.push(123);
        push_bytes(&mut out, inner.as_slice());
        out.push(125);
        assert(out@ =~= field_text(keys, value@));
    }
    out
}

fn put_from(doc: &[u8], path: &[String], depth: usize, value: &[u8], adding: Adding) -> (out: Option<
    Vec<u8>,
>)
    requires
        depth < path.len(),
    ensures
        match out {
            Some(out) => placed(doc@, keys_of(path@).skip(depth as int), value@, adding) == Some(out@),
            None => placed(doc@, keys_of(path@).skip(depth as int), value@, adding) is None,
        },
    decreases path.len() - depth,
{
    let ghost keys = keys_of(path@).skip(depth as int);
    assert(keys[0] == encode_utf8(path@[depth as int]@));
    proof {
        if let Some(ps) = places(doc@) {
            lemma_named(ps, keys[0]);
        }
        lemma_places_within(doc@);
    }
    match spot(doc, path[depth].as_str().as_bytes()) {
        Spot::NoObject => None,
        Spot::There { kind: _, from, to } => {
            if depth + 1 == path.len() {
                Some(splice_bytes(doc, from, to, value))
            } else {
                assert(keys.skip(1) =~= keys_of(path@).skip(depth + 1));
                let within = match adding {
                    Adding::Here => Adding::Nowhere,
                    Adding::Nowhere => Adding::Nowhere,
                    Adding::Anywhere => Adding::Anywhere,
                };
                let inner = vstd::slice::slice_subrange(doc, from, to);
                match put_from(inner, path, depth + 1, value, within) {
                    None => None,
                    Some(inner) => Some(splice_bytes(doc, from, to, inner.as_slice())),
                }
            }
        },
        Spot::Missing { at, first } => {
            let allowed = match adding {
                Adding::Anywhere => true,
                Adding::Here => depth + 1 == path.len(),
                Adding::Nowhere => false,
            };
            if !allowed {
                return None;
            }
            let mut more: Vec<u8> = Vec::new();
            if !first {
                more.push(44);
            }
            let new = field(path, depth, value);
            push_bytes(&mut more, new.as_slice());
            proof {
                let comma = if first { Seq::empty() } else { seq![44u8] };
                assert(more@ =~= comma + field_text(keys, value@));
            }
            Some(splice_bytes(doc, at, at, more.as_slice()))
        },
    }
}

/// A document with a value put where a path leads, `None` where there is no
/// place for it.
pub fn put(doc: &[u8], path: &[String], value: &[u8], adding: Adding) -> (out: Option<Vec<u8>>)
    ensures
        match out {
            Some(out) => placed(doc@, keys_of(path@), value@, adding) == Some(out@),
            None => placed(doc@, keys_of(path@), value@, adding) is None,
        },
{
    if path.len() == 0 {
        return None;
    }
    assert(keys_of(path@).skip(0) =~= keys_of(path@));
    put_from(doc, path, 0, value, adding)
}

impl Pending {
    /// A document with the edits that a row has in its first `n` columns, and
    /// how many of them found a place.
    pub open spec fn json_row(
        self,
        row: usize,
        doc: Seq<u8>,
        columns: Seq<JsonColumn>,
        adding: Adding,
        n: nat,
    ) -> (Seq<u8>, nat)
        decreases n,
    {
        if n == 0 {
            (doc, 0)
        } else {
            let (before, count) = self.json_row(row, doc, columns, adding, (n - 1) as nat);
            let column = columns[n - 1];
            let cell = (row, (n - 1) as usize);
            if self.cells.contains_key(cell) {
                match placed(
                    before,
                    keys_of(column.path@),
                    json_value(self.cells[cell], column.kind),
                    adding,
                ) {
                    Some(now) => (now, count + 1),
                    None => (before, count),
                }
            } else {
                (before, count)
            }
        }
    }

    /// A record of the file with its edits.
    pub open spec fn json_record(self, row: usize, line: Seq<u8>, columns: Seq<JsonColumn>) -> (
        Seq<u8>,
        nat,
    ) {
        self.json_row(row, line, columns, Adding::Here, columns.len())
    }

    /// A record that the file does not hold: a document of the cells typed.
    pub open spec fn json_document(self, id: usize, columns: Seq<JsonColumn>) -> (Seq<u8>, nat) {
        self.json_row(id, seq![123u8, 125u8], columns, Adding::Anywhere, columns.len())
    }

    pub open spec fn json_documents(
        self,
        ids: Seq<usize>,
        columns: Seq<JsonColumn>,
        newline: Seq<u8>,
    ) -> (Seq<u8>, nat)
        decreases ids.len(),
    {
        if ids.len() == 0 {
            (Seq::empty(), 0)
        } else {
            let (before, count) = self.json_documents(ids.drop_last(), columns, newline);
            let (doc, more) = self.json_document(ids.last(), columns);
            (before + doc + newline, count + more)
        }
    }
}

impl Written {
    /// The records added before row `before` are put in.
    pub open spec fn with_documents(
        self,
        p: Pending,
        before: usize,
        columns: Seq<JsonColumn>,
        newline: Seq<u8>,
    ) -> Written {
        let ids = p.added_at(before);
        let (bytes, count) = p.json_documents(ids, columns, newline);
        Written {
            bytes: self.bytes + bytes,
            applied: self.applied + count,
            added: self.added + ids.len(),
            ..self
        }
    }

    /// A record goes by, with its edits, or nowhere if it is struck.
    pub open spec fn with_line(
        self,
        p: Pending,
        row: usize,
        line: Seq<u8>,
        eol: Seq<u8>,
        columns: Seq<JsonColumn>,
    ) -> Written {
        if p.struck.contains(row) {
            Written {
                applied: self.applied + p.edits_under(row, columns.len()),
                dropped: self.dropped + 1,
                ..self
            }
        } else {
            let (now, count) = p.json_record(row, line, columns);
            Written { bytes: self.bytes + now + eol, applied: self.applied + count, ..self }
        }
    }
}

/// The line ending of a file, taken from its first record.
pub open spec fn line_ending(lines: Seq<Seq<u8>>) -> Seq<u8> {
    if lines.len() > 0 && lines[0].len() > 0 && lines[0].last() == 13 {
        seq![13u8, 10u8]
    } else {
        seq![10u8]
    }
}

/// What is written for the first `n` records of a file. Only the last record
/// can lack a line ending, where the file is left open.
pub open spec fn json_body(
    p: Pending,
    columns: Seq<JsonColumn>,
    lines: Seq<Seq<u8>>,
    open: bool,
    n: nat,
) -> Written
    decreases n,
{
    if n == 0 {
        Written::nothing()
    } else {
        let row = (n - 1) as usize;
        let eol = if open && n == lines.len() { Seq::empty() } else { seq![10u8] };
        json_body(p, columns, lines, open, (n - 1) as nat).with_documents(
            p,
            row,
            columns,
            line_ending(lines),
        ).with_line(p, row, lines[n - 1], eol, columns)
    }
}

/// The file does not end in a newline.
pub open spec fn is_open(bytes: Seq<u8>) -> bool {
    bytes.len() > 0 && bytes.last() != 10
}

/// Everything that is written for a file. Records added past the last one come
/// at the end, behind a line ending if what stands before them lacks one.
pub open spec fn json_output(p: Pending, columns: Seq<JsonColumn>, bytes: Seq<u8>) -> Written {
    let lines = record_lines(bytes);
    let main = json_body(p, columns, lines, is_open(bytes), lines.len());
    if p.added_at(lines.len() as usize).len() == 0 {
        main
    } else {
        let gap = if is_open(main.bytes) { line_ending(lines) } else { Seq::empty() };
        (Written { bytes: main.bytes + gap, ..main }).with_documents(
            p,
            lines.len() as usize,
            columns,
            line_ending(lines),
        )
    }
}

fn edit_row(overlay: &Overlay, row: usize, doc: &[u8], columns: &[JsonColumn], adding: Adding) -> (out: (
    Vec<u8>,
    usize,
))
    requires
        overlay.wf(),
    ensures
        (out.0@, out.1 as nat) == overlay@.pending.json_row(row, doc@, columns@, adding, columns@.len()),
{
    let ghost p = overlay@.pending;
    let mut now = text::bytes_of(doc);
    let mut count: usize = 0;
    let mut i: usize = 0;
    while i < columns.len()
        invariant
            i <= columns.len(),
            count <= i,
            overlay.wf(),
            p == overlay@.pending,
            (now@, count as nat) == p.json_row(row, doc@, columns@, adding, i as nat),
        decreases columns.len() - i,
    {
        if let Some(value) = overlay.get((row, i)) {
            let bytes = encode(value, columns[i].kind);
            if let Some(next) = put(
                now.as_slice(),
                columns[i].path,
                bytes.as_slice(),
                adding,
            ) {
                now = next;
                count += 1;
            }
        }
        i += 1;
    }
    (now, count)
}

fn count_edits(overlay: &Overlay, row: usize, n: usize) -> (count: usize)
    requires
        overlay.wf(),
    ensures
        count == overlay@.pending.edits_under(row, n as nat),
{
    let mut count: usize = 0;
    let mut i: usize = 0;
    while i < n
        invariant
            i <= n,
            count <= i,
            overlay.wf(),
            count == overlay@.pending.edits_under(row, i as nat),
        decreases n - i,
    {
        if overlay.get((row, i)).is_some() {
            count += 1;
        }
        i += 1;
    }
    count
}

/// What has gone out so far.
struct Sent {
    out: Vec<u8>,
    applied: usize,
    dropped: usize,
    added: usize,
}

impl Sent {
    spec fn is(self, w: Written) -> bool {
        &&& self.out@ == w.bytes
        &&& self.applied == at_most_max(w.applied)
        &&& self.dropped == at_most_max(w.dropped)
        &&& self.added == at_most_max(w.added)
    }

    fn documents(
        &mut self,
        overlay: &Overlay,
        before: usize,
        columns: &[JsonColumn],
        newline: &[u8],
        Ghost(w): Ghost<Written>,
    )
        requires
            overlay.wf(),
            old(self).is(w),
        ensures
            final(self).is(w.with_documents(overlay@.pending, before, columns@, newline@)),
    {
        let ids = overlay.added_at(before);
        let ghost p = overlay@.pending;
        let mut i: usize = 0;
        assert(ids@.take(0) =~= Seq::empty());
        assert(w.bytes + Seq::<u8>::empty() =~= w.bytes);
        while i < ids.len()
            invariant
                i <= ids.len(),
                overlay.wf(),
                p == overlay@.pending,
                self.is(
                    Written {
                        bytes: w.bytes + p.json_documents(ids@.take(i as int), columns@, newline@).0,
                        applied: w.applied + p.json_documents(
                            ids@.take(i as int),
                            columns@,
                            newline@,
                        ).1,
                        added: w.added + i as nat,
                        ..w
                    },
                ),
            decreases ids.len() - i,
        {
            let ghost upto = ids@.take(i + 1);
            assert(upto.drop_last() =~= ids@.take(i as int));
            assert(upto.last() == ids@[i as int]);
            let braces: [u8; 2] = [123u8, 125u8];
            assert(braces@ =~= seq![123u8, 125u8]);
            let (doc, count) = edit_row(overlay, ids[i], &braces, columns, Adding::Anywhere);
            let ghost was = self.out@;
            push_bytes(&mut self.out, doc.as_slice());
            push_bytes(&mut self.out, newline);
            assert(self.out@ =~= w.bytes + p.json_documents(upto, columns@, newline@).0);
            self.applied = self.applied.saturating_add(count);
            self.added = self.added.saturating_add(1);
            i += 1;
        }
        assert(ids@.take(i as int) =~= ids@);
    }

    fn line(
        &mut self,
        overlay: &Overlay,
        row: usize,
        line: &[u8],
        closed: bool,
        columns: &[JsonColumn],
        Ghost(w): Ghost<Written>,
    )
        requires
            overlay.wf(),
            old(self).is(w),
        ensures
            final(self).is(
                w.with_line(
                    overlay@.pending,
                    row,
                    line@,
                    if closed {
                        seq![10u8]
                    } else {
                        Seq::empty()
                    },
                    columns@,
                ),
            ),
    {
        if overlay.is_struck(row) {
            let count = count_edits(overlay, row, columns.len());
            self.applied = self.applied.saturating_add(count);
            self.dropped = self.dropped.saturating_add(1);
        } else {
            let (now, count) = edit_row(overlay, row, line, columns, Adding::Here);
            push_bytes(&mut self.out, now.as_slice());
            if closed {
                self.out.push(10);
            }
            self.applied = self.applied.saturating_add(count);
            assert(self.out@ =~= w.bytes + now@ + (if closed {
                seq![10u8]
            } else {
                Seq::empty()
            }));
        }
    }
}

pub(crate) proof fn lemma_record_lines(bytes: Seq<u8>)
    ensures
        lines_of(bytes).len() > 0,
        bytes.len() > 0 && bytes.last() != 10 ==> lines_of(bytes).last().len() > 0,
        bytes.len() > 0 && bytes.last() == 10 ==> lines_of(bytes).last().len() == 0,
    decreases bytes.len(),
{
    if bytes.len() > 0 {
        lemma_record_lines(bytes.drop_last());
    }
}

/// Copy the records of `src`, replacing the values named by `overlay`, leaving
/// out those it strikes and putting in those it adds.
///
/// Fails if the record count disagrees with `expected_rows`, or if something
/// pending finds no place.
pub fn splice_json(
    src: &[u8],
    columns: &[JsonColumn],
    overlay: &Overlay,
    expected_rows: usize,
) -> (r: Result<Vec<u8>, SpliceError>)
    requires
        overlay.wf(),
    ensures
        ({
            let w = json_output(overlay@.pending, columns@, src@);
            let tally = Tally {
                rows: record_lines(src@).len() as usize,
                applied: at_most_max(w.applied),
                dropped: at_most_max(w.dropped),
                added: at_most_max(w.added),
            };
            match verdict(overlay@.pending, tally, expected_rows) {
                Ok(_) => r is Ok && r->Ok_0@ == w.bytes,
                Err(e) => r == Err::<Vec<u8>, SpliceError>(e),
            }
        }),
{
    let ghost p = overlay@.pending;
    let ghost lines = record_lines(src@);
    let open = src.len() > 0 && src[src.len() - 1] != 10;
    let spans: Vec<(usize, usize)> = if src.len() == 0 {
        Vec::new()
    } else {
        line_spans(src)
    };
    proof {
        lemma_record_lines(src@);
        if src@.len() == 0 {
            assert(lines_of(src@).last().len() == 0);
            assert(cut(src@, spans@) =~= lines);
        } else {
            assert(span_lines(src@) == lines);
        }
        assert(cut(src@, spans@) == lines);
        assert(lines.len() == spans@.len());
    }
    let crlf = spans.len() > 0 && spans[0].0 < spans[0].1 && src[spans[0].1 - 1] == 13;
    let newline: Vec<u8> = if crlf {
        vec![13u8, 10]
    } else {
        vec![10u8]
    };
    proof {
        if lines.len() > 0 {
            assert(lines[0] == src@.subrange(spans@[0].0 as int, spans@[0].1 as int));
        }
        assert(newline@ =~= line_ending(lines));
    }
    let mut sent = Sent { out: Vec::new(), applied: 0, dropped: 0, added: 0 };
    let mut row: usize = 0;
    while row < spans.len()
        invariant
            row <= spans.len(),
            overlay.wf(),
            p == overlay@.pending,
            lines == cut(src@, spans@),
            forall|k: int|
                0 <= k < spans@.len() ==> (#[trigger] spans@[k]).0 <= spans@[k].1 <= src@.len(),
            newline@ == line_ending(lines),
            open == is_open(src@),
            sent.is(json_body(p, columns@, lines, open, row as nat)),
        decreases spans.len() - row,
    {
        let (from, to) = spans[row];
        assert(spans@[row as int].0 <= spans@[row as int].1 <= src@.len());
        let ghost w = json_body(p, columns@, lines, open, row as nat);
        sent.documents(overlay, row, columns, newline.as_slice(), Ghost(w));
        let line = vstd::slice::slice_subrange(src, from, to);
        assert(lines[row as int] == line@);
        let closed = !(open && row + 1 == spans.len());
        sent.line(
            overlay,
            row,
            line,
            closed,
            columns,
            Ghost(w.with_documents(p, row, columns@, newline@)),
        );
        row += 1;
    }
    let ghost main = json_body(p, columns@, lines, open, lines.len());
    if overlay.added_at(row).len() > 0 {
        let ghost gap = if is_open(main.bytes) { line_ending(lines) } else { Seq::empty() };
        let n: usize = sent.out.len();
        if n > 0 && sent.out[n - 1] != 10 {
            push_bytes(&mut sent.out, newline.as_slice());
        }
        assert(sent.out@ =~= main.bytes + gap);
        sent.documents(
            overlay,
            row,
            columns,
            newline.as_slice(),
            Ghost(Written { bytes: main.bytes + gap, ..main }),
        );
    }
    let tally = Tally { rows: row, applied: sent.applied, dropped: sent.dropped, added: sent.added };
    match tally.check(overlay, expected_rows) {
        Ok(_) => Ok(sent.out),
        Err(e) => Err(e),
    }
}

impl SpliceError {
    /// The refusal in words, where the file holds JSON records.
    pub open spec fn json_text(self) -> Seq<char> {
        match self {
            SpliceError::Edits { missing, total } => "refusing to write: "@ + decimal_text(
                missing as nat,
            ) + " of "@ + decimal_text(total as nat)
                + " edits had no key to land in (a record without the document around it)"@,
            other => other.text(),
        }
    }

    pub fn json_message(&self) -> (out: String)
        ensures
            out@ == self.json_text(),
    {
        match *self {
            SpliceError::Edits { missing, total } => {
                let mut out = "refusing to write: ".to_owned();
                text::push_str(&mut out, text::decimal(missing).as_str());
                text::push_str(&mut out, " of ");
                text::push_str(&mut out, text::decimal(total).as_str());
                text::push_str(
                    &mut out,
                    " edits had no key to land in (a record without the document around it)",
                );
                out
            },
            _ => self.message(),
        }
    }
}

} // verus!
