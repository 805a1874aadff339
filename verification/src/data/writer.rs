//! Writing pending edits back to a delimited text file.
//!
//! An edit is a *text* edit: the file is untyped, so writing never
//! re-serializes a table. That would reformat every line and turn a one-cell
//! change into a whole-file diff. Instead the original bytes are streamed
//! through and only the edited fields are replaced. Quoting style, line
//! endings, a missing final newline, a byte order mark, stray whitespace and
//! the header all survive untouched.
//!
//! The file's bytes are read as [`Record`]s of raw fields; what is written is
//! stated over those records and the pending edits, and [`Splicer`] produces
//! it a byte at a time, holding no more than the current state.
use vstd::prelude::*;
use vstd::utf8::encode_utf8;
use crate::data::edit::{at_most_max, Overlay, Pending};
use crate::text;
use crate::text::decimal_text;

verus! {

/// A moment, in seconds and nanoseconds from the epoch.
#[derive(Clone, Copy, Debug, PartialEq, Eq, Structural)]
pub struct Moment {
    pub seconds: i64,
    pub nanos: u32,
}

/// What a file looked like when it was opened, so a write cannot clobber
/// changes made underneath it by something else.
#[derive(Clone, Copy, Debug, PartialEq, Eq, Structural)]
pub struct Stamp {
    /// Length in bytes.
    pub len: u64,
    /// When it was last modified, where the file system says.
    pub mtime: Option<Moment>,
}

impl Stamp {
    /// True when the file still looks the way it did when this stamp was taken.
    /// `now` is what it looks like, if that could be found out.
    pub fn still_matches(&self, now: Option<Stamp>) -> (same: bool)
        ensures
            same == (now == Some(*self)),
    {
        match now {
            Some(now) => {
                self.len == now.len && match (self.mtime, now.mtime) {
                    (Some(a), Some(b)) => a == b,
                    (None, None) => true,
                    _ => false,
                }
            },
            None => false,
        }
    }
}

/// Every `"` written twice.
pub open spec fn doubled(value: Seq<char>) -> Seq<char>
    decreases value.len(),
{
    if value.len() == 0 {
        Seq::empty()
    } else if value.last() == '"' {
        doubled(value.drop_last()) + seq!['"', '"']
    } else {
        doubled(value.drop_last()).push(value.last())
    }
}

/// Writing the value bare would change the shape of the record.
pub open spec fn needs_quotes(value: Seq<char>, separator: u8) -> bool {
    exists|i: int|
        0 <= i < encode_utf8(value).len() && {
            let b = #[trigger] encode_utf8(value)[i];
            b == separator || b == 34 || b == 10 || b == 13
        }
}

/// A value as it stands in a file.
pub open spec fn encoded(value: Seq<char>, separator: u8) -> Seq<char> {
    if needs_quotes(value, separator) {
        seq!['"'] + doubled(value) + seq!['"']
    } else {
        value
    }
}

/// Quote `value` if writing it bare would change the shape of the record.
pub fn encode(value: &str, separator: u8) -> (out: String)
    ensures
        out@ == encoded(value@, separator),
{
    let bytes = value.as_bytes();
    let mut i: usize = 0;
    while i < bytes.len() && !(bytes[i] == separator || bytes[i] == 34 || bytes[i] == 10 || bytes[i]
        == 13)
        invariant
            i <= bytes.len(),
            bytes@ == encode_utf8(value@),
            forall|j: int|
                0 <= j < i ==> {
                    let b = #[trigger] bytes@[j];
                    !(b == separator || b == 34 || b == 10 || b == 13)
                },
        decreases bytes.len() - i,
    {
        i += 1;
    }
    if i == bytes.len() {
        return value.to_owned();
    }
    assert(needs_quotes(value@, separator)) by {
        let b = encode_utf8(value@)[i as int];
    }
    let mut out = String::new();
    text::push(&mut out, '"');
    let chars = text::chars(value);
    let mut k: usize = 0;
    assert(value@.take(0) =~= Seq::empty());
    assert(out@ =~= seq!['"'] + doubled(value@.take(0)));
    while k < chars.len()
        invariant
            k <= chars.len(),
            chars@ == value@,
            out@ == seq!['"'] + doubled(value@.take(k as int)),
        decreases chars.len() - k,
    {
        let c = chars[k];
        assert(value@.take(k + 1).drop_last() =~= value@.take(k as int));
        if c == '"' {
            text::push(&mut out, '"');
        }
        text::push(&mut out, c);
        assert(out@ =~= seq!['"'] + doubled(value@.take(k + 1)));
        k += 1;
    }
    assert(value@.take(k as int) =~= value@);
    text::push(&mut out, '"');
    assert(out@ =~= encoded(value@, separator));
    out
}

/// One record of a file: the raw bytes of its fields, quotes included, and the
/// line ending that closed it. Only the last record of a file can have none.
#[verifier::ext_equal]
pub struct Record {
    pub fields: Seq<Seq<u8>>,
    pub eol: Seq<u8>,
}

/// Bytes read so far, taken apart into records.
#[verifier::ext_equal]
pub struct Parsed {
    /// Records that have ended.
    pub records: Seq<Record>,
    /// Fields of the current record that have ended.
    pub fields: Seq<Seq<u8>>,
    /// What the current field holds so far.
    pub field: Seq<u8>,
    /// The current record has begun.
    pub record_started: bool,
    /// The current field has begun.
    pub field_started: bool,
    /// The field began with a quote that has not been closed.
    pub in_quotes: bool,
    /// The last byte was a quote inside a quoted field: doubled it is an
    /// escape, otherwise it closed the field.
    pub pending_quote: bool,
    /// The last byte was a carriage return outside quotes, which ends the
    /// record only if a newline follows. It is not in `field` yet.
    pub pending_cr: bool,
}

impl Parsed {
    pub open spec fn start() -> Parsed {
        Parsed {
            records: Seq::empty(),
            fields: Seq::empty(),
            field: Seq::empty(),
            record_started: false,
            field_started: false,
            in_quotes: false,
            pending_quote: false,
            pending_cr: false,
        }
    }

    /// The current field takes one more byte.
    pub open spec fn grow(self, b: u8) -> Parsed {
        Parsed {
            field: self.field.push(b),
            record_started: true,
            field_started: true,
            ..self
        }
    }

    /// A separator ends the field.
    pub open spec fn split(self) -> Parsed {
        Parsed {
            fields: self.fields.push(self.field),
            field: Seq::empty(),
            record_started: true,
            field_started: false,
            ..self
        }
    }

    /// A line ending, or the end of the file, ends the record.
    pub open spec fn close(self, eol: Seq<u8>) -> Parsed {
        Parsed {
            records: self.records.push(Record { fields: self.fields.push(self.field), eol }),
            fields: Seq::empty(),
            field: Seq::empty(),
            record_started: false,
            field_started: false,
            ..self
        }
    }

    /// A byte that stands outside quotes and after no carriage return.
    pub open spec fn plain(self, b: u8, separator: u8) -> Parsed {
        if b == 10 {
            self.close(seq![10u8])
        } else if b == 13 {
            Parsed { record_started: true, field_started: true, pending_cr: true, ..self }
        } else if b == separator {
            self.split()
        } else if b == 34 && !self.field_started {
            Parsed { in_quotes: true, ..self.grow(b) }
        } else {
            self.grow(b)
        }
    }

    pub open spec fn byte(self, b: u8, separator: u8) -> Parsed {
        if self.pending_quote && b == 34 {
            Parsed { pending_quote: false, ..self.grow(b) }
        } else if self.pending_quote {
            (Parsed { pending_quote: false, in_quotes: false, ..self }).plain(b, separator)
        } else if self.in_quotes {
            Parsed { pending_quote: b == 34, ..self.grow(b) }
        } else if self.pending_cr && b == 10 {
            (Parsed { pending_cr: false, ..self }).close(seq![13u8, 10u8])
        } else if self.pending_cr {
            (Parsed { pending_cr: false, ..self.grow(13) }).plain(b, separator)
        } else {
            self.plain(b, separator)
        }
    }

    /// No more bytes: a record that has begun ends here.
    pub open spec fn end(self) -> Parsed {
        let last = if self.pending_cr {
            Parsed { pending_cr: false, ..self.grow(13) }
        } else {
            self
        };
        if last.record_started {
            last.close(Seq::empty())
        } else {
            last
        }
    }

    pub open spec fn wf(self) -> bool {
        &&& self.in_quotes ==> self.field_started
        &&& self.pending_quote ==> self.in_quotes
        &&& self.pending_cr ==> self.field_started && !self.in_quotes
        &&& self.field_started ==> self.record_started
        &&& self.record_started && !self.field_started ==> self.fields.len() > 0
        &&& !self.field_started ==> self.field.len() == 0
        &&& !self.record_started ==> self.fields.len() == 0
        &&& forall|r: int| 0 <= r < self.records.len() ==> (#[trigger] self.records[r]).fields.len() > 0
    }
}

/// What the bytes read so far hold.
pub open spec fn parsed(bytes: Seq<u8>, separator: u8) -> Parsed
    decreases bytes.len(),
{
    if bytes.len() == 0 {
        Parsed::start()
    } else {
        parsed(bytes.drop_last(), separator).byte(bytes.last(), separator)
    }
}

/// The records of a file.
pub open spec fn records_of(bytes: Seq<u8>, separator: u8) -> Seq<Record> {
    parsed(bytes, separator).end().records
}

/// Fields joined by the separator.
pub open spec fn joined(fields: Seq<Seq<u8>>, separator: u8) -> Seq<u8>
    decreases fields.len(),
{
    if fields.len() == 0 {
        Seq::empty()
    } else if fields.len() == 1 {
        fields[0]
    } else {
        joined(fields.drop_last(), separator).push(separator) + fields.last()
    }
}

/// A record as it stood in the file.
pub open spec fn record_bytes(record: Record, separator: u8) -> Seq<u8> {
    joined(record.fields, separator) + record.eol
}

pub open spec fn all_bytes(records: Seq<Record>, separator: u8) -> Seq<u8>
    decreases records.len(),
{
    if records.len() == 0 {
        Seq::empty()
    } else {
        all_bytes(records.drop_last(), separator) + record_bytes(records.last(), separator)
    }
}

impl Pending {
    /// How a cell is written, or `None` where nothing is pending for it.
    pub open spec fn written(self, row: usize, field: usize, separator: u8) -> Option<Seq<u8>> {
        if self.cells.contains_key((row, field)) {
            Some(encode_utf8(encoded(self.cells[(row, field)], separator)))
        } else {
            None
        }
    }

    /// A field of row `row`, edited where an edit is pending.
    pub open spec fn field(self, row: usize, field: usize, raw: Seq<u8>, separator: u8) -> Seq<u8> {
        match self.written(row, field, separator) {
            Some(text) => text,
            None => raw,
        }
    }

    pub open spec fn fields(self, row: usize, raw: Seq<Seq<u8>>, separator: u8) -> Seq<Seq<u8>> {
        Seq::new(raw.len(), |f: int| self.field(row, f as usize, raw[f], separator))
    }

    /// A record is left out.
    pub open spec fn is_left_out(self, header_rows: nat, before: nat) -> bool {
        before >= header_rows && self.struck.contains((before - header_rows) as usize)
    }

    /// How many of the first `n` fields of a row have an edit.
    pub open spec fn edits_under(self, row: usize, n: nat) -> nat
        decreases n,
    {
        if n == 0 {
            0
        } else {
            self.edits_under(row, (n - 1) as nat) + if self.cells.contains_key(
                (row, (n - 1) as usize),
            ) {
                1nat
            } else {
                0nat
            }
        }
    }

    /// A row that the file does not hold: a field for every column, empty where
    /// nothing was typed.
    pub open spec fn new_row(self, id: usize, shape: Shape, separator: u8) -> Seq<u8> {
        joined(
            Seq::new(shape.columns, |f: int| self.field(id, f as usize, Seq::empty(), separator)),
            separator,
        ) + shape.newline
    }

    pub open spec fn new_rows(self, ids: Seq<usize>, shape: Shape, separator: u8) -> Seq<u8>
        decreases ids.len(),
    {
        if ids.len() == 0 {
            Seq::empty()
        } else {
            self.new_rows(ids.drop_last(), shape, separator) + self.new_row(
                ids.last(),
                shape,
                separator,
            )
        }
    }

    pub open spec fn new_edits(self, ids: Seq<usize>, shape: Shape) -> nat
        decreases ids.len(),
    {
        if ids.len() == 0 {
            0
        } else {
            self.new_edits(ids.drop_last(), shape) + self.edits_under(ids.last(), shape.columns)
        }
    }
}

/// What a new row must look like: as many fields as the first line has, and the
/// line ending it has.
#[verifier::ext_equal]
pub struct Shape {
    pub columns: nat,
    pub newline: Seq<u8>,
}

/// The shape learned from the records before the one at hand.
pub open spec fn shape_of(records: Seq<Record>) -> Shape {
    if records.len() > 0 && records[0].eol.len() > 0 {
        Shape { columns: records[0].fields.len(), newline: records[0].eol }
    } else {
        Shape { columns: 0, newline: seq![10u8] }
    }
}

/// What has been written, and how much of what was pending went into it.
#[verifier::ext_equal]
pub struct Written {
    pub bytes: Seq<u8>,
    /// Edits that found their field.
    pub applied: nat,
    /// Struck rows that were left out.
    pub dropped: nat,
    /// Added rows that were put in.
    pub added: nat,
}

impl Written {
    pub open spec fn nothing() -> Written {
        Written { bytes: Seq::empty(), applied: 0, dropped: 0, added: 0 }
    }

    /// The rows added before row `before` are put in.
    pub open spec fn with_added(self, p: Pending, before: usize, shape: Shape, separator: u8) -> Written {
        let ids = p.added_at(before);
        Written {
            bytes: self.bytes + p.new_rows(ids, shape, separator),
            applied: self.applied + p.new_edits(ids, shape),
            added: self.added + ids.len(),
            ..self
        }
    }

    /// A record goes by: the header as it stands, a row with its edits, a
    /// struck row nowhere.
    pub open spec fn with_record(
        self,
        p: Pending,
        header_rows: nat,
        before: Seq<Record>,
        record: Record,
        separator: u8,
    ) -> Written {
        if before.len() < header_rows {
            Written { bytes: self.bytes + record_bytes(record, separator), ..self }
        } else {
            let row = (before.len() - header_rows) as usize;
            let start = self.with_added(p, row, shape_of(before), separator);
            let applied = start.applied + p.edits_under(row, record.fields.len());
            if p.struck.contains(row) {
                Written { applied, dropped: start.dropped + 1, ..start }
            } else {
                Written {
                    bytes: start.bytes + joined(p.fields(row, record.fields, separator), separator)
                        + record.eol,
                    applied,
                    ..start
                }
            }
        }
    }
}

/// What is written for the records of a file, the rows added at its end aside.
pub open spec fn body(p: Pending, header_rows: nat, records: Seq<Record>, separator: u8) -> Written
    decreases records.len(),
{
    if records.len() == 0 {
        Written::nothing()
    } else {
        body(p, header_rows, records.drop_last(), separator).with_record(
            p,
            header_rows,
            records.drop_last(),
            records.last(),
            separator,
        )
    }
}

/// How many of the records are rows of data.
pub open spec fn row_count(header_rows: nat, records: Seq<Record>) -> nat {
    if records.len() < header_rows {
        0
    } else {
        (records.len() - header_rows) as nat
    }
}

/// Everything that is written for a file with these records. Rows added past
/// the last one come at the end, behind a line ending if the record before them
/// stands and lacks one.
pub open spec fn output(p: Pending, header_rows: nat, records: Seq<Record>, separator: u8) -> Written {
    let main = body(p, header_rows, records, separator);
    let rows = row_count(header_rows, records) as usize;
    if p.added_at(rows).len() == 0 {
        main
    } else {
        let shape = shape_of(records);
        let gap = if records.len() > 0 && records.last().eol.len() == 0 && !p.is_left_out(
            header_rows,
            (records.len() - 1) as nat,
        ) {
            shape.newline
        } else {
            Seq::empty()
        };
        (Written { bytes: main.bytes + gap, ..main }).with_added(p, rows, shape, separator)
    }
}

impl Parsed {
    /// Records, fields and a field begun: none comes without a byte of its own.
    pub open spec fn size(self) -> nat {
        self.records.len() + self.fields.len() + if self.field_started {
            1nat
        } else {
            0nat
        }
    }

    /// The field exists, whether or not it will have bytes.
    pub open spec fn begun(self) -> Parsed {
        Parsed { record_started: true, field_started: true, ..self }
    }
}

pub(crate) proof fn lemma_parsed_wf(bytes: Seq<u8>, separator: u8)
    ensures
        parsed(bytes, separator).wf(),
        parsed(bytes, separator).size() <= bytes.len(),
    decreases bytes.len(),
{
    if bytes.len() > 0 {
        lemma_parsed_wf(bytes.drop_last(), separator);
        lemma_byte_wf(parsed(bytes.drop_last(), separator), bytes.last(), separator);
    }
}

proof fn lemma_byte_wf(s: Parsed, b: u8, separator: u8)
    requires
        s.wf(),
    ensures
        s.byte(b, separator).wf(),
        s.byte(b, separator).size() <= s.size() + 1,
{
}

proof fn lemma_joined_push(fields: Seq<Seq<u8>>, last: Seq<u8>, separator: u8)
    ensures
        joined(fields.push(last), separator) == if fields.len() == 0 {
            last
        } else {
            joined(fields, separator).push(separator) + last
        },
{
    assert(fields.push(last).drop_last() =~= fields);
}

/// What stands written of the current record of a row.
spec fn part(p: Pending, row: usize, at: Parsed, separator: u8) -> Seq<u8> {
    if at.field_started {
        joined(p.fields(row, at.fields.push(at.field), separator), separator)
    } else {
        joined(p.fields(row, at.fields, separator), separator).push(separator)
    }
}

/// What stands written of the current record of a header.
pub(crate) open(crate) spec fn raw_part(at: Parsed, separator: u8) -> Seq<u8> {
    if at.field_started {
        joined(at.fields.push(at.field), separator)
    } else {
        joined(at.fields, separator).push(separator)
    }
}

/// What has been written when the bytes read so far are `at`.
#[verifier::opaque]
spec fn partly(p: Pending, header_rows: nat, at: Parsed, separator: u8) -> Written {
    let base = body(p, header_rows, at.records, separator);
    if !at.record_started {
        base
    } else if at.records.len() < header_rows {
        Written { bytes: base.bytes + raw_part(at, separator), ..base }
    } else {
        let row = (at.records.len() - header_rows) as usize;
        let start = base.with_added(p, row, shape_of(at.records), separator);
        let fields = at.fields.len() + if at.field_started {
            1nat
        } else {
            0nat
        };
        let applied = start.applied + p.edits_under(row, fields);
        if p.struck.contains(row) {
            Written { applied, dropped: start.dropped + 1, ..start }
        } else {
            Written { bytes: start.bytes + part(p, row, at, separator), applied, ..start }
        }
    }
}

/// A byte-at-a-time scanner that passes its input straight through,
/// substituting the fields the overlay names.
///
/// It tracks just enough structure to know which field it is standing in:
/// quoted spans, which may contain separators and newlines, doubled quotes,
/// and `\r\n` versus a bare `\r` inside a field. Replacement text is written
/// at the moment the field starts, and the field's original bytes are dropped
/// until it ends.
pub struct Splicer<'a> {
    out: Vec<u8>,
    separator: u8,
    overlay: &'a Overlay,
    /// Records to skip before data row 0: one when the file has a header.
    header_rows: usize,
    /// Records completed so far, the header included.
    record: usize,
    record_started: bool,
    field: usize,
    field_started: bool,
    /// The current field is being replaced, so its own bytes are dropped.
    replacing: bool,
    in_quotes: bool,
    pending_quote: bool,
    pending_cr: bool,
    /// Edits actually placed, checked against the overlay at the end.
    applied: usize,
    /// The record being read is struck out, so none of it is written, its
    /// terminator included, or the file would grow blank lines where rows
    /// used to be.
    dropping: bool,
    dropped: usize,
    added: usize,
    /// Fields a new row must have, so it lines up with the header.
    columns: usize,
    /// The file's own line ending is `\r\n`, so added rows match it.
    crlf: bool,
    at: Ghost<Parsed>,
    read: Ghost<Seq<u8>>,
    sent: Ghost<Seq<u8>>,
}

impl<'a> Splicer<'a> {
    spec fn p(self) -> Pending {
        self.overlay@.pending
    }

    spec fn row(self) -> usize {
        (self.record - self.header_rows) as usize
    }

    spec fn shape(self) -> Shape {
        Shape {
            columns: self.columns as nat,
            newline: if self.crlf { seq![13u8, 10u8] } else { seq![10u8] },
        }
    }

    /// What was fixed when the splicer was made.
    spec fn same_job(self, other: Self) -> bool {
        &&& self.overlay == other.overlay
        &&& self.separator == other.separator
        &&& self.header_rows == other.header_rows
        &&& self.sent == other.sent
        &&& self.read == other.read
    }

    /// The fields agree with the bytes read so far.
    spec fn tracks(self, at: Parsed) -> bool {
        &&& at.wf()
        &&& at.size() <= usize::MAX + 1
        &&& at.fields.len() <= usize::MAX
        &&& self.overlay.wf()
        &&& self.header_rows <= 1
        &&& self.record == at.records.len()
        &&& self.record_started == at.record_started
        &&& self.field_started == at.field_started
        &&& self.in_quotes == at.in_quotes
        &&& self.pending_quote == at.pending_quote
        &&& self.pending_cr == at.pending_cr
        &&& self.record_started ==> self.field == at.fields.len()
        &&& self.dropping == (at.record_started && self.record >= self.header_rows
            && self.p().struck.contains(self.row()))
        &&& self.replacing == (at.field_started && self.record >= self.header_rows
            && self.p().cells.contains_key((self.row(), self.field)))
        &&& self.shape() == shape_of(at.records)
    }

    spec fn wrote(self, w: Written) -> bool {
        &&& self.sent@ + self.out@ == w.bytes
        &&& self.applied == at_most_max(w.applied)
        &&& self.dropped == at_most_max(w.dropped)
        &&& self.added == at_most_max(w.added)
    }

    spec fn inv(self) -> bool {
        &&& self.tracks(self.at@)
        &&& self.wrote(partly(self.p(), self.header_rows as nat, self.at@, self.separator))
    }

    /// The bytes taken in so far, in one piece.
    pub closed spec fn read(self) -> Seq<u8> {
        self.read@
    }

    /// The bytes handed out so far and those still to be taken.
    pub closed spec fn sent(self) -> Seq<u8> {
        self.sent@
    }

    pub closed spec fn waiting(self) -> Seq<u8> {
        self.out@
    }

    pub closed spec fn separator(self) -> u8 {
        self.separator
    }

    pub closed spec fn header_rows(self) -> nat {
        self.header_rows as nat
    }

    pub closed spec fn pending(self) -> Pending {
        self.overlay@.pending
    }

    pub closed spec fn wf(self) -> bool {
        &&& self.inv()
        &&& self.at@ == parsed(self.read@, self.separator)
    }

    pub fn new(separator: u8, has_header: bool, overlay: &'a Overlay) -> (s: Self)
        requires
            overlay.wf(),
        ensures
            s.wf(),
            s.read() == Seq::<u8>::empty(),
            s.sent() == Seq::<u8>::empty(),
            s.separator() == separator,
            s.header_rows() == if has_header { 1nat } else { 0nat },
            s.pending() == overlay@.pending,
    {
        let s = Splicer {
            out: Vec::new(),
            separator,
            overlay,
            header_rows: if has_header { 1 } else { 0 },
            record: 0,
            record_started: false,
            field: 0,
            field_started: false,
            replacing: false,
            in_quotes: false,
            pending_quote: false,
            pending_cr: false,
            applied: 0,
            dropping: false,
            dropped: 0,
            added: 0,
            columns: 0,
            crlf: false,
            at: Ghost(Parsed::start()),
            read: Ghost(Seq::empty()),
            sent: Ghost(Seq::empty()),
        };
        proof {
            reveal(partly);
        }
        assert(s.sent@ + s.out@ =~= Seq::<u8>::empty());
        assert(s.shape() =~= shape_of(Seq::empty()));
        s
    }

    fn write_text(&mut self, text: &str)
        ensures
            *final(self) == (Splicer { out: final(self).out, ..*old(self) }),
            final(self).out@ == old(self).out@ + encode_utf8(text@),
    {
        self.out.extend_from_slice(text.as_bytes());
        assert(self.out@ =~= old(self).out@ + encode_utf8(text@));
    }

    fn write_newline(&mut self)
        ensures
            *final(self) == (Splicer { out: final(self).out, ..*old(self) }),
            final(self).out@ == old(self).out@ + old(self).shape().newline,
    {
        if self.crlf {
            self.out.push(13);
        }
        self.out.push(10);
        assert(self.out@ =~= old(self).out@ + old(self).shape().newline);
    }

    /// One field of a new row, behind the separator unless it is the first.
    fn write_new_field(&mut self, id: usize, field: usize)
        requires
            old(self).overlay.wf(),
        ensures
            *final(self) == (Splicer { out: final(self).out, applied: final(self).applied, ..*old(self) }),
            final(self).out@ == old(self).out@ + (if field > 0 {
                seq![old(self).separator]
            } else {
                Seq::empty()
            }) + old(self).p().field(id, field, Seq::empty(), old(self).separator),
            final(self).applied == if old(self).p().cells.contains_key((id, field)) && old(
                self,
            ).applied < usize::MAX {
                (old(self).applied + 1) as usize
            } else {
                old(self).applied
            },
    {
        if field > 0 {
            self.out.push(self.separator);
        }
        match self.overlay.get((id, field)) {
            Some(value) => {
                let text = encode(value, self.separator);
                self.write_text(text.as_str());
                // Counted like any other cell written, so the tally at the end
                // covers a new row's contents too.
                self.applied = self.applied.saturating_add(1);
            },
            None => {},
        }
        assert(self.out@ =~= old(self).out@ + (if field > 0 {
            seq![old(self).separator]
        } else {
            Seq::empty()
        }) + old(self).p().field(id, field, Seq::empty(), old(self).separator));
    }

    /// Write one new row.
    fn write_new_row(&mut self, id: usize, Ghost(placed): Ghost<nat>)
        requires
            old(self).overlay.wf(),
            old(self).applied == at_most_max(placed),
        ensures
            *final(self) == (Splicer { out: final(self).out, applied: final(self).applied, ..*old(self) }),
            final(self).out@ == old(self).out@ + old(self).p().new_row(
                id,
                old(self).shape(),
                old(self).separator,
            ),
            final(self).applied == at_most_max(
                placed + old(self).p().edits_under(id, old(self).columns as nat),
            ),
    {
        let ghost p = self.p();
        let ghost sep = self.separator;
        let ghost start = self.out@;
        let ghost texts = Seq::new(
            self.columns as nat,
            |f: int| p.field(id, f as usize, Seq::empty(), sep),
        );
        let mut field: usize = 0;
        assert(texts.take(0) =~= Seq::empty());
        assert(start =~= start + joined(texts.take(0), sep));
        while field < self.columns
            invariant
                self.overlay.wf(),
                p == self.p(),
                sep == self.separator,
                *self == (Splicer { out: self.out, applied: self.applied, ..*old(self) }),
                field <= self.columns,
                texts.len() == self.columns,
                forall|f: int| 0 <= f < texts.len() ==> #[trigger] texts[f] == p.field(
                    id,
                    f as usize,
                    Seq::empty(),
                    sep,
                ),
                self.out@ == start + joined(texts.take(field as int), sep),
                self.applied == at_most_max(placed + p.edits_under(id, field as nat)),
            decreases self.columns - field,
        {
            let ghost front = texts.take(field as int);
            let ghost last = texts[field as int];
            proof {
                assert(texts.take(field + 1) =~= front.push(last));
                lemma_joined_push(front, last, sep);
                if field == 0 {
                    assert(joined(front, sep) =~= Seq::empty());
                }
            }
            self.write_new_field(id, field);
            assert(self.out@ =~= start + joined(texts.take(field + 1), sep));
            field += 1;
        }
        assert(texts.take(field as int) =~= texts);
        self.write_newline();
        assert(self.out@ =~= start + p.new_row(id, self.shape(), sep));
    }

    /// Write the rows added before source row `before`, if any.
    ///
    /// A new row is a row of the overlay like any other, so its cells come
    /// from the same place an edit does, and the fields it never had typed
    /// into come out empty.
    fn write_added(&mut self, before: usize, Ghost(w): Ghost<Written>)
        requires
            old(self).overlay.wf(),
            old(self).wrote(w),
        ensures
            *final(self) == (Splicer {
                out: final(self).out,
                applied: final(self).applied,
                added: final(self).added,
                ..*old(self)
            }),
            final(self).wrote(
                w.with_added(old(self).p(), before, old(self).shape(), old(self).separator),
            ),
    {
        let ids = self.overlay.added_at(before);
        let ghost p = self.p();
        let ghost shape = self.shape();
        let ghost sep = self.separator;
        let mut i: usize = 0;
        assert(ids@.take(0) =~= Seq::empty());
        assert(w.bytes + p.new_rows(ids@.take(0), shape, sep) =~= w.bytes);
        while i < ids.len()
            invariant
                i <= ids.len(),
                ids@ == p.added_at(before),
                self.overlay.wf(),
                p == self.p(),
                shape == self.shape(),
                sep == self.separator,
                *self == (Splicer {
                    out: self.out,
                    applied: self.applied,
                    added: self.added,
                    ..*old(self)
                }),
                self.sent@ + self.out@ == w.bytes + p.new_rows(ids@.take(i as int), shape, sep),
                self.applied == at_most_max(w.applied + p.new_edits(ids@.take(i as int), shape)),
                self.added == at_most_max(w.added + i as nat),
            decreases ids.len() - i,
        {
            let ghost so_far = self.out@;
            let ghost upto = ids@.take(i + 1);
            assert(upto.drop_last() =~= ids@.take(i as int));
            self.write_new_row(ids[i], Ghost(w.applied + p.new_edits(ids@.take(i as int), shape)));
            self.added = self.added.saturating_add(1);
            assert(self.sent@ + self.out@ =~= (self.sent@ + so_far) + p.new_row(ids@[i as int], shape, sep));
            assert(self.sent@ + self.out@ =~= w.bytes + p.new_rows(upto, shape, sep));
            i += 1;
        }
        assert(ids@.take(ids@.len() as int) =~= ids@);
    }
}

impl<'a> Splicer<'a> {
    /// Note that a field exists here, and substitute it if the overlay says so.
    ///
    /// Called from the first byte of a field *and* from the separator or
    /// terminator that ends one, so that an empty field, which has no bytes of
    /// its own, is still a place an edit can land.
    fn begin_field(&mut self)
        requires
            old(self).inv(),
            old(self).at@.begun().size() <= usize::MAX + 1,
        ensures
            final(self).inv(),
            final(self).same_job(*old(self)),
            final(self).at@ == old(self).at@.begun(),
    {
        let ghost at = self.at@;
        let ghost p = self.p();
        let ghost h = self.header_rows as nat;
        let ghost sep = self.separator;
        let ghost base = body(p, h, at.records, sep);
        proof {
            reveal(partly);
        }
        if !self.record_started {
            self.record_started = true;
            self.field = 0;
            self.field_started = false;
            if self.record >= self.header_rows {
                // Rows added before this one go in ahead of it.
                self.write_added(self.record - self.header_rows, Ghost(base));
                // Decided once per record: a struck row is written nowhere.
                self.dropping = self.overlay.is_struck(self.record - self.header_rows);
                if self.dropping {
                    self.dropped = self.dropped.saturating_add(1);
                }
            }
        }
        if self.field_started {
            proof {
                self.at@ = at.begun();
                assert(at.begun() =~= at);
            }
            return;
        }
        self.field_started = true;
        self.replacing = false;
        let ghost before = self.sent@ + self.out@;

        if self.record >= self.header_rows {
            match self.overlay.get((self.record - self.header_rows, self.field)) {
                Some(value) => {
                    self.replacing = true;
                    self.applied = self.applied.saturating_add(1);
                    if !self.dropping {
                        let text = encode(value, self.separator);
                        self.write_text(text.as_str());
                    }
                },
                None => {},
            }
        }
        proof {
            self.at@ = at.begun();
            lemma_begin(p, h, at, sep);
            let text = new_text(p, h, at, sep);
            assert(self.sent@ + self.out@ =~= before + text);
        }
    }

    /// A byte of field content: dropped while a replacement stands in for it,
    /// or while a struck row is being read past.
    fn emit(&mut self, b: u8)
        requires
            old(self).inv(),
            old(self).at@.field_started,
        ensures
            final(self).inv(),
            final(self).same_job(*old(self)),
            final(self).at@ == old(self).at@.grow(b),
    {
        let ghost at = self.at@;
        if !self.replacing && !self.dropping {
            self.out.push(b);
        }
        proof {
            let p = self.p();
            let h = self.header_rows as nat;
            let sep = self.separator;
            self.at@ = at.grow(b);
            lemma_grow(p, h, at, b, sep);
            assert(old(self).sent@ + old(self).out@.push(b) =~= (old(self).sent@ + old(self).out@).push(b));
        }
    }

    /// A separator: it ends the field, and is written unless the row is struck.
    fn split(&mut self)
        requires
            old(self).inv(),
            old(self).at@.begun().size() <= usize::MAX,
            !old(self).in_quotes,
            !old(self).pending_cr,
        ensures
            final(self).inv(),
            final(self).same_job(*old(self)),
            final(self).at@ == old(self).at@.split(),
    {
        self.begin_field();
        let ghost at = self.at@;
        let ghost so_far = self.out@;
        self.field += 1;
        self.field_started = false;
        self.replacing = false;
        if !self.dropping {
            self.out.push(self.separator);
        }
        proof {
            let p = self.p();
            let h = self.header_rows as nat;
            let sep = self.separator;
            self.at@ = at.split();
            lemma_split(p, h, at, sep);
            assert(self.sent@ + so_far.push(sep) =~= (self.sent@ + so_far).push(sep));
        }
    }

    /// Every line ending closes a record, blank lines included: an empty line is
    /// read as a row of nulls rather than skipped, and the row numbering here
    /// has to be the one the viewer is showing.
    #[verifier::rlimit(60)]
    fn terminator(&mut self, crlf: bool)
        requires
            old(self).inv(),
            old(self).at@.begun().size() <= usize::MAX,
            !old(self).in_quotes,
            !old(self).pending_cr,
        ensures
            final(self).inv(),
            final(self).same_job(*old(self)),
            final(self).at@ == old(self).at@.close(
                if crlf {
                    seq![13u8, 10u8]
                } else {
                    seq![10u8]
                },
            ),
    {
        self.begin_field();
        let ghost at = self.at@;
        let ghost eol = if crlf { seq![13u8, 10u8] } else { seq![10u8] };
        let ghost so_far = self.out@;
        if self.record == 0 {
            // Learned from the first line: how many fields a row has, and
            // which line ending this file uses, so an added row matches both.
            self.columns = self.field + 1;
            self.crlf = crlf;
        }
        self.field_started = false;
        self.replacing = false;
        self.record += 1;
        self.record_started = false;
        if self.dropping {
            // The terminator goes with the row it ended.
            self.dropping = false;
        } else {
            if crlf {
                self.out.push(13);
            }
            self.out.push(10);
        }
        proof {
            let now = at.close(eol);
            self.at@ = now;
            lemma_close(self.p(), self.header_rows as nat, at, eol, self.separator);
            assert(self.shape() =~= shape_of(now.records)) by {
                if at.records.len() > 0 {
                    assert(now.records[0] == at.records[0]);
                }
            }
            assert(self.sent@ + (so_far + eol) =~= (self.sent@ + so_far) + eol);
            assert(self.out@ =~= so_far || self.out@ =~= so_far + eol);
        }
    }

    /// A byte outside quotes and after no carriage return.
    fn plain(&mut self, b: u8)
        requires
            old(self).inv(),
            old(self).at@.size() < usize::MAX,
            !old(self).in_quotes,
            !old(self).pending_cr,
        ensures
            final(self).inv(),
            final(self).same_job(*old(self)),
            final(self).at@ == old(self).at@.plain(b, old(self).separator),
    {
        proof {
            reveal(partly);
        }
        if b == 10 {
            self.terminator(false);
        } else if b == 13 {
            self.begin_field();
            self.pending_cr = true;
            proof {
                self.at@ = (Parsed { pending_cr: true, ..self.at@ });
            }
        } else if b == self.separator {
            self.split();
        } else if b == 34 && !self.field_started {
            // Only a leading quote opens a quoted field.
            self.begin_field();
            self.emit(b);
            self.in_quotes = true;
            proof {
                self.at@ = (Parsed { in_quotes: true, ..self.at@ });
            }
        } else {
            self.begin_field();
            self.emit(b);
        }
        assert(self.at@ =~= old(self).at@.plain(b, old(self).separator));
    }

    fn step(&mut self, b: u8)
        requires
            old(self).inv(),
            old(self).at@.size() < usize::MAX,
        ensures
            final(self).inv(),
            final(self).same_job(*old(self)),
            final(self).at@ == old(self).at@.byte(b, old(self).separator),
    {
        proof {
            reveal(partly);
        }
        if self.pending_quote {
            self.pending_quote = false;
            proof {
                self.at@ = (Parsed { pending_quote: false, ..self.at@ });
            }
            if b == 34 {
                // A doubled quote: an escaped one still inside the field.
                self.emit(b);
                assert(self.at@ =~= old(self).at@.byte(b, old(self).separator));
                return;
            }
            // The held quote closed the field; `b` is read outside quotes.
            self.in_quotes = false;
            proof {
                self.at@ = (Parsed { in_quotes: false, ..self.at@ });
            }
        }
        if self.in_quotes {
            self.emit(b);
            if b == 34 {
                self.pending_quote = true;
                proof {
                    self.at@ = (Parsed { pending_quote: true, ..self.at@ });
                }
            }
            assert(self.at@ =~= old(self).at@.byte(b, old(self).separator));
            return;
        }
        if self.pending_cr {
            self.pending_cr = false;
            proof {
                self.at@ = (Parsed { pending_cr: false, ..self.at@ });
            }
            if b == 10 {
                self.terminator(true);
                assert(self.at@ =~= old(self).at@.byte(b, old(self).separator));
                return;
            }
            // Not a line ending after all, so the `\r` was field content.
            self.emit(13);
        }
        self.plain(b);
        assert(self.at@ =~= old(self).at@.byte(b, old(self).separator));
    }

    /// Take in one byte.
    pub fn byte(&mut self, b: u8)
        requires
            old(self).wf(),
            old(self).read().len() < usize::MAX,
        ensures
            final(self).wf(),
            final(self).read() == old(self).read().push(b),
            final(self).sent() == old(self).sent(),
            final(self).separator() == old(self).separator(),
            final(self).header_rows() == old(self).header_rows(),
            final(self).pending() == old(self).pending(),
    {
        proof {
            lemma_parsed_wf(self.read@, self.separator);
        }
        self.step(b);
        proof {
            let read = old(self).read@.push(b);
            assert(read.drop_last() =~= old(self).read@);
            self.read@ = read;
        }
    }

    /// Take in a chunk of the file.
    pub fn feed(&mut self, chunk: &[u8])
        requires
            old(self).wf(),
            old(self).read().len() + chunk.len() <= usize::MAX,
        ensures
            final(self).wf(),
            final(self).read() == old(self).read() + chunk@,
            final(self).sent() == old(self).sent(),
            final(self).separator() == old(self).separator(),
            final(self).header_rows() == old(self).header_rows(),
            final(self).pending() == old(self).pending(),
    {
        let mut i: usize = 0;
        assert(self.read() =~= old(self).read() + chunk@.take(0));
        while i < chunk.len()
            invariant
                i <= chunk.len(),
                old(self).read().len() + chunk.len() <= usize::MAX,
                self.wf(),
                self.read() == old(self).read() + chunk@.take(i as int),
                self.sent() == old(self).sent(),
                self.separator() == old(self).separator(),
                self.header_rows() == old(self).header_rows(),
                self.pending() == old(self).pending(),
            decreases chunk.len() - i,
        {
            self.byte(chunk[i]);
            i += 1;
            assert(self.read() =~= old(self).read() + chunk@.take(i as int));
        }
        assert(chunk@.take(i as int) =~= chunk@);
    }

    /// Hand over what has been written since the last time.
    pub fn take(&mut self) -> (bytes: Vec<u8>)
        requires
            old(self).wf(),
        ensures
            final(self).wf(),
            bytes@ == old(self).waiting(),
            final(self).sent() == old(self).sent() + bytes@,
            final(self).waiting() == Seq::<u8>::empty(),
            final(self).read() == old(self).read(),
            final(self).separator() == old(self).separator(),
            final(self).header_rows() == old(self).header_rows(),
            final(self).pending() == old(self).pending(),
    {
        let mut bytes: Vec<u8> = Vec::new();
        bytes.append(&mut self.out);
        proof {
            self.sent@ = self.sent@ + bytes@;
            assert(self.sent@ + self.out@ =~= old(self).sent@ + old(self).out@);
        }
        bytes
    }
}

/// What a field that begins writes at once: its new text, if it has one.
spec fn new_text(p: Pending, h: nat, at: Parsed, sep: u8) -> Seq<u8> {
    let row = (at.records.len() - h) as usize;
    if at.records.len() < h || p.struck.contains(row) {
        Seq::empty()
    } else {
        p.field(row, at.fields.len() as usize, Seq::empty(), sep)
    }
}

/// What has been written when a field is about to begin.
spec fn opened(p: Pending, h: nat, at: Parsed, sep: u8) -> Written {
    let base = body(p, h, at.records, sep);
    let row = (at.records.len() - h) as usize;
    if at.record_started || at.records.len() < h {
        partly(p, h, at, sep)
    } else {
        let start = base.with_added(p, row, shape_of(at.records), sep);
        if p.struck.contains(row) {
            Written { dropped: start.dropped + 1, ..start }
        } else {
            start
        }
    }
}

#[verifier::spinoff_prover]
proof fn lemma_begin(p: Pending, h: nat, at: Parsed, sep: u8)
    requires
        at.wf(),
        !at.field_started,
    ensures
        ({
            let was = opened(p, h, at, sep);
            let now = partly(p, h, at.begun(), sep);
            let row = (at.records.len() - h) as usize;
            &&& now.bytes == was.bytes + new_text(p, h, at, sep)
            &&& now.applied == was.applied + if at.records.len() >= h && p.cells.contains_key(
                (row, at.fields.len() as usize),
            ) {
                1nat
            } else {
                0nat
            }
            &&& now.dropped == was.dropped
            &&& now.added == was.added
        }),
{
    reveal(partly);
    let was = opened(p, h, at, sep);
    let now = partly(p, h, at.begun(), sep);
    let row = (at.records.len() - h) as usize;
    assert(at.field =~= Seq::empty());
    lemma_joined_push(at.fields, at.field, sep);
    let last = p.field(row, at.fields.len() as usize, at.field, sep);
    let front = p.fields(row, at.fields, sep);
    assert(p.fields(row, at.fields.push(at.field), sep) =~= front.push(last));
    lemma_joined_push(front, last, sep);
    let n = at.fields.len();
    assert(p.edits_under(row, n + 1) == p.edits_under(row, n) + if p.cells.contains_key((row, n as usize)) {
        1nat
    } else {
        0nat
    });
    if at.records.len() < h {
        if at.record_started {
            assert(joined(at.fields, sep).push(sep) + at.field =~= joined(at.fields, sep).push(sep));
        }
        assert(now.bytes =~= was.bytes + new_text(p, h, at, sep));
    } else if p.struck.contains(row) {
        assert(now.bytes =~= was.bytes + new_text(p, h, at, sep));
    } else {
        let start = body(p, h, at.records, sep).with_added(p, row, shape_of(at.records), sep);
        if at.record_started {
            assert(was.bytes == start.bytes + joined(front, sep).push(sep));
            assert(now.bytes == start.bytes + (joined(front, sep).push(sep) + last));
        } else {
            assert(now.bytes == start.bytes + last);
        }
        assert(now.bytes =~= was.bytes + new_text(p, h, at, sep));
    }
}

proof fn lemma_grow(p: Pending, h: nat, at: Parsed, b: u8, sep: u8)
    requires
        at.wf(),
        at.field_started,
    ensures
        ({
            let was = partly(p, h, at, sep);
            let now = partly(p, h, at.grow(b), sep);
            let row = (at.records.len() - h) as usize;
            let silent = at.records.len() >= h && (p.struck.contains(row) || p.cells.contains_key(
                (row, at.fields.len() as usize),
            ));
            now == if silent {
                was
            } else {
                Written { bytes: was.bytes.push(b), ..was }
            }
        }),
{
    reveal(partly);
    let was = partly(p, h, at, sep);
    let next = at.grow(b);
    let now = partly(p, h, next, sep);
    let row = (at.records.len() - h) as usize;
    let k = at.fields.len() as usize;
    let front = p.fields(row, at.fields, sep);
    assert(p.fields(row, at.fields.push(at.field), sep) =~= front.push(p.field(row, k, at.field, sep)));
    assert(p.fields(row, at.fields.push(next.field), sep) =~= front.push(
        p.field(row, k, next.field, sep),
    ));
    lemma_joined_push(front, p.field(row, k, at.field, sep), sep);
    lemma_joined_push(front, p.field(row, k, next.field, sep), sep);
    lemma_joined_push(at.fields, at.field, sep);
    lemma_joined_push(at.fields, next.field, sep);
    if at.records.len() < h {
        assert(raw_part(next, sep) =~= raw_part(at, sep).push(b));
        assert(now.bytes =~= was.bytes.push(b));
    } else if !p.struck.contains(row) {
        if p.cells.contains_key((row, k)) {
            assert(part(p, row, next, sep) =~= part(p, row, at, sep));
        } else {
            assert(part(p, row, next, sep) =~= part(p, row, at, sep).push(b));
            assert(now.bytes =~= was.bytes.push(b));
        }
    }
}

proof fn lemma_split(p: Pending, h: nat, at: Parsed, sep: u8)
    requires
        at.wf(),
        at.field_started,
    ensures
        ({
            let was = partly(p, h, at, sep);
            let now = partly(p, h, at.split(), sep);
            let row = (at.records.len() - h) as usize;
            now == if at.records.len() >= h && p.struck.contains(row) {
                was
            } else {
                Written { bytes: was.bytes.push(sep), ..was }
            }
        }),
{
    reveal(partly);
    let was = partly(p, h, at, sep);
    let now = partly(p, h, at.split(), sep);
    let row = (at.records.len() - h) as usize;
    if at.records.len() < h {
        assert(now.bytes =~= was.bytes.push(sep));
    } else if !p.struck.contains(row) {
        assert(now.bytes =~= was.bytes.push(sep));
    }
}

/// A record that ends is written as a whole.
proof fn lemma_close(p: Pending, h: nat, at: Parsed, eol: Seq<u8>, sep: u8)
    requires
        at.wf(),
        at.field_started,
    ensures
        ({
            let now = partly(p, h, at.close(eol), sep);
            let was = partly(p, h, at, sep);
            let row = (at.records.len() - h) as usize;
            &&& now.applied == was.applied
            &&& now.dropped == was.dropped
            &&& now.added == was.added
            &&& now.bytes =~= if at.records.len() >= h && p.struck.contains(row) {
                was.bytes
            } else {
                was.bytes + eol
            }
        }),
{
    reveal(partly);
    let closed = at.close(eol);
    assert(closed.records.drop_last() =~= at.records);
}

/// Why a write was refused. Each means that the file is not read here the way
/// the viewer reads it, and guessing at that point would corrupt data.
#[derive(Clone, Copy, Debug, PartialEq, Eq, Structural)]
pub enum SpliceError {
    /// The file holds another number of rows than the view has.
    Rows { rows: usize, expected: usize },
    /// Edits that name a field their record does not have.
    Edits { missing: usize, total: usize },
    /// Added rows with no row to go in before.
    Added { missing: usize, total: usize },
    /// Deleted rows that the file does not hold.
    Deleted { missing: usize, total: usize },
}

/// Records seen, edits placed, rows dropped and rows added.
#[derive(Clone, Copy, Debug, PartialEq, Eq, Structural)]
pub struct Tally {
    pub rows: usize,
    pub applied: usize,
    pub dropped: usize,
    pub added: usize,
}

/// `a - b`, and nothing under zero.
pub open spec fn short(a: usize, b: usize) -> usize {
    if a < b {
        0
    } else {
        (a - b) as usize
    }
}

/// What a write comes to once all of the file has gone by.
pub open spec fn verdict(p: Pending, tally: Tally, expected_rows: usize) -> Result<(), SpliceError> {
    let cells = at_most_max(p.cells.dom().len());
    let added = at_most_max(p.added_count());
    let struck = p.struck.len() as usize;
    if tally.rows != expected_rows {
        Err(SpliceError::Rows { rows: tally.rows, expected: expected_rows })
    } else if tally.applied != cells {
        Err(SpliceError::Edits { missing: short(cells, tally.applied), total: cells })
    } else if tally.added != added {
        Err(SpliceError::Added { missing: short(added, tally.added), total: added })
    } else if tally.dropped != struck {
        Err(SpliceError::Deleted { missing: short(struck, tally.dropped), total: struck })
    } else {
        Ok(())
    }
}

pub open spec fn tally_of(header_rows: nat, records: Seq<Record>, w: Written) -> Tally {
    Tally {
        rows: row_count(header_rows, records) as usize,
        applied: at_most_max(w.applied),
        dropped: at_most_max(w.dropped),
        added: at_most_max(w.added),
    }
}

impl Tally {
    /// Whether everything pending found its place.
    pub fn check(&self, overlay: &Overlay, expected_rows: usize) -> (r: Result<(), SpliceError>)
        requires
            overlay.wf(),
        ensures
            r == verdict(overlay@.pending, *self, expected_rows),
    {
        if self.rows != expected_rows {
            return Err(SpliceError::Rows { rows: self.rows, expected: expected_rows });
        }
        let cells: usize = overlay.len();
        if self.applied != cells {
            return Err(SpliceError::Edits { missing: cells.saturating_sub(self.applied), total: cells });
        }
        let added: usize = overlay.added_count();
        if self.added != added {
            return Err(SpliceError::Added { missing: added.saturating_sub(self.added), total: added });
        }
        let struck: usize = overlay.struck_count();
        if self.dropped != struck {
            return Err(
                SpliceError::Deleted { missing: struck.saturating_sub(self.dropped), total: struck },
            );
        }
        Ok(())
    }
}

proof fn lemma_flags(p: Pending, h: nat, a: Parsed, b: Parsed, sep: u8)
    requires
        a.records == b.records,
        a.fields == b.fields,
        a.field == b.field,
        a.record_started == b.record_started,
        a.field_started == b.field_started,
    ensures
        partly(p, h, a, sep) == partly(p, h, b, sep),
{
    reveal(partly);
}

proof fn lemma_between_records(p: Pending, h: nat, at: Parsed, sep: u8)
    requires
        !at.record_started,
    ensures
        partly(p, h, at, sep) == body(p, h, at.records, sep),
{
    reveal(partly);
}

impl<'a> Splicer<'a> {
    /// A file whose last line has no terminator still ends a record. Returns
    /// whether it was so.
    fn end_record(&mut self) -> (unterminated: bool)
        requires
            old(self).wf(),
            old(self).read().len() <= usize::MAX,
        ensures
            ({
                let records = records_of(old(self).read@, old(self).separator);
                &&& final(self).same_job(*old(self))
                &&& final(self).wrote(
                    body(old(self).p(), old(self).header_rows as nat, records, old(self).separator),
                )
                &&& final(self).shape() == shape_of(records)
                &&& final(self).record == records.len()
                &&& unterminated == (records.len() > 0 && records.last().eol.len() == 0)
            }),
    {
        let ghost p = self.p();
        let ghost h = self.header_rows as nat;
        let ghost sep = self.separator;
        let ghost records = records_of(self.read@, sep);
        proof {
            lemma_parsed_wf(self.read@, sep);
            lemma_closed_records(self.read@, sep);
        }
        if self.pending_cr {
            self.pending_cr = false;
            proof {
                let next = Parsed { pending_cr: false, ..self.at@ };
                lemma_flags(p, h, self.at@, next, sep);
                self.at@ = next;
            }
            self.emit(13);
        }
        let unterminated = self.record_started;
        if unterminated {
            self.begin_field();
            let ghost at = self.at@;
            self.record += 1;
            proof {
                let end = at.close(Seq::empty());
                assert(records == end.records);
                lemma_close(p, h, at, Seq::empty(), sep);
                lemma_between_records(p, h, end, sep);
                let was = partly(p, h, at, sep);
                assert(was.bytes + Seq::<u8>::empty() =~= was.bytes);
                assert(shape_of(records) =~= shape_of(at.records)) by {
                    if at.records.len() > 0 {
                        assert(records[0] == at.records[0]);
                    }
                }
            }
        } else {
            proof {
                lemma_between_records(p, h, self.at@, sep);
            }
        }
        unterminated
    }

    /// No more bytes: ends the last record and puts in what was added after it.
    /// What is returned completes the output.
    pub fn finish(self) -> (done: (Vec<u8>, Tally))
        requires
            self.wf(),
            self.read().len() <= usize::MAX,
        ensures
            ({
                let records = records_of(self.read(), self.separator());
                let w = output(self.pending(), self.header_rows(), records, self.separator());
                &&& self.sent() + done.0@ == w.bytes
                &&& done.1 == tally_of(self.header_rows(), records, w)
            }),
    {
        let mut now = self;
        let unterminated = now.end_record();
        let ghost records = records_of(now.read@, now.separator);
        let ghost main = body(now.p(), now.header_rows as nat, records, now.separator);
        // Rows added after the last one in the file.
        let rows: usize = now.record.saturating_sub(now.header_rows);
        let ids = now.overlay.added_at(rows);
        if ids.len() > 0 {
            // A record that was left out has no line for them to go behind.
            let open = unterminated && !(rows > 0 && now.overlay.is_struck(rows - 1));
            let ghost gap = if open { shape_of(records).newline } else { Seq::empty() };
            let ghost so_far = now.out@;
            if open {
                now.write_newline();
            }
            assert(now.sent@ + now.out@ =~= (now.sent@ + so_far) + gap);
            now.write_added(rows, Ghost(Written { bytes: main.bytes + gap, ..main }));
        }
        let tally = Tally { rows, applied: now.applied, dropped: now.dropped, added: now.added };
        (now.out, tally)
    }
}

/// Every record but one that the end of the file closed has a line ending.
proof fn lemma_closed_records(bytes: Seq<u8>, separator: u8)
    ensures
        forall|r: int|
            0 <= r < parsed(bytes, separator).records.len() ==> (#[trigger] parsed(
                bytes,
                separator,
            ).records[r]).eol.len() > 0,
    decreases bytes.len(),
{
    if bytes.len() > 0 {
        lemma_closed_records(bytes.drop_last(), separator);
        let was = parsed(bytes.drop_last(), separator);
        let now = parsed(bytes, separator);
        assert forall|r: int| 0 <= r < now.records.len() implies (#[trigger] now.records[r]).eol.len()
            > 0 by {
            if r < was.records.len() {
                assert(now.records[r] == was.records[r]);
            }
        }
    }
}

/// Copy `src`, replacing the fields named by `overlay`, leaving out the rows it
/// strikes and putting in those it adds.
///
/// Fails if the record count disagrees with `expected_rows`, or if something
/// pending finds no place.
pub fn splice(
    src: &[u8],
    separator: u8,
    has_header: bool,
    overlay: &Overlay,
    expected_rows: usize,
) -> (r: Result<Vec<u8>, SpliceError>)
    requires
        overlay.wf(),
    ensures
        ({
            let h = if has_header { 1nat } else { 0nat };
            let records = records_of(src@, separator);
            let w = output(overlay@.pending, h, records, separator);
            match verdict(overlay@.pending, tally_of(h, records, w), expected_rows) {
                Ok(_) => r is Ok && r->Ok_0@ == w.bytes,
                Err(e) => r == Err::<Vec<u8>, SpliceError>(e),
            }
        }),
{
    let mut splicer = Splicer::new(separator, has_header, overlay);
    splicer.feed(src);
    assert(splicer.read() =~= src@);
    assert(src.len() == src@.len());
    let (out, tally) = splicer.finish();
    assert(Seq::<u8>::empty() + out@ =~= out@);
    match tally.check(overlay, expected_rows) {
        Ok(_) => Ok(out),
        Err(e) => Err(e),
    }
}

/// The bytes read so far, put together again.
pub(crate) open(crate) spec fn so_far(at: Parsed, separator: u8) -> Seq<u8> {
    all_bytes(at.records, separator) + (if at.record_started {
        raw_part(at, separator)
    } else {
        Seq::empty()
    }) + (if at.pending_cr {
        seq![13u8]
    } else {
        Seq::empty()
    })
}

proof fn lemma_so_far_plain(s: Parsed, b: u8, separator: u8)
    requires
        s.wf(),
        !s.in_quotes,
        !s.pending_cr,
    ensures
        so_far(s.plain(b, separator), separator) =~= so_far(s, separator).push(b),
{
    lemma_joined_push(s.fields, s.field, separator);
    lemma_joined_push(s.fields, s.field.push(b), separator);
    let next = s.plain(b, separator);
    if !s.field_started {
        assert(s.field =~= Seq::empty());
    }
    if b == 10 {
        assert(next.records.drop_last() =~= s.records);
    } else if b == 13 {
    } else if b == separator {
        assert(next.fields =~= s.fields.push(s.field));
    }
}

pub(crate) proof fn lemma_so_far(bytes: Seq<u8>, separator: u8)
    ensures
        so_far(parsed(bytes, separator), separator) == bytes,
    decreases bytes.len(),
{
    if bytes.len() > 0 {
        let front = bytes.drop_last();
        let b = bytes.last();
        let s = parsed(front, separator);
        lemma_so_far(front, separator);
        lemma_parsed_wf(front, separator);
        lemma_joined_push(s.fields, s.field, separator);
        if s.pending_quote && b != 34 {
            lemma_so_far_plain(Parsed { pending_quote: false, in_quotes: false, ..s }, b, separator);
        } else if s.pending_quote || s.in_quotes {
            lemma_joined_push(s.fields, s.field.push(b), separator);
            assert(so_far(s.byte(b, separator), separator) =~= so_far(s, separator).push(b));
        } else if s.pending_cr && b == 10 {
            let next = s.byte(b, separator);
            assert(next.records.drop_last() =~= s.records);
            assert(so_far(next, separator) =~= so_far(s, separator).push(b));
        } else if s.pending_cr {
            let mid = Parsed { pending_cr: false, ..s.grow(13) };
            lemma_joined_push(s.fields, s.field.push(13), separator);
            assert(so_far(mid, separator) =~= so_far(s, separator));
            lemma_so_far_plain(mid, b, separator);
        } else {
            lemma_so_far_plain(s, b, separator);
        }
        assert(bytes =~= front.push(b));
    } else {
        assert(so_far(Parsed::start(), separator) =~= bytes);
    }
}

/// Taking a file apart loses nothing: its records, put together again, are its
/// bytes.
pub proof fn records_hold_every_byte(bytes: Seq<u8>, separator: u8)
    ensures
        all_bytes(records_of(bytes, separator), separator) == bytes,
{
    let s = parsed(bytes, separator);
    lemma_so_far(bytes, separator);
    lemma_parsed_wf(bytes, separator);
    let last = if s.pending_cr {
        Parsed { pending_cr: false, ..s.grow(13) }
    } else {
        s
    };
    lemma_joined_push(s.fields, s.field, separator);
    lemma_joined_push(s.fields, s.field.push(13), separator);
    assert(so_far(last, separator) =~= so_far(s, separator));
    if last.record_started {
        let end = last.close(Seq::empty());
        assert(end.records.drop_last() =~= last.records);
        lemma_joined_push(last.fields, last.field, separator);
        if !last.field_started {
            assert(last.field =~= Seq::empty());
        }
        assert(all_bytes(end.records, separator) =~= so_far(last, separator));
    } else {
        assert(all_bytes(last.records, separator) =~= so_far(last, separator));
    }
}

proof fn lemma_body_of_nothing(header_rows: nat, records: Seq<Record>, separator: u8)
    ensures
        body(Pending::empty(), header_rows, records, separator) == (Written {
            bytes: all_bytes(records, separator),
            ..Written::nothing()
        }),
    decreases records.len(),
{
    let p = Pending::empty();
    if records.len() > 0 {
        let front = records.drop_last();
        lemma_body_of_nothing(header_rows, front, separator);
        let last = records.last();
        if front.len() >= header_rows {
            let row = (front.len() - header_rows) as usize;
            assert(p.fields(row, last.fields, separator) =~= last.fields);
            lemma_no_edits(p, row, last.fields.len());
        }
        assert(body(p, header_rows, records, separator) =~= (Written {
            bytes: all_bytes(records, separator),
            ..Written::nothing()
        }));
    }
}

/// With nothing pending no edit is applied, no row dropped and none added.
pub(crate) proof fn lemma_nothing_else(
    header_rows: nat,
    records: Seq<Record>,
    separator: u8,
)
    ensures
        ({
            let w = output(Pending::empty(), header_rows, records, separator);
            w.applied == 0 && w.dropped == 0 && w.added == 0
        }),
{
    lemma_body_of_nothing(header_rows, records, separator);
}

proof fn lemma_no_edits(p: Pending, row: usize, n: nat)
    requires
        forall|field: usize| !p.cells.contains_key((row, field)),
    ensures
        p.edits_under(row, n) == 0,
    decreases n,
{
    if n > 0 {
        lemma_no_edits(p, row, (n - 1) as nat);
    }
}

/// With nothing pending a file is copied byte for byte, whatever it holds:
/// quoting, line endings, a missing final newline, stray carriage returns.
pub proof fn nothing_pending_copies_the_file(bytes: Seq<u8>, has_header: bool, separator: u8)
    ensures
        ({
            let h = if has_header { 1nat } else { 0nat };
            output(Pending::empty(), h, records_of(bytes, separator), separator).bytes == bytes
        }),
{
    let h = if has_header { 1nat } else { 0nat };
    records_hold_every_byte(bytes, separator);
    lemma_body_of_nothing(h, records_of(bytes, separator), separator);
}

impl SpliceError {
    /// The refusal in words.
    pub open spec fn text(self) -> Seq<char> {
        match self {
            SpliceError::Rows { rows, expected } => "refusing to write: the file holds "@
                + decimal_text(rows as nat) + " data rows but the view has "@ + decimal_text(
                expected as nat,
            ) + " \u{2014} it may have changed on disk"@,
            SpliceError::Edits { missing, total } => "refusing to write: "@ + decimal_text(
                missing as nat,
            ) + " of "@ + decimal_text(total as nat)
                + " edits had no field to land in (a row with fewer fields than the header)"@,
            SpliceError::Added { missing, total } => "refusing to write: "@ + decimal_text(
                missing as nat,
            ) + " of "@ + decimal_text(total as nat) + " added rows had nowhere to go"@,
            SpliceError::Deleted { missing, total } => "refusing to write: "@ + decimal_text(
                missing as nat,
            ) + " of "@ + decimal_text(total as nat) + " deleted rows were not found"@,
        }
    }

    pub fn message(&self) -> (out: String)
        ensures
            out@ == self.text(),
    {
        let (lead, a, mid, b, tail) = match *self {
            SpliceError::Rows { rows, expected } => (
                "refusing to write: the file holds ",
                rows,
                " data rows but the view has ",
                expected,
                " \u{2014} it may have changed on disk",
            ),
            SpliceError::Edits { missing, total } => (
                "refusing to write: ",
                missing,
                " of ",
                total,
                " edits had no field to land in (a row with fewer fields than the header)",
            ),
            SpliceError::Added { missing, total } => (
                "refusing to write: ",
                missing,
                " of ",
                total,
                " added rows had nowhere to go",
            ),
            SpliceError::Deleted { missing, total } => (
                "refusing to write: ",
                missing,
                " of ",
                total,
                " deleted rows were not found",
            ),
        };
        let mut out = lead.to_owned();
        text::push_str(&mut out, text::decimal(a).as_str());
        text::push_str(&mut out, mid);
        text::push_str(&mut out, text::decimal(b).as_str());
        text::push_str(&mut out, tail);
        out
    }
}

} // verus!
