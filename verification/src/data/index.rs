//! Where each row starts, so a page does not have to be counted up to.
//!
//! A text file has nowhere to seek to: a page at row *n* has to parse *n* rows
//! first. The file is read whole once anyway, to count its rows, so that pass
//! produces a sparse map as well: the byte offset of every [`STRIDE`]-th row. A
//! page seeks to the nearest checkpoint and parses forward a bounded number of
//! rows instead of all of them.
//!
//! The scan is quote-aware, because a newline inside a quoted field is not the
//! end of a record. It counts records the way the writer does, a blank line
//! being a record.
use vstd::prelude::*;
use crate::data::edit::{nothing_pending_counts_zero, Pending};
use crate::data::writer;

verus! {

/// Rows between checkpoints.
pub const STRIDE: usize = 65536;

/// How a file's records are told apart.
#[derive(Clone, Copy, Debug, PartialEq, Eq, Structural)]
pub struct Style {
    pub separator: u8,
    /// A field may open with a quote and then hold newlines.
    pub quotes: bool,
    /// The first record names the columns.
    pub header: bool,
}

/// What the bytes read so far leave the scan in.
#[verifier::ext_equal]
pub struct Lexed {
    pub in_quotes: bool,
    pub pending_quote: bool,
    pub at_field_start: bool,
}

impl Lexed {
    pub open spec fn start() -> Lexed {
        Lexed { in_quotes: false, pending_quote: false, at_field_start: true }
    }

    /// Whether the byte stands inside a quoted field.
    pub open spec fn inside(self, b: u8) -> bool {
        if self.pending_quote {
            b == 34
        } else {
            self.in_quotes
        }
    }

    /// Whether the byte ends a record.
    pub open spec fn ends(self, b: u8) -> bool {
        b == 10 && !self.inside(b)
    }

    pub open spec fn byte(self, b: u8, style: Style) -> Lexed {
        if self.inside(b) {
            Lexed { pending_quote: !self.pending_quote && b == 34, ..self }
        } else if b == 10 {
            Lexed::start()
        } else if style.quotes && b == 34 && self.at_field_start {
            Lexed { in_quotes: true, pending_quote: false, at_field_start: false }
        } else {
            Lexed { in_quotes: false, pending_quote: false, at_field_start: b == style.separator }
        }
    }
}

pub open spec fn lexed(bytes: Seq<u8>, style: Style) -> Lexed
    decreases bytes.len(),
{
    if bytes.len() == 0 {
        Lexed::start()
    } else {
        lexed(bytes.drop_last(), style).byte(bytes.last(), style)
    }
}

/// The offsets just past each line ending that closes a record.
pub open spec fn record_ends(bytes: Seq<u8>, style: Style) -> Seq<nat>
    decreases bytes.len(),
{
    if bytes.len() == 0 {
        Seq::empty()
    } else {
        let before = record_ends(bytes.drop_last(), style);
        if lexed(bytes.drop_last(), style).ends(bytes.last()) {
            before.push(bytes.len())
        } else {
            before
        }
    }
}

/// Where data rows begin, and where one more would.
pub open spec fn row_starts(bytes: Seq<u8>, style: Style) -> Seq<nat> {
    if style.header {
        record_ends(bytes, style)
    } else {
        seq![0nat] + record_ends(bytes, style)
    }
}

/// Data rows in a file. A last line without a terminator is still a row.
pub open spec fn rows_in(bytes: Seq<u8>, style: Style) -> nat {
    let starts = row_starts(bytes, style);
    if starts.len() == 0 {
        0
    } else if starts.last() < bytes.len() {
        starts.len()
    } else {
        (starts.len() - 1) as nat
    }
}

/// A line without the characters that end it.
pub open spec fn trimmed(line: Seq<u8>) -> Seq<u8>
    decreases line.len(),
{
    if line.len() > 0 && (line.last() == 10 || line.last() == 13) {
        trimmed(line.drop_last())
    } else {
        line
    }
}

/// The header line without its terminator.
pub open spec fn header_of(bytes: Seq<u8>, style: Style) -> Seq<u8> {
    if !style.header {
        Seq::empty()
    } else if record_ends(bytes, style).len() == 0 {
        bytes
    } else {
        trimmed(bytes.take(record_ends(bytes, style)[0] as int))
    }
}

proof fn lemma_ends_bound(bytes: Seq<u8>, style: Style)
    ensures
        record_ends(bytes, style).len() <= bytes.len(),
        record_ends(bytes, style).len() > 0 ==> record_ends(bytes, style).len() <= record_ends(
            bytes,
            style,
        ).last(),
        forall|i: int|
            0 <= i < record_ends(bytes, style).len() ==> 0 < #[trigger] record_ends(bytes, style)[i]
                <= bytes.len(),
        forall|i: int, j: int|
            0 <= i < j < record_ends(bytes, style).len() ==> record_ends(bytes, style)[i] < record_ends(
                bytes,
                style,
            )[j],
    decreases bytes.len(),
{
    if bytes.len() > 0 {
        lemma_ends_bound(bytes.drop_last(), style);
    }
}

/// A sparse map from row number to byte offset.
#[derive(Debug)]
pub struct RowIndex {
    /// `checkpoints[k]` is where data row `k * STRIDE` begins.
    checkpoints: Vec<u64>,
    rows: usize,
    /// The header line, kept so a page read out of the middle of the file
    /// still arrives with its column names attached.
    header: Vec<u8>,
    has_header: bool,
    /// Length of the file the scan saw.
    len: u64,
}

/// A chunk holds rows, begins at a checkpoint, and ends where the next begins.
pub open spec fn chunk_stands(chunks: Seq<(usize, usize)>, i: int) -> bool {
    &&& chunks[i].0 < chunks[i].1
    &&& chunks[i].0 % STRIDE == 0
    &&& i + 1 < chunks.len() ==> chunks[i].1 == chunks[i + 1].0
}

/// The chunks, one behind the other, are all the rows up to and without `rows`,
/// and every row stands in one of them.
pub open spec fn covers_rows(chunks: Seq<(usize, usize)>, rows: nat) -> bool {
    &&& chunks.len() == 0 <==> rows == 0
    &&& chunks.len() > 0 ==> chunks[0].0 == 0 && chunks.last().1 == rows
    &&& forall|i: int| 0 <= i < chunks.len() ==> #[trigger] chunk_stands(chunks, i)
}

/// The checkpoints of a file: the starts of every [`STRIDE`]-th row, or the end
/// of a file that holds no row's start.
pub open spec fn checkpoints_of(starts: Seq<nat>, len: nat) -> Seq<nat> {
    if starts.len() == 0 {
        seq![len]
    } else {
        Seq::new(((starts.len() - 1) / STRIDE as int + 1) as nat, |k: int| starts[k * STRIDE])
    }
}

impl RowIndex {
    pub closed spec fn points(self) -> Seq<nat> {
        self.checkpoints@.map_values(|at: u64| at as nat)
    }

    pub closed spec fn row_total(self) -> nat {
        self.rows as nat
    }

    pub closed spec fn header_line(self) -> Seq<u8> {
        self.header@
    }

    pub closed spec fn names_columns(self) -> bool {
        self.has_header
    }

    pub closed spec fn file_len(self) -> nat {
        self.len as nat
    }

    /// There is a first checkpoint, the checkpoints ascend and lie inside the
    /// file, and the last one is where a row begins or the file ends.
    pub closed spec fn wf(self) -> bool {
        &&& self.checkpoints@.len() > 0
        &&& (self.checkpoints@.len() - 1) * STRIDE <= self.rows
        &&& self.rows < self.checkpoints@.len() * STRIDE + 1
        &&& forall|i: int, j: int|
            0 <= i <= j < self.checkpoints@.len() ==> self.checkpoints@[i] <= self.checkpoints@[j]
        &&& forall|i: int| 0 <= i < self.checkpoints@.len() ==> #[trigger] self.checkpoints@[i] <= self.len
    }

    /// The index describes these bytes.
    pub open spec fn describes(self, bytes: Seq<u8>, style: Style) -> bool {
        &&& self.points() == checkpoints_of(row_starts(bytes, style), bytes.len())
        &&& self.row_total() == rows_in(bytes, style)
        &&& self.header_line() == header_of(bytes, style)
        &&& self.names_columns() == style.header
        &&& self.file_len() == bytes.len()
    }

    /// Data rows in the file, the header excluded.
    pub fn rows(&self) -> (n: usize)
        ensures
            n == self.row_total(),
    {
        self.rows
    }

    pub fn header(&self) -> (line: &[u8])
        ensures
            line@ == self.header_line(),
    {
        self.header.as_slice()
    }

    /// The last checkpoint at or before `row`, as `(row number, byte offset)`.
    pub fn seek(&self, row: usize) -> (found: (usize, u64))
        requires
            self.wf(),
        ensures
            ({
                let last = self.points().len() - 1;
                let k = if row / STRIDE < last { (row / STRIDE) as int } else { last };
                found.0 == k * STRIDE && found.1 == self.points()[k]
            }),
            found.0 <= row,
    {
        let last: usize = self.checkpoints.len() - 1;
        let k: usize = if row / STRIDE < last { row / STRIDE } else { last };
        assert(k * STRIDE <= row) by (nonlinear_arith)
            requires
                k <= row / STRIDE,
                STRIDE == 65536,
        ;
        (k * STRIDE, self.checkpoints[k])
    }

    /// Where to stop reading for a page ending just before `row`: the first
    /// checkpoint at or after it, or the end of the file.
    pub fn end_of(&self, row: usize) -> (to: u64)
        requires
            self.wf(),
        ensures
            ({
                let k = (row as int + STRIDE - 1) / STRIDE as int;
                to == if k < self.points().len() { self.points()[k] } else { self.file_len() }
            }),
    {
        let k: usize = row / STRIDE + (if row % STRIDE == 0 { 0usize } else { 1usize });
        assert(k == (row as int + STRIDE - 1) / STRIDE as int);
        if k < self.checkpoints.len() {
            self.checkpoints[k]
        } else {
            self.len
        }
    }

    /// A chunk of rows from a checkpoint row on ends where it reads no more than
    /// `budget` bytes.
    pub open spec fn ends_chunk(self, start: usize, budget: u64, end: usize) -> bool {
        let last = self.points().len() - 1;
        let s = if start / STRIDE < last { (start / STRIDE) as int } else { last };
        let from = self.points()[s];
        &&& end <= self.row_total()
        &&& end == self.row_total() || exists|k: int|
            s < k <= last && end == k * STRIDE && (k == s + 1 || #[trigger] self.points()[k] - from
                <= budget) && (k < last ==> self.points()[k + 1] - from > budget) && (k == last
                ==> self.file_len() - from > budget)
        &&& end == self.row_total() ==> last == s || self.file_len() - from <= budget || (end == last
            * STRIDE && (last == s + 1 || self.points()[last] - from <= budget))
    }

    /// Where a chunk of rows starting at checkpoint row `start` ends if it is
    /// to read no more than `budget` bytes: the last checkpoint row that keeps
    /// to it, the next one if none does, or the end of the file.
    pub fn chunk_end(&self, start: usize, budget: u64) -> (end: usize)
        requires
            self.wf(),
        ensures
            self.ends_chunk(start, budget, end),
    {
        let last: usize = self.checkpoints.len() - 1;
        let s: usize = if start / STRIDE < last { start / STRIDE } else { last };
        let from: u64 = self.checkpoints[s];
        if s == last || self.len - from <= budget {
            return self.rows;
        }
        let mut k: usize = s + 1;
        while k < last && self.checkpoints[k + 1] - from <= budget
            invariant
                self.wf(),
                s < k <= last,
                last == self.checkpoints@.len() - 1,
                from == self.checkpoints@[s as int],
                k == s + 1 || self.checkpoints@[k as int] - from <= budget,
            decreases last - k,
        {
            k += 1;
        }
        proof {
            assert(k * STRIDE <= last * STRIDE) by (nonlinear_arith)
                requires
                    k <= last,
                    STRIDE == 65536,
            ;
            assert(self.points()[k as int] == self.checkpoints@[k as int]);
        }
        k * STRIDE
    }

    /// The chunks that a scan of the whole file reads, none of more than
    /// `budget` bytes unless a stride of rows is. Sized by what is read and not
    /// by a row count: a chunk of n rows is a few megabytes in one file and
    /// gigabytes in another.
    pub fn chunks(&self, budget: u64) -> (out: Vec<(usize, usize)>)
        requires
            self.wf(),
        ensures
            covers_rows(out@, self.row_total()),
            forall|i: int|
                0 <= i < out@.len() ==> self.ends_chunk((#[trigger] out@[i]).0, budget, out@[i].1),
    {
        let mut out: Vec<(usize, usize)> = Vec::new();
        let mut start: usize = 0;
        while start < self.rows
            invariant
                self.wf(),
                start <= self.rows,
                start < self.rows ==> start % STRIDE == 0,
                covers_rows(out@, start as nat),
                forall|i: int|
                    0 <= i < out@.len() ==> self.ends_chunk((#[trigger] out@[i]).0, budget, out@[i].1),
            decreases self.rows - start,
        {
            let end = self.chunk_end(start, budget);
            proof {
                let last = self.points().len() - 1;
                let s = if start / STRIDE < last { (start / STRIDE) as int } else { last };
                assert(start == start / STRIDE * STRIDE);
                if end != self.row_total() {
                    let k = choose|k: int|
                        s < k <= last && end == k * STRIDE && (k == s + 1 || #[trigger] self.points()[k]
                            - self.points()[s] <= budget) && (k < last ==> self.points()[k + 1]
                            - self.points()[s] > budget) && (k == last ==> self.file_len()
                            - self.points()[s] > budget);
                    assert(s == start / STRIDE);
                    assert(k * STRIDE >= (s + 1) * STRIDE) by (nonlinear_arith)
                        requires
                            k >= s + 1,
                            STRIDE == 65536,
                    ;
                    assert(end % STRIDE == 0) by (nonlinear_arith)
                        requires
                            end == k * STRIDE,
                            STRIDE == 65536,
                    ;
                }
            }
            let ghost before = out@;
            out.push((start, end));
            proof {
                assert forall|i: int| 0 <= i < out@.len() implies chunk_stands(out@, i) by {
                    if i < before.len() {
                        assert(chunk_stands(before, i));
                        assert(out@[i] == before[i]);
                        if i + 1 < before.len() {
                            assert(out@[i + 1] == before[i + 1]);
                        }
                    }
                }
            }
            start = end;
        }
        out
    }

    /// A span of the file, with the header in front so it parses as a table in
    /// its own right.
    pub fn framed(&self, body: &[u8]) -> (out: Vec<u8>)
        ensures
            out@ == if self.names_columns() {
                self.header_line().push(10) + body@
            } else {
                body@
            },
    {
        let mut out: Vec<u8> = Vec::new();
        if self.has_header {
            out.extend_from_slice(self.header.as_slice());
            out.push(10);
        }
        out.extend_from_slice(body);
        assert(out@ =~= if self.names_columns() {
            self.header_line().push(10) + body@
        } else {
            body@
        });
        out
    }
}

/// Byte offset of the first data row, `end` being where the header ended. A
/// file that is nothing but a header has no data row to point at.
pub fn header_end(end: Option<u64>, len: u64) -> (at: u64)
    ensures
        at == match end {
            Some(end) => if end < len { end } else { len },
            None => len,
        },
{
    match end {
        Some(end) => if end < len {
            end
        } else {
            len
        },
        None => len,
    }
}

/// The offsets recorded while rows go by are the starts of rows `STRIDE`,
/// `2 * STRIDE` and so on, because row 0 begins where the header ends. Put that
/// in front.
pub fn with_first(checkpoints: Vec<u64>, end: Option<u64>, len: u64) -> (out: Vec<u64>)
    ensures
        out@ == seq![
            match end {
                Some(end) => if end < len { end } else { len },
                None => len,
            },
        ] + checkpoints@,
{
    let mut out = checkpoints;
    out.insert(0, header_end(end, len));
    assert(out@ =~= seq![
        match end {
            Some(end) => if end < len { end } else { len },
            None => len,
        },
    ] + checkpoints@);
    out
}

/// Tracks whether a byte ends a record, which needs enough of the grammar to
/// know when a `"` opens a quoted field: only one at the start of a field does,
/// so `ab"cd` is five ordinary characters and not an opening quote.
pub struct Records {
    style: Style,
    in_quotes: bool,
    /// A `"` inside a quoted field, waiting to see whether the next byte
    /// doubles it (an escape) or not (the closing quote).
    pending_quote: bool,
    at_field_start: bool,
}

impl Records {
    pub closed spec fn style(self) -> Style {
        self.style
    }

    pub closed spec fn at(self) -> Lexed {
        Lexed {
            in_quotes: self.in_quotes,
            pending_quote: self.pending_quote,
            at_field_start: self.at_field_start,
        }
    }

    pub fn new(style: Style) -> (r: Self)
        ensures
            r.style() == style,
            r.at() == Lexed::start(),
    {
        Records { style, in_quotes: false, pending_quote: false, at_field_start: true }
    }

    /// Feed one byte; true when it closed a record.
    pub fn push(&mut self, byte: u8) -> (closed: bool)
        ensures
            final(self).style() == old(self).style(),
            final(self).at() == old(self).at().byte(byte, old(self).style()),
            closed == old(self).at().ends(byte),
    {
        if self.pending_quote {
            self.pending_quote = false;
            if byte == 34 {
                // An escaped quote, still inside the field.
                return false;
            }
            // This byte is read outside the quotes.
            self.in_quotes = false;
        } else if self.in_quotes {
            if byte == 34 {
                self.pending_quote = true;
            }
            return false;
        }
        if byte == 10 {
            self.at_field_start = true;
            return true;
        }
        if self.style.quotes && byte == 34 && self.at_field_start {
            self.in_quotes = true;
            self.at_field_start = false;
        } else {
            self.at_field_start = byte == self.style.separator;
        }
        false
    }
}

/// The scan that builds an index, a chunk of the file at a time. It holds the
/// index and nothing else of the file.
pub struct Indexer {
    scan: Records,
    /// Bytes taken in.
    position: u64,
    /// Where the last record closed.
    closed_at: u64,
    header: Vec<u8>,
    /// Where the header closed.
    header_closed: Option<u64>,
    /// Rows closed.
    rows: usize,
    checkpoints: Vec<u64>,
    read: Ghost<Seq<u8>>,
}

/// The checkpoints past the first for rows that have begun.
spec fn later_points(starts: Seq<nat>) -> Seq<nat> {
    if starts.len() == 0 {
        Seq::empty()
    } else {
        Seq::new(((starts.len() - 1) / STRIDE as int) as nat, |k: int| starts[(k + 1) * STRIDE])
    }
}

impl Indexer {
    pub closed spec fn read(self) -> Seq<u8> {
        self.read@
    }

    pub closed spec fn style(self) -> Style {
        self.scan.style()
    }

    pub closed spec fn wf(self) -> bool {
        let style = self.scan.style();
        let ends = record_ends(self.read@, style);
        let starts = row_starts(self.read@, style);
        &&& self.scan.at() == lexed(self.read@, style)
        &&& self.read@.len() <= usize::MAX
        &&& self.position == self.read@.len()
        &&& self.closed_at == (if ends.len() == 0 { 0 } else { ends.last() })
        &&& self.header@ == header_of(self.read@, style)
        &&& self.header_closed == (if style.header {
            if ends.len() == 0 {
                None
            } else {
                Some(ends[0] as u64)
            }
        } else {
            Some(0u64)
        })
        &&& self.rows == (if starts.len() == 0 { 0 } else { starts.len() - 1 })
        &&& self.checkpoints@.map_values(|at: u64| at as nat) == later_points(starts)
    }

    pub fn new(style: Style) -> (i: Self)
        ensures
            i.wf(),
            i.style() == style,
            i.read() == Seq::<u8>::empty(),
    {
        let i = Indexer {
            scan: Records::new(style),
            position: 0,
            closed_at: 0,
            header: Vec::new(),
            header_closed: if style.header { None } else { Some(0) },
            rows: 0,
            checkpoints: Vec::new(),
            read: Ghost(Seq::empty()),
        };
        assert(i.checkpoints@.map_values(|at: u64| at as nat) =~= later_points(
            row_starts(Seq::empty(), style),
        ));
        assert(i.header@ =~= header_of(Seq::empty(), style));
        i
    }

    /// Take in one byte.
    pub fn byte(&mut self, byte: u8)
        requires
            old(self).wf(),
            old(self).read().len() < usize::MAX,
        ensures
            final(self).wf(),
            final(self).style() == old(self).style(),
            final(self).read() == old(self).read().push(byte),
    {
        let ghost was = self.read@;
        let ghost now = was.push(byte);
        let ghost style = self.scan.style();
        proof {
            assert(now.drop_last() =~= was);
            lemma_ends_bound(was, style);
            lemma_ends_bound(now, style);
            self.read@ = now;
        }
        let names = self.scan.style.header && self.header_closed.is_none();
        let closed = self.scan.push(byte);
        self.position = self.position + 1;
        let ghost ends = record_ends(was, style);
        let ghost starts = row_starts(was, style);
        if names {
            self.header.push(byte);
            assert(self.header@ =~= now);
        }
        if closed {
            self.closed_at = self.position;
            if names {
                self.header_closed = Some(self.position);
                self.trim_header();
                assert(now.take(now.len() as int) =~= now);
                assert(later_points(row_starts(now, style)) =~= Seq::empty());
                assert(later_points(starts) =~= Seq::empty());
            } else {
                self.rows = self.rows + 1;
                assert(row_starts(now, style) =~= starts.push(now.len()));
                if self.rows % STRIDE == 0 {
                    let ghost before = self.checkpoints@;
                    self.checkpoints.push(self.position);
                    assert(self.checkpoints@.map_values(|at: u64| at as nat) =~= before.map_values(
                        |at: u64| at as nat,
                    ).push(now.len()));
                    assert(later_points(row_starts(now, style)) =~= later_points(starts).push(now.len()));
                } else {
                    assert(later_points(row_starts(now, style)) =~= later_points(starts));
                }
            }
        } else {
            assert(row_starts(now, style) =~= starts);
        }
        proof {
            if style.header && ends.len() > 0 {
                assert(now.take(ends[0] as int) =~= was.take(ends[0] as int));
            }
        }
    }

    /// Trim the terminator: the header goes back in front of a page, and a
    /// newline is added there.
    fn trim_header(&mut self)
        ensures
            final(self).header@ == trimmed(old(self).header@),
            *final(self) == (Indexer { header: final(self).header, ..*old(self) }),
    {
        let mut going = true;
        while going
            invariant
                trimmed(self.header@) == trimmed(old(self).header@),
                *self == (Indexer { header: self.header, ..*old(self) }),
                !going ==> self.header@ == trimmed(self.header@),
            decreases self.header@.len(), (if going { 1int } else { 0int }),
        {
            let n = self.header.len();
            if n > 0 && (self.header[n - 1] == 10 || self.header[n - 1] == 13) {
                self.header.pop();
            } else {
                going = false;
            }
        }
    }

    /// Take in a chunk of the file.
    pub fn feed(&mut self, chunk: &[u8])
        requires
            old(self).wf(),
            old(self).read().len() + chunk.len() <= usize::MAX,
        ensures
            final(self).wf(),
            final(self).style() == old(self).style(),
            final(self).read() == old(self).read() + chunk@,
    {
        let mut i: usize = 0;
        assert(self.read() =~= old(self).read() + chunk@.take(0));
        while i < chunk.len()
            invariant
                i <= chunk.len(),
                old(self).read().len() + chunk.len() <= usize::MAX,
                self.wf(),
                self.style() == old(self).style(),
                self.read() == old(self).read() + chunk@.take(i as int),
            decreases chunk.len() - i,
        {
            self.byte(chunk[i]);
            i += 1;
            assert(self.read() =~= old(self).read() + chunk@.take(i as int));
        }
        assert(chunk@.take(i as int) =~= chunk@);
    }

    /// No more bytes: a file whose last line has no terminator still ends a
    /// record.
    pub fn finish(self) -> (index: RowIndex)
        requires
            self.wf(),
        ensures
            index.wf(),
            index.describes(self.read(), self.style()),
    {
        let ghost style = self.scan.style();
        let ghost starts = row_starts(self.read@, style);
        proof {
            lemma_ends_bound(self.read@, style);
        }
        let mut rows: usize = self.rows;
        if self.header_closed.is_some() && self.closed_at < self.position {
            rows = rows + 1;
        }
        let has_header = self.scan.style.header;
        let checkpoints = with_first(self.checkpoints, self.header_closed, self.position);
        let index = RowIndex { checkpoints, rows, header: self.header, has_header, len: self.position };
        proof {
            let f = |at: u64| at as nat;
            let want = checkpoints_of(starts, self.read@.len());
            assert(self.checkpoints@.map_values(f).len() == self.checkpoints@.len());
            assert forall|k: int| 0 <= k < self.checkpoints@.len() implies #[trigger] self.checkpoints@[k] as nat
                == starts[(k + 1) * STRIDE] by {
                assert(self.checkpoints@.map_values(f)[k] == later_points(starts)[k]);
            }
            assert forall|k: int| 0 <= k < index.points().len() implies #[trigger] index.points()[k]
                == want[k] by {
                if k > 0 {
                    assert(index.checkpoints@[k] == self.checkpoints@[k - 1]);
                }
            }
            assert(index.points() =~= want);
            assert forall|i: int, j: int| 0 <= i <= j < index.checkpoints@.len() implies index.checkpoints@[i]
                <= index.checkpoints@[j] by {
                assert(index.points()[i] == want[i] && index.points()[j] == want[j]);
                if i < j {
                    assert(i * STRIDE < j * STRIDE);
                }
            }
            assert forall|i: int| 0 <= i < index.checkpoints@.len() implies #[trigger] index.checkpoints@[i]
                <= index.len by {
                assert(index.points()[i] == want[i]);
            }
        }
        index
    }
}

impl RowIndex {
    /// Scan a delimited file, counting records and noting where every
    /// [`STRIDE`]-th one begins.
    pub fn build(bytes: &[u8], separator: u8) -> (index: RowIndex)
        ensures
            index.wf(),
            index.describes(bytes@, (Style { separator, quotes: true, header: true })),
    {
        let mut indexer = Indexer::new(Style { separator, quotes: true, header: true });
        indexer.feed(bytes);
        assert(indexer.read() =~= bytes@);
        indexer.finish()
    }

    /// Scan a file of one record to a line, which has no header and where a
    /// quote means nothing to the line it stands in.
    pub fn build_lines(bytes: &[u8]) -> (index: RowIndex)
        ensures
            index.wf(),
            index.describes(bytes@, (Style { separator: 10, quotes: false, header: false })),
    {
        let mut indexer = Indexer::new(Style { separator: 10, quotes: false, header: false });
        indexer.feed(bytes);
        assert(indexer.read() =~= bytes@);
        indexer.finish()
    }
}

pub open spec fn delimited(separator: u8) -> Style {
    Style { separator, quotes: true, header: true }
}

proof fn lemma_scans_agree(bytes: Seq<u8>, separator: u8)
    requires
        separator != 34,
        separator != 13,
    ensures
        ({
            let style = delimited(separator);
            let l = lexed(bytes, style);
            let p = writer::parsed(bytes, separator);
            let ends = record_ends(bytes, style);
            &&& l.in_quotes == p.in_quotes
            &&& l.pending_quote == p.pending_quote
            &&& l.at_field_start == !p.field_started
            &&& ends.len() == p.records.len()
            &&& p.record_started == ((if ends.len() == 0 { 0 } else { ends.last() }) < bytes.len())
            &&& forall|r: int|
                0 <= r < ends.len() ==> #[trigger] ends[r] == writer::all_bytes(
                    p.records.take(r + 1),
                    separator,
                ).len()
        }),
    decreases bytes.len(),
{
    if bytes.len() > 0 {
        let style = delimited(separator);
        let front = bytes.drop_last();
        lemma_scans_agree(front, separator);
        writer::lemma_parsed_wf(front, separator);
        writer::lemma_so_far(bytes, separator);
        lemma_ends_bound(front, style);
        let was = writer::parsed(front, separator);
        let now = writer::parsed(bytes, separator);
        let before = record_ends(front, style);
        let ends = record_ends(bytes, style);
        if ends.len() > before.len() {
            assert(now.records.drop_last() =~= was.records);
            assert(now.records.take(ends.len() as int) =~= now.records);
            assert(writer::all_bytes(now.records, separator) =~= bytes);
        } else {
            assert(now.records =~= was.records);
        }
        assert forall|r: int| 0 <= r < ends.len() implies #[trigger] ends[r] == writer::all_bytes(
            now.records.take(r + 1),
            separator,
        ).len() by {
            if r < before.len() {
                assert(now.records.take(r + 1) =~= was.records.take(r + 1));
                assert(before[r] == ends[r]);
            }
        }
    }
}

/// The index and the writer decide separately what a record is, and agree: both
/// count the same rows in every file, and where the index says a row begins,
/// the record of that row begins.
///
/// Neither a quote nor a carriage return can be a separator: the writer never
/// reads one as such.
pub proof fn rows_are_counted_the_way_the_writer_counts_them(bytes: Seq<u8>, separator: u8)
    requires
        separator != 34,
        separator != 13,
    ensures
        rows_in(bytes, delimited(separator)) == writer::row_count(
            1,
            writer::records_of(bytes, separator),
        ),
        forall|row: int|
            0 <= row < row_starts(bytes, delimited(separator)).len() ==> #[trigger] row_starts(
                bytes,
                delimited(separator),
            )[row] == writer::all_bytes(
                writer::records_of(bytes, separator).take(row + 1),
                separator,
            ).len(),
{
    let style = delimited(separator);
    lemma_scans_agree(bytes, separator);
    writer::lemma_parsed_wf(bytes, separator);
    lemma_ends_bound(bytes, style);
    let p = writer::parsed(bytes, separator);
    let records = writer::records_of(bytes, separator);
    let starts = row_starts(bytes, style);
    assert forall|row: int| 0 <= row < starts.len() implies #[trigger] starts[row] == writer::all_bytes(
        records.take(row + 1),
        separator,
    ).len() by {
        assert(records.take(row + 1) =~= p.records.take(row + 1));
    }
}

/// The index and the writer agree on what a record is: with nothing pending, a
/// file is written just where the rows expected are the rows indexed.
pub proof fn a_file_is_written_just_where_the_index_agrees(bytes: Seq<u8>, separator: u8, expected: usize)
    requires
        separator != 34,
        separator != 13,
        bytes.len() <= usize::MAX,
    ensures
        ({
            let records = writer::records_of(bytes, separator);
            let w = writer::output(Pending::empty(), 1, records, separator);
            writer::verdict(Pending::empty(), writer::tally_of(1, records, w), expected) is Ok <==> expected
                == rows_in(bytes, delimited(separator))
        }),
{
    let records = writer::records_of(bytes, separator);
    rows_are_counted_the_way_the_writer_counts_them(bytes, separator);
    writer::lemma_parsed_wf(bytes, separator);
    writer::lemma_nothing_else(1, records, separator);
    nothing_pending_counts_zero(Pending::empty());
}

/// The bytes from where [`RowIndex::seek`] points to where [`RowIndex::end_of`]
/// points hold every row from `first` up to and without `past`, and the parse
/// skips fewer than [`STRIDE`] rows to get to the first.
pub proof fn a_span_covers_its_rows(bytes: Seq<u8>, style: Style, first: usize, past: usize)
    requires
        first < past,
        first < rows_in(bytes, style),
    ensures
        ({
            let starts = row_starts(bytes, style);
            let points = checkpoints_of(starts, bytes.len());
            let k = first / STRIDE;
            let m = (past as int + STRIDE - 1) / STRIDE as int;
            &&& k < points.len()
            &&& points[k as int] <= starts[first as int]
            &&& points[k as int] == starts[k * STRIDE]
            &&& first - k * STRIDE < STRIDE
            &&& past < starts.len() ==> starts[past as int] <= (if m < points.len() {
                points[m]
            } else {
                bytes.len()
            })
        }),
{
    let starts = row_starts(bytes, style);
    let points = checkpoints_of(starts, bytes.len());
    lemma_ends_bound(bytes, style);
    let k = first / STRIDE;
    assert(first == k * STRIDE + first % STRIDE);
    assert(first < starts.len());
    assert(k <= (starts.len() - 1) / STRIDE as int) by (nonlinear_arith)
        requires
            first <= starts.len() - 1,
            k == first / STRIDE,
            STRIDE == 65536,
    ;
    assert(points[k as int] == starts[k * STRIDE]);
    assert forall|i: int, j: int| 0 <= i <= j < starts.len() implies starts[i] <= starts[j] by {}
    let m = (past as int + STRIDE - 1) / STRIDE as int;
    assert(past <= m * STRIDE) by (nonlinear_arith)
        requires
            m == (past as int + STRIDE - 1) / STRIDE as int,
            STRIDE == 65536,
    ;
    if past < starts.len() && m < points.len() {
        assert(points[m] == starts[m * STRIDE]);
        assert(m * STRIDE < starts.len()) by (nonlinear_arith)
            requires
                m < (starts.len() - 1) / STRIDE as int + 1,
                STRIDE == 65536,
        ;
    }
}

} // verus!
