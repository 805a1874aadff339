//! The system clipboard, reached through the terminal.
//!
//! A block of cells goes out as tab-separated text, which is what a spreadsheet
//! puts on the clipboard when a range is copied and what it expects to receive.
//! It is quoted by [`encode`], the function the writer uses on a field, because
//! the two have to agree about when a value needs quotes.
//!
//! Out through OSC 52, an escape sequence that asks the terminal to set its
//! clipboard. In through bracketed paste: the terminal sends what was pasted as
//! an ordinary event.
use vstd::prelude::*;
use vstd::utf8::encode_utf8;
use crate::data::writer::{doubled, encode, encoded, needs_quotes};
use crate::text;
use crate::text::{table, texts};

verus! {

/// The most text one copy will put on the clipboard.
///
/// Terminals bound what they will accept in an escape sequence. Past this it
/// would be dropped or, worse, truncated halfway, and half a block on the
/// clipboard is worse than none, because nothing about it looks wrong.
pub const MAX_BYTES: usize = 65536;

/// A row of cells as a line, without its line ending.
pub open spec fn tsv_line(row: Seq<Seq<char>>) -> Seq<char>
    decreases row.len(),
{
    if row.len() == 0 {
        Seq::empty()
    } else if row.len() == 1 {
        encoded(row[0], 9)
    } else {
        encoded(row[0], 9) + seq!['\t'] + tsv_line(row.drop_first())
    }
}

/// A block of cells as tab-separated text.
pub open spec fn tsv_text(block: Seq<Seq<Seq<char>>>) -> Seq<char>
    decreases block.len(),
{
    if block.len() == 0 {
        Seq::empty()
    } else {
        tsv_line(block[0]) + seq!['\n'] + tsv_text(block.drop_first())
    }
}

proof fn lemma_line_split(row: Seq<Seq<char>>, k: int)
    requires
        0 <= k < row.len(),
    ensures
        tsv_line(row.skip(k)) == encoded(row[k], 9) + (if k + 1 < row.len() {
            seq!['\t'] + tsv_line(row.skip(k + 1))
        } else {
            Seq::empty()
        }),
{
    let rest = row.skip(k);
    assert(rest[0] == row[k]);
    if k + 1 < row.len() {
        assert(rest.drop_first() =~= row.skip(k + 1));
        assert(encoded(row[k], 9) + seq!['\t'] + tsv_line(row.skip(k + 1)) =~= encoded(row[k], 9) + (
        seq!['\t'] + tsv_line(row.skip(k + 1))));
    } else {
        assert(encoded(row[k], 9) + Seq::empty() =~= encoded(row[k], 9));
    }
}

/// A block of cells as tab-separated text.
pub fn tsv(block: &[Vec<String>]) -> (out: String)
    ensures
        out@ == tsv_text(table(block@)),
{
    let mut out = String::new();
    let ghost all = table(block@);
    let mut i: usize = 0;
    assert(all.skip(0) =~= all);
    assert(out@ + tsv_text(all.skip(0)) =~= tsv_text(all));
    while i < block.len()
        invariant
            i <= block.len(),
            all == table(block@),
            out@ + tsv_text(all.skip(i as int)) == tsv_text(all),
        decreases block.len() - i,
    {
        let row = &block[i];
        let ghost before = out@;
        let ghost line = texts(row@);
        assert(line == all[i as int]);
        assert(all.skip(i as int).drop_first() =~= all.skip(i + 1));
        let mut k: usize = 0;
        assert(line.skip(0) =~= line);
        while k < row.len()
            invariant
                k <= row.len(),
                line == texts(row@),
                k < row.len() ==> out@ + tsv_line(line.skip(k as int)) == before + tsv_line(line),
                k == row.len() ==> out@ == before + tsv_line(line),
            decreases row.len() - k,
        {
            proof {
                lemma_line_split(line, k as int);
            }
            let cell = encode(row[k].as_str(), 9);
            let ghost mid = out@;
            text::push_str(&mut out, cell.as_str());
            if k + 1 < row.len() {
                text::push(&mut out, '\t');
                assert(out@ + tsv_line(line.skip(k + 1)) =~= mid + (encoded(line[k as int], 9) + (
                seq!['\t'] + tsv_line(line.skip(k + 1)))));
            } else {
                assert(out@ =~= mid + (encoded(line[k as int], 9) + Seq::empty()));
            }
            k += 1;
        }
        assert(before + tsv_line(Seq::empty()) =~= before);
        if row.len() == 0 {
            assert(line =~= Seq::empty());
        }
        text::push(&mut out, '\n');
        assert(out@ + tsv_text(all.skip(i + 1)) =~= before + (tsv_line(line) + seq!['\n'] + tsv_text(
            all.skip(i + 1),
        )));
        i += 1;
    }
    assert(out@ + tsv_text(all.skip(i as int)) =~= out@);
    out
}

/// How much of a paste has been read.
#[verifier::ext_equal]
pub struct Paste {
    pub rows: Seq<Seq<Seq<char>>>,
    pub row: Seq<Seq<char>>,
    pub field: Seq<char>,
    pub quoted: bool,
    pub started: bool,
}

impl Paste {
    pub open spec fn start() -> Paste {
        Paste {
            rows: Seq::empty(),
            row: Seq::empty(),
            field: Seq::empty(),
            quoted: false,
            started: false,
        }
    }

    /// A tab ends the cell.
    pub open spec fn cell(self) -> Paste {
        Paste { row: self.row.push(self.field), field: Seq::empty(), started: false, ..self }
    }

    /// A line ending ends the row.
    pub open spec fn line(self) -> Paste {
        Paste { rows: self.rows.push(self.row.push(self.field)), row: Seq::empty(), ..self.cell() }
    }

    /// One character, when it does not begin a doubled quote.
    pub open spec fn take(self, c: char, next: Option<char>) -> Paste {
        if self.quoted {
            if c == '"' {
                Paste { quoted: false, ..self }
            } else {
                Paste { field: self.field.push(c), ..self }
            }
        } else if c == '"' && !self.started {
            Paste { quoted: true, started: true, ..self }
        } else if c == '\t' {
            self.cell()
        } else if c == '\r' && next == Some('\n') {
            Paste { started: true, ..self }
        } else if c == '\n' {
            self.line()
        } else {
            Paste { field: self.field.push(c), started: true, ..self }
        }
    }

    /// Whether the text goes on with a quote doubled inside quotes.
    pub open spec fn escape(self, text: Seq<char>) -> bool {
        self.quoted && text.len() > 1 && text[0] == '"' && text[1] == '"'
    }

    pub open spec fn read(self, text: Seq<char>) -> Paste
        decreases text.len(),
    {
        if text.len() == 0 {
            self
        } else if self.escape(text) {
            (Paste { field: self.field.push('"'), ..self }).read(text.skip(2))
        } else {
            self.take(
                text[0],
                if text.len() > 1 {
                    Some(text[1])
                } else {
                    None
                },
            ).read(text.skip(1))
        }
    }

    /// A last line with no terminator is still a row; a trailing newline has
    /// already closed its own.
    pub open spec fn end(self) -> Seq<Seq<Seq<char>>> {
        if self.started || self.field.len() > 0 || self.row.len() > 0 {
            self.line().rows
        } else {
            self.rows
        }
    }
}

/// A pasted text as rows of cells. A field that opens with a quote runs to its
/// closing one, so a cell holding a newline is not two rows.
pub open spec fn pasted(text: Seq<char>) -> Seq<Seq<Seq<char>>> {
    Paste::start().read(text).end()
}

/// A pasted block, as rows of cell text.
///
/// Anything but a block is one cell of text, which is what a paste of one value
/// from anywhere else is.
pub fn parse(text: &str) -> (out: Vec<Vec<String>>)
    ensures
        table(out@) == pasted(text@),
{
    let chars = text::chars(text);
    let mut rows: Vec<Vec<String>> = Vec::new();
    let mut row: Vec<String> = Vec::new();
    let mut field = String::new();
    let mut quoted = false;
    let mut started = false;
    let mut i: usize = 0;
    let ghost s = Paste::start();
    proof {
        assert(text@.skip(0) =~= text@);
        assert(table(rows@) =~= s.rows);
        assert(texts(row@) =~= s.row);
        assert(field@ =~= s.field);
    }
    while i < chars.len()
        invariant
            chars@ == text@,
            i <= chars.len(),
            s == (Paste {
                rows: table(rows@),
                row: texts(row@),
                field: field@,
                quoted: quoted,
                started: started,
            }),
            s.read(text@.skip(i as int)) == Paste::start().read(text@),
        decreases chars.len() - i,
    {
        let c = chars[i];
        let ghost rest = text@.skip(i as int);
        assert(rest.skip(1) =~= text@.skip(i + 1));
        let next: Option<char> = if i + 1 < chars.len() {
            Some(chars[i + 1])
        } else {
            None
        };
        proof {
            assert(rest[0] == c);
            if i + 1 < chars.len() {
                assert(rest[1] == text@[i + 1]);
                assert(rest.skip(2) =~= text@.skip(i + 2));
            }
        }
        let quote_follows = match next {
            Some(n) => n == '"',
            None => false,
        };
        let newline_follows = match next {
            Some(n) => n == '\n',
            None => false,
        };
        if quoted && c == '"' && quote_follows {
            text::push(&mut field, '"');
            proof {
                s = Paste { field: s.field.push('"'), ..s };
            }
            i += 2;
            continue ;
        }
        let ghost t = s.take(c, next);
        if quoted {
            if c == '"' {
                quoted = false;
            } else {
                text::push(&mut field, c);
            }
        } else if c == '"' && !started {
            quoted = true;
            started = true;
        } else if c == '\t' || c == '\n' {
            let ghost cells = row@;
            row.push(field);
            assert(texts(row@) =~= texts(cells).push(field@));
            field = String::new();
            if c == '\n' {
                let ghost lines = rows@;
                rows.push(row);
                assert(table(rows@) =~= table(lines).push(texts(row@)));
                row = Vec::new();
                assert(texts(row@) =~= Seq::empty());
            }
            started = false;
        } else if c == '\r' && newline_follows {
            started = true;
        } else {
            text::push(&mut field, c);
            started = true;
        }
        proof {
            s = t;
            assert(field@ =~= s.field);
        }
        i += 1;
    }
    assert(text@.skip(i as int) =~= Seq::empty());
    if started || !field.as_str().is_empty() || !row.is_empty() {
        let ghost cells = row@;
        row.push(field);
        assert(texts(row@) =~= texts(cells).push(field@));
        let ghost lines = rows@;
        rows.push(row);
        assert(table(rows@) =~= table(lines).push(texts(row@)));
    }
    rows
}

proof fn lemma_doubled_front(value: Seq<char>)
    requires
        value.len() > 0,
    ensures
        doubled(value) == (if value[0] == '"' {
            seq!['"', '"']
        } else {
            seq![value[0]]
        }) + doubled(value.drop_first()),
    decreases value.len(),
{
    let rest = value.drop_first();
    let head = if value[0] == '"' {
        seq!['"', '"']
    } else {
        seq![value[0]]
    };
    if value.len() == 1 {
        assert(value.drop_last() =~= Seq::empty());
        assert(rest =~= Seq::empty());
        assert(doubled(value) =~= head + doubled(rest));
    } else {
        lemma_doubled_front(value.drop_last());
        assert(value.drop_last().drop_first() =~= rest.drop_last());
        assert(rest.last() == value.last());
        assert(doubled(value) =~= head + doubled(rest));
    }
}

/// Inside quotes, a doubled value and a closing quote read as the value.
proof fn lemma_read_doubled(s: Paste, value: Seq<char>, rest: Seq<char>)
    requires
        s.quoted,
        rest.len() > 0,
        rest[0] != '"',
    ensures
        s.read(doubled(value) + seq!['"'] + rest) == (Paste {
            field: s.field + value,
            quoted: false,
            ..s
        }).read(rest),
    decreases value.len(),
{
    let wire = doubled(value) + seq!['"'] + rest;
    if value.len() == 0 {
        assert(wire =~= seq!['"'] + rest);
        assert(wire[0] == '"' && wire[1] == rest[0]);
        assert(wire.skip(1) =~= rest);
        assert(s.field + value =~= s.field);
    } else {
        lemma_doubled_front(value);
        let tail = value.drop_first();
        let next = Paste { field: s.field.push(value[0]), ..s };
        lemma_read_doubled(next, tail, rest);
        assert(s.field.push(value[0]) + tail =~= s.field + value);
        let more = doubled(tail) + seq!['"'] + rest;
        if value[0] == '"' {
            assert(wire =~= seq!['"', '"'] + more);
            assert(s.escape(wire));
            assert(wire.skip(2) =~= more);
        } else {
            assert(wire =~= seq![value[0]] + more);
            assert(!s.escape(wire));
            assert(wire.skip(1) =~= more);
        }
    }
}

/// A value with nothing special in it reads as itself.
proof fn lemma_read_bare(s: Paste, value: Seq<char>, rest: Seq<char>)
    requires
        !s.quoted,
        forall|i: int|
            0 <= i < value.len() ==> #[trigger] value[i] != '"' && value[i] != '\t' && value[i] != '\n'
                && value[i] != '\r',
    ensures
        s.read(value + rest) == (Paste {
            field: s.field + value,
            started: s.started || value.len() > 0,
            ..s
        }).read(rest),
    decreases value.len(),
{
    if value.len() == 0 {
        assert(value + rest =~= rest);
        assert(s.field + value =~= s.field);
    } else {
        let tail = value.drop_first();
        let next = Paste { field: s.field.push(value[0]), started: true, ..s };
        lemma_read_bare(next, tail, rest);
        assert((value + rest).skip(1) =~= tail + rest);
        assert(s.field.push(value[0]) + tail =~= s.field + value);
    }
}

/// A cell as it goes out, up to what ends it, comes back the value it was.
proof fn lemma_read_cell(s: Paste, value: Seq<char>, rest: Seq<char>)
    requires
        !s.quoted,
        !s.started,
        s.field.len() == 0,
        rest.len() > 0,
        rest[0] == '\t' || rest[0] == '\n',
    ensures
        s.read(encoded(value, 9) + rest) == (if rest[0] == '\t' {
            Paste { row: s.row.push(value), ..s }
        } else {
            Paste { rows: s.rows.push(s.row.push(value)), row: Seq::empty(), ..s }
        }).read(rest.skip(1)),
{
    text::ascii_byte_in_text(value, 9);
    text::ascii_byte_in_text(value, 34);
    text::ascii_byte_in_text(value, 10);
    text::ascii_byte_in_text(value, 13);
    let bytes = encode_utf8(value);
    assert(s.field =~= Seq::empty());
    assert(s.field + value =~= value);
    let middle = if needs_quotes(value, 9) {
        let wire = encoded(value, 9) + rest;
        let inner = doubled(value) + seq!['"'] + rest;
        assert(wire =~= seq!['"'] + inner);
        assert(wire.skip(1) =~= inner);
        let open = Paste { quoted: true, started: true, ..s };
        assert(s.read(wire) == open.read(inner));
        lemma_read_doubled(open, value, rest);
        Paste { field: value, started: true, ..s }
    } else {
        assert forall|i: int| 0 <= i < value.len() implies #[trigger] value[i] != '"' && value[i]
            != '\t' && value[i] != '\n' && value[i] != '\r' by {
            let c = value[i];
            assert(value.contains(c));
            if c == '"' || c == '\t' || c == '\n' || c == '\r' {
                let b = c as u8;
                assert(bytes.contains(b));
                let k = choose|k: int| 0 <= k < bytes.len() && bytes[k] == b;
                assert(bytes[k] == 9 || bytes[k] == 34 || bytes[k] == 10 || bytes[k] == 13);
            }
        }
        lemma_read_bare(s, value, rest);
        Paste { field: value, started: value.len() > 0, ..s }
    };
    assert(s.read(encoded(value, 9) + rest) == middle.read(rest));
    let after = middle.take(rest[0], if rest.len() > 1 { Some(rest[1]) } else { None });
    assert(middle.read(rest) == after.read(rest.skip(1)));
    if rest[0] == '\t' {
        assert(after =~= (Paste { row: s.row.push(value), ..s }));
    } else {
        assert(after =~= (Paste { rows: s.rows.push(s.row.push(value)), row: Seq::empty(), ..s }));
    }
}

proof fn lemma_read_line(s: Paste, row: Seq<Seq<char>>, rest: Seq<char>)
    requires
        !s.quoted,
        !s.started,
        s.field.len() == 0,
        row.len() > 0,
    ensures
        s.read(tsv_line(row) + seq!['\n'] + rest) == (Paste {
            rows: s.rows.push(s.row + row),
            row: Seq::empty(),
            ..s
        }).read(rest),
    decreases row.len(),
{
    let wire = tsv_line(row) + seq!['\n'] + rest;
    if row.len() == 1 {
        let tail = seq!['\n'] + rest;
        assert(wire =~= encoded(row[0], 9) + tail);
        lemma_read_cell(s, row[0], tail);
        assert(tail.skip(1) =~= rest);
        assert(s.row.push(row[0]) =~= s.row + row);
    } else {
        let more = row.drop_first();
        let inner = tsv_line(more) + seq!['\n'] + rest;
        let tail = seq!['\t'] + inner;
        assert(wire =~= encoded(row[0], 9) + tail);
        lemma_read_cell(s, row[0], tail);
        assert(tail.skip(1) =~= inner);
        let next = Paste { row: s.row.push(row[0]), ..s };
        lemma_read_line(next, more, rest);
        assert(next.row + more =~= s.row + row);
    }
}

proof fn lemma_read_block(s: Paste, block: Seq<Seq<Seq<char>>>)
    requires
        !s.quoted,
        !s.started,
        s.field.len() == 0,
        s.row.len() == 0,
        forall|i: int| 0 <= i < block.len() ==> (#[trigger] block[i]).len() > 0,
    ensures
        s.read(tsv_text(block)) == (Paste { rows: s.rows + block, ..s }),
    decreases block.len(),
{
    assert(s.row =~= Seq::empty());
    if block.len() == 0 {
        assert(s.rows + block =~= s.rows);
    } else {
        let more = block.drop_first();
        lemma_read_line(s, block[0], tsv_text(more));
        let next = Paste { rows: s.rows.push(s.row + block[0]), row: Seq::empty(), ..s };
        assert(s.row + block[0] =~= block[0]);
        assert forall|i: int| 0 <= i < more.len() implies (#[trigger] more[i]).len() > 0 by {
            assert(more[i] == block[i + 1]);
        }
        lemma_read_block(next, more);
        assert(next.rows + more =~= s.rows + block);
        assert(next.row =~= s.row);
    }
}

/// What was copied comes back from a paste the block it was, whatever its
/// cells hold. A row of a block has at least one cell.
pub proof fn a_block_survives_the_trip(block: Seq<Seq<Seq<char>>>)
    requires
        forall|i: int| 0 <= i < block.len() ==> (#[trigger] block[i]).len() > 0,
    ensures
        pasted(tsv_text(block)) == block,
{
    lemma_read_block(Paste::start(), block);
    assert(Seq::<Seq<Seq<char>>>::empty() + block =~= block);
}

/// The `k`th character of the base64 alphabet.
pub open spec fn letter(k: int) -> char {
    if k < 26 {
        (65 + k) as u8 as char
    } else if k < 52 {
        (97 + k - 26) as u8 as char
    } else if k < 62 {
        (48 + k - 52) as u8 as char
    } else if k == 62 {
        '+'
    } else {
        '/'
    }
}

/// Three bytes as four characters. A group of fewer bytes is filled with zero
/// bits, and what stands for no byte of it is padding.
pub open spec fn group(bytes: Seq<u8>) -> Seq<char> {
    let b0 = bytes[0] as int;
    let b1 = if bytes.len() > 1 { bytes[1] as int } else { 0 };
    let b2 = if bytes.len() > 2 { bytes[2] as int } else { 0 };
    seq![
        letter(b0 / 4),
        letter((b0 % 4) * 16 + b1 / 16),
        if bytes.len() > 1 {
            letter((b1 % 16) * 4 + b2 / 64)
        } else {
            '='
        },
        if bytes.len() > 2 {
            letter(b2 % 64)
        } else {
            '='
        },
    ]
}

/// Standard base64.
pub open spec fn base64_text(bytes: Seq<u8>) -> Seq<char>
    decreases bytes.len(),
{
    if bytes.len() == 0 {
        Seq::empty()
    } else if bytes.len() <= 3 {
        group(bytes)
    } else {
        group(bytes.take(3)) + base64_text(bytes.skip(3))
    }
}

/// Base64 text is whole groups of four.
pub proof fn base64_length(bytes: Seq<u8>)
    ensures
        base64_text(bytes).len() == (bytes.len() + 2) / 3 * 4,
    decreases bytes.len(),
{
    if bytes.len() > 3 {
        base64_length(bytes.skip(3));
    }
}

fn push_letter(out: &mut String, k: u8)
    requires
        k < 64,
    ensures
        final(out)@ == old(out)@.push(letter(k as int)),
{
    let c: char = if k < 26 {
        (65 + k) as char
    } else if k < 52 {
        (97 + (k - 26)) as char
    } else if k < 62 {
        (48 + (k - 52)) as char
    } else if k == 62 {
        '+'
    } else {
        '/'
    };
    text::push(out, c);
}

/// Standard base64, which is what OSC 52 carries.
pub fn base64(bytes: &[u8]) -> (out: String)
    ensures
        out@ == base64_text(bytes@),
{
    let mut out = String::new();
    let mut i: usize = 0;
    assert(bytes@.skip(0) =~= bytes@);
    assert(out@ + base64_text(bytes@) =~= base64_text(bytes@));
    while i < bytes.len()
        invariant
            i <= bytes.len(),
            out@ + base64_text(bytes@.skip(i as int)) == base64_text(bytes@),
        decreases bytes.len() - i,
    {
        let ghost rest = bytes@.skip(i as int);
        let ghost before = out@;
        let left: usize = bytes.len() - i;
        let b0: u8 = bytes[i];
        let b1: u8 = if left > 1 { bytes[i + 1] } else { 0 };
        let b2: u8 = if left > 2 { bytes[i + 2] } else { 0 };
        push_letter(&mut out, b0 / 4);
        push_letter(&mut out, (b0 % 4) * 16 + b1 / 16);
        // A group of one byte fills two characters and pads two; a group of
        // two fills three and pads one.
        if left > 1 {
            push_letter(&mut out, (b1 % 16) * 4 + b2 / 64);
        } else {
            text::push(&mut out, '=');
        }
        if left > 2 {
            push_letter(&mut out, b2 % 64);
        } else {
            text::push(&mut out, '=');
        }
        let ghost now = if left > 3 { rest.take(3) } else { rest };
        assert(out@ =~= before + group(now));
        if left > 3 {
            assert(rest.skip(3) =~= bytes@.skip(i + 3));
            assert(out@ + base64_text(rest.skip(3)) =~= before + (group(now) + base64_text(rest.skip(3))));
            i += 3;
        } else {
            i = bytes.len();
            assert(bytes@.skip(i as int) =~= Seq::empty());
            assert(out@ + base64_text(Seq::empty()) =~= out@);
        }
    }
    assert(bytes@.skip(i as int) =~= Seq::empty());
    assert(out@ + base64_text(Seq::empty()) =~= out@);
    out
}

/// The OSC 52 sequence that carries a text.
pub open spec fn sequence_text(text: Seq<char>) -> Seq<char> {
    "\x1b]52;c;"@ + base64_text(encode_utf8(text)) + "\x07"@
}

/// The OSC 52 sequence that carries `text`.
///
/// `c` is the clipboard selection; the terminator is BEL, which every terminal
/// that implements this at all accepts.
pub fn sequence(text: &str) -> (out: String)
    ensures
        out@ == sequence_text(text@),
{
    let mut out = "\x1b]52;c;".to_owned();
    text::push_str(&mut out, base64(text.as_bytes()).as_str());
    text::push_str(&mut out, "\x07");
    out
}

/// What to send the terminal to put `text` on the system clipboard.
///
/// `None` when the text is too long to send, or when there is no terminal to
/// ask. Neither is an error: the caller says what happened.
pub fn copy(text: &str, terminal: bool) -> (out: Option<String>)
    ensures
        out is Some <==> terminal && encode_utf8(text@).len() <= MAX_BYTES,
        out is Some ==> out->Some_0@ == sequence_text(text@),
{
    if text.as_bytes().len() > MAX_BYTES || !terminal {
        return None;
    }
    Some(sequence(text))
}

} // verus!
