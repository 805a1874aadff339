//! Reading JSONL: one JSON object per line, shown as a table.
//!
//! A JSON string cannot hold a raw newline, so every newline ends a record,
//! exactly. A nested value is carried through as the exact bytes the file
//! holds, so that it can be opened as the document it is.
//!
//! The columns are the keys, found exactly rather than sampled: every byte of
//! the file is read anyway to index its rows, so the key set can be the true one
//! and settled before anything is on screen.
use vstd::prelude::*;
use crate::data::edit::at_most_max;
use crate::data::index::{lexed, record_ends, row_starts, rows_in, Style};
use crate::data::json::{fields_of, members, members_of, Kind, Member, Part};
use crate::data::key_set::KeySet;
use crate::data::loader::{lines_of, without_cr};
use crate::data::typed::{typed, typed_cell};
use crate::text;
use crate::text::{decimal_text, lossy_text, texts};
use crate::view::all_columns;

verus! {

/// Past this many distinct keys, later ones stop becoming columns. What is left
/// out is named rather than dropped in silence.
pub const MAX_COLUMNS: usize = 1024;

/// A key in fewer than one in this many of the records is available but not
/// shown. A log's tail of rare keys is real data and must be reachable, but a
/// table that opens two hundred columns wide has answered no question.
pub const SHOWN_PART: usize = 5;

/// The bit that stands for a kind, so a column's whole history fits in a byte.
pub open spec fn bit_of(kind: Kind) -> u8 {
    match kind {
        Kind::Null => 1,
        Kind::Bool => 2,
        Kind::Int => 4,
        Kind::Float => 8,
        Kind::Str => 16,
        Kind::Nested => 32,
    }
}

/// A kind was seen.
pub open spec fn has(kinds: u8, kind: Kind) -> bool {
    kinds & bit_of(kind) != 0
}

impl Kind {
    pub fn bit(self) -> (b: u8)
        ensures
            b == bit_of(self),
    {
        match self {
            Kind::Null => 1,
            Kind::Bool => 2,
            Kind::Int => 4,
            Kind::Float => 8,
            Kind::Str => 16,
            Kind::Nested => 32,
        }
    }
}

/// Noting a kind adds that one to those seen and no other.
pub proof fn noting_a_kind_adds_it(kinds: u8, kind: Kind, other: Kind)
    ensures
        has(kinds | bit_of(kind), other) == (has(kinds, other) || other == kind),
{
    let a = bit_of(kind);
    let b = bit_of(other);
    assert((kinds | a) & b != 0 <==> (kinds & b != 0 || a & b != 0)) by (bit_vector);
    assert(1u8 & 1u8 != 0 && 2u8 & 2u8 != 0 && 4u8 & 4u8 != 0 && 8u8 & 8u8 != 0 && 16u8 & 16u8 != 0 && 32u8
        & 32u8 != 0) by (bit_vector);
    assert(1u8 & 2u8 == 0 && 1u8 & 4u8 == 0 && 1u8 & 8u8 == 0 && 1u8 & 16u8 == 0 && 1u8 & 32u8 == 0)
        by (bit_vector);
    assert(2u8 & 1u8 == 0 && 2u8 & 4u8 == 0 && 2u8 & 8u8 == 0 && 2u8 & 16u8 == 0 && 2u8 & 32u8 == 0)
        by (bit_vector);
    assert(4u8 & 1u8 == 0 && 4u8 & 2u8 == 0 && 4u8 & 8u8 == 0 && 4u8 & 16u8 == 0 && 4u8 & 32u8 == 0)
        by (bit_vector);
    assert(8u8 & 1u8 == 0 && 8u8 & 2u8 == 0 && 8u8 & 4u8 == 0 && 8u8 & 16u8 == 0 && 8u8 & 32u8 == 0)
        by (bit_vector);
    assert(16u8 & 1u8 == 0 && 16u8 & 2u8 == 0 && 16u8 & 4u8 == 0 && 16u8 & 8u8 == 0 && 16u8 & 32u8 == 0)
        by (bit_vector);
    assert(32u8 & 1u8 == 0 && 32u8 & 2u8 == 0 && 32u8 & 4u8 == 0 && 32u8 & 8u8 == 0 && 32u8 & 16u8 == 0)
        by (bit_vector);
}

/// What a column can hold.
#[derive(Clone, Copy, Debug, PartialEq, Eq, Structural)]
pub enum ColumnType {
    Text,
    Float,
    Int,
    Bool,
}

/// The column type that a key's history allows. A key that only ever held whole
/// numbers is an integer column and can be compared as one; one that ever held
/// an object is text, because what it carries is a document. So is one that was
/// only ever null.
pub open spec fn type_of(kinds: u8) -> ColumnType {
    if has(kinds, Kind::Nested) || has(kinds, Kind::Str) {
        ColumnType::Text
    } else if has(kinds, Kind::Float) {
        ColumnType::Float
    } else if has(kinds, Kind::Int) {
        ColumnType::Int
    } else if has(kinds, Kind::Bool) {
        ColumnType::Bool
    } else {
        ColumnType::Text
    }
}

/// One key, and everything the discovery pass learned about it.
#[derive(Debug)]
pub struct Field {
    pub name: String,
    /// Records this key appeared in.
    pub rows: usize,
    /// Every [`Kind`] seen under it, as bits.
    pub kinds: u8,
    /// Which record it was last counted in, so a key repeated within one
    /// record does not count twice.
    pub last_row: usize,
}

impl Field {
    /// The column type this key's history allows.
    pub fn dtype(&self) -> (t: ColumnType)
        ensures
            t == type_of(self.kinds),
    {
        if self.kinds & Kind::Nested.bit() != 0 || self.kinds & Kind::Str.bit() != 0 {
            ColumnType::Text
        } else if self.kinds & Kind::Float.bit() != 0 {
            ColumnType::Float
        } else if self.kinds & Kind::Int.bit() != 0 {
            ColumnType::Int
        } else if self.kinds & Kind::Bool.bit() != 0 {
            ColumnType::Bool
        } else {
            ColumnType::Text
        }
    }
}

/// One key as the discovery pass knows it.
#[verifier::ext_equal]
pub struct Key {
    pub key: Seq<u8>,
    pub rows: nat,
    pub kinds: u8,
    pub last_row: nat,
}

/// What the discovery pass has found.
#[verifier::ext_equal]
pub struct Found {
    pub keys: Seq<Key>,
    pub rows: nat,
    pub malformed: nat,
    /// The keys past [`MAX_COLUMNS`], each once.
    pub beyond: Seq<Seq<u8>>,
}

impl Found {
    pub open spec fn nothing() -> Found {
        Found { keys: Seq::empty(), rows: 0, malformed: 0, beyond: Seq::empty() }
    }

    pub open spec fn has_key(self, key: Seq<u8>) -> bool {
        exists|i: int| 0 <= i < self.keys.len() && (#[trigger] self.keys[i]).key == key
    }

    pub open spec fn place(self, key: Seq<u8>) -> int {
        choose|i: int| 0 <= i < self.keys.len() && (#[trigger] self.keys[i]).key == key
    }

    /// A field of record `row` goes by.
    pub open spec fn member(self, row: nat, m: Member) -> Found {
        if self.has_key(m.key) {
            let i = self.place(m.key);
            let k = self.keys[i];
            Found {
                keys: self.keys.update(
                    i,
                    Key {
                        kinds: k.kinds | bit_of(m.kind),
                        rows: if k.last_row == row { k.rows } else { k.rows + 1 },
                        last_row: row,
                        ..k
                    },
                ),
                ..self
            }
        } else if self.keys.len() >= MAX_COLUMNS {
            if self.beyond.contains(m.key) {
                self
            } else {
                Found { beyond: self.beyond.push(m.key), ..self }
            }
        } else {
            Found {
                keys: self.keys.push(
                    Key { key: m.key, rows: 1, kinds: bit_of(m.kind), last_row: row },
                ),
                ..self
            }
        }
    }

    pub open spec fn fields(self, row: nat, ms: Seq<Member>) -> Found
        decreases ms.len(),
    {
        if ms.len() == 0 {
            self
        } else {
            self.fields(row, ms.drop_last()).member(row, ms.last())
        }
    }

    /// A line goes by. One that is not a JSON object is still a row, it simply
    /// has no fields.
    pub open spec fn line(self, line: Seq<u8>) -> Found {
        let counted = Found { rows: self.rows + 1, ..self };
        match members(without_cr(line)) {
            None => Found { malformed: self.malformed + 1, ..counted },
            Some(ms) => counted.fields(self.rows, ms),
        }
    }

    /// No key stands twice, and none was counted more often than there are
    /// records.
    pub open spec fn wf(self) -> bool {
        &&& self.keys.len() <= MAX_COLUMNS
        &&& forall|i: int, j: int|
            0 <= i < j < self.keys.len() ==> (#[trigger] self.keys[i]).key != (#[trigger] self.keys[j]).key
        &&& self.beyond.no_duplicates()
        &&& forall|i: int| 0 <= i < self.keys.len() ==> (#[trigger] self.keys[i]).rows <= self.rows
        &&& forall|i: int| 0 <= i < self.keys.len() ==> (#[trigger] self.keys[i]).last_row < self.rows
        &&& forall|i: int|
            0 <= i < self.keys.len() ==> (#[trigger] self.keys[i]).rows <= self.keys[i].last_row + 1
        &&& self.malformed <= self.rows
    }
}

proof fn lemma_member_wf(f: Found, row: nat, m: Member)
    requires
        f.wf(),
        f.rows == row + 1,
    ensures
        f.member(row, m).wf(),
        f.member(row, m).rows == f.rows,
        f.member(row, m).malformed == f.malformed,
{
}

proof fn lemma_pushed(keys: Seq<Seq<u8>>, key: Seq<u8>, k: Seq<u8>)
    ensures
        keys.push(key).contains(k) == (keys.contains(k) || k == key),
{
    let more = keys.push(key);
    assert(more[keys.len() as int] == key);
    if keys.contains(k) {
        let i = choose|i: int| 0 <= i < keys.len() && keys[i] == k;
        assert(more[i] == k);
    }
}

/// What has been read: the records that have ended, and the line that has not.
#[verifier::ext_equal]
pub struct Reading {
    pub found: Found,
    pub line: Seq<u8>,
}

pub open spec fn reading(bytes: Seq<u8>) -> Reading
    decreases bytes.len(),
{
    if bytes.len() == 0 {
        Reading { found: Found::nothing(), line: Seq::empty() }
    } else {
        let before = reading(bytes.drop_last());
        if bytes.last() == 10 {
            Reading { found: before.found.line(before.line), line: Seq::empty() }
        } else {
            Reading { line: before.line.push(bytes.last()), ..before }
        }
    }
}

/// What a whole file holds. A last line without a newline is a record too.
pub open spec fn discovered(bytes: Seq<u8>) -> Found {
    let end = reading(bytes);
    if end.line.len() > 0 {
        end.found.line(end.line)
    } else {
        end.found
    }
}

/// What the discovery pass found.
#[derive(Debug)]
pub struct Fields {
    pub fields: Vec<Field>,
    /// The keys as the file has them.
    pub keys: Vec<Vec<u8>>,
    pub rows: usize,
    /// Lines that were not a JSON object. They are still rows: skipping one
    /// would put every row number after it out by one.
    pub malformed: usize,
    /// Keys past [`MAX_COLUMNS`], which are in the file but not in the table.
    pub dropped: usize,
    pub beyond: KeySet,
}

impl Fields {
    pub open spec fn entries(self) -> Seq<Field> {
        self.fields@
    }

    pub open spec fn row_total(self) -> usize {
        self.rows
    }

    pub open spec fn malformed_total(self) -> usize {
        self.malformed
    }

    pub open spec fn dropped_total(self) -> usize {
        self.dropped
    }

    spec fn key(self, i: int) -> Key {
        Key {
            key: self.keys@[i]@,
            rows: self.fields@[i].rows as nat,
            kinds: self.fields@[i].kinds,
            last_row: self.fields@[i].last_row as nat,
        }
    }

    /// This is what was found, as far as a count can be told.
    pub closed spec fn holds(self, found: Found) -> bool {
        &&& found.wf()
        &&& self.keys@.len() == self.fields@.len() == found.keys.len()
        &&& forall|i: int|
            0 <= i < found.keys.len() ==> #[trigger] found.keys[i] == self.key(i)
                && self.fields@[i].name@ == lossy_text(found.keys[i].key)
        &&& self.rows == found.rows
        &&& self.malformed == found.malformed
        &&& self.dropped == at_most_max(found.beyond.len())
        &&& self.beyond.wf()
        &&& forall|k: Seq<u8>| #[trigger] self.beyond.has(k) == found.beyond.contains(k)
    }

    pub(crate) fn new() -> (f: Fields)
        ensures
            f.holds(Found::nothing()),
    {
        Fields {
            fields: Vec::new(),
            keys: Vec::new(),
            rows: 0,
            malformed: 0,
            dropped: 0,
            beyond: KeySet::new(),
        }
    }

    fn find(&self, key: &[u8], Ghost(found): Ghost<Found>) -> (at: Option<usize>)
        requires
            self.holds(found),
        ensures
            match at {
                Some(at) => found.has_key(key@) && at == found.place(key@) && at < self.fields@.len(),
                None => !found.has_key(key@),
            },
    {
        let mut i: usize = 0;
        while i < self.keys.len()
            invariant
                self.holds(found),
                i <= self.keys.len(),
                forall|k: int| 0 <= k < i ==> (#[trigger] found.keys[k]).key != key@,
            decreases self.keys.len() - i,
        {
            assert(found.keys[i as int] == self.key(i as int));
            if text::same_bytes(self.keys[i].as_slice(), key) {
                assert(found.keys[i as int].key == key@);
                return Some(i);
            }
            i += 1;
        }
        None
    }

    /// A field of the record being read goes by.
    fn note(&mut self, row: usize, part: &Part, Ghost(found): Ghost<Found>)
        requires
            old(self).holds(found),
            found.rows == row + 1,
        ensures
            final(self).holds(found.member(row as nat, part.member())),
    {
        let ghost m = part.member();
        let ghost next = found.member(row as nat, m);
        proof {
            lemma_member_wf(found, row as nat, m);
        }
        match self.find(part.key, Ghost(found)) {
            Some(at) => {
                assert(found.keys[at as int] == self.key(at as int));
                let field = &mut self.fields[at];
                field.kinds = field.kinds | part.kind.bit();
                // A key repeated inside one record is still one record.
                if field.last_row != row {
                    field.last_row = row;
                    field.rows = field.rows + 1;
                }
                proof {
                    assert forall|i: int| 0 <= i < next.keys.len() implies #[trigger] next.keys[i]
                        == self.key(i) && self.fields@[i].name@ == lossy_text(next.keys[i].key) by {
                        assert(found.keys[i] == old(self).key(i));
                    }
                }
            },
            None => {
                if self.fields.len() >= MAX_COLUMNS {
                    if self.beyond.insert(part.key) {
                        self.dropped = self.dropped.saturating_add(1);
                        proof {
                            assert forall|k: Seq<u8>| #[trigger] self.beyond.has(k)
                                == next.beyond.contains(k) by {
                                lemma_pushed(found.beyond, part.key@, k);
                            }
                        }
                    } else {
                        assert(found.beyond.contains(part.key@));
                    }
                    assert forall|i: int| 0 <= i < next.keys.len() implies #[trigger] next.keys[i]
                        == self.key(i) && self.fields@[i].name@ == lossy_text(next.keys[i].key) by {
                        assert(found.keys[i] == old(self).key(i));
                    }
                } else {
                    let mut key: Vec<u8> = Vec::new();
                    key.extend_from_slice(part.key);
                    assert(key@ =~= part.key@);
                    self.keys.push(key);
                    self.fields.push(
                        Field {
                            name: text::lossy(part.key),
                            rows: 1,
                            kinds: part.kind.bit(),
                            last_row: row,
                        },
                    );
                    assert forall|i: int| 0 <= i < next.keys.len() implies #[trigger] next.keys[i]
                        == self.key(i) && self.fields@[i].name@ == lossy_text(next.keys[i].key) by {
                        if i < found.keys.len() {
                            assert(found.keys[i] == old(self).key(i));
                        }
                    }
                }
            },
        }
    }

    /// A line goes by.
    pub(crate) fn record(&mut self, line: &[u8], Ghost(found): Ghost<Found>)
        requires
            old(self).holds(found),
            found.rows < usize::MAX,
        ensures
            final(self).holds(found.line(line@)),
            final(self).row_total() == old(self).row_total() + 1,
    {
        let row = self.rows;
        let ghost counted = Found { rows: found.rows + 1, ..found };
        self.rows = self.rows + 1;
        proof {
            assert forall|i: int| 0 <= i < counted.keys.len() implies #[trigger] counted.keys[i]
                == self.key(i) && self.fields@[i].name@ == lossy_text(counted.keys[i].key) by {
                assert(found.keys[i] == old(self).key(i));
            }
        }
        let line = trim_cr(line);
        match fields_of(line) {
            None => {
                self.malformed = self.malformed + 1;
                proof {
                    let next = Found { malformed: found.malformed + 1, ..counted };
                    assert forall|i: int| 0 <= i < next.keys.len() implies #[trigger] next.keys[i]
                        == self.key(i) && self.fields@[i].name@ == lossy_text(next.keys[i].key) by {
                        assert(found.keys[i] == old(self).key(i));
                    }
                }
            },
            Some(parts) => {
                let ghost all = members_of(parts@);
                let mut i: usize = 0;
                assert(all.take(0) =~= Seq::empty());
                while i < parts.len()
                    invariant
                        i <= parts.len(),
                        all == members_of(parts@),
                        counted.rows == row + 1,
                        self.rows == row + 1,
                        self.holds(counted.fields(row as nat, all.take(i as int))),
                        counted.fields(row as nat, all.take(i as int)).rows == counted.rows,
                    decreases parts.len() - i,
                {
                    let ghost so_far = counted.fields(row as nat, all.take(i as int));
                    assert(all.take(i + 1).drop_last() =~= all.take(i as int));
                    assert(all.take(i + 1).last() == parts@[i as int].member());
                    self.note(row, &parts[i], Ghost(so_far));
                    proof {
                        lemma_member_wf(so_far, row as nat, parts@[i as int].member());
                    }
                    i += 1;
                }
                assert(all.take(i as int) =~= all);
            },
        }
    }
}

/// What the discovery pass hands out is what was found: how many records, how
/// many lines that are no object, how many keys past the cap, and the keys
/// themselves with the records they were in and the kinds they had.
pub proof fn what_was_found_is_told(f: Fields, found: Found)
    requires
        f.holds(found),
    ensures
        f.row_total() == found.rows,
        f.malformed_total() == found.malformed,
        f.dropped_total() == at_most_max(found.beyond.len()),
        f.entries().len() == found.keys.len(),
        forall|i: int|
            0 <= i < found.keys.len() ==> {
                &&& (#[trigger] f.entries()[i]).name@ == lossy_text(found.keys[i].key)
                &&& f.keys@[i]@ == found.keys[i].key
                &&& f.entries()[i].rows == found.keys[i].rows
                &&& f.entries()[i].kinds == found.keys[i].kinds
            },
{
    assert forall|i: int| 0 <= i < found.keys.len() implies {
        &&& (#[trigger] f.entries()[i]).name@ == lossy_text(found.keys[i].key)
        &&& f.keys@[i]@ == found.keys[i].key
        &&& f.entries()[i].rows == found.keys[i].rows
        &&& f.entries()[i].kinds == found.keys[i].kinds
    } by {
        assert(found.keys[i] == f.key(i));
    }
}

pub fn trim_cr(line: &[u8]) -> (out: &[u8])
    ensures
        out@ == without_cr(line@),
{
    let n = line.len();
    if n > 0 && line[n - 1] == 13 {
        let out = vstd::slice::slice_subrange(line, 0, n - 1);
        assert(out@ =~= without_cr(line@));
        out
    } else {
        line
    }
}

/// Discovery, fed one byte at a time by the index scan.
///
/// Byte-fed because that is how the index reads the file, and the two must see
/// the same records.
pub struct Scan {
    line: Vec<u8>,
    found: Fields,
    read: Ghost<Seq<u8>>,
}

proof fn lemma_fields_rows(f: Found, row: nat, ms: Seq<Member>)
    ensures
        f.fields(row, ms).rows == f.rows,
    decreases ms.len(),
{
    if ms.len() > 0 {
        lemma_fields_rows(f, row, ms.drop_last());
    }
}

pub(crate) proof fn lemma_line_rows(f: Found, line: Seq<u8>)
    ensures
        f.line(line).rows == f.rows + 1,
{
    if let Some(ms) = members(without_cr(line)) {
        lemma_fields_rows(Found { rows: f.rows + 1, ..f }, f.rows, ms);
    }
}

proof fn lemma_reading_rows(bytes: Seq<u8>)
    ensures
        reading(bytes).found.rows + reading(bytes).line.len() <= bytes.len(),
    decreases bytes.len(),
{
    if bytes.len() > 0 {
        let front = bytes.drop_last();
        lemma_reading_rows(front);
        let before = reading(front);
        if let Some(ms) = members(without_cr(before.line)) {
            lemma_fields_rows(
                Found { rows: before.found.rows + 1, ..before.found },
                before.found.rows,
                ms,
            );
        }
    }
}

impl Scan {
    pub closed spec fn read(self) -> Seq<u8> {
        self.read@
    }

    pub closed spec fn wf(self) -> bool {
        &&& self.line@ == reading(self.read@).line
        &&& self.found.holds(reading(self.read@).found)
    }

    pub fn new() -> (s: Self)
        ensures
            s.wf(),
            s.read() == Seq::<u8>::empty(),
    {
        let s = Scan { line: Vec::new(), found: Fields::new(), read: Ghost(Seq::empty()) };
        assert(s.line@ =~= Seq::empty());
        s
    }

    pub fn byte(&mut self, byte: u8)
        requires
            old(self).wf(),
            old(self).read().len() < usize::MAX,
        ensures
            final(self).wf(),
            final(self).read() == old(self).read().push(byte),
    {
        let ghost was = self.read@;
        proof {
            lemma_reading_rows(was);
            assert(was.push(byte).drop_last() =~= was);
            self.read@ = was.push(byte);
        }
        if byte == 10 {
            self.found.record(self.line.as_slice(), Ghost(reading(was).found));
            self.line.clear();
            assert(self.line@ =~= Seq::empty());
        } else {
            self.line.push(byte);
        }
    }

    /// Take in a chunk of the file.
    pub fn feed(&mut self, chunk: &[u8])
        requires
            old(self).wf(),
            old(self).read().len() + chunk.len() <= usize::MAX,
        ensures
            final(self).wf(),
            final(self).read() == old(self).read() + chunk@,
    {
        let mut i: usize = 0;
        assert(self.read() =~= old(self).read() + chunk@.take(0));
        while i < chunk.len()
            invariant
                i <= chunk.len(),
                old(self).read().len() + chunk.len() <= usize::MAX,
                self.wf(),
                self.read() == old(self).read() + chunk@.take(i as int),
            decreases chunk.len() - i,
        {
            self.byte(chunk[i]);
            i += 1;
            assert(self.read() =~= old(self).read() + chunk@.take(i as int));
        }
        assert(chunk@.take(i as int) =~= chunk@);
    }

    /// The last line, when the file did not end with a newline.
    pub fn finish(self) -> (found: Fields)
        requires
            self.wf(),
            self.read().len() <= usize::MAX,
        ensures
            found.holds(discovered(self.read())),
    {
        proof {
            lemma_reading_rows(self.read@);
        }
        let mut found = self.found;
        if !self.line.is_empty() {
            found.record(self.line.as_slice(), Ghost(reading(self.read@).found));
        }
        found
    }
}

/// Of two keys the one in more records comes first, and of two in as many the
/// one that was seen first.
pub open spec fn ranks(entries: Seq<Field>, i: usize, j: usize) -> bool {
    let (a, b) = (entries[i as int].rows, entries[j as int].rows);
    a > b || (a == b && i < j)
}

/// All the keys, each once, the most common first.
pub open spec fn in_rank_order(order: Seq<usize>, entries: Seq<Field>) -> bool {
    &&& order.len() == entries.len()
    &&& forall|k: int| 0 <= k < order.len() ==> #[trigger] order[k] < entries.len()
    &&& forall|a: int, b: int| 0 <= a < b < order.len() ==> ranks(entries, order[a], order[b])
}

/// How many keys were in at least `floor` records.
pub open spec fn common_keys(entries: Seq<Field>, floor: nat) -> nat
    decreases entries.len(),
{
    if entries.len() == 0 {
        0
    } else {
        common_keys(entries.drop_last(), floor) + if entries.last().rows >= floor {
            1nat
        } else {
            0nat
        }
    }
}

/// A fifth of the records, rounded up, and at least one.
pub open spec fn shown_floor(rows: usize) -> nat {
    let fifth = (rows + SHOWN_PART - 1) / SHOWN_PART as int;
    if fifth < 1 {
        1
    } else {
        fifth as nat
    }
}

/// How many columns to show at first, or `None` to show them all.
pub open spec fn shown_count(entries: Seq<Field>, rows: usize) -> Option<nat> {
    let m = common_keys(entries, shown_floor(rows));
    if 0 < m < entries.len() {
        Some(m)
    } else {
        None
    }
}

impl Fields {
    /// The numbers of the keys, most common first.
    ///
    /// Frequency and not first sight: the keys every record carries are the
    /// ones the table is about, and in a log the rare ones tend to arrive
    /// first, on whichever line happened to be an error. Ties keep the order
    /// they were seen in.
    fn order(&self) -> (out: Vec<usize>)
        ensures
            in_rank_order(out@, self.entries()),
    {
        let mut out: Vec<usize> = Vec::new();
        let mut i: usize = 0;
        while i < self.fields.len()
            invariant
                i <= self.fields.len(),
                out@.len() == i,
                forall|k: int| 0 <= k < i ==> #[trigger] out@[k] < i,
                forall|a: int, b: int| 0 <= a < b < i ==> ranks(self.fields@, out@[a], out@[b]),
            decreases self.fields.len() - i,
        {
            let rows = self.fields[i].rows;
            let mut at: usize = i;
            while at > 0 && self.fields[out[at - 1]].rows < rows
                invariant
                    at <= i == out@.len(),
                    i < self.fields.len(),
                    rows == self.fields@[i as int].rows,
                    forall|k: int| 0 <= k < i ==> #[trigger] out@[k] < i,
                    forall|k: int| at <= k < i ==> self.fields@[#[trigger] out@[k] as int].rows < rows,
                decreases at,
            {
                at -= 1;
            }
            let ghost before = out@;
            proof {
                assert forall|k: int| 0 <= k < at implies self.fields@[#[trigger] out@[k] as int].rows
                    >= rows by {
                    if k < at - 1 {
                        assert(ranks(self.fields@, out@[k], out@[at - 1]));
                    }
                }
            }
            out.insert(at, i);
            proof {
                assert forall|a: int, b: int| 0 <= a < b < i + 1 implies ranks(
                    self.fields@,
                    out@[a],
                    out@[b],
                ) by {
                    let x = if a < at { a } else { a - 1 };
                    let y = if b < at { b } else { b - 1 };
                    if a != at && b != at {
                        assert(ranks(self.fields@, before[x], before[y]));
                    } else if b == at {
                        assert(self.fields@[before[a] as int].rows >= rows);
                    } else {
                        assert(self.fields@[before[y] as int].rows < rows);
                    }
                }
            }
            i += 1;
        }
        out
    }

    /// The columns, most common first.
    pub fn columns(&self) -> (out: Vec<&Field>)
        ensures
            out@.len() == self.entries().len(),
            exists|order: Seq<usize>| #[trigger]
                in_rank_order(order, self.entries()) && forall|k: int|
                    0 <= k < out@.len() ==> *(#[trigger] out@[k]) == self.entries()[order[k] as int],
    {
        let order = self.order();
        let mut out: Vec<&Field> = Vec::new();
        let mut k: usize = 0;
        while k < order.len()
            invariant
                in_rank_order(order@, self.fields@),
                k <= order.len(),
                out@.len() == k,
                forall|j: int| 0 <= j < k ==> *(#[trigger] out@[j]) == self.fields@[order@[j] as int],
            decreases order.len() - k,
        {
            out.push(&self.fields[order[k]]);
            k += 1;
        }
        assert(in_rank_order(order@, self.entries()));
        out
    }

    /// Why a file in which this was found is not opened, or `None` where it is: a
    /// table without a column is no table.
    pub fn refusal(&self, path: &str) -> (why: Option<String>)
        ensures
            match why {
                Some(text) => self.entries().len() == 0 && text@ == "no JSON objects in "@ + path@,
                None => self.entries().len() > 0,
            },
    {
        if self.fields.len() == 0 {
            Some(text::joined("no JSON objects in ", path))
        } else {
            None
        }
    }

    /// The columns' names and types, most common first.
    pub fn schema(&self) -> (out: Vec<(String, ColumnType)>)
        ensures
            out@.len() == self.entries().len(),
            exists|order: Seq<usize>| #[trigger]
                in_rank_order(order, self.entries()) && forall|k: int|
                    0 <= k < out@.len() ==> (#[trigger] out@[k]).0@ == self.entries()[order[k] as int].name@
                        && out@[k].1 == type_of(self.entries()[order[k] as int].kinds),
    {
        let order = self.order();
        let mut out: Vec<(String, ColumnType)> = Vec::new();
        let mut k: usize = 0;
        while k < order.len()
            invariant
                in_rank_order(order@, self.fields@),
                k <= order.len(),
                out@.len() == k,
                forall|j: int|
                    0 <= j < k ==> (#[trigger] out@[j]).0@ == self.fields@[order@[j] as int].name@
                        && out@[j].1 == type_of(self.fields@[order@[j] as int].kinds),
            decreases order.len() - k,
        {
            let field = &self.fields[order[k]];
            out.push((field.name.clone(), field.dtype()));
            k += 1;
        }
        assert(in_rank_order(order@, self.entries()));
        out
    }

    /// Which columns to show at first, or `None` to show them all: those in a
    /// fifth of the records, which are the first ones.
    ///
    /// `None` rather than all of them so the view is left alone in the ordinary
    /// case.
    pub fn shown(&self) -> (out: Option<Vec<usize>>)
        ensures
            match out {
                Some(columns) => shown_count(self.entries(), self.row_total()) == Some(columns@.len())
                    && columns@ == all_columns(columns@.len()),
                None => shown_count(self.entries(), self.row_total()) is None,
            },
    {
        let fifth: usize = self.rows / SHOWN_PART + (if self.rows % SHOWN_PART == 0 {
            0usize
        } else {
            1usize
        });
        let floor: usize = if fifth < 1 { 1 } else { fifth };
        assert(floor as nat == shown_floor(self.rows));
        let mut m: usize = 0;
        let mut i: usize = 0;
        assert(self.fields@.take(0) =~= Seq::empty());
        while i < self.fields.len()
            invariant
                i <= self.fields.len(),
                m <= i,
                m == common_keys(self.fields@.take(i as int), floor as nat),
            decreases self.fields.len() - i,
        {
            assert(self.fields@.take(i + 1).drop_last() =~= self.fields@.take(i as int));
            if self.fields[i].rows >= floor {
                m += 1;
            }
            i += 1;
        }
        assert(self.fields@.take(i as int) =~= self.fields@);
        if m == 0 || m == self.fields.len() {
            return None;
        }
        let mut out: Vec<usize> = Vec::new();
        let mut c: usize = 0;
        while c < m
            invariant
                c <= m,
                out@ == all_columns(c as nat),
            decreases m - c,
        {
            out.push(c);
            c += 1;
            assert(out@ =~= all_columns(c as nat));
        }
        Some(out)
    }

    /// What opening the file turned up that is worth saying once: keys that did
    /// not fit the table, lines that were not records. `None` when there is
    /// nothing to report, which is the ordinary case.
    ///
    /// Said out loud because a table that quietly leaves something out reads as
    /// the whole answer.
    pub fn notes(&self) -> (out: Option<String>)
        ensures
            ({
                let parts = said(
                    shown_count(self.entries(), self.row_total()),
                    self.entries().len(),
                    self.dropped_total(),
                    self.malformed_total(),
                );
                match out {
                    Some(text) => parts.len() > 0 && text@ == listed(parts),
                    None => parts.len() == 0,
                }
            }),
    {
        let mut out = String::new();
        let mut any = false;
        let ghost mut parts: Seq<Seq<char>> = Seq::empty();
        if let Some(shown) = self.shown() {
            text::push_str(&mut out, text::decimal(shown.len()).as_str());
            text::push_str(&mut out, " of ");
            text::push_str(&mut out, text::decimal(self.fields.len()).as_str());
            text::push_str(&mut out, " keys shown (:reset select for all)");
            any = true;
            proof {
                let part = shown_note(shown@.len(), self.fields@.len());
                assert(out@ =~= part);
                parts = parts.push(part);
                assert(listed(parts) =~= out@);
            }
        }
        if self.dropped > 0 {
            let ghost before = out@;
            if any {
                text::push_str(&mut out, "; ");
            }
            text::push_str(&mut out, text::decimal(self.dropped).as_str());
            text::push_str(&mut out, " keys past the 1024 column cap");
            proof {
                let part = dropped_note(self.dropped);
                let ghost old_parts = parts;
                parts = parts.push(part);
                assert(parts.drop_last() =~= old_parts);
                assert(out@ =~= (if any { before + "; "@ } else { before }) + part);
                assert(listed(parts) =~= out@);
            }
            any = true;
        }
        if self.malformed > 0 {
            let ghost before = out@;
            if any {
                text::push_str(&mut out, "; ");
            }
            text::push_str(&mut out, text::decimal(self.malformed).as_str());
            text::push_str(&mut out, if self.malformed == 1 { " line" } else { " lines" });
            text::push_str(&mut out, " not a JSON object");
            proof {
                let part = malformed_note(self.malformed);
                let ghost old_parts = parts;
                parts = parts.push(part);
                assert(parts.drop_last() =~= old_parts);
                assert(out@ =~= (if any { before + "; "@ } else { before }) + part);
                assert(listed(parts) =~= out@);
            }
            any = true;
        }
        assert(parts =~= said(
            shown_count(self.entries(), self.row_total()),
            self.entries().len(),
            self.dropped_total(),
            self.malformed_total(),
        ));
        if any {
            Some(out)
        } else {
            None
        }
    }
}

pub open spec fn shown_note(shown: nat, all: nat) -> Seq<char> {
    decimal_text(shown) + " of "@ + decimal_text(all) + " keys shown (:reset select for all)"@
}

pub open spec fn dropped_note(dropped: usize) -> Seq<char> {
    decimal_text(dropped as nat) + " keys past the 1024 column cap"@
}

pub open spec fn malformed_note(malformed: usize) -> Seq<char> {
    decimal_text(malformed as nat) + (if malformed == 1 { " line"@ } else { " lines"@ })
        + " not a JSON object"@
}

/// The things worth saying, in order.
pub open spec fn said(shown: Option<nat>, all: nat, dropped: usize, malformed: usize) -> Seq<Seq<char>> {
    (match shown {
        Some(n) => seq![shown_note(n, all)],
        None => Seq::empty(),
    }) + (if dropped > 0 {
        seq![dropped_note(dropped)]
    } else {
        Seq::empty()
    }) + (if malformed > 0 {
        seq![malformed_note(malformed)]
    } else {
        Seq::empty()
    })
}

/// Remarks in one line.
pub open spec fn listed(parts: Seq<Seq<char>>) -> Seq<char>
    decreases parts.len(),
{
    if parts.len() == 0 {
        Seq::empty()
    } else if parts.len() == 1 {
        parts[0]
    } else {
        listed(parts.drop_last()) + "; "@ + parts.last()
    }
}

/// The value of a hexadecimal digit.
pub open spec fn hex_digit(c: char) -> Option<u32> {
    let n = c as u32;
    if 48 <= n <= 57 {
        Some((n - 48) as u32)
    } else if 97 <= n <= 102 {
        Some((n - 97 + 10) as u32)
    } else if 65 <= n <= 70 {
        Some((n - 65 + 10) as u32)
    } else {
        None
    }
}

/// A run of hexadecimal digits as a number, `None` where something else stands
/// among them.
pub open spec fn hex_digits(text: Seq<char>) -> Option<nat>
    decreases text.len(),
{
    if text.len() == 0 {
        Some(0)
    } else {
        match (hex_digits(text.drop_last()), hex_digit(text.last())) {
            (Some(high), Some(low)) => Some(high * 16 + low as nat),
            _ => None,
        }
    }
}

/// A hexadecimal number: at least one digit, behind a plus sign or not.
pub open spec fn hex_number(text: Seq<char>) -> Option<nat> {
    let digits = if text.len() > 0 && text[0] == '+' { text.skip(1) } else { text };
    if digits.len() == 0 {
        None
    } else {
        hex_digits(digits)
    }
}

/// What `\\u` and the characters behind it stand for. A lone surrogate half is
/// not a character and is left as written rather than guessed at.
pub open spec fn code_text(hex: Seq<char>) -> Seq<char> {
    match hex_number(hex) {
        Some(n) => if n <= u32::MAX && vstd::utf8::is_scalar(n as u32) {
            seq![n as u32 as char]
        } else {
            seq!['\\', 'u'] + hex
        },
        None => seq!['\\', 'u'] + hex,
    }
}

/// What a backslash and the character behind it stand for.
pub open spec fn escape_char(c: char) -> char {
    if c == 'n' {
        '\n'
    } else if c == 't' {
        '\t'
    } else if c == 'r' {
        '\r'
    } else if c == 'b' {
        '\u{8}'
    } else if c == 'f' {
        '\u{c}'
    } else {
        c
    }
}

/// A JSON string's own text: escapes resolved.
pub open spec fn unescaped(text: Seq<char>) -> Seq<char>
    decreases text.len(),
{
    if text.len() == 0 {
        Seq::empty()
    } else if text[0] != '\\' {
        seq![text[0]] + unescaped(text.skip(1))
    } else if text.len() == 1 {
        seq!['\\']
    } else if text[1] == 'u' {
        let end = if text.len() < 6 { text.len() as int } else { 6 };
        code_text(text.subrange(2, end)) + unescaped(text.skip(end))
    } else {
        seq![escape_char(text[1])] + unescaped(text.skip(2))
    }
}

/// Text without a backslash in it is its own text.
pub proof fn text_without_escapes_is_itself(text: Seq<char>)
    requires
        !text.contains('\\'),
    ensures
        unescaped(text) == text,
    decreases text.len(),
{
    if text.len() > 0 {
        let rest = text.skip(1);
        assert(!rest.contains('\\')) by {
            if rest.contains('\\') {
                let i = choose|i: int| 0 <= i < rest.len() && rest[i] == '\\';
                assert(text[i + 1] == '\\');
            }
        }
        text_without_escapes_is_itself(rest);
        assert(text.contains(text[0]));
        assert(unescaped(text) =~= text);
    } else {
        assert(unescaped(text) =~= text);
    }
}

fn hex_value(c: char) -> (d: Option<u32>)
    ensures
        d == hex_digit(c),
        d matches Some(n) ==> n < 16,
{
    let n: u32 = c as u32;
    if 48 <= n && n <= 57 {
        Some(n - 48)
    } else if 97 <= n && n <= 102 {
        Some(n - 97 + 10)
    } else if 65 <= n && n <= 70 {
        Some(n - 65 + 10)
    } else {
        None
    }
}

/// The character that up to four hexadecimal digits name.
fn code(hex: &[char]) -> (c: Option<char>)
    requires
        hex.len() <= 4,
    ensures
        match c {
            Some(c) => code_text(hex@) == seq![c],
            None => code_text(hex@) == seq!['\\', 'u'] + hex@,
        },
{
    let n = hex.len();
    let start: usize = if n > 0 && hex[0] == '+' { 1 } else { 0 };
    let ghost digits = if hex@.len() > 0 && hex@[0] == '+' { hex@.skip(1) } else { hex@ };
    if start == n {
        return None;
    }
    let mut value: u32 = 0;
    let mut i: usize = start;
    assert(digits.take(0) =~= Seq::empty());
    while i < n
        invariant
            n == hex.len() <= 4,
            start <= i <= n,
            start <= 1,
            digits == (if hex@.len() > 0 && hex@[0] == '+' { hex@.skip(1) } else { hex@ }),
            digits.len() == n - start,
            digits.len() > 0,
            forall|k: int| 0 <= k < digits.len() ==> digits[k] == hex@[start + k],
            hex_digits(digits.take(i - start)) == Some(value as nat),
            i == start ==> value == 0,
            i == start + 1 ==> value < 16,
            i == start + 2 ==> value < 256,
            i == start + 3 ==> value < 4096,
            i == start + 4 ==> value < 65536,
        decreases n - i,
    {
        assert(digits.take(i + 1 - start).drop_last() =~= digits.take(i - start));
        assert(digits.take(i + 1 - start).last() == hex@[i as int]);
        match hex_value(hex[i]) {
            None => {
                proof {
                    lemma_hex_stops(digits, i + 1 - start);
                }
                return None;
            },
            Some(d) => {
                value = value * 16 + d;
            },
        }
        i += 1;
    }
    assert(digits.take(i - start) =~= digits);
    assert(hex_number(hex@) == Some(value as nat));
    let c = text::char_of(value);
    proof {
        if let Some(named) = c {
            vstd::utf8::char_u32_cast(named, value);
        }
    }
    c
}

proof fn lemma_hex_stops(text: Seq<char>, k: int)
    requires
        0 <= k <= text.len(),
        hex_digits(text.take(k)) is None,
    ensures
        hex_digits(text) is None,
    decreases text.len() - k,
{
    if k < text.len() {
        assert(text.take(k + 1).drop_last() =~= text.take(k));
        lemma_hex_stops(text, k + 1);
    } else {
        assert(text.take(k) =~= text);
    }
}

/// A JSON string's own text: escapes resolved, so a `\\n` in a log message is a
/// line break that can be shown as one.
pub fn unescape(text: &str) -> (out: String)
    ensures
        out@ == unescaped(text@),
{
    let chars = text::chars(text);
    let n = chars.len();
    let mut out = String::new();
    let mut at: usize = 0;
    assert(text@.skip(0) =~= text@);
    assert(out@ + unescaped(text@) =~= unescaped(text@));
    while at < n
        invariant
            n == chars.len(),
            chars@ == text@,
            at <= n,
            out@ + unescaped(text@.skip(at as int)) == unescaped(text@),
        decreases n - at,
    {
        let ghost rest = text@.skip(at as int);
        let ghost before = out@;
        let c = chars[at];
        assert(rest[0] == c);
        if c != '\\' {
            text::push(&mut out, c);
            assert(rest.skip(1) =~= text@.skip(at + 1));
            assert(out@ + unescaped(rest.skip(1)) =~= before + (seq![c] + unescaped(rest.skip(1))));
            at += 1;
        } else if n - at == 1 {
            text::push(&mut out, '\\');
            at += 1;
            assert(text@.skip(at as int) =~= Seq::empty());
            assert(out@ + unescaped(Seq::empty()) =~= before + seq!['\\']);
        } else if chars[at + 1] == 'u' {
            let end: usize = if n - at < 6 { n } else { at + 6 };
            let hex = vstd::slice::slice_subrange(chars.as_slice(), at + 2, end);
            assert(hex@ =~= rest.subrange(2, end - at));
            match code(hex) {
                Some(c) => {
                    text::push(&mut out, c);
                    assert(out@ =~= before + code_text(hex@));
                },
                None => {
                    text::push(&mut out, '\\');
                    text::push(&mut out, 'u');
                    let word = text::from_chars(hex);
                    text::push_str(&mut out, word.as_str());
                    assert(out@ =~= before + code_text(hex@));
                },
            }
            assert(rest[1] == 'u');
            assert(rest.skip(end - at) =~= text@.skip(end as int));
            assert(out@ + unescaped(rest.skip(end - at)) =~= before + (code_text(hex@) + unescaped(
                rest.skip(end - at),
            )));
            at = end;
        } else {
            let e = chars[at + 1];
            let c = if e == 'n' {
                '\n'
            } else if e == 't' {
                '\t'
            } else if e == 'r' {
                '\r'
            } else if e == 'b' {
                '\u{8}'
            } else if e == 'f' {
                '\u{c}'
            } else {
                e
            };
            text::push(&mut out, c);
            assert(rest[1] == e);
            assert(rest.skip(2) =~= text@.skip(at + 2));
            assert(out@ + unescaped(rest.skip(2)) =~= before + (seq![c] + unescaped(rest.skip(2))));
            at += 2;
        }
    }
    assert(text@.skip(at as int) =~= Seq::empty());
    assert(out@ + unescaped(Seq::empty()) =~= out@);
    out
}

/// What a cell holds: a string's own text, nothing for a null, and the file's
/// own bytes for anything else, so a nested value is still the document it was.
pub open spec fn cell_text(kind: Kind, raw: Seq<u8>) -> Option<Seq<char>> {
    match kind {
        Kind::Null => None,
        Kind::Str => Some(unescaped(lossy_text(raw.subrange(1, raw.len() - 1)))),
        _ => Some(lossy_text(raw)),
    }
}

/// The bytes of a value that hold its text.
pub open spec fn inner(kind: Kind, raw: Seq<u8>) -> Seq<u8> {
    match kind {
        Kind::Str => raw.subrange(1, raw.len() - 1),
        _ => raw,
    }
}

/// The bytes of a value are text.
pub open spec fn well_encoded(kind: Kind, raw: Seq<u8>) -> bool {
    vstd::utf8::valid_utf8(inner(kind, raw))
}

/// What a cell holds whose bytes are text.
pub open spec fn decoded(kind: Kind, raw: Seq<u8>) -> Option<Seq<char>> {
    let text = vstd::utf8::decode_utf8(inner(kind, raw));
    match kind {
        Kind::Null => None,
        Kind::Str => Some(unescaped(text)),
        _ => Some(text),
    }
}

pub open spec fn maybe_text(cell: Option<String>) -> Option<Seq<char>> {
    match cell {
        Some(text) => Some(text@),
        None => None,
    }
}

/// What a cell holds.
pub fn text(kind: Kind, raw: &[u8]) -> (out: Option<String>)
    requires
        kind == Kind::Str ==> raw.len() >= 2,
    ensures
        maybe_text(out) == cell_text(kind, raw@),
        well_encoded(kind, raw@) ==> maybe_text(out) == decoded(kind, raw@),
{
    match kind {
        Kind::Null => None,
        Kind::Str => {
            let inner = vstd::slice::slice_subrange(raw, 1, raw.len() - 1);
            Some(unescape(text::lossy(inner).as_str()))
        },
        _ => Some(text::lossy(raw)),
    }
}

/// The value under a key: the last one, where a record repeats it.
pub open spec fn cell_under(ms: Seq<Member>, key: Seq<u8>) -> Option<Seq<char>>
    decreases ms.len(),
{
    if ms.len() == 0 {
        None
    } else if ms.last().key == key {
        cell_text(ms.last().kind, ms.last().raw)
    } else {
        cell_under(ms.drop_last(), key)
    }
}

/// What a line shows in column `c`. A name picked twice is shown in the last of
/// its columns.
pub open spec fn page_cell(line: Seq<u8>, picked: Seq<Seq<char>>, c: int) -> Option<Seq<char>> {
    match members(without_cr(line)) {
        None => None,
        Some(ms) => if exists|later: int| c < later < picked.len() && #[trigger] picked[later] == picked[c] {
            None
        } else {
            cell_under(ms, vstd::utf8::encode_utf8(picked[c]))
        },
    }
}

/// The names of the columns wanted, as far as there are such columns.
pub open spec fn names_of(wanted: Seq<usize>, names: Seq<Seq<char>>) -> Seq<Seq<char>>
    decreases wanted.len(),
{
    if wanted.len() == 0 {
        Seq::empty()
    } else {
        let before = names_of(wanted.drop_last(), names);
        if wanted.last() < names.len() {
            before.push(names[wanted.last() as int])
        } else {
            before
        }
    }
}

/// The types of the columns wanted, as far as there are such columns.
pub open spec fn kinds_of(wanted: Seq<usize>, kinds: Seq<ColumnType>) -> Seq<ColumnType>
    decreases wanted.len(),
{
    if wanted.len() == 0 {
        Seq::empty()
    } else {
        let before = kinds_of(wanted.drop_last(), kinds);
        if wanted.last() < kinds.len() {
            before.push(kinds[wanted.last() as int])
        } else {
            before
        }
    }
}

/// The lines of a span. A final newline closes the last record; it does not open
/// another.
pub open spec fn span_lines(bytes: Seq<u8>) -> Seq<Seq<u8>> {
    if bytes.len() > 0 && bytes.last() == 10 {
        lines_of(bytes).drop_last()
    } else {
        lines_of(bytes)
    }
}

/// The lines of a page: `take` of them, or as many as there are, behind `skip`.
pub open spec fn page_lines(bytes: Seq<u8>, skip: usize, take: usize) -> Seq<Seq<u8>> {
    let lines = span_lines(bytes);
    let from = if skip < lines.len() { skip as int } else { lines.len() as int };
    let to = if from + take < lines.len() { from + take } else { lines.len() as int };
    lines.subrange(from, to)
}

pub(crate) open(crate) spec fn cut(bytes: Seq<u8>, spans: Seq<(usize, usize)>) -> Seq<Seq<u8>> {
    spans.map_values(|s: (usize, usize)| bytes.subrange(s.0 as int, s.1 as int))
}

/// Where each line begins and ends.
pub(crate) fn line_spans(bytes: &[u8]) -> (spans: Vec<(usize, usize)>)
    ensures
        cut(bytes@, spans@) == span_lines(bytes@),
        forall|k: int| 0 <= k < spans@.len() ==> (#[trigger] spans@[k]).0 <= spans@[k].1 <= bytes@.len(),
{
    let mut spans: Vec<(usize, usize)> = Vec::new();
    let mut start: usize = 0;
    let mut i: usize = 0;
    proof {
        assert(bytes@.take(0) =~= Seq::empty());
        assert(bytes@.subrange(0, 0) =~= Seq::empty());
        assert(cut(bytes@, spans@).push(bytes@.subrange(0, 0)) =~= lines_of(bytes@.take(0)));
    }
    while i < bytes.len()
        invariant
            start <= i <= bytes.len(),
            forall|k: int| 0 <= k < spans@.len() ==> (#[trigger] spans@[k]).0 <= spans@[k].1
                <= bytes@.len(),
            lines_of(bytes@.take(i as int)) == cut(bytes@, spans@).push(
                bytes@.subrange(start as int, i as int),
            ),
        decreases bytes.len() - i,
    {
        let ghost before = cut(bytes@, spans@);
        let ghost line = bytes@.subrange(start as int, i as int);
        assert(bytes@.take(i + 1).drop_last() =~= bytes@.take(i as int));
        assert(before.push(line).drop_last() =~= before);
        if bytes[i] == 10 {
            spans.push((start, i));
            assert(cut(bytes@, spans@) =~= before.push(line));
            start = i + 1;
            assert(bytes@.subrange(start as int, i + 1) =~= Seq::empty());
        } else {
            assert(bytes@.subrange(start as int, i + 1) =~= line.push(bytes@[i as int]));
        }
        i += 1;
    }
    assert(bytes@.take(i as int) =~= bytes@);
    let ghost before = cut(bytes@, spans@);
    if bytes.len() > 0 && bytes[bytes.len() - 1] == 10 {
        assert(span_lines(bytes@) =~= before);
    } else {
        spans.push((start, bytes.len()));
        assert(cut(bytes@, spans@) =~= before.push(bytes@.subrange(start as int, i as int)));
    }
    spans
}

/// What a line shows under one name.
fn cell(parts: &Vec<Part>, name: &str) -> (out: Option<String>)
    requires
        forall|i: int|
            0 <= i < parts@.len() && (#[trigger] parts@[i]).kind == Kind::Str ==> parts@[i].raw@.len() >= 2,
    ensures
        maybe_text(out) == cell_under(members_of(parts@), vstd::utf8::encode_utf8(name@)),
{
    let key = name.as_bytes();
    let ghost all = members_of(parts@);
    let mut i: usize = parts.len();
    assert(all.take(i as int) =~= all);
    while i > 0
        invariant
            i <= parts.len(),
            all == members_of(parts@),
            key@ == vstd::utf8::encode_utf8(name@),
            forall|i: int|
                0 <= i < parts@.len() && (#[trigger] parts@[i]).kind == Kind::Str
                    ==> parts@[i].raw@.len() >= 2,
            cell_under(all.take(i as int), key@) == cell_under(all, key@),
        decreases i,
    {
        assert(all.take(i as int).drop_last() =~= all.take(i - 1));
        assert(all.take(i as int).last() == parts@[i - 1].member());
        let part = &parts[i - 1];
        if text::same_bytes(part.key, key) {
            return self::text(part.kind, part.raw);
        }
        i -= 1;
    }
    None
}

/// A page of records, as the columns `wanted` names: for each of them a cell to
/// a line, typed as the column is. A value that will not read as the type is
/// nothing, rather than failing the page.
///
/// `bytes` is whole lines: the index only ever hands out spans that begin and
/// end at a record boundary. That span starts at the checkpoint before the
/// page, which can be a whole stride of records earlier, so `skip` and `take`
/// name the window actually wanted.
pub fn page(
    bytes: &[u8],
    names: &[String],
    types: &[ColumnType],
    wanted: &[usize],
    skip: usize,
    take: usize,
) -> (out: Vec<Vec<Option<String>>>)
    requires
        names@.len() == types@.len(),
    ensures
        ({
            let picked = names_of(wanted@, texts(names@));
            let kinds = kinds_of(wanted@, types@);
            let lines = page_lines(bytes@, skip, take);
            &&& out@.len() == picked.len()
            &&& forall|c: int| 0 <= c < picked.len() ==> (#[trigger] out@[c])@.len() == lines.len()
            &&& forall|c: int, r: int|
                0 <= c < picked.len() && 0 <= r < lines.len() ==> maybe_text(#[trigger] out@[c]@[r])
                    == typed_cell(kinds[c], page_cell(lines[r], picked, c))
        }),
{
    let spans = line_spans(bytes);
    let from: usize = if skip < spans.len() { skip } else { spans.len() };
    let to: usize = if take < spans.len() - from { from + take } else { spans.len() };
    let ghost lines = page_lines(bytes@, skip, take);
    let ghost picked = names_of(wanted@, texts(names@));
    let ghost kinds = kinds_of(wanted@, types@);

    // The records of the page, read once whatever columns they fill.
    let mut records: Vec<Option<Vec<Part>>> = Vec::new();
    let mut r: usize = from;
    while r < to
        invariant
            from <= r <= to <= spans.len(),
            cut(bytes@, spans@) == span_lines(bytes@),
            forall|k: int| 0 <= k < spans@.len() ==> (#[trigger] spans@[k]).0 <= spans@[k].1
                <= bytes@.len(),
            lines == span_lines(bytes@).subrange(from as int, to as int),
            records@.len() == r - from,
            forall|k: int| 0 <= k < r - from ==> #[trigger] reads(records@[k], lines[k]),
        decreases to - r,
    {
        let (start, end) = spans[r];
        let line = vstd::slice::slice_subrange(bytes, start, end);
        assert(line@ == cut(bytes@, spans@)[r as int]);
        assert(lines[r - from] == line@);
        let record = fields_of(trim_cr(line));
        let ghost before = records@;
        records.push(record);
        proof {
            assert forall|k: int| 0 <= k < r + 1 - from implies #[trigger] reads(records@[k], lines[k]) by {
                if k < r - from {
                    assert(reads(before[k], lines[k]));
                }
            }
        }
        r += 1;
    }

    let mut chosen: Vec<usize> = Vec::new();
    let mut w: usize = 0;
    assert(wanted@.take(0) =~= Seq::empty());
    while w < wanted.len()
        invariant
            w <= wanted.len(),
            names@.len() == types@.len(),
            chosen@.map_values(|c: usize| types@[c as int]) == kinds_of(wanted@.take(w as int), types@),
            forall|k: int| 0 <= k < chosen@.len() ==> #[trigger] chosen@[k] < names@.len(),
            chosen@.map_values(|c: usize| names@[c as int]@) == names_of(
                wanted@.take(w as int),
                texts(names@),
            ),
        decreases wanted.len() - w,
    {
        assert(wanted@.take(w + 1).drop_last() =~= wanted@.take(w as int));
        if wanted[w] < names.len() {
            let ghost before = chosen@;
            chosen.push(wanted[w]);
            assert(chosen@.map_values(|c: usize| names@[c as int]@) =~= before.map_values(
                |c: usize| names@[c as int]@,
            ).push(names@[wanted@[w as int] as int]@));
            assert(chosen@.map_values(|c: usize| types@[c as int]) =~= before.map_values(
                |c: usize| types@[c as int],
            ).push(types@[wanted@[w as int] as int]));
        }
        w += 1;
    }
    assert(wanted@.take(w as int) =~= wanted@);

    let mut out: Vec<Vec<Option<String>>> = Vec::new();
    let mut c: usize = 0;
    while c < chosen.len()
        invariant
            c <= chosen.len(),
            picked == chosen@.map_values(|c: usize| names@[c as int]@),
            kinds == chosen@.map_values(|c: usize| types@[c as int]),
            names@.len() == types@.len(),
            forall|k: int| 0 <= k < chosen@.len() ==> #[trigger] chosen@[k] < names@.len(),
            records@.len() == lines.len(),
            forall|k: int| 0 <= k < lines.len() ==> #[trigger] reads(records@[k], lines[k]),
            out@.len() == c,
            forall|k: int| 0 <= k < c ==> (#[trigger] out@[k])@.len() == lines.len(),
            forall|k: int, r: int|
                0 <= k < c && 0 <= r < lines.len() ==> maybe_text(#[trigger] out@[k]@[r])
                    == typed_cell(kinds[k], page_cell(lines[r], picked, k)),
        decreases chosen.len() - c,
    {
        let name = names[chosen[c]].as_str();
        assert(picked[c as int] == name@);
        let again = named_again(&chosen, names, c);
        let mut column: Vec<Option<String>> = Vec::new();
        let mut i: usize = 0;
        while i < records.len()
            invariant
                i <= records.len() == lines.len(),
                c < picked.len(),
                name@ == picked[c as int],
                again == exists|later: int| c < later < picked.len() && #[trigger] picked[later]
                    == picked[c as int],
                forall|k: int| 0 <= k < lines.len() ==> #[trigger] reads(records@[k], lines[k]),
                column@.len() == i,
                forall|k: int|
                    0 <= k < i ==> maybe_text(#[trigger] column@[k]) == page_cell(
                        lines[k],
                        picked,
                        c as int,
                    ),
            decreases records.len() - i,
        {
            assert(reads(records@[i as int], lines[i as int]));
            let value = match &records[i] {
                Some(parts) => if again {
                    None
                } else {
                    cell(parts, name)
                },
                None => None,
            };
            column.push(value);
            i += 1;
        }
        assert(kinds[c as int] == types@[chosen@[c as int] as int]);
        out.push(typed(column, types[chosen[c]]));
        c += 1;
    }
    out
}

/// The record is what the line holds.
spec fn reads(record: Option<Vec<Part>>, line: Seq<u8>) -> bool {
    match record {
        Some(parts) => members(without_cr(line)) == Some(members_of(parts@)) && forall|i: int|
            0 <= i < parts@.len() && (#[trigger] parts@[i]).kind == Kind::Str ==> parts@[i].raw@.len() >= 2,
        None => members(without_cr(line)) is None,
    }
}

/// A later column has the same name.
fn named_again(chosen: &Vec<usize>, names: &[String], c: usize) -> (again: bool)
    requires
        c < chosen@.len(),
        forall|k: int| 0 <= k < chosen@.len() ==> #[trigger] chosen@[k] < names@.len(),
    ensures
        ({
            let picked = chosen@.map_values(|c: usize| names@[c as int]@);
            again == exists|later: int| c < later < picked.len() && #[trigger] picked[later]
                == picked[c as int]
        }),
{
    let ghost picked = chosen@.map_values(|c: usize| names@[c as int]@);
    let n: usize = chosen.len();
    let mut i: usize = c + 1;
    while i < n
        invariant
            c < i <= n == chosen.len(),
            picked == chosen@.map_values(|c: usize| names@[c as int]@),
            forall|k: int| 0 <= k < chosen@.len() ==> #[trigger] chosen@[k] < names@.len(),
            forall|k: int| c < k < i ==> #[trigger] picked[k] != picked[c as int],
        decreases chosen.len() - i,
    {
        if text::same(names[chosen[i]].as_str(), names[chosen[c]].as_str()) {
            assert(picked[i as int] == picked[c as int]);
            return true;
        }
        assert(picked[i as int] != picked[c as int]);
        i += 1;
    }
    false
}

/// The line is a record that has the key.
pub open spec fn has_field(line: Seq<u8>, key: Seq<u8>) -> bool {
    match members(without_cr(line)) {
        None => false,
        Some(ms) => names_key(ms, key),
    }
}

pub open spec fn names_key(ms: Seq<Member>, key: Seq<u8>) -> bool {
    exists|i: int| 0 <= i < ms.len() && (#[trigger] ms[i]).key == key
}

/// How many of the lines are records that have the key.
pub open spec fn lines_with(lines: Seq<Seq<u8>>, key: Seq<u8>) -> nat
    decreases lines.len(),
{
    if lines.len() == 0 {
        0
    } else {
        lines_with(lines.drop_last(), key) + if has_field(lines.last(), key) {
            1nat
        } else {
            0nat
        }
    }
}

/// What is found in a file of these lines.
pub open spec fn found_in(lines: Seq<Seq<u8>>) -> Found
    decreases lines.len(),
{
    if lines.len() == 0 {
        Found::nothing()
    } else {
        found_in(lines.drop_last()).line(lines.last())
    }
}

/// While the fields of record `row` go by: every key counted so often as
/// `before` had it, and once more where it was among the fields so far.
spec fn midway(before: Found, now: Found, row: nat, ms: Seq<Member>) -> bool {
    &&& now.wf()
    &&& before.keys.len() <= now.keys.len()
    &&& forall|i: int|
        0 <= i < before.keys.len() ==> (#[trigger] now.keys[i]).key == before.keys[i].key && now.keys[i].rows
            == before.keys[i].rows + (if names_key(ms, now.keys[i].key) { 1nat } else { 0nat })
            && now.keys[i].last_row == (if names_key(ms, now.keys[i].key) {
            row
        } else {
            before.keys[i].last_row
        })
    &&& forall|i: int|
        before.keys.len() <= i < now.keys.len() ==> (#[trigger] now.keys[i]).rows == 1 && now.keys[i].last_row
            == row && names_key(ms, now.keys[i].key)
    &&& forall|key: Seq<u8>| #[trigger]
        names_key(ms, key) ==> now.has_key(key) || now.keys.len() >= MAX_COLUMNS
}

proof fn lemma_midway(before: Found, row: nat, ms: Seq<Member>)
    requires
        before.wf(),
        before.rows == row + 1,
        forall|i: int| 0 <= i < before.keys.len() ==> (#[trigger] before.keys[i]).last_row < row,
    ensures
        midway(before, before.fields(row, ms), row, ms),
        before.fields(row, ms).rows == before.rows,
    decreases ms.len(),
{
    if ms.len() == 0 {
        assert(forall|key: Seq<u8>| !(#[trigger] names_key(ms, key)));
    } else {
        let front = ms.drop_last();
        let m = ms.last();
        lemma_midway(before, row, front);
        let was = before.fields(row, front);
        let now = before.fields(row, ms);
        lemma_member_wf(was, row, m);
        assert forall|key: Seq<u8>| #[trigger] names_key(ms, key) <==> names_key(front, key) || key == m.key by {
            if names_key(front, key) {
                let i = choose|i: int| 0 <= i < front.len() && (#[trigger] front[i]).key == key;
                assert(ms[i] == front[i]);
            }
            if key == m.key {
                assert(ms[ms.len() - 1].key == key);
            }
            if names_key(ms, key) && key != m.key {
                let i = choose|i: int| 0 <= i < ms.len() && (#[trigger] ms[i]).key == key;
                assert(front[i] == ms[i]);
            }
        }
        assert forall|key: Seq<u8>| was.has_key(key) implies #[trigger] now.has_key(key) by {
            let i = choose|i: int| 0 <= i < was.keys.len() && (#[trigger] was.keys[i]).key == key;
            assert(now.keys[i].key == key);
        }
        if was.has_key(m.key) {
            let p = was.place(m.key);
            assert(was.keys[p].key == m.key);
            assert forall|i: int| 0 <= i < was.keys.len() && i != p implies (#[trigger] was.keys[i]).key
                != m.key by {
                assert(was.keys[p].key == m.key);
            }
            assert(now.has_key(m.key));
        } else if was.keys.len() < MAX_COLUMNS {
            assert(now.keys[was.keys.len() as int].key == m.key);
            assert(now.has_key(m.key));
            assert forall|i: int| 0 <= i < was.keys.len() implies (#[trigger] now.keys[i]) == was.keys[i]
                && was.keys[i].key != m.key by {
                assert(now.keys[i] == was.keys[i]);
            }
        } else {
            assert forall|i: int| 0 <= i < was.keys.len() implies (#[trigger] now.keys[i]).key != m.key by {
                assert(was.keys[i] == now.keys[i]);
            }
        }
    }
}

/// A column's count is exactly the number of records that have its key, however
/// often a record repeats it; and unless the table is full, every key that any
/// record has is a column.
pub proof fn columns_count_the_records_that_have_them(lines: Seq<Seq<u8>>)
    ensures
        found_in(lines).wf(),
        found_in(lines).rows == lines.len(),
        forall|i: int|
            0 <= i < found_in(lines).keys.len() ==> (#[trigger] found_in(lines).keys[i]).rows == lines_with(
                lines,
                found_in(lines).keys[i].key,
            ),
        found_in(lines).keys.len() < MAX_COLUMNS ==> forall|key: Seq<u8>| #[trigger]
            lines_with(lines, key) > 0 ==> found_in(lines).has_key(key),
    decreases lines.len(),
{
    if lines.len() > 0 {
        let front = lines.drop_last();
        let line = lines.last();
        columns_count_the_records_that_have_them(front);
        let was = found_in(front);
        let now = found_in(lines);
        let row = was.rows;
        let counted = Found { rows: was.rows + 1, ..was };
        match members(without_cr(line)) {
            None => {
                assert(now.keys == was.keys);
            },
            Some(ms) => {
                lemma_midway(counted, row, ms);
                assert forall|i: int| 0 <= i < now.keys.len() implies (#[trigger] now.keys[i]).rows
                    == lines_with(lines, now.keys[i].key) by {
                    let key = now.keys[i].key;
                    if i >= was.keys.len() {
                        // A key that was no column before was in no record
                        // before: there was room for it.
                        assert(was.keys.len() < MAX_COLUMNS);
                        if was.has_key(key) {
                            let k = choose|k: int| 0 <= k < was.keys.len() && (#[trigger] was.keys[k]).key
                                == key;
                            assert(now.keys[k].key == key);
                        }
                        assert(!was.has_key(key));
                        assert(lines_with(front, key) == 0);
                    } else {
                        assert(now.keys[i].key == was.keys[i].key);
                        assert(was.keys[i].rows == lines_with(front, was.keys[i].key));
                    }
                }
            },
        }
        if now.keys.len() < MAX_COLUMNS {
            assert forall|key: Seq<u8>| #[trigger] lines_with(lines, key) > 0 implies now.has_key(key) by {
                if lines_with(front, key) > 0 {
                    assert(was.has_key(key));
                    let k = choose|k: int| 0 <= k < was.keys.len() && (#[trigger] was.keys[k]).key == key;
                    assert(now.keys[k].key == key);
                }
            }
        }
    }
}

/// The records of a file: its lines, without an empty last one.
pub open spec fn record_lines(bytes: Seq<u8>) -> Seq<Seq<u8>> {
    let lines = lines_of(bytes);
    if lines.last().len() > 0 {
        lines
    } else {
        lines.drop_last()
    }
}

pub open spec fn line_style() -> Style {
    Style { separator: 10, quotes: false, header: false }
}

proof fn lemma_reading_lines(bytes: Seq<u8>)
    ensures
        lines_of(bytes).len() > 0,
        reading(bytes).line == lines_of(bytes).last(),
        reading(bytes).found == found_in(lines_of(bytes).drop_last()),
        record_ends(bytes, line_style()).len() == lines_of(bytes).len() - 1,
        (if record_ends(bytes, line_style()).len() == 0 {
            0
        } else {
            record_ends(bytes, line_style()).last()
        }) + lines_of(bytes).last().len() == bytes.len(),
        !lexed(bytes, line_style()).in_quotes,
        !lexed(bytes, line_style()).pending_quote,
    decreases bytes.len(),
{
    let lines = lines_of(bytes);
    if bytes.len() == 0 {
        assert(lines.drop_last() =~= Seq::empty());
    } else {
        let front = bytes.drop_last();
        lemma_reading_lines(front);
        let before = lines_of(front);
        if bytes.last() == 10 {
            assert(lines.drop_last() =~= before);
        } else {
            assert(lines.drop_last() =~= before.drop_last());
        }
    }
}

/// Discovery reads a file as its lines.
pub proof fn discovery_reads_the_lines(bytes: Seq<u8>)
    ensures
        discovered(bytes) == found_in(record_lines(bytes)),
{
    lemma_reading_lines(bytes);
}

/// Discovery and the row index see the same records: as many rows, so that no
/// key is named against the wrong one.
pub proof fn discovery_and_index_count_the_same_records(bytes: Seq<u8>)
    ensures
        discovered(bytes).rows == rows_in(bytes, line_style()),
{
    lemma_reading_lines(bytes);
    discovery_reads_the_lines(bytes);
    columns_count_the_records_that_have_them(record_lines(bytes));
    let ends = record_ends(bytes, line_style());
    let starts = row_starts(bytes, line_style());
    assert(starts.last() == if ends.len() == 0 { 0 } else { ends.last() });
}

} // verus!
