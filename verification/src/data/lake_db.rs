//! Asking a lake's catalog, and finding where its rows are.
use vstd::prelude::*;
use crate::data::jsonl::ColumnType;
use crate::text;
use crate::text::{decimal_text, join_text, texts};

verus! {

/// Every `q` written twice.
pub open spec fn twice(q: char, text: Seq<char>) -> Seq<char>
    decreases text.len(),
{
    if text.len() == 0 {
        Seq::empty()
    } else if text.last() == q {
        twice(q, text.drop_last()) + seq![q, q]
    } else {
        twice(q, text.drop_last()).push(text.last())
    }
}

/// A text between quotes, those inside it doubled.
pub open spec fn wrapped(q: char, text: Seq<char>) -> Seq<char> {
    seq![q] + twice(q, text) + seq![q]
}

/// An identifier as SQL has it: `a"b` is `"a""b"`.
pub open spec fn ident(name: Seq<char>) -> Seq<char> {
    wrapped('"', name)
}

/// A string literal as SQL has it: `it's` is `'it''s'`.
pub open spec fn literal(value: Seq<char>) -> Seq<char> {
    wrapped('\'', value)
}

/// What stands between quotes, read back: up to the first quote that is not
/// doubled. `None` where there is no such, or something comes behind it.
pub open spec fn unwrapped(q: char, text: Seq<char>) -> Option<Seq<char>>
    decreases text.len(),
{
    if text.len() == 0 {
        None
    } else if text[0] != q {
        match unwrapped(q, text.skip(1)) {
            Some(rest) => Some(seq![text[0]] + rest),
            None => None,
        }
    } else if text.len() == 1 {
        Some(Seq::empty())
    } else if text[1] == q {
        match unwrapped(q, text.skip(2)) {
            Some(rest) => Some(seq![q] + rest),
            None => None,
        }
    } else {
        None
    }
}

proof fn lemma_twice_front(q: char, text: Seq<char>)
    requires
        text.len() > 0,
    ensures
        twice(q, text) == (if text[0] == q {
            seq![q, q]
        } else {
            seq![text[0]]
        }) + twice(q, text.skip(1)),
    decreases text.len(),
{
    let head = if text[0] == q { seq![q, q] } else { seq![text[0]] };
    let rest = text.skip(1);
    if text.len() == 1 {
        assert(text.drop_last() =~= Seq::empty());
        assert(rest =~= Seq::empty());
        assert(twice(q, text) =~= head + twice(q, rest));
    } else {
        lemma_twice_front(q, text.drop_last());
        assert(text.drop_last().skip(1) =~= rest.drop_last());
        assert(twice(q, text) =~= head + twice(q, rest));
    }
}

/// A quoted text is read back as exactly itself, whatever it holds: nothing in
/// it can end the quotes early.
pub proof fn a_quoted_text_reads_back(q: char, text: Seq<char>)
    ensures
        wrapped(q, text)[0] == q,
        unwrapped(q, wrapped(q, text).skip(1)) == Some(text),
    decreases text.len(),
{
    let inner = twice(q, text).push(q);
    assert(wrapped(q, text).skip(1) =~= inner);
    if text.len() == 0 {
        assert(inner =~= seq![q]);
        assert(unwrapped(q, inner)->Some_0 =~= text);
    } else {
        let rest = text.skip(1);
        a_quoted_text_reads_back(q, rest);
        lemma_twice_front(q, text);
        let tail = twice(q, rest).push(q);
        assert(wrapped(q, rest).skip(1) =~= tail);
        if text[0] == q {
            assert(inner.skip(2) =~= tail);
            assert(inner[0] == q && inner[1] == q);
        } else {
            assert(inner.skip(1) =~= tail);
            assert(inner[0] == text[0]);
        }
        assert(seq![text[0]] + rest =~= text);
    }
}

fn quote(q: char, value: &str) -> (out: String)
    ensures
        out@ == wrapped(q, value@),
{
    let chars = text::chars(value);
    let mut out = String::new();
    text::push(&mut out, q);
    let mut i: usize = 0;
    assert(value@.take(0) =~= Seq::empty());
    assert(out@ =~= seq![q] + twice(q, value@.take(0)));
    while i < chars.len()
        invariant
            i <= chars.len(),
            chars@ == value@,
            out@ == seq![q] + twice(q, value@.take(i as int)),
        decreases chars.len() - i,
    {
        assert(value@.take(i + 1).drop_last() =~= value@.take(i as int));
        if chars[i] == q {
            text::push(&mut out, q);
        }
        text::push(&mut out, chars[i]);
        assert(out@ =~= seq![q] + twice(q, value@.take(i + 1)));
        i += 1;
    }
    assert(value@.take(i as int) =~= value@);
    text::push(&mut out, q);
    assert(out@ =~= wrapped(q, value@));
    out
}

/// Quote an identifier for SQL.
pub fn quote_ident(name: &str) -> (out: String)
    ensures
        out@ == ident(name@),
{
    quote('"', name)
}

/// Quote a string literal for SQL.
pub fn sql_str(value: &str) -> (out: String)
    ensures
        out@ == literal(value@),
{
    quote('\'', value)
}

#[derive(Debug)]
pub struct Snapshot {
    pub id: i64,
    pub time: String,
    pub schema_version: i64,
    /// Summary of what the snapshot changed.
    pub changes: String,
    pub commit_message: Option<String>,
}

/// A text up to the first `stop`, or all of it.
pub open spec fn upto(text: Seq<char>, stop: char) -> Seq<char>
    decreases text.len(),
{
    if text.len() == 0 || text[0] == stop {
        Seq::empty()
    } else {
        seq![text[0]] + upto(text.skip(1), stop)
    }
}

fn take_upto(value: &str, stop: char) -> (out: String)
    ensures
        out@ == upto(value@, stop),
{
    let chars = text::chars(value);
    let mut out = String::new();
    let mut i: usize = 0;
    assert(value@.skip(0) =~= value@);
    assert(out@ + upto(value@, stop) =~= upto(value@, stop));
    while i < chars.len() && chars[i] != stop
        invariant
            i <= chars.len(),
            chars@ == value@,
            out@ + upto(value@.skip(i as int), stop) == upto(value@, stop),
        decreases chars.len() - i,
    {
        let ghost rest = value@.skip(i as int);
        let ghost before = out@;
        text::push(&mut out, chars[i]);
        assert(rest.skip(1) =~= value@.skip(i + 1));
        assert(out@ + upto(rest.skip(1), stop) =~= before + (seq![rest[0]] + upto(rest.skip(1), stop)));
        i += 1;
    }
    assert(upto(value@.skip(i as int), stop) =~= Seq::empty());
    assert(out@ + Seq::empty() =~= out@);
    out
}

impl Snapshot {
    /// Timestamp trimmed to whole seconds for display.
    pub fn short_time(&self) -> (out: String)
        ensures
            out@ == upto(self.time@, '.'),
    {
        take_upto(self.time.as_str(), '.')
    }
}

#[derive(Debug)]
pub struct TableInfo {
    pub schema: String,
    pub name: String,
    /// Logical row count at the resolved snapshot, inlined rows included.
    pub rows: u64,
    pub file_count: u64,
    pub file_size: u64,
    pub delete_file_count: u64,
    /// Hive partition columns, discovered from the data file paths.
    pub partition_cols: Vec<String>,
}

impl TableInfo {
    pub open spec fn qualified(self) -> Seq<char> {
        self.schema@ + "."@ + self.name@
    }

    /// Fully-qualified, quoted SQL reference to this table.
    pub open spec fn reference(self) -> Seq<char> {
        ident("lake"@) + "."@ + ident(self.schema@) + "."@ + ident(self.name@)
    }

    pub fn qualified_name(&self) -> (out: String)
        ensures
            out@ == self.qualified(),
    {
        let mut out = self.schema.clone();
        text::push_str(&mut out, ".");
        text::push_str(&mut out, self.name.as_str());
        out
    }

    /// Fully-qualified, quoted SQL reference to this table.
    pub fn sql_ref(&self) -> (out: String)
        ensures
            out@ == self.reference(),
    {
        let mut out = quote_ident("lake");
        text::push_str(&mut out, ".");
        text::push_str(&mut out, quote_ident(self.schema.as_str()).as_str());
        text::push_str(&mut out, ".");
        text::push_str(&mut out, quote_ident(self.name.as_str()).as_str());
        out
    }
}

/// One value of a table's partition key, with its logical row count.
#[derive(Debug)]
pub struct Partition {
    pub values: Vec<(String, String)>,
    pub rows: u64,
}

impl Partition {
    pub open spec fn pairs(self) -> Seq<(Seq<char>, Seq<char>)> {
        self.values@.map_values(|v: (String, String)| (v.0@, v.1@))
    }

    pub open spec fn label_text(self) -> Seq<char> {
        join_text(self.pairs().map_values(|v: (Seq<char>, Seq<char>)| v.0 + "="@ + v.1), "/"@)
    }

    /// The predicate that holds of this partition's rows.
    pub open spec fn predicate(self) -> Seq<char> {
        join_text(
            self.pairs().map_values(
                |v: (Seq<char>, Seq<char>)| ident(v.0) + " = "@ + literal(v.1),
            ),
            " AND "@,
        )
    }

    pub fn label(&self) -> (out: String)
        ensures
            out@ == self.label_text(),
    {
        let ghost all = self.pairs().map_values(|v: (Seq<char>, Seq<char>)| v.0 + "="@ + v.1);
        let mut parts: Vec<String> = Vec::new();
        let mut i: usize = 0;
        while i < self.values.len()
            invariant
                i <= self.values.len(),
                all == self.pairs().map_values(|v: (Seq<char>, Seq<char>)| v.0 + "="@ + v.1),
                texts(parts@) == all.take(i as int),
            decreases self.values.len() - i,
        {
            let ghost before = parts@;
            let mut part = self.values[i].0.clone();
            text::push_str(&mut part, "=");
            text::push_str(&mut part, self.values[i].1.as_str());
            parts.push(part);
            assert(texts(parts@) =~= texts(before).push(part@));
            assert(part@ == all[i as int]);
            assert(texts(parts@) =~= all.take(i + 1));
            i += 1;
        }
        assert(texts(parts@) =~= all);
        text::join(&parts, "/")
    }

    /// The predicate that holds of this partition's rows.
    pub fn filter(&self) -> (out: String)
        ensures
            out@ == self.predicate(),
    {
        let ghost all = self.pairs().map_values(
            |v: (Seq<char>, Seq<char>)| ident(v.0) + " = "@ + literal(v.1),
        );
        let mut parts: Vec<String> = Vec::new();
        let mut i: usize = 0;
        while i < self.values.len()
            invariant
                i <= self.values.len(),
                all == self.pairs().map_values(
                    |v: (Seq<char>, Seq<char>)| ident(v.0) + " = "@ + literal(v.1),
                ),
                texts(parts@) == all.take(i as int),
            decreases self.values.len() - i,
        {
            let ghost before = parts@;
            let mut part = quote_ident(self.values[i].0.as_str());
            text::push_str(&mut part, " = ");
            text::push_str(&mut part, sql_str(self.values[i].1.as_str()).as_str());
            parts.push(part);
            assert(texts(parts@) =~= texts(before).push(part@));
            assert(part@ == all[i as int]);
            assert(texts(parts@) =~= all.take(i + 1));
            i += 1;
        }
        assert(texts(parts@) =~= all);
        text::join(&parts, " AND ")
    }
}

/// Everything needed to query one slice of the lake.
#[derive(Debug)]
pub struct LakeSource {
    pub table: String,
    /// SQL predicate restricting to one partition, if any.
    pub filter: Option<String>,
}

/// Sort keys: a column's name, and whether it ascends.
pub open spec fn sort_keys(sort: Seq<(String, bool)>) -> Seq<(Seq<char>, bool)> {
    sort.map_values(|k: (String, bool)| (k.0@, k.1))
}

pub open spec fn order_by(keys: Seq<(Seq<char>, bool)>) -> Seq<char> {
    join_text(
        keys.map_values(
            |k: (Seq<char>, bool)| ident(k.0) + " "@ + (if k.1 { "ASC"@ } else { "DESC"@ }),
        ),
        ", "@,
    )
}

impl LakeSource {
    pub open spec fn relation_text(self) -> Seq<char> {
        match self.filter {
            Some(f) => self.table@ + " WHERE "@ + f@,
            None => self.table@,
        }
    }

    pub open spec fn ordered_text(self, keys: Seq<(Seq<char>, bool)>) -> Seq<char> {
        let all = "SELECT * FROM "@ + self.relation_text();
        if keys.len() == 0 {
            all
        } else {
            all + " ORDER BY "@ + order_by(keys)
        }
    }

    /// A source for the whole table, or for one partition of it.
    pub fn of(table: &TableInfo, partition: Option<&Partition>) -> (s: Self)
        ensures
            s.table@ == table.reference(),
            match (partition, s.filter) {
                (Some(p), Some(f)) => f@ == p.predicate(),
                (None, None) => true,
                _ => false,
            },
    {
        LakeSource {
            table: table.sql_ref(),
            filter: match partition {
                Some(p) => Some(p.filter()),
                None => None,
            },
        }
    }

    pub fn relation(&self) -> (out: String)
        ensures
            out@ == self.relation_text(),
    {
        let mut out = self.table.clone();
        if let Some(f) = &self.filter {
            text::push_str(&mut out, " WHERE ");
            text::push_str(&mut out, f.as_str());
        }
        out
    }

    /// `SELECT * FROM ..` with an optional ORDER BY, ready for LIMIT/OFFSET.
    pub fn ordered(&self, sort: &[(String, bool)]) -> (out: String)
        ensures
            out@ == self.ordered_text(sort_keys(sort@)),
    {
        let mut out = "SELECT * FROM ".to_owned();
        text::push_str(&mut out, self.relation().as_str());
        let ghost keys = sort_keys(sort@);
        let ghost f = |k: (Seq<char>, bool)| ident(k.0) + " "@ + (if k.1 { "ASC"@ } else { "DESC"@ });
        if sort.len() == 0 {
            return out;
        }
        let mut parts: Vec<String> = Vec::new();
        let mut i: usize = 0;
        while i < sort.len()
            invariant
                i <= sort.len(),
                keys == sort_keys(sort@),
                f == |k: (Seq<char>, bool)| ident(k.0) + " "@ + (if k.1 { "ASC"@ } else { "DESC"@ }),
                texts(parts@) == keys.map_values(f).take(i as int),
            decreases sort.len() - i,
        {
            let ghost before = parts@;
            let mut part = quote_ident(sort[i].0.as_str());
            text::push_str(&mut part, " ");
            text::push_str(&mut part, if sort[i].1 { "ASC" } else { "DESC" });
            parts.push(part);
            assert(texts(parts@) =~= texts(before).push(part@));
            assert(part@ == keys.map_values(f)[i as int]);
            assert(texts(parts@) =~= keys.map_values(f).take(i + 1));
            i += 1;
        }
        assert(texts(parts@) =~= keys.map_values(f));
        text::push_str(&mut out, " ORDER BY ");
        text::push_str(&mut out, text::join(&parts, ", ").as_str());
        out
    }
}

/// The query for one page.
pub fn page_sql(source: &LakeSource, sort: &[(String, bool)], offset: usize, limit: usize) -> (out: String)
    ensures
        out@ == source.ordered_text(sort_keys(sort@)) + " LIMIT "@ + decimal_text(limit as nat)
            + " OFFSET "@ + decimal_text(offset as nat),
{
    let mut out = source.ordered(sort);
    text::push_str(&mut out, " LIMIT ");
    text::push_str(&mut out, text::decimal(limit).as_str());
    text::push_str(&mut out, " OFFSET ");
    text::push_str(&mut out, text::decimal(offset).as_str());
    out
}

/// How many rows there are.
pub fn count_sql(source: &LakeSource) -> (out: String)
    ensures
        out@ == "SELECT count(*) FROM "@ + source.relation_text(),
{
    text::joined("SELECT count(*) FROM ", source.relation().as_str())
}

/// The partitions of a table and how many rows each has, or `None` where it has
/// no partition columns.
pub fn partitions_sql(table: &TableInfo) -> (out: Option<String>)
    ensures
        out is Some <==> table.partition_cols@.len() > 0,
        out matches Some(sql) ==> sql@ == "SELECT "@ + join_text(
            texts(table.partition_cols@).map_values(|c: Seq<char>| ident(c)),
            ", "@,
        ) + ", count(*) FROM "@ + table.reference() + " GROUP BY ALL ORDER BY count(*) DESC"@,
{
    if table.partition_cols.is_empty() {
        return None;
    }
    let ghost all = texts(table.partition_cols@).map_values(|c: Seq<char>| ident(c));
    let mut keys: Vec<String> = Vec::new();
    let mut i: usize = 0;
    while i < table.partition_cols.len()
        invariant
            i <= table.partition_cols.len(),
            all == texts(table.partition_cols@).map_values(|c: Seq<char>| ident(c)),
            texts(keys@) == all.take(i as int),
        decreases table.partition_cols.len() - i,
    {
        let ghost before = keys@;
        let key = quote_ident(table.partition_cols[i].as_str());
        keys.push(key);
        assert(texts(keys@) =~= texts(before).push(key@));
        assert(key@ == all[i as int]);
        assert(texts(keys@) =~= all.take(i + 1));
        i += 1;
    }
    assert(texts(keys@) =~= all);
    let mut out = "SELECT ".to_owned();
    text::push_str(&mut out, text::join(&keys, ", ").as_str());
    text::push_str(&mut out, ", count(*) FROM ");
    text::push_str(&mut out, table.sql_ref().as_str());
    text::push_str(&mut out, " GROUP BY ALL ORDER BY count(*) DESC");
    Some(out)
}

/// A column, read as text, matches a pattern whatever the case.
pub open spec fn matches_text(column: Seq<char>, pattern: Seq<char>) -> Seq<char> {
    "regexp_matches(CAST("@ + ident(column) + " AS VARCHAR), "@ + literal(pattern) + ", 'i')"@
}

fn regex_match(column: &str, pattern: &str) -> (out: String)
    ensures
        out@ == matches_text(column@, pattern@),
{
    let mut out = "regexp_matches(CAST(".to_owned();
    text::push_str(&mut out, quote_ident(column).as_str());
    text::push_str(&mut out, " AS VARCHAR), ");
    text::push_str(&mut out, sql_str(pattern).as_str());
    text::push_str(&mut out, ", 'i')");
    out
}

/// What a search asks of a row: that the one column matches, or that any does.
pub open spec fn search_predicate(
    column: Option<Seq<char>>,
    pattern: Seq<char>,
    columns: Seq<Seq<char>>,
) -> Seq<char> {
    match column {
        Some(name) => matches_text(name, pattern),
        None => join_text(columns.map_values(|c: Seq<char>| matches_text(c, pattern)), " OR "@),
    }
}

/// SQL selecting the 0-based row indices of matches within one chunk.
///
/// Numbering happens before filtering so the indices line up with what the
/// viewer displays; the chunk is bounded so a scan of a large table can be
/// cancelled between chunks.
pub fn match_indices_sql(
    source: &LakeSource,
    sort: &[(String, bool)],
    column: Option<&str>,
    pattern: &str,
    offset: usize,
    limit: usize,
    columns: &[String],
) -> (out: String)
    ensures
        ({
            let at = decimal_text(offset as nat);
            let one = match column {
                Some(c) => Some(c@),
                None => None,
            };
            out@ == "SELECT idx FROM (\n           SELECT "@ + at
                + " + row_number() OVER () - 1 AS idx, *\n           FROM ("@ + source.ordered_text(
                sort_keys(sort@),
            ) + " LIMIT "@ + decimal_text(limit as nat) + " OFFSET "@ + at
                + ") chunk\n         ) numbered WHERE "@ + search_predicate(
                one,
                pattern@,
                texts(columns@),
            )
        }),
{
    let ghost all = texts(columns@).map_values(|c: Seq<char>| matches_text(c, pattern@));
    let predicate = match column {
        Some(name) => regex_match(name, pattern),
        None => {
            let mut parts: Vec<String> = Vec::new();
            let mut i: usize = 0;
            while i < columns.len()
                invariant
                    i <= columns.len(),
                    all == texts(columns@).map_values(|c: Seq<char>| matches_text(c, pattern@)),
                    texts(parts@) == all.take(i as int),
                decreases columns.len() - i,
            {
                let ghost before = parts@;
                let part = regex_match(columns[i].as_str(), pattern);
                parts.push(part);
                assert(texts(parts@) =~= texts(before).push(part@));
                assert(part@ == all[i as int]);
                assert(texts(parts@) =~= all.take(i + 1));
                i += 1;
            }
            assert(texts(parts@) =~= all);
            text::join(&parts, " OR ")
        },
    };
    let at = text::decimal(offset);
    let mut out = "SELECT idx FROM (\n           SELECT ".to_owned();
    text::push_str(&mut out, at.as_str());
    text::push_str(&mut out, " + row_number() OVER () - 1 AS idx, *\n           FROM (");
    text::push_str(&mut out, source.ordered(sort).as_str());
    text::push_str(&mut out, " LIMIT ");
    text::push_str(&mut out, text::decimal(limit).as_str());
    text::push_str(&mut out, " OFFSET ");
    text::push_str(&mut out, at.as_str());
    text::push_str(&mut out, ") chunk\n         ) numbered WHERE ");
    text::push_str(&mut out, predicate.as_str());
    out
}

/// The keys in the directories of a path that are named `key=value`.
pub open spec fn keys_in(parts: Seq<Seq<char>>) -> Seq<Seq<char>>
    decreases parts.len(),
{
    if parts.len() == 0 {
        Seq::empty()
    } else {
        let before = keys_in(parts.drop_last());
        if parts.last().contains('=') {
            before.push(upto(parts.last(), '='))
        } else {
            before
        }
    }
}

proof fn lemma_upto_len(text: Seq<char>, stop: char)
    ensures
        upto(text, stop).len() == text.len() <==> !text.contains(stop),
        upto(text, stop).len() <= text.len(),
    decreases text.len(),
{
    if text.len() > 0 && text[0] != stop {
        let rest = text.skip(1);
        lemma_upto_len(rest, stop);
        if text.contains(stop) {
            let i = choose|i: int| 0 <= i < text.len() && text[i] == stop;
            assert(rest[i - 1] == stop);
        }
        if rest.contains(stop) {
            let i = choose|i: int| 0 <= i < rest.len() && rest[i] == stop;
            assert(text[i + 1] == stop);
        }
    } else if text.len() > 0 {
        assert(text.contains(text[0]));
    }
}

/// The partition columns that a data file's path names.
pub fn hive_keys(path: &str) -> (out: Vec<String>)
    ensures
        texts(out@) == keys_in(text::split_text(path@, '/')),
{
    let parts = text::split(path, '/');
    let ghost all = texts(parts@);
    let mut out: Vec<String> = Vec::new();
    let mut i: usize = 0;
    assert(all.take(0) =~= Seq::empty());
    assert(texts(out@) =~= Seq::empty());
    while i < parts.len()
        invariant
            i <= parts.len(),
            all == texts(parts@),
            texts(out@) == keys_in(all.take(i as int)),
        decreases parts.len() - i,
    {
        assert(all.take(i + 1).drop_last() =~= all.take(i as int));
        let key = take_upto(parts[i].as_str(), '=');
        let whole = text::same(key.as_str(), parts[i].as_str());
        proof {
            let part = all[i as int];
            lemma_upto_len(part, '=');
            if key@.len() == part.len() {
                lemma_upto_whole(part, '=');
            }
        }
        if !whole {
            let ghost before = out@;
            out.push(key);
            assert(texts(out@) =~= texts(before).push(key@));
        }
        i += 1;
    }
    assert(all.take(i as int) =~= all);
    out
}

proof fn lemma_upto_whole(text: Seq<char>, stop: char)
    requires
        upto(text, stop).len() == text.len(),
    ensures
        upto(text, stop) == text,
    decreases text.len(),
{
    if text.len() > 0 && text[0] != stop {
        lemma_upto_len(text.skip(1), stop);
        lemma_upto_whole(text.skip(1), stop);
        assert(upto(text, stop) =~= text);
    } else {
        assert(upto(text, stop) =~= text);
    }
}

/// How a type of the database is shown: numbers and booleans as themselves, and
/// everything else (dates, timestamps, structs, lists) as text.
pub open spec fn shown_type(head: Seq<char>) -> ColumnType {
    if head == "BOOLEAN"@ {
        ColumnType::Bool
    } else if head == "TINYINT"@ || head == "SMALLINT"@ || head == "INTEGER"@ || head == "BIGINT"@ || head
        == "HUGEINT"@ || head == "UTINYINT"@ || head == "USMALLINT"@ || head == "UINTEGER"@ || head
        == "UBIGINT"@ || head == "UHUGEINT"@ {
        ColumnType::Int
    } else if head == "FLOAT"@ || head == "DOUBLE"@ || head == "REAL"@ || head == "DECIMAL"@ || head
        == "NUMERIC"@ {
        ColumnType::Float
    } else {
        ColumnType::Text
    }
}

/// How a type of the database is shown. What stands in brackets behind its name
/// does not matter.
pub fn shown_as(sql_type: &str) -> (t: ColumnType)
    ensures
        t == shown_type(text::trimmed_back(text::trimmed_front(upto(sql_type@, '(')))),
{
    let name = take_upto(sql_type, '(');
    let head = text::trim(name.as_str());
    let h = head.as_str();
    if text::same(h, "BOOLEAN") {
        ColumnType::Bool
    } else if text::same(h, "TINYINT") || text::same(h, "SMALLINT") || text::same(h, "INTEGER")
        || text::same(h, "BIGINT") || text::same(h, "HUGEINT") || text::same(h, "UTINYINT") || text::same(
        h,
        "USMALLINT",
    ) || text::same(h, "UINTEGER") || text::same(h, "UBIGINT") || text::same(h, "UHUGEINT") {
        ColumnType::Int
    } else if text::same(h, "FLOAT") || text::same(h, "DOUBLE") || text::same(h, "REAL") || text::same(
        h,
        "DECIMAL",
    ) || text::same(h, "NUMERIC") {
        ColumnType::Float
    } else {
        ColumnType::Text
    }
}

/// A number with its digits in groups of three.
pub open spec fn grouped(n: nat) -> Seq<char>
    decreases n,
{
    if n < 1000 {
        decimal_text(n)
    } else {
        grouped(n / 1000) + seq![
            ',',
            (48 + n / 100 % 10) as u8 as char,
            (48 + n / 10 % 10) as u8 as char,
            (48 + n % 10) as u8 as char,
        ]
    }
}

/// Thousands-separated row count.
pub fn human_count(n: u64) -> (out: String)
    ensures
        out@ == grouped(n as nat),
    decreases n,
{
    if n < 1000 {
        return text::decimal_u64(n);
    }
    let mut out = human_count(n / 1000);
    let ghost before = out@;
    let hundreds: u8 = (n / 100 % 10) as u8;
    let tens: u8 = (n / 10 % 10) as u8;
    let ones: u8 = (n % 10) as u8;
    text::push(&mut out, ',');
    text::push(&mut out, (48 + hundreds) as char);
    text::push(&mut out, (48 + tens) as char);
    text::push(&mut out, (48 + ones) as char);
    assert(out@ =~= grouped(n as nat));
    out
}

/// `n / d` to the nearest whole number, a tie going to the even one.
pub open spec fn nearest(n: nat, d: nat) -> nat {
    let q = n / d;
    let r = n % d;
    if 2 * r > d || (2 * r == d && q % 2 == 1) {
        q + 1
    } else {
        q
    }
}

/// The largest unit that a size holds one of, and its name.
pub open spec fn unit_of(bytes: nat) -> (nat, Seq<char>) {
    if bytes < 1048576 {
        (1024, "KB"@)
    } else if bytes < 1073741824 {
        (1048576, "MB"@)
    } else if bytes < 1099511627776 {
        (1073741824, "GB"@)
    } else {
        (1099511627776, "TB"@)
    }
}

/// A size in the largest unit that it holds one of, to a tenth.
pub open spec fn size_text(bytes: nat) -> Seq<char> {
    if bytes < 1024 {
        decimal_text(bytes) + " B"@
    } else {
        let (unit, name) = unit_of(bytes);
        let tenths = nearest(bytes * 10, unit);
        decimal_text(tenths / 10) + "."@ + decimal_text(tenths % 10) + " "@ + name
    }
}

/// Compact human-readable byte size.
pub fn human_bytes(bytes: u64) -> (out: String)
    ensures
        out@ == size_text(bytes as nat),
{
    if bytes < 1024 {
        let mut out = text::decimal_u64(bytes);
        text::push_str(&mut out, " B");
        return out;
    }
    let (unit, name): (u64, &str) = if bytes < 1048576 {
        (1024, "KB")
    } else if bytes < 1073741824 {
        (1048576, "MB")
    } else if bytes < 1099511627776 {
        (1073741824, "GB")
    } else {
        (1099511627776, "TB")
    };
    let whole: u64 = bytes / unit;
    let over: u64 = (bytes % unit) * 10;
    let part: u64 = over / unit;
    let left: u64 = over % unit;
    proof {
        lemma_tenths(bytes as nat, unit as nat);
        assert(whole <= bytes / 1024) by (nonlinear_arith)
            requires
                whole == bytes / unit,
                unit >= 1024,
        ;
        assert(part < 10) by (nonlinear_arith)
            requires
                part == over / unit,
                over < unit * 10,
                unit > 0,
        ;
    }
    let mut tenths: u64 = whole * 10 + part;
    if 2 * left > unit || (2 * left == unit && tenths % 2 == 1) {
        tenths = tenths + 1;
    }
    let mut out = text::decimal_u64(tenths / 10);
    text::push_str(&mut out, ".");
    text::push_str(&mut out, text::decimal_u64(tenths % 10).as_str());
    text::push_str(&mut out, " ");
    text::push_str(&mut out, name);
    out
}

proof fn lemma_tenths(bytes: nat, unit: nat)
    requires
        unit > 0,
    ensures
        bytes * 10 / unit == bytes / unit * 10 + (bytes % unit) * 10 / unit,
        bytes * 10 % unit == (bytes % unit) * 10 % unit,
        (bytes % unit) * 10 < unit * 10,
{
    let q = bytes / unit;
    let r = bytes % unit;
    vstd::arithmetic::div_mod::lemma_fundamental_div_mod(bytes as int, unit as int);
    assert(bytes * 10 == unit * (q * 10) + r * 10) by (nonlinear_arith)
        requires
            bytes == unit * q + r,
    ;
    vstd::arithmetic::div_mod::lemma_mod_bound(bytes as int, unit as int);
    vstd::arithmetic::div_mod::lemma_hoist_over_denominator((r * 10) as int, (q * 10) as int, unit);
    vstd::arithmetic::div_mod::lemma_mod_multiples_vanish((q * 10) as int, (r * 10) as int, unit as int);
    assert((q * 10) * unit == unit * (q * 10)) by (nonlinear_arith);
}

/// One file of a table.
#[derive(Debug)]
pub struct FileSpan {
    pub path: String,
    /// Row number of this file's first row, in the table.
    pub start: usize,
    pub rows: usize,
}

/// Where a table's rows physically live, so a page can be seeked to rather than
/// counted to.
///
/// This is the catalog's own arithmetic, kept to hand. It is entirely optional:
/// every way of failing to build it, and every doubt while using it, leaves the
/// query to go the way it always did. It only ever answers *where*.
#[derive(Debug)]
pub struct FileMap {
    pub files: Vec<FileSpan>,
    /// The columns the logical table has, in its order. A file that does not
    /// have them all is a file this cannot read.
    pub columns: Vec<String>,
}

/// Some rows of one file.
#[derive(Clone, Copy, Debug, PartialEq, Eq, Structural)]
pub struct Piece {
    pub file: usize,
    /// The first of them, counted in the file.
    pub local: usize,
    pub take: usize,
}

/// Each file begins where the one before it ends.
pub open spec fn laid_out(files: Seq<FileSpan>) -> bool {
    &&& files.len() > 0 ==> files[0].start == 0
    &&& forall|i: int|
        0 <= i < files.len() ==> (#[trigger] files[i]).start + files[i].rows <= usize::MAX
    &&& forall|i: int|
        0 < i < files.len() ==> (#[trigger] files[i]).start == files[i - 1].start + files[i - 1].rows
}

/// How many rows the files hold.
pub open spec fn rows_of(files: Seq<FileSpan>) -> int {
    if files.len() == 0 {
        0
    } else {
        files.last().start + files.last().rows
    }
}

/// The pieces, one behind the other, are the rows of the table from `from` up to
/// and without `to`.
pub open spec fn covers(pieces: Seq<Piece>, files: Seq<FileSpan>, from: int, to: int) -> bool
    decreases pieces.len(),
{
    if pieces.len() == 0 {
        from == to
    } else {
        let p = pieces.last();
        &&& p.file < files.len()
        &&& p.take > 0
        &&& p.local + p.take <= files[p.file as int].rows
        &&& files[p.file as int].start + p.local + p.take == to
        &&& covers(pieces.drop_last(), files, from, files[p.file as int].start + p.local)
    }
}

pub open spec fn least(a: int, b: int) -> int {
    if a < b {
        a
    } else {
        b
    }
}

proof fn lemma_laid_out(files: Seq<FileSpan>, i: int, j: int)
    requires
        laid_out(files),
        0 <= i <= j < files.len(),
    ensures
        files[i].start <= files[j].start,
        files[i].start + files[i].rows <= files[j].start + files[j].rows,
        i < j ==> files[i].start + files[i].rows <= files[j].start,
    decreases j - i,
{
    if i < j {
        lemma_laid_out(files, i, j - 1);
    }
}

impl FileMap {
    pub fn rows(&self) -> (n: usize)
        requires
            laid_out(self.files@),
        ensures
            n == rows_of(self.files@),
    {
        if self.files.len() == 0 {
            0
        } else {
            let last = &self.files[self.files.len() - 1];
            last.start + last.rows
        }
    }

    /// What to read for one page, straight out of the files it falls in. `None`
    /// where a page of no rows is asked for and there are rows, which leaves the
    /// caller to ask the slow way.
    pub fn plan(&self, offset: usize, limit: usize) -> (out: Option<Vec<Piece>>)
        requires
            laid_out(self.files@),
        ensures
            ({
                let total = rows_of(self.files@);
                match out {
                    Some(pieces) => covers(
                        pieces@,
                        self.files@,
                        least(offset as int, total),
                        least(offset + limit, total),
                    ) && (limit > 0 || offset >= total),
                    None => limit == 0 && offset < total,
                }
            }),
    {
        let mut pieces: Vec<Piece> = Vec::new();
        let total: usize = self.rows();
        if offset >= total {
            return Some(pieces);
        }
        if limit == 0 {
            return None;
        }
        let mut taken: usize = 0;
        let mut i: usize = 0;
        while i < self.files.len()
            invariant
                laid_out(self.files@),
                total == rows_of(self.files@),
                offset < total,
                limit > 0,
                i <= self.files.len(),
                offset + taken <= total,
                taken <= limit,
                covers(pieces@, self.files@, offset as int, offset + taken),
                i == 0 ==> taken == 0,
                i > 0 ==> {
                    let end = self.files@[i - 1].start + self.files@[i - 1].rows;
                    offset + taken == if offset < end { least(offset + limit, end) } else { offset as int }
                },
            decreases self.files.len() - i,
        {
            proof {
                lemma_laid_out(self.files@, i as int, self.files@.len() - 1);
            }
            let file = &self.files[i];
            let wanted: usize = offset + taken;
            if taken < limit && wanted >= file.start && wanted < file.start + file.rows {
                let local: usize = wanted - file.start;
                let rest: usize = file.rows - local;
                let take: usize = if rest < limit - taken { rest } else { limit - taken };
                let ghost before = pieces@;
                pieces.push(Piece { file: i, local, take });
                assert(pieces@.drop_last() =~= before);
                taken = taken + take;
            }
            i += 1;
        }
        Some(pieces)
    }
}

/// A catalog path is relative to a prefix, and a resolved one spells the same
/// file whole.
pub open spec fn spells(full: Seq<char>, path: Seq<char>) -> bool {
    path.is_suffix_of(full)
}

/// The resolved path at `k` is the one that spells `path`, and no other does.
pub open spec fn sole_match(resolved: Seq<(String, Option<String>)>, path: Seq<char>, k: int) -> bool {
    &&& 0 <= k < resolved.len()
    &&& spells(resolved[k].0@, path)
    &&& forall|j: int| 0 <= j < resolved.len() && j != k ==> !spells((#[trigger] resolved[j]).0@, path)
}

pub open spec fn has_match(resolved: Seq<(String, Option<String>)>, path: Seq<char>) -> bool {
    exists|k: int| sole_match(resolved, path, k)
}

/// How many rows the first `n` files of the catalog's list hold.
pub open spec fn listed_rows(listed: Seq<(String, i64, Option<i64>)>, n: nat) -> int
    decreases n,
{
    if n == 0 {
        0
    } else {
        listed_rows(listed, (n - 1) as nat) + listed[n - 1].1
    }
}

/// A file of the catalog's list can be read: it maps no columns, has a count,
/// and is one file on disk.
pub open spec fn usable(
    resolved: Seq<(String, Option<String>)>,
    entry: (String, i64, Option<i64>),
) -> bool {
    &&& entry.2 is None
    &&& 0 <= entry.1 <= usize::MAX
    &&& has_match(resolved, entry.0@)
}

fn sole(resolved: &[(String, Option<String>)], path: &str) -> (k: Option<usize>)
    ensures
        match k {
            Some(k) => sole_match(resolved@, path@, k as int),
            None => !has_match(resolved@, path@),
        },
{
    let mut found: Option<usize> = None;
    let mut i: usize = 0;
    while i < resolved.len()
        invariant
            i <= resolved.len(),
            match found {
                Some(k) => k < i && spells(resolved@[k as int].0@, path@) && forall|j: int|
                    0 <= j < i && j != k ==> !spells((#[trigger] resolved@[j]).0@, path@),
                None => forall|j: int| 0 <= j < i ==> !spells((#[trigger] resolved@[j]).0@, path@),
            },
        decreases resolved.len() - i,
    {
        if text::ends_with(resolved[i].0.as_str(), path) {
            match found {
                Some(k) => {
                    // Ambiguous, so not worth guessing.
                    assert forall|m: int| !sole_match(resolved@, path@, m) by {
                        if m != k {
                            assert(spells(resolved@[k as int].0@, path@));
                        } else {
                            assert(spells(resolved@[i as int].0@, path@));
                        }
                    }
                    return None;
                },
                None => {
                    found = Some(i);
                },
            }
        }
        i += 1;
    }
    assert(found is None ==> forall|m: int| !sole_match(resolved@, path@, m));
    found
}

proof fn lemma_listed_grows(resolved: Seq<(String, Option<String>)>, listed: Seq<(String, i64, Option<i64>)>, a: nat, b: nat)
    requires
        a <= b <= listed.len(),
        forall|i: int| 0 <= i < listed.len() ==> usable(resolved, #[trigger] listed[i]),
    ensures
        listed_rows(listed, a) <= listed_rows(listed, b),
    decreases b,
{
    if a < b {
        lemma_listed_grows(resolved, listed, a, (b - 1) as nat);
        assert(usable(resolved, listed[b - 1]));
    }
}

/// Where a table's rows are, if the catalog says so plainly.
///
/// `resolved` is every data file as a whole path with its delete file; `listed`
/// is the catalog's own list, in row order: path, row count, column mapping.
///
/// `None` at the first sign of anything this cannot account for. The last check
/// does most of the work: the file counts must add up to `count`, what the
/// database says. A delete file that removed rows makes the sum too high, rows
/// inlined in the catalog make it too low.
///
/// Only for the whole table: a partition is a condition, and which files
/// satisfy it is a question about physical layout that is not asked here.
pub fn file_map(
    source: &LakeSource,
    resolved: &[(String, Option<String>)],
    listed: &[(String, i64, Option<i64>)],
    count: usize,
    columns: Vec<String>,
) -> (out: Option<FileMap>)
    ensures
        out is Some <==> source.filter is None && (forall|i: int|
            0 <= i < resolved@.len() ==> (#[trigger] resolved@[i]).1 is None) && listed@.len() > 0 && (forall|i: int|
            0 <= i < listed@.len() ==> usable(resolved@, #[trigger] listed@[i])) && listed_rows(
            listed@,
            listed@.len(),
        ) == count,
        out matches Some(map) ==> {
            &&& laid_out(map.files@)
            &&& rows_of(map.files@) == count
            &&& map.columns == columns
            &&& map.files@.len() == listed@.len()
            &&& forall|i: int|
                0 <= i < listed@.len() ==> (#[trigger] map.files@[i]).start == listed_rows(
                    listed@,
                    i as nat,
                ) && map.files@[i].rows == listed@[i].1 && forall|k: int|
                    sole_match(resolved@, listed@[i].0@, k) ==> map.files@[i].path@ == resolved@[k].0@
        },
{
    if source.filter.is_some() {
        return None;
    }
    let mut i: usize = 0;
    while i < resolved.len()
        invariant
            i <= resolved.len(),
            forall|k: int| 0 <= k < i ==> (#[trigger] resolved@[k]).1 is None,
        decreases resolved.len() - i,
    {
        if resolved[i].1.is_some() {
            return None;
        }
        i += 1;
    }
    if listed.len() == 0 {
        return None;
    }
    let mut files: Vec<FileSpan> = Vec::new();
    let mut start: usize = 0;
    i = 0;
    while i < listed.len()
        invariant
            i <= listed.len(),
            start == listed_rows(listed@, i as nat),
            files@.len() == i,
            forall|k: int| 0 <= k < i ==> usable(resolved@, #[trigger] listed@[k]),
            forall|k: int|
                0 <= k < i ==> (#[trigger] files@[k]).start == listed_rows(listed@, k as nat)
                    && files@[k].rows == listed@[k].1 && forall|m: int|
                    sole_match(resolved@, listed@[k].0@, m) ==> files@[k].path@ == resolved@[m].0@,
            forall|k: int| 0 <= k < i ==> (#[trigger] files@[k]).start + files@[k].rows <= usize::MAX,
        decreases listed.len() - i,
    {
        let entry = &listed[i];
        if entry.2.is_some() {
            // The file's columns are not the table's, which is for the
            // database to handle.
            return None;
        }
        let at = match sole(resolved, entry.0.as_str()) {
            Some(k) => k,
            None => {
                return None;
            },
        };
        if entry.1 < 0 || entry.1 as u64 > usize::MAX as u64 {
            return None;
        }
        let rows: usize = entry.1 as usize;
        assert(usable(resolved@, listed@[i as int])) by {
            assert(sole_match(resolved@, entry.0@, at as int));
        }
        if rows > usize::MAX - start {
            proof {
                if forall|k: int| 0 <= k < listed@.len() ==> usable(resolved@, #[trigger] listed@[k]) {
                    lemma_listed_grows(resolved@, listed@, i as nat + 1, listed@.len());
                }
            }
            return None;
        }
        files.push(FileSpan { path: resolved[at].0.clone(), start, rows });
        start = start + rows;
        i += 1;
    }
    if start != count {
        return None;
    }
    proof {
        assert forall|k: int| 0 < k < files@.len() implies (#[trigger] files@[k]).start == files@[k - 1].start
            + files@[k - 1].rows by {
            assert(files@[k - 1].start == listed_rows(listed@, (k - 1) as nat));
        }
    }
    Some(FileMap { files, columns })
}

} // verus!
