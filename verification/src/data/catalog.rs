//! Reading a lake's catalog tables directly.
//!
//! Catalog rows carry the snapshots they were valid from and to, so selecting a
//! snapshot and filtering on it gives a consistent view of that moment.
use vstd::prelude::*;
use crate::data::lake_db::Snapshot;
use crate::text;
use crate::text::{join_text, texts};

verus! {

/// A column of a table, as the catalog declares it.
#[derive(Debug)]
pub struct ColumnInfo {
    pub name: String,
    pub ty: String,
    pub nullable: bool,
}

/// One file of a table.
#[derive(Debug)]
pub struct DataFile {
    pub id: i64,
    pub path: String,
    pub record_count: u64,
    pub file_size: u64,
    /// The partition it belongs to, as columns and values in key order. Empty
    /// for a table that has no partitions.
    pub partition: Vec<(String, String)>,
}

pub open spec fn equations(partition: Seq<(String, String)>) -> Seq<Seq<char>> {
    partition.map_values(|kv: (String, String)| kv.0@ + "="@ + kv.1@)
}

/// A path without the slashes that it ends in.
pub open spec fn without_slashes(path: Seq<char>) -> Seq<char>
    decreases path.len(),
{
    if path.len() > 0 && path.last() == '/' {
        without_slashes(path.drop_last())
    } else {
        path
    }
}

/// What stands behind the last slash.
pub open spec fn behind_slash(path: Seq<char>) -> Seq<char>
    decreases path.len(),
{
    if path.len() == 0 || path.last() == '/' {
        Seq::empty()
    } else {
        behind_slash(path.drop_last()).push(path.last())
    }
}

fn trim_slashes(path: &str) -> (out: String)
    ensures
        out@ == without_slashes(path@),
{
    let chars = text::chars(path);
    let mut n: usize = chars.len();
    assert(path@.take(n as int) =~= path@);
    while n > 0 && chars[n - 1] == '/'
        invariant
            n <= chars@.len(),
            chars@ == path@,
            without_slashes(path@.take(n as int)) == without_slashes(path@),
        decreases n,
    {
        assert(path@.take(n as int).drop_last() =~= path@.take(n - 1));
        n -= 1;
    }
    assert(n > 0 ==> path@.take(n as int).last() == chars@[n - 1]);
    let out = text::from_chars(vstd::slice::slice_subrange(chars.as_slice(), 0, n));
    assert(out@ =~= path@.take(n as int));
    out
}

fn last_part(path: &str) -> (out: String)
    ensures
        out@ == behind_slash(path@),
{
    let chars = text::chars(path);
    let mut from: usize = chars.len();
    assert(path@.take(from as int) =~= path@);
    while from > 0 && chars[from - 1] != '/'
        invariant
            from <= chars@.len(),
            chars@ == path@,
            behind_slash(path@) == behind_slash(path@.take(from as int)) + path@.skip(from as int),
        decreases from,
    {
        let ghost upto = path@.take(from as int);
        assert(upto.drop_last() =~= path@.take(from - 1));
        assert(behind_slash(upto.drop_last()).push(upto.last()) + path@.skip(from as int)
            =~= behind_slash(upto.drop_last()) + path@.skip(from - 1));
        from -= 1;
    }
    assert(from > 0 ==> path@.take(from as int).last() == chars@[from - 1]);
    let out = text::from_chars(vstd::slice::slice_subrange(chars.as_slice(), from, chars.len()));
    assert(out@ =~= path@.skip(from as int));
    assert(behind_slash(path@) =~= out@);
    out
}

/// A path below another, unless it says where it stands itself.
pub open spec fn below(base: Seq<char>, path: Seq<char>) -> Seq<char> {
    if path.len() > 0 && path[0] == '/' {
        path
    } else if base.len() == 0 || base.last() == '/' {
        base + path
    } else {
        base + "/"@ + path
    }
}

/// A path of the catalog, which is relative to another or stands by itself.
pub open spec fn path_text(base: Seq<char>, path: Seq<char>, relative: bool) -> Seq<char> {
    let trimmed = without_slashes(path);
    if relative {
        below(base, trimmed)
    } else {
        trimmed
    }
}

/// Where a path of the catalog leads.
pub fn join_path(base: &str, path: &str, relative: bool) -> (out: String)
    ensures
        out@ == path_text(base@, path@, relative),
{
    let trimmed = trim_slashes(path);
    if !relative {
        return trimmed;
    }
    let parts = text::chars(trimmed.as_str());
    if parts.len() > 0 && parts[0] == '/' {
        return trimmed;
    }
    let front = text::chars(base);
    let mut out = base.to_owned();
    if front.len() > 0 && front[front.len() - 1] != '/' {
        text::push_str(&mut out, "/");
    }
    text::push_str(&mut out, trimmed.as_str());
    out
}

/// Where the files of a lake are. The catalog records the directory of the
/// machine that built the lake, which is wrong once the lake is copied. So it is
/// taken where it still stands; failing that the directory of the same name
/// beside the catalog, where there is one, and else the catalog's own.
pub fn resolve_data_root(dir: &str, declared: &str, stands: bool, beside: Option<&str>) -> (out: String)
    ensures
        out@ == ({
            let trimmed = without_slashes(declared@);
            if trimmed.len() == 0 {
                dir@
            } else if stands {
                trimmed
            } else {
                match beside {
                    Some(path) => path@,
                    None => dir@,
                }
            }
        }),
{
    let trimmed = trim_slashes(declared);
    if text::chars(trimmed.as_str()).len() == 0 {
        return dir.to_owned();
    }
    if stands {
        return trimmed;
    }
    match beside {
        Some(path) => path.to_owned(),
        None => dir.to_owned(),
    }
}

impl DataFile {
    pub open spec fn label_text(self) -> Seq<char> {
        if self.partition@.len() == 0 {
            let name = behind_slash(without_slashes(self.path@));
            if name.len() == 0 || name == ".."@ {
                "<file>"@
            } else {
                name
            }
        } else {
            join_text(equations(self.partition@), "/"@)
        }
    }

    /// The partition values where there are any, and else the name of the file.
    pub fn label(&self) -> (out: String)
        ensures
            out@ == self.label_text(),
    {
        if self.partition.is_empty() {
            let name = last_part(trim_slashes(self.path.as_str()).as_str());
            if text::chars(name.as_str()).len() == 0 || text::same(name.as_str(), "..") {
                return "<file>".to_owned();
            }
            return name;
        }
        let mut parts: Vec<String> = Vec::new();
        let mut i: usize = 0;
        while i < self.partition.len()
            invariant
                i <= self.partition@.len(),
                parts@.len() == i,
                forall|k: int|
                    0 <= k < i ==> (#[trigger] parts@[k])@ == equations(self.partition@)[k],
            decreases self.partition@.len() - i,
        {
            let kv = &self.partition[i];
            let mut part = text::joined(kv.0.as_str(), "=");
            text::push_str(&mut part, kv.1.as_str());
            parts.push(part);
            i += 1;
        }
        assert(texts(parts@) =~= equations(self.partition@));
        text::join(&parts, "/")
    }
}

/// What a column of a catalog table is called behind an alias, or without one.
pub open spec fn qualified(alias: Seq<char>, column: Seq<char>) -> Seq<char> {
    if alias.len() == 0 {
        column
    } else {
        alias + "."@ + column
    }
}

/// The condition that holds of the rows visible at a snapshot.
pub open spec fn visible_text(alias: Seq<char>) -> Seq<char> {
    qualified(alias, "begin_snapshot"@) + " <= ?1 AND ("@ + qualified(alias, "end_snapshot"@)
        + " IS NULL OR "@ + qualified(alias, "end_snapshot"@) + " > ?1)"@
}

fn qualify(alias: &str, column: &str) -> (out: String)
    ensures
        out@ == qualified(alias@, column@),
{
    if alias.is_empty() {
        column.to_owned()
    } else {
        let mut out = text::joined(alias, ".");
        text::push_str(&mut out, column);
        out
    }
}

/// The condition that restricts a catalog table to the rows visible at the
/// snapshot given as the first parameter.
pub fn visible(alias: &str) -> (out: String)
    ensures
        out@ == visible_text(alias@),
{
    let mut out = qualify(alias, "begin_snapshot");
    text::push_str(&mut out, " <= ?1 AND (");
    text::push_str(&mut out, qualify(alias, "end_snapshot").as_str());
    text::push_str(&mut out, " IS NULL OR ");
    text::push_str(&mut out, qualify(alias, "end_snapshot").as_str());
    text::push_str(&mut out, " > ?1)");
    out
}

/// Digits and underscores, and at least one of them.
pub open spec fn is_suffix_text(rest: Seq<char>) -> bool {
    rest.len() > 0 && forall|i: int|
        0 <= i < rest.len() ==> #[trigger] rest[i] == '_' || '0' <= rest[i] <= '9'
}

/// A table of rows kept in the catalog itself, by its name. The name goes into a
/// query, so only the shape that is documented will do.
pub open spec fn is_inlined_text(name: Seq<char>) -> bool {
    let front = "ducklake_inlined_data_"@;
    front.is_prefix_of(name) && is_suffix_text(name.skip(front.len() as int))
}

pub fn is_inlined(name: &str) -> (b: bool)
    ensures
        b == is_inlined_text(name@),
{
    let front = "ducklake_inlined_data_";
    if !text::starts_with(name, front) {
        return false;
    }
    let chars = text::chars(name);
    let n = text::length(front);
    let ghost rest = name@.skip(n as int);
    if chars.len() == n {
        return false;
    }
    let mut i: usize = n;
    while i < chars.len()
        invariant
            n <= i <= chars@.len(),
            chars@ == name@,
            n == "ducklake_inlined_data_"@.len(),
            rest == name@.skip(n as int),
            forall|k: int| 0 <= k < i - n ==> #[trigger] rest[k] == '_' || '0' <= rest[k] <= '9',
        decreases chars@.len() - i,
    {
        assert(rest[i - n] == chars@[i as int]);
        let c = chars[i];
        if c != '_' && !('0' <= c && c <= '9') {
            return false;
        }
        i += 1;
    }
    true
}

/// Partition columns with the values of a file, as far as both go.
pub fn paired(columns: &Vec<String>, values: &Vec<String>) -> (out: Vec<(String, String)>)
    ensures
        out@.len() == if columns@.len() < values@.len() { columns@.len() } else { values@.len() },
        forall|i: int|
            0 <= i < out@.len() ==> (#[trigger] out@[i]).0@ == columns@[i]@ && out@[i].1@ == values@[i]@,
{
    let mut out: Vec<(String, String)> = Vec::new();
    let mut i: usize = 0;
    while i < columns.len() && i < values.len()
        invariant
            i <= columns@.len(),
            i <= values@.len(),
            out@.len() == i,
            forall|k: int|
                0 <= k < i ==> (#[trigger] out@[k]).0@ == columns@[k]@ && out@[k].1@ == values@[k]@,
        decreases columns@.len() - i,
    {
        out.push((columns[i].clone(), values[i].clone()));
        i += 1;
    }
    out
}

/// The values that rows have under a number, in their order.
pub open spec fn values_under(rows: Seq<(i64, String)>, id: i64) -> Seq<Seq<char>>
    decreases rows.len(),
{
    if rows.len() == 0 {
        Seq::empty()
    } else {
        let before = values_under(rows.drop_last(), id);
        if rows.last().0 == id {
            before.push(rows.last().1@)
        } else {
            before
        }
    }
}

fn take_values(rows: &Vec<(i64, String)>, id: i64) -> (out: Vec<String>)
    ensures
        texts(out@) == values_under(rows@, id),
{
    let mut out: Vec<String> = Vec::new();
    let mut i: usize = 0;
    assert(texts(out@) =~= Seq::empty());
    while i < rows.len()
        invariant
            i <= rows@.len(),
            texts(out@) == values_under(rows@.take(i as int), id),
        decreases rows@.len() - i,
    {
        let ghost before = out@;
        assert(rows@.take(i + 1).drop_last() =~= rows@.take(i as int));
        if rows[i].0 == id {
            out.push(rows[i].1.clone());
            assert(texts(out@) =~= texts(before).push(rows@[i as int].1@));
        }
        i += 1;
    }
    assert(rows@.take(i as int) =~= rows@);
    out
}

/// The columns that rows have under a number, in their order.
pub open spec fn columns_under(rows: Seq<(i64, ColumnInfo)>, id: i64) -> Seq<ColumnInfo>
    decreases rows.len(),
{
    if rows.len() == 0 {
        Seq::empty()
    } else {
        let before = columns_under(rows.drop_last(), id);
        if rows.last().0 == id {
            before.push(rows.last().1)
        } else {
            before
        }
    }
}

/// Columns with the same names, types and bounds.
pub open spec fn are_alike(a: Seq<ColumnInfo>, b: Seq<ColumnInfo>) -> bool {
    &&& a.len() == b.len()
    &&& forall|c: int|
        0 <= c < a.len() ==> (#[trigger] a[c]).name@ == b[c].name@ && a[c].ty@ == b[c].ty@ && a[c].nullable
            == b[c].nullable
}

fn take_columns(rows: &Vec<(i64, ColumnInfo)>, id: i64) -> (out: Vec<ColumnInfo>)
    ensures
        are_alike(out@, columns_under(rows@, id)),
{
    let mut out: Vec<ColumnInfo> = Vec::new();
    let mut i: usize = 0;
    while i < rows.len()
        invariant
            i <= rows@.len(),
            are_alike(out@, columns_under(rows@.take(i as int), id)),
        decreases rows@.len() - i,
    {
        assert(rows@.take(i + 1).drop_last() =~= rows@.take(i as int));
        if rows[i].0 == id {
            let column = &rows[i].1;
            out.push(
                ColumnInfo { name: column.name.clone(), ty: column.ty.clone(), nullable: column.nullable },
            );
        }
        i += 1;
    }
    assert(rows@.take(i as int) =~= rows@);
    out
}

/// What the statistics say of a table, records and bytes: the last word counts.
pub open spec fn stats_of(stats: Seq<(i64, i64, i64)>, id: i64) -> (u64, u64)
    decreases stats.len(),
{
    if stats.len() == 0 {
        (0, 0)
    } else if stats.last().0 == id {
        (stats.last().1 as u64, stats.last().2 as u64)
    } else {
        stats_of(stats.drop_last(), id)
    }
}

fn find_stats(stats: &Vec<(i64, i64, i64)>, id: i64) -> (out: (u64, u64))
    ensures
        out == stats_of(stats@, id),
{
    let mut n: usize = stats.len();
    assert(stats@.take(n as int) =~= stats@);
    while n > 0
        invariant
            n <= stats@.len(),
            stats_of(stats@.take(n as int), id) == stats_of(stats@, id),
        decreases n,
    {
        let row = stats[n - 1];
        assert(stats@.take(n as int).last() == row);
        if row.0 == id {
            return (row.1 as u64, row.2 as u64);
        }
        assert(stats@.take(n as int).drop_last() =~= stats@.take(n - 1));
        n -= 1;
    }
    (0, 0)
}

/// How many rows of a table the catalog keeps itself.
pub open spec fn inlined_of(counts: Seq<(i64, i64)>, id: i64) -> nat
    decreases counts.len(),
{
    if counts.len() == 0 {
        0
    } else {
        inlined_of(counts.drop_last(), id) + if counts.last().0 == id {
            counts.last().1 as u64 as nat
        } else {
            0nat
        }
    }
}

proof fn lemma_inlined_grows(counts: Seq<(i64, i64)>, id: i64, n: int)
    requires
        0 <= n <= counts.len(),
    ensures
        inlined_of(counts.take(n), id) <= inlined_of(counts, id),
    decreases counts.len() - n,
{
    if n == counts.len() {
        assert(counts.take(n) =~= counts);
    } else {
        lemma_inlined_grows(counts, id, n + 1);
        assert(counts.take(n + 1).drop_last() =~= counts.take(n));
    }
}

fn sum_inlined(counts: &Vec<(i64, i64)>, id: i64) -> (out: u64)
    requires
        inlined_of(counts@, id) <= u64::MAX,
    ensures
        out == inlined_of(counts@, id),
{
    let mut out: u64 = 0;
    let mut i: usize = 0;
    while i < counts.len()
        invariant
            i <= counts@.len(),
            inlined_of(counts@, id) <= u64::MAX,
            out == inlined_of(counts@.take(i as int), id),
        decreases counts@.len() - i,
    {
        assert(counts@.take(i + 1).drop_last() =~= counts@.take(i as int));
        proof {
            lemma_inlined_grows(counts@, id, i + 1);
        }
        if counts[i].0 == id {
            out = out + counts[i].1 as u64;
        }
        i += 1;
    }
    assert(counts@.take(i as int) =~= counts@);
    out
}

/// A table as the catalog lists it.
#[derive(Debug)]
pub struct TableRow {
    pub table_id: i64,
    pub schema_name: String,
    pub name: String,
    pub schema_path: String,
    pub schema_relative: bool,
    pub table_path: String,
    pub table_relative: bool,
}

/// A file of a table as the catalog lists it.
#[derive(Debug)]
pub struct FileRow {
    pub table_id: i64,
    pub id: i64,
    pub path: String,
    pub relative: bool,
    pub record_count: i64,
    pub file_size: i64,
}

/// What the catalog says of all its tables at a snapshot.
#[derive(Debug)]
pub struct Listing {
    pub tables: Vec<TableRow>,
    pub files: Vec<FileRow>,
    /// Columns under the numbers of their tables.
    pub columns: Vec<(i64, ColumnInfo)>,
    /// The columns that tables are partitioned by, under the tables' numbers.
    pub partition_cols: Vec<(i64, String)>,
    /// Partition values under the numbers of the files.
    pub file_partitions: Vec<(i64, String)>,
    /// Records and bytes of tables.
    pub stats: Vec<(i64, i64, i64)>,
    /// Rows kept in the catalog, under the numbers of their tables.
    pub inlined: Vec<(i64, i64)>,
}

/// A table of a lake at a snapshot.
#[derive(Debug)]
pub struct TableInfo {
    pub table_id: i64,
    pub schema_name: String,
    pub name: String,
    pub record_count: u64,
    pub file_size: u64,
    pub partition_cols: Vec<String>,
    pub columns: Vec<ColumnInfo>,
    pub files: Vec<DataFile>,
    /// Rows held in the catalog rather than in files, which a scan of the files
    /// does not see.
    pub inlined_rows: u64,
}

impl TableRow {
    /// The directory of the table.
    pub open spec fn directory(self, root: Seq<char>) -> Seq<char> {
        path_text(
            path_text(root, self.schema_path@, self.schema_relative),
            self.table_path@,
            self.table_relative,
        )
    }
}

/// The files listed for a table, in their order.
pub open spec fn files_under(rows: Seq<FileRow>, id: i64) -> Seq<FileRow> {
    rows.filter(|row: FileRow| row.table_id == id)
}

/// Columns with values, as far as both go.
pub open spec fn are_paired(pairs: Seq<(String, String)>, columns: Seq<Seq<char>>, values: Seq<Seq<char>>) -> bool {
    &&& pairs.len() == if columns.len() < values.len() { columns.len() } else { values.len() }
    &&& forall|i: int|
        0 <= i < pairs.len() ==> (#[trigger] pairs[i]).0@ == columns[i] && pairs[i].1@ == values[i]
}

impl Listing {
    /// What a listed file comes to.
    pub open spec fn is_file(self, file: DataFile, row: FileRow, directory: Seq<char>) -> bool {
        &&& file.id == row.id
        &&& file.path@ == path_text(directory, row.path@, row.relative)
        &&& file.record_count == row.record_count as u64
        &&& file.file_size == row.file_size as u64
        &&& are_paired(
            file.partition@,
            values_under(self.partition_cols@, row.table_id),
            values_under(self.file_partitions@, row.id),
        )
    }

    /// What a listed table comes to.
    pub open spec fn is_table(self, table: TableInfo, row: TableRow, root: Seq<char>) -> bool {
        let id = row.table_id;
        let listed = files_under(self.files@, id);
        &&& table.table_id == id
        &&& table.schema_name@ == row.schema_name@
        &&& table.name@ == row.name@
        &&& (table.record_count, table.file_size) == stats_of(self.stats@, id)
        &&& texts(table.partition_cols@) == values_under(self.partition_cols@, id)
        &&& are_alike(table.columns@, columns_under(self.columns@, id))
        &&& table.files@.len() == listed.len()
        &&& forall|f: int|
            0 <= f < listed.len() ==> self.is_file(
                #[trigger] table.files@[f],
                listed[f],
                row.directory(root),
            )
        &&& table.inlined_rows == inlined_of(self.inlined@, id)
    }

    /// The counts of rows kept in the catalog can be added up.
    pub open spec fn counts_fit(self) -> bool {
        forall|t: int|
            0 <= t < self.tables@.len() ==> inlined_of(
                self.inlined@,
                (#[trigger] self.tables@[t]).table_id,
            ) <= u64::MAX
    }

    fn file(&self, row: &FileRow, columns: &Vec<String>, directory: &str) -> (file: DataFile)
        requires
            texts(columns@) == values_under(self.partition_cols@, row.table_id),
        ensures
            self.is_file(file, *row, directory@),
    {
        let values = take_values(&self.file_partitions, row.id);
        let partition = paired(columns, &values);
        proof {
            assert(texts(columns@).len() == columns@.len());
            assert(texts(values@).len() == values@.len());
            assert forall|i: int| 0 <= i < partition@.len() implies (#[trigger] partition@[i]).0@ == texts(
                columns@,
            )[i] && partition@[i].1@ == texts(values@)[i] by {}
        }
        DataFile {
            id: row.id,
            path: join_path(directory, row.path.as_str(), row.relative),
            record_count: row.record_count as u64,
            file_size: row.file_size as u64,
            partition,
        }
    }

    fn files_in(&self, id: i64, columns: &Vec<String>, directory: &str) -> (out: Vec<DataFile>)
        requires
            texts(columns@) == values_under(self.partition_cols@, id),
        ensures
            out@.len() == files_under(self.files@, id).len(),
            forall|f: int|
                0 <= f < out@.len() ==> self.is_file(
                    #[trigger] out@[f],
                    files_under(self.files@, id)[f],
                    directory@,
                ),
    {
        let mut out: Vec<DataFile> = Vec::new();
        let mut i: usize = 0;
        proof {
            reveal(Seq::filter);
        }
        while i < self.files.len()
            invariant
                i <= self.files@.len(),
                texts(columns@) == values_under(self.partition_cols@, id),
                out@.len() == files_under(self.files@.take(i as int), id).len(),
                forall|f: int|
                    0 <= f < out@.len() ==> self.is_file(
                        #[trigger] out@[f],
                        files_under(self.files@.take(i as int), id)[f],
                        directory@,
                    ),
            decreases self.files@.len() - i,
        {
            proof {
                reveal(Seq::filter);
                assert(self.files@.take(i + 1).drop_last() =~= self.files@.take(i as int));
            }
            if self.files[i].table_id == id {
                let file = self.file(&self.files[i], columns, directory);
                out.push(file);
            }
            i += 1;
        }
        assert(self.files@.take(i as int) =~= self.files@);
        out
    }

    /// The tables of a lake, each with what the catalog says of it. The directory
    /// of a table lies below that of its schema, which lies below the root,
    /// unless either says where it stands itself.
    pub fn read_tables(&self, root: &str) -> (out: Vec<TableInfo>)
        requires
            self.counts_fit(),
        ensures
            out@.len() == self.tables@.len(),
            forall|t: int|
                0 <= t < out@.len() ==> self.is_table(#[trigger] out@[t], self.tables@[t], root@),
    {
        let mut out: Vec<TableInfo> = Vec::new();
        let mut t: usize = 0;
        while t < self.tables.len()
            invariant
                t <= self.tables@.len(),
                self.counts_fit(),
                out@.len() == t,
                forall|k: int|
                    0 <= k < t ==> self.is_table(#[trigger] out@[k], self.tables@[k], root@),
            decreases self.tables@.len() - t,
        {
            let row = &self.tables[t];
            assert(inlined_of(self.inlined@, self.tables@[t as int].table_id) <= u64::MAX);
            let id = row.table_id;
            let schema = join_path(root, row.schema_path.as_str(), row.schema_relative);
            let directory = join_path(schema.as_str(), row.table_path.as_str(), row.table_relative);
            let partition_cols = take_values(&self.partition_cols, id);
            let files = self.files_in(id, &partition_cols, directory.as_str());
            let (record_count, file_size) = find_stats(&self.stats, id);
            out.push(
                TableInfo {
                    table_id: id,
                    schema_name: row.schema_name.clone(),
                    name: row.name.clone(),
                    record_count,
                    file_size,
                    partition_cols,
                    columns: take_columns(&self.columns, id),
                    files,
                    inlined_rows: sum_inlined(&self.inlined, id),
                },
            );
            t += 1;
        }
        out
    }
}

/// A name is among some.
pub open spec fn is_among(name: Seq<char>, names: Seq<String>) -> bool {
    exists|k: int| 0 <= k < names.len() && (#[trigger] names[k])@ == name
}

fn among(name: &str, names: &Vec<String>) -> (b: bool)
    ensures
        b == is_among(name@, names@),
{
    let mut k: usize = 0;
    while k < names.len()
        invariant
            k <= names@.len(),
            forall|j: int| 0 <= j < k ==> (#[trigger] names@[j])@ != name@,
        decreases names@.len() - k,
    {
        if text::same(names[k].as_str(), name) {
            return true;
        }
        k += 1;
    }
    false
}

/// The partition columns that a file does not hold itself, with their values.
pub open spec fn missing_of(partition: Seq<(String, String)>, physical: Seq<String>) -> Seq<(Seq<char>, Seq<char>)>
    decreases partition.len(),
{
    if partition.len() == 0 {
        Seq::empty()
    } else {
        let before = missing_of(partition.drop_last(), physical);
        let (name, value) = partition.last();
        if is_among(name@, physical) {
            before
        } else {
            before.push((name@, value@))
        }
    }
}

/// A name is that of one of some partition columns.
pub open spec fn is_partition(name: Seq<char>, partition: Seq<(String, String)>) -> bool {
    exists|k: int| 0 <= k < partition.len() && (#[trigger] partition[k]).0@ == name
}

/// The columns of a table that a file can supply, in the order of the catalog.
pub open spec fn supplied_of(
    columns: Seq<ColumnInfo>,
    partition: Seq<(String, String)>,
    physical: Seq<String>,
) -> Seq<Seq<char>>
    decreases columns.len(),
{
    if columns.len() == 0 {
        Seq::empty()
    } else {
        let before = supplied_of(columns.drop_last(), partition, physical);
        let name = columns.last().name@;
        if is_among(name, physical) || is_partition(name, partition) {
            before.push(name)
        } else {
            before
        }
    }
}

pub open spec fn pair_text(pairs: Seq<(String, String)>) -> Seq<(Seq<char>, Seq<char>)> {
    pairs.map_values(|pair: (String, String)| (pair.0@, pair.1@))
}

impl DataFile {
    fn has_partition(&self, name: &str) -> (b: bool)
        ensures
            b == is_partition(name@, self.partition@),
    {
        let mut k: usize = 0;
        while k < self.partition.len()
            invariant
                k <= self.partition@.len(),
                forall|j: int| 0 <= j < k ==> (#[trigger] self.partition@[j]).0@ != name@,
            decreases self.partition@.len() - k,
        {
            if text::same(self.partition[k].0.as_str(), name) {
                return true;
            }
            k += 1;
        }
        false
    }

    /// The partition columns to be put in when the file is read. They stand in
    /// the path of a file, and usually only there, but a writer is free to store
    /// them too.
    pub fn missing(&self, physical: &Vec<String>) -> (out: Vec<(String, String)>)
        ensures
            pair_text(out@) == missing_of(self.partition@, physical@),
    {
        let mut out: Vec<(String, String)> = Vec::new();
        let mut i: usize = 0;
        assert(pair_text(out@) =~= Seq::empty());
        while i < self.partition.len()
            invariant
                i <= self.partition@.len(),
                pair_text(out@) == missing_of(self.partition@.take(i as int), physical@),
            decreases self.partition@.len() - i,
        {
            let ghost before = out@;
            assert(self.partition@.take(i + 1).drop_last() =~= self.partition@.take(i as int));
            let pair = &self.partition[i];
            if !among(pair.0.as_str(), physical) {
                out.push((pair.0.clone(), pair.1.clone()));
                assert(pair_text(out@) =~= pair_text(before).push((pair.0@, pair.1@)));
            }
            i += 1;
        }
        assert(self.partition@.take(i as int) =~= self.partition@);
        out
    }
}

impl TableInfo {
    pub fn qualified_name(&self) -> (out: String)
        ensures
            out@ == self.schema_name@ + "."@ + self.name@,
    {
        let mut out = text::joined(self.schema_name.as_str(), ".");
        text::push_str(&mut out, self.name.as_str());
        out
    }

    /// The columns to be read from a file: those of the catalog, in its order,
    /// but for any the file cannot supply, such as one added later.
    pub fn supplied(&self, file: &DataFile, physical: &Vec<String>) -> (out: Vec<String>)
        ensures
            texts(out@) == supplied_of(self.columns@, file.partition@, physical@),
    {
        let mut out: Vec<String> = Vec::new();
        let mut i: usize = 0;
        assert(texts(out@) =~= Seq::empty());
        while i < self.columns.len()
            invariant
                i <= self.columns@.len(),
                texts(out@) == supplied_of(self.columns@.take(i as int), file.partition@, physical@),
            decreases self.columns@.len() - i,
        {
            let ghost before = out@;
            assert(self.columns@.take(i + 1).drop_last() =~= self.columns@.take(i as int));
            let name = &self.columns[i].name;
            if among(name.as_str(), physical) || file.has_partition(name.as_str()) {
                out.push(name.clone());
                assert(texts(out@) =~= texts(before).push(name@));
            }
            i += 1;
        }
        assert(self.columns@.take(i as int) =~= self.columns@);
        out
    }

    /// Why files of a table cannot be scanned: there are none.
    pub fn scan_blocked(&self, files: &Vec<DataFile>) -> (why: Option<String>)
        ensures
            match why {
                Some(text) => files@.len() == 0 && text@ == "table "@ + (self.schema_name@ + "."@
                    + self.name@) + " has no data files"@,
                None => files@.len() > 0,
            },
    {
        if files.is_empty() {
            let mut out = text::joined("table ", self.qualified_name().as_str());
            text::push_str(&mut out, " has no data files");
            Some(out)
        } else {
            None
        }
    }
}

/// The snapshot that a catalog is resolved at: the one asked for, or the newest.
pub fn snapshot_at(snapshots: &Vec<Snapshot>, wanted: Option<i64>) -> (id: i64)
    ensures
        id == match wanted {
            Some(id) => id,
            None => if snapshots@.len() == 0 {
                0
            } else {
                snapshots@.last().id
            },
        },
{
    match wanted {
        Some(id) => id,
        None => {
            let n: usize = snapshots.len();
            if n == 0 {
                0
            } else {
                snapshots[n - 1].id
            }
        },
    }
}

} // verus!
