//! Columns inside documents: reading the value that a path of keys leads to,
//! and finding the keys that the documents of a column have.
use vstd::prelude::*;
use crate::data::json::Kind;
use crate::data::json_path::{find, keys_of, value_under};
use crate::data::jsonl;
use crate::data::jsonl::{
    cell_text, cut, line_spans, maybe_text, page_lines, span_lines, ColumnType, Fields, Found,
};
use crate::data::store::SAMPLE_RECORDS;
use crate::data::typed::{typed, typed_cell};

verus! {

/// What a line shows of the value that a path leads to.
pub open spec fn path_cell(line: Seq<u8>, path: Seq<Seq<u8>>) -> Option<Seq<char>> {
    match value_under(line, path) {
        None => None,
        Some((kind, raw)) => cell_text(kind, raw),
    }
}

fn cell_at(line: &[u8], path: &[String]) -> (out: Option<String>)
    ensures
        maybe_text(out) == path_cell(line@, keys_of(path@)),
{
    match find(line, path) {
        Some((kind, raw)) => jsonl::text(kind, raw),
        None => None,
    }
}

/// One column of a page: what the path leads to on each line, as the column's
/// type has it.
pub open spec fn is_column(
    column: Vec<Option<String>>,
    lines: Seq<Seq<u8>>,
    path: Seq<Seq<u8>>,
    kind: ColumnType,
) -> bool {
    &&& column@.len() == lines.len()
    &&& forall|r: int|
        0 <= r < lines.len() ==> maybe_text(#[trigger] column@[r]) == typed_cell(
            kind,
            path_cell(lines[r], path),
        )
}

/// Where the records of a page begin and end.
fn page_spans(bytes: &[u8], skip: usize, take: usize) -> (spans: Vec<(usize, usize)>)
    ensures
        cut(bytes@, spans@) == page_lines(bytes@, skip, take),
        forall|k: int| 0 <= k < spans@.len() ==> (#[trigger] spans@[k]).0 <= spans@[k].1 <= bytes@.len(),
{
    let all = line_spans(bytes);
    let n: usize = all.len();
    let from: usize = if skip < n { skip } else { n };
    let to: usize = if take < n - from { from + take } else { n };
    let mut spans: Vec<(usize, usize)> = Vec::new();
    let mut i: usize = from;
    while i < to
        invariant
            from <= i <= to <= all.len(),
            spans@ == all@.subrange(from as int, i as int),
        decreases to - i,
    {
        spans.push(all[i]);
        assert(all@.subrange(from as int, i + 1) =~= all@.subrange(from as int, i as int).push(
            all@[i as int],
        ));
        i += 1;
    }
    assert forall|k: int| 0 <= k < spans@.len() implies (#[trigger] spans@[k]).0 <= spans@[k].1
        <= bytes@.len() by {
        assert(spans@[k] == all@[from + k]);
    }
    assert(cut(bytes@, spans@) =~= cut(bytes@, all@).subrange(from as int, to as int));
    spans
}

/// Read a page: `take` records behind `skip` of those in `bytes`, a column for
/// each path, typed as it is said to be. A value that will not read as the type
/// is nothing, rather than failing the page.
pub fn page_under(
    bytes: &[u8],
    paths: &[&[String]],
    kinds: &[ColumnType],
    skip: usize,
    take: usize,
) -> (out: Vec<Vec<Option<String>>>)
    requires
        paths@.len() == kinds@.len(),
    ensures
        out@.len() == paths@.len(),
        forall|c: int|
            0 <= c < paths@.len() ==> is_column(
                #[trigger] out@[c],
                page_lines(bytes@, skip, take),
                keys_of(paths@[c]@),
                kinds@[c],
            ),
{
    let spans = page_spans(bytes, skip, take);
    let ghost lines = page_lines(bytes@, skip, take);
    let mut out: Vec<Vec<Option<String>>> = Vec::new();
    let mut c: usize = 0;
    while c < paths.len()
        invariant
            c <= paths.len(),
            paths@.len() == kinds@.len(),
            lines == cut(bytes@, spans@),
            forall|k: int|
                0 <= k < spans@.len() ==> (#[trigger] spans@[k]).0 <= spans@[k].1 <= bytes@.len(),
            out@.len() == c,
            forall|d: int|
                0 <= d < c ==> is_column(#[trigger] out@[d], lines, keys_of(paths@[d]@), kinds@[d]),
        decreases paths.len() - c,
    {
        let mut column: Vec<Option<String>> = Vec::new();
        let mut r: usize = 0;
        while r < spans.len()
            invariant
                r <= spans.len(),
                c < paths.len(),
                lines == cut(bytes@, spans@),
                forall|k: int|
                    0 <= k < spans@.len() ==> (#[trigger] spans@[k]).0 <= spans@[k].1 <= bytes@.len(),
                column@.len() == r,
                forall|k: int|
                    0 <= k < r ==> maybe_text(#[trigger] column@[k]) == path_cell(
                        lines[k],
                        keys_of(paths@[c as int]@),
                    ),
            decreases spans.len() - r,
        {
            assert(spans@[r as int].0 <= spans@[r as int].1 <= bytes@.len());
            let line = vstd::slice::slice_subrange(bytes, spans[r].0, spans[r].1);
            assert(lines[r as int] == line@);
            column.push(cell_at(line, paths[c]));
            r += 1;
        }
        out.push(typed(column, kinds[c]));
        c += 1;
    }
    out
}

/// Keys found in the documents of a column.
#[derive(Debug)]
pub struct Sample {
    pub fields: Fields,
    /// Every record with the column was read.
    pub complete: bool,
}

/// What has been found in the records read, and how many had the column.
#[verifier::ext_equal]
pub struct Sampled {
    pub found: Found,
    pub carried: nat,
    pub complete: bool,
}

/// The documents that a path leads to, as far as they are read: those of the
/// first [`SAMPLE_RECORDS`] records that have the column.
pub open spec fn sampled(lines: Seq<Seq<u8>>, path: Seq<Seq<u8>>) -> Sampled
    decreases lines.len(),
{
    if lines.len() == 0 {
        Sampled { found: Found::nothing(), carried: 0, complete: true }
    } else {
        let before = sampled(lines.drop_last(), path);
        match value_under(lines.last(), path) {
            None => before,
            Some((kind, raw)) => if before.carried >= SAMPLE_RECORDS {
                Sampled { complete: false, ..before }
            } else {
                Sampled {
                    found: if kind == Kind::Nested {
                        before.found.line(raw)
                    } else {
                        before.found
                    },
                    carried: before.carried + 1,
                    ..before
                }
            },
        }
    }
}

/// Read the documents that a path leads to for their keys.
pub fn sample_under(bytes: &[u8], path: &[String]) -> (out: Sample)
    ensures
        ({
            let want = sampled(span_lines(bytes@), keys_of(path@));
            out.fields.holds(want.found) && out.complete == want.complete
        }),
{
    let spans = line_spans(bytes);
    let ghost lines = span_lines(bytes@);
    let ghost keys = keys_of(path@);
    let mut fields = Fields::new();
    let mut carried: usize = 0;
    let mut complete = true;
    let mut r: usize = 0;
    assert(lines.take(0) =~= Seq::empty());
    while r < spans.len()
        invariant
            r <= spans.len(),
            lines == cut(bytes@, spans@),
            keys == keys_of(path@),
            forall|k: int|
                0 <= k < spans@.len() ==> (#[trigger] spans@[k]).0 <= spans@[k].1 <= bytes@.len(),
            carried <= SAMPLE_RECORDS,
            carried == sampled(lines.take(r as int), keys).carried,
            complete == sampled(lines.take(r as int), keys).complete,
            fields.holds(sampled(lines.take(r as int), keys).found),
            sampled(lines.take(r as int), keys).found.rows <= carried,
        decreases spans.len() - r,
    {
        assert(spans@[r as int].0 <= spans@[r as int].1 <= bytes@.len());
        let line = vstd::slice::slice_subrange(bytes, spans[r].0, spans[r].1);
        assert(lines[r as int] == line@);
        assert(lines.take(r + 1).drop_last() =~= lines.take(r as int));
        assert(lines.take(r + 1).last() == line@);
        if let Some((kind, raw)) = find(line, path) {
            if carried >= SAMPLE_RECORDS {
                complete = false;
            } else {
                if kind == Kind::Nested {
                    let ghost found = sampled(lines.take(r as int), keys).found;
                    proof {
                        jsonl::lemma_line_rows(found, raw@);
                    }
                    fields.record(raw, Ghost(found));
                }
                carried += 1;
            }
        }
        r += 1;
    }
    assert(lines.take(r as int) =~= lines);
    Sample { fields, complete }
}

} // verus!
