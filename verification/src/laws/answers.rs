//! What the functions of the library answer, put in terms of what they were
//! asked.
use vstd::prelude::*;
use vstd::utf8::encode_utf8;
use crate::app::session::{App, Block, SelectionMode};
use crate::data::edit::Overlay;
use crate::data::index::{header_end, RowIndex};
use crate::data::job::SortJob;
use crate::data::json_writer;
use crate::data::jsonl::{maybe_text, ColumnType};
use crate::data::lake_db::{
    count_sql, hive_keys, ident, keys_in, literal, match_indices_sql, page_sql, partitions_sql,
    shown_as, shown_type, upto, FileMap, LakeSource, Partition, Piece, TableInfo,
};
use crate::data::rows::{predicate, Predicate, RowSet};
use crate::data::scan::{height_of, is_named_table, kept};
use crate::data::span::distinct;
use crate::data::store::{Source, Store, Written};
use crate::data::writer::Stamp;
use crate::laws::filtering::{
    a_filter_keeps_what_every_condition_holds_of, holds_of, is_plausible,
};
use crate::laws::json_values::{
    a_number_is_written_as_it_was_typed, a_whole_number_is_written_as_it_was_typed, is_broken_number,
    is_whole_number, words_and_text_are_written_so,
};
use crate::laws::lake_queries::{
    a_path_names_the_keys_it_sets, a_search_of_every_column_asks_for_any,
    a_table_is_asked_for_whole_or_in_part, holds_row, pieces_hold_the_rows_asked_for, upto_a_character,
};
use crate::laws::selecting::a_selection_spans_its_two_ends;
use crate::laws::sorting::each_key_keeps_its_column_and_direction;
use crate::search::{SearchState, SearchStatus};
use crate::text::{decimal_text, is_space, join_text, split_text, texts};
use crate::view::Filter;

verus! {

/// A number typed into a column of numbers goes into a record as its own bytes,
/// a truth value typed into a column of them too, nothing as null, and anything
/// else as a string.
pub proof fn a_typed_value_goes_into_its_record(value: &str, kind: ColumnType, out: Vec<u8>)
    requires
        call_ensures(json_writer::encode, (value, kind), out),
        value@.len() > 0,
    ensures
        ({
            let text = encode_utf8(value@);
            let fits = match kind {
                ColumnType::Int => is_whole_number(text),
                ColumnType::Float => is_whole_number(text) || is_broken_number(text),
                ColumnType::Bool => text == seq!['t' as u8, 'r' as u8, 'u' as u8, 'e' as u8] || text == seq![
                    'f' as u8,
                    'a' as u8,
                    'l' as u8,
                    's' as u8,
                    'e' as u8,
                ],
                ColumnType::Text => false,
            };
            &&& fits ==> out@ == text
            &&& !fits ==> out@[0] == '"' as u8
        }),
{
    a_whole_number_is_written_as_it_was_typed(value@);
    a_number_is_written_as_it_was_typed(value@);
    words_and_text_are_written_so(value@, kind);
}

/// The keys that a table is sorted by are those of its view, one for one: the name
/// of the column and the direction of each.
pub proof fn the_keys_of_a_sort_are_those_of_the_view(store: &Store, out: Vec<(String, bool)>, job: SortJob, k: int)
    requires
        call_ensures(Store::sort_keys, (store,), out),
        call_ensures(Store::sort_job, (store,), job),
        forall|i: int| 0 <= i < store.view.sort@.len() ==> (#[trigger] store.view.sort@[i]).0 < store.names@.len(),
        0 <= k < store.view.sort@.len(),
    ensures
        out@.len() == store.view.sort@.len(),
        out@[k].0@ == store.names@[store.view.sort@[k].0 as int]@,
        out@[k].1 == store.view.sort@[k].1,
        job.keys@.len() == store.view.sort@.len(),
        job.keys@[k].0@ == store.names@[store.view.sort@[k].0 as int]@,
        job.keys@[k].1 == store.view.sort@[k].1,
        job.kinds@ == store.types@,
{
    let names = texts(store.names@);
    each_key_keeps_its_column_and_direction(names, store.view.sort@);
    let a = crate::data::lake_db::sort_keys(out@);
    let b = crate::data::lake_db::sort_keys(job.keys@);
    assert(a[k] == (out@[k].0@, out@[k].1));
    assert(b[k] == (job.keys@[k].0@, job.keys@[k].1));
}

/// The rows that a filter keeps are those of which all of its conditions hold.
pub proof fn the_rows_kept_are_those_the_conditions_hold_of(
    filter: &Filter,
    names: &[String],
    tests: Vec<Predicate>,
    asked: &[Predicate],
    columns: &Vec<Vec<Option<String>>>,
    start: usize,
    out: Option<Vec<usize>>,
    row: int,
)
    requires
        call_ensures(predicate, (filter, names), Some(tests)),
        call_ensures(kept, (columns, names, asked, start), out),
        asked@ == tests@,
        is_named_table(columns@, names@),
        distinct(names@),
        start + height_of(columns@) <= usize::MAX,
        0 <= row < height_of(columns@),
        out is Some,
        forall|i: int|
            0 <= i < filter.conditions@.len() ==> is_plausible(
                (#[trigger] filter.conditions@[i]).op,
                filter.conditions@[i].value,
            ),
    ensures
        out->Some_0@.contains((start + row) as usize) <==> forall|i: int|
            0 <= i < filter.conditions@.len() ==> holds_of(
                maybe_text(columns@[(#[trigger] filter.conditions@[i]).column as int]@[row]),
                filter.conditions@[i].op,
                filter.conditions@[i].value,
            ),
{
    a_filter_keeps_what_every_condition_holds_of(columns@, names@, *filter, tests@, row);
    let rows = out->Some_0@;
    let at = (start + row) as usize;
    assert(rows.contains(at) <==> start <= at < start + height_of(columns@) && crate::data::scan::keeps(
        columns@,
        names@,
        asked@,
        at - start,
    ));
}

/// A selection spans the spot where it was begun and the cursor.
pub proof fn a_selection_is_what_is_between_its_ends(app: &App, block: Option<Block>)
    requires
        call_ensures(App::visual_range, (app,), block),
        app@.store is Some,
        app@.width() <= usize::MAX,
    ensures
        app.visual_anchor is None ==> block is None,
        app.visual_anchor matches Some(anchor) ==> (block matches Some(b) && b.top <= b.bottom && b.left <= b.right
            && (app.selection_mode != SelectionMode::Column ==> b.top <= anchor.row <= b.bottom && b.top
            <= app.cursor_row <= b.bottom && (b.top == anchor.row || b.top == app.cursor_row) && (b.bottom
            == anchor.row || b.bottom == app.cursor_row)) && (app.selection_mode != SelectionMode::Row ==> b.left
            <= anchor.column <= b.right && b.left <= app.cursor_col <= b.right && (b.left == anchor.column
            || b.left == app.cursor_col) && (b.right == anchor.column || b.right == app.cursor_col))),
{
    if app.visual_anchor is Some {
        a_selection_spans_its_two_ends(app@, app.visual_anchor->Some_0);
    }
}

/// A search of a lake asks for the numbers of the rows that match, counted from
/// where the page searched starts. With a column more to search it asks for what
/// it asked for or a match in that column, and with one column in all for a match
/// in it.
pub proof fn a_search_of_a_lake_asks_for_any_column(
    source: &LakeSource,
    sort: &[(String, bool)],
    pattern: &str,
    offset: usize,
    limit: usize,
    fewer: &[String],
    more: &[String],
    column: &str,
    page: String,
    of_fewer: String,
    of_more: String,
    of_one: String,
)
    requires
        call_ensures(page_sql, (source, sort, offset, limit), page),
        call_ensures(match_indices_sql, (source, sort, None, pattern, offset, limit, fewer), of_fewer),
        call_ensures(match_indices_sql, (source, sort, None, pattern, offset, limit, more), of_more),
        call_ensures(match_indices_sql, (source, sort, Some(column), pattern, offset, limit, more), of_one),
        texts(more@) == texts(fewer@).push(column@),
    ensures
        ({
            let matches = "regexp_matches(CAST("@ + ident(column@) + " AS VARCHAR), "@ + literal(pattern@)
                + ", 'i')"@;
            let front = "SELECT idx FROM (\n           SELECT "@ + decimal_text(offset as nat)
                + " + row_number() OVER () - 1 AS idx, *\n           FROM ("@ + page@
                + ") chunk\n         ) numbered WHERE "@;
            &&& fewer@.len() > 0 ==> of_more@ == of_fewer@ + " OR "@ + matches
            &&& fewer@.len() == 0 ==> of_more@ == front + matches
            &&& of_one@ == front + matches
        }),
{
    a_search_of_every_column_asks_for_any(pattern@, texts(fewer@), column@);
    a_search_of_every_column_asks_for_any(pattern@, texts(more@), column@);
    let matches = "regexp_matches(CAST("@ + ident(column@) + " AS VARCHAR), "@ + literal(pattern@) + ", 'i')"@;
    let at = decimal_text(offset as nat);
    let (a, b, c) = (
        "SELECT idx FROM (\n           SELECT "@,
        " + row_number() OVER () - 1 AS idx, *\n           FROM ("@,
        ") chunk\n         ) numbered WHERE "@,
    );
    let rows = source.ordered_text(crate::data::lake_db::sort_keys(sort@));
    let (limited, from) = (" LIMIT "@ + decimal_text(limit as nat), " OFFSET "@ + at);
    assert(page@ =~= rows + limited + from);
    let front = a + at + b + page@ + c;
    assert(front =~= a + at + b + rows + " LIMIT "@ + decimal_text(limit as nat) + " OFFSET "@ + at + c);
    if fewer@.len() > 0 {
        let before = crate::data::lake_db::search_predicate(None, pattern@, texts(fewer@));
        assert(of_fewer@ =~= front + before);
        assert(of_more@ =~= front + (before + " OR "@ + matches));
        assert(of_more@ =~= of_fewer@ + " OR "@ + matches);
    } else {
        assert(texts(more@) =~= seq![column@]);
        assert(of_more@ =~= front + matches);
    }
    assert(of_one@ =~= front + matches);
}

/// A page of a lake's table is so many rows from an offset on, in the order of the
/// keys, of the table or of the part of it that is open; and as many are counted.
pub proof fn a_page_of_a_lake_is_asked_for(
    source: &LakeSource,
    sort: &[(String, bool)],
    offset: usize,
    limit: usize,
    page: String,
    count: String,
)
    requires
        call_ensures(page_sql, (source, sort, offset, limit), page),
        call_ensures(count_sql, (source,), count),
    ensures
        ({
            let from = match source.filter {
                None => source.table@,
                Some(f) => source.table@ + " WHERE "@ + f@,
            };
            let rest = " LIMIT "@ + decimal_text(limit as nat) + " OFFSET "@ + decimal_text(offset as nat);
            &&& count@ == "SELECT count(*) FROM "@ + from
            &&& sort@.len() == 0 ==> page@ == "SELECT * FROM "@ + from + rest
            &&& sort@.len() > 0 ==> page@ == "SELECT * FROM "@ + from + " ORDER BY "@
                + crate::data::lake_db::order_by(crate::data::lake_db::sort_keys(sort@)) + rest
        }),
{
    let keys = crate::data::lake_db::sort_keys(sort@);
    a_table_is_asked_for_whole_or_in_part(*source, keys);
    let (l, o) = (" LIMIT "@ + decimal_text(limit as nat), " OFFSET "@ + decimal_text(offset as nat));
    let rows = source.ordered_text(keys);
    assert(page@ =~= rows + (" LIMIT "@ + decimal_text(limit as nat) + " OFFSET "@ + decimal_text(
        offset as nat,
    )));
    if sort@.len() == 0 {
        assert(keys =~= Seq::empty());
    }
}

/// The partitions of a table are asked for by its partition columns, the largest
/// first, and only where it has such columns.
pub proof fn partitions_are_asked_for_by_their_columns(table: &TableInfo, out: Option<String>)
    requires
        call_ensures(partitions_sql, (table,), out),
    ensures
        out is Some <==> table.partition_cols@.len() > 0,
        table.partition_cols@.len() == 1 ==> (out matches Some(sql) && sql@ == "SELECT "@ + ident(
            table.partition_cols@[0]@,
        ) + ", count(*) FROM "@ + table.reference() + " GROUP BY ALL ORDER BY count(*) DESC"@),
        table.partition_cols@.len() == 2 ==> (out matches Some(sql) && sql@ == "SELECT "@ + (ident(
            table.partition_cols@[0]@,
        ) + ", "@ + ident(table.partition_cols@[1]@)) + ", count(*) FROM "@ + table.reference()
            + " GROUP BY ALL ORDER BY count(*) DESC"@),
{
    let names = texts(table.partition_cols@).map_values(|c: Seq<char>| ident(c));
    if names.len() == 1 {
        assert(names =~= seq![ident(table.partition_cols@[0]@)]);
    }
    if names.len() == 2 {
        assert(names.drop_last() =~= seq![ident(table.partition_cols@[0]@)]);
        assert(join_text(names.drop_last(), ", "@) == ident(table.partition_cols@[0]@));
    }
}

/// A partition is where its predicate holds, and without one the table is whole.
pub proof fn a_source_is_a_table_or_a_partition(table: &TableInfo, p: &Partition, whole: LakeSource, part: LakeSource)
    requires
        call_ensures(LakeSource::of, (table, None), whole),
        call_ensures(LakeSource::of, (table, Some(p)), part),
    ensures
        whole.table@ == part.table@ && whole.filter is None,
        part.filter matches Some(f) && f@ == p.predicate(),
{
}

/// The files that hold rows are read for them, as far as there are rows.
pub proof fn the_files_that_hold_rows_are_read(map: &FileMap, offset: usize, limit: usize, out: Option<Vec<Piece>>, row: int)
    requires
        call_ensures(FileMap::plan, (map, offset, limit), out),
        0 <= row < crate::data::lake_db::rows_of(map.files@),
    ensures
        out matches Some(pieces) ==> (offset <= row < offset + limit <==> exists|i: int|
            0 <= i < pieces@.len() && #[trigger] holds_row(pieces@[i], map.files@, row)),
        out is None ==> limit == 0,
{
    if out is Some {
        let total = crate::data::lake_db::rows_of(map.files@);
        let least = |a: int, b: int| if a < b { a } else { b };
        pieces_hold_the_rows_asked_for(
            out->Some_0@,
            map.files@,
            least(offset as int, total),
            least(offset + limit, total),
            row,
        );
    }
}

/// A type of the database is taken by its name, whatever stands in brackets behind
/// it.
pub proof fn a_type_is_taken_by_its_name(sql_type: &str, name: Seq<char>, brackets: Seq<char>, t: ColumnType)
    requires
        call_ensures(shown_as, (sql_type,), t),
        sql_type@ == name + brackets,
        brackets.len() > 0 ==> brackets[0] == '(',
        name.len() > 0,
        !name.contains('('),
        !is_space(name[0]),
        !is_space(name.last()),
    ensures
        t == shown_type(name),
{
    upto_a_character(sql_type@, '(');
    let front = upto(sql_type@, '(');
    if front.len() < name.len() {
        assert(sql_type@[front.len() as int] == name[front.len() as int]);
        assert(name.contains(name[front.len() as int]));
    }
    if front.len() > name.len() {
        assert(front[name.len() as int] == brackets[0]);
        assert(front.contains('('));
    }
    assert(front =~= name);
}

/// The keys of a path are those of its directories.
pub proof fn a_path_is_taken_by_its_directories(path: &str, out: Vec<String>, parts: Seq<Seq<char>>, key: Seq<char>, value: Seq<char>)
    requires
        call_ensures(hive_keys, (path,), out),
        split_text(path@, '/') == parts.push(key + seq!['='] + value),
        !key.contains('='),
    ensures
        texts(out@) == keys_in(parts).push(key),
{
    a_path_names_the_keys_it_sets(parts, key, value);
}

/// A match is told by its place among all of them, counted from one.
pub proof fn a_match_is_told_by_its_place(state: &SearchState, info: (usize, usize, bool), row: Option<usize>)
    requires
        call_ensures(SearchState::match_info, (state,), info),
        call_ensures(SearchState::current_row, (state,), row),
        state.wf(),
        state.matching_rows@.len() <= usize::MAX,
    ensures
        info.1 == state.matching_rows@.len(),
        state.matching_rows@.len() == 0 ==> info.0 == 0 && row is None,
        state.matching_rows@.len() > 0 ==> 1 <= info.0 <= info.1 && row == Some(
            state.matching_rows@[info.0 - 1],
        ),
        info.2 <==> state.status == SearchStatus::Complete,
{
}

/// A new row has a number that neither a row of the file nor an earlier new row
/// has.
pub proof fn a_new_row_has_a_number_of_its_own(overlay: &Overlay, total_rows: usize, id: usize)
    requires
        call_ensures(Overlay::next_id, (overlay, total_rows), id),
    ensures
        id >= total_rows,
        id >= overlay@.next_id,
        id == total_rows || id == overlay@.next_id,
{
}

/// A page is read with the header in front of it, where the file has one.
pub proof fn a_page_is_read_with_its_header(index: &RowIndex, body: &[u8], out: Vec<u8>)
    requires
        call_ensures(RowIndex::framed, (index, body), out),
    ensures
        index.names_columns() ==> out@ == index.header_line() + seq![10u8] + body@,
        !index.names_columns() ==> out@ == body@,
{
    assert(index.header_line().push(10) + body@ =~= index.header_line() + seq![10u8] + body@);
}

/// A header ends where its line does, or with the file.
pub proof fn a_header_ends_with_its_line(end: u64, len: u64, at: u64, without: u64)
    requires
        call_ensures(header_end, (Some(end), len), at),
        call_ensures(header_end, (None, len), without),
    ensures
        at <= len && at <= end,
        at == end || at == len,
        without == len,
{
}

/// Rows are read by the index where they stand in the file's order with all of its
/// columns, and those of records always; they are searched by it where no order is
/// on them.
pub proof fn rows_are_read_by_the_index_where_they_can_be(store: &Store, reads: bool, searches: bool)
    requires
        call_ensures(Store::reads_by_index, (store,), reads),
        call_ensures(Store::searches_by_index, (store,), searches),
    ensures
        store.source == Source::Json ==> reads,
        store.source != Source::Json && (store.view.sort@.len() > 0 || store.view.select is Some) ==> !reads,
        store.view.sort@.len() == 0 && store.view.select is None ==> reads,
        searches ==> reads && store.sorted is None && store.view.sort@.len() == 0,
        store.sorted is None && store.view.sort@.len() == 0 && reads ==> searches,
{
}

/// Where a matched row is shown, and which row is shown where.
pub proof fn matched_rows_are_found_both_ways(set: &RowSet, display: usize, source: usize, row: Option<usize>, at: Option<usize>)
    requires
        call_ensures(RowSet::source, (set, display), row),
        call_ensures(RowSet::display, (set, source), at),
        set@.wf(),
    ensures
        row is Some <==> display < set@.rows.len(),
        row matches Some(r) ==> r == set@.rows[display as int],
        at is Some <==> set@.rows.contains(source),
        row == Some(source) ==> at == Some(display),
        at == Some(display) ==> row == Some(source),
{
    if row == Some(source) {
        assert(set@.rows[display as int] == source);
        assert(set@.rows.contains(source));
        let i = at->Some_0 as int;
        if i < display {
            assert(set@.rows[i] < set@.rows[display as int]);
        } else if display < i {
            assert(set@.rows[display as int] < set@.rows[i]);
        }
    }
}

/// A file as it was left is the same file.
pub proof fn a_file_is_known_by_its_stamp(stamp: &Stamp, now: Option<Stamp>, same: bool)
    requires
        call_ensures(Stamp::still_matches, (stamp, now), same),
    ensures
        same <==> (now matches Some(other) && other.len == stamp.len && other.mtime == stamp.mtime),
{
}

/// A file is written back as what it was read as; one that nothing can be written
/// to is not.
pub proof fn a_file_is_written_back_as_what_it_is(store: &Store, src: &[u8], r: Result<Vec<u8>, String>)
    requires
        call_ensures(Store::rewrite, (store, src), r),
    ensures
        store.edit is None ==> r is Err && r->Err_0@ == "this view is read-only"@,
        store.edit matches Some(target) ==> (target.written matches Written::Delimited(separator) ==> (r is Ok <==> store.delimited(
            src@,
            separator,
        ) is Ok) && (r is Ok ==> r->Ok_0@ == store.delimited(src@, separator)->Ok_0)),
        store.edit matches Some(target) ==> target.written == Written::Json && store.source != Source::Json ==> r is Err,
{
}

} // verus!
