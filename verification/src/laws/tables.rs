//! The rows and columns that are held, and how they change with the file.
use vstd::prelude::*;
use crate::data::edit::Cell;
use crate::data::page::picked;
use crate::data::rows::Matches;
use crate::data::store::{
    first_at, mapped, name_at, page_of, patched_cell, renumbered, renumbered_conditions,
    renumbered_keys, rows_at, shown_keys, spliced, Held, PageEdit, Store,
};
use crate::data::writer::Stamp;
use crate::view::Condition;

verus! {

/// A page is the rows from the first one asked for on, as many as were asked for
/// or as there are.
pub proof fn a_page_is_the_rows_asked_for(rows: Seq<usize>, offset: int, height: int)
    requires
        0 <= offset,
        0 <= height,
    ensures
        ({
            let page = page_of(rows, offset, height);
            &&& offset + height <= rows.len() ==> page.len() == height
            &&& offset <= rows.len() < offset + height ==> page.len() == rows.len() - offset
            &&& offset > rows.len() ==> page.len() == 0
            &&& forall|i: int| 0 <= i < page.len() ==> #[trigger] page[i] == rows[offset + i]
        }),
{
}

/// The rows that are shown: those of the sort, else those of the filter, else
/// those of the file with what is pending.
pub proof fn rows_are_shown_in_their_order(h: Held)
    ensures
        h.sorted matches Some(rows) ==> h.rows() == rows,
        h.sorted is None && h.matches is Some ==> h.rows() == h.matches->Some_0.rows,
        h.sorted is None && h.matches is None ==> h.rows() == h.buffer.pending.rows_shown(h.total_rows),
        h.rows().len() <= usize::MAX ==> h.count() == h.rows().len(),
        h.select matches Some(chosen) ==> h.columns() == chosen,
{
}

/// A cell of a page is the one that was read for it, or nothing where none was.
pub proof fn a_picked_cell_is_the_one_read(
    span: Seq<Seq<Option<Seq<char>>>>,
    picks: Seq<Option<usize>>,
    column: int,
    row: int,
)
    requires
        0 <= column < span.len(),
        0 <= row < picks.len(),
    ensures
        picked(span, picks).len() == span.len(),
        picked(span, picks)[column].len() == picks.len(),
        picks[row] is None ==> picked(span, picks)[column][row] is None,
        picks[row] matches Some(place) ==> (place < span[column].len() ==> picked(span, picks)[column][row]
            == span[column][place as int]),
        picks[row] matches Some(place) ==> (place >= span[column].len() ==> picked(span, picks)[column][row] is None),
{
}

/// An edit of a page shows in its own cell, an empty one as nothing, and the last
/// one where there are two.
pub proof fn an_edit_shows_in_its_own_cell(
    edits: Seq<PageEdit>,
    edit: PageEdit,
    column: usize,
    row: int,
    was: Option<Seq<char>>,
)
    ensures
        patched_cell(Seq::empty(), column, row, was) == was,
        edit.column == column && edit.row == row && edit.value@.len() > 0 ==> patched_cell(
            edits.push(edit),
            column,
            row,
            was,
        ) == Some(edit.value@),
        edit.column == column && edit.row == row && edit.value@.len() == 0 ==> patched_cell(
            edits.push(edit),
            column,
            row,
            was,
        ) is None,
        edit.column != column || edit.row != row ==> patched_cell(edits.push(edit), column, row, was)
            == patched_cell(edits, column, row, was),
{
    assert(edits.push(edit).drop_last() =~= edits);
}

/// What is pending for a cell shows in it, an empty text as nothing, and any other
/// cell shows what the file has.
pub proof fn what_is_pending_shows_in_its_cell(h: Held, offset: int, row: int, column: int, was: Option<Seq<char>>)
    requires
        0 <= offset + row < h.rows().len(),
        0 <= column < h.columns().len(),
        forall|i: int| 0 <= i < column ==> h.columns()[i] != h.columns()[column],
    ensures
        ({
            let cell = (h.rows()[offset + row], h.columns()[column]);
            let cells = h.buffer.pending.cells;
            &&& !cells.contains_key(cell) ==> h.painted(offset, row, column, was) == was
            &&& cells.contains_key(cell) && cells[cell].len() > 0 ==> h.painted(offset, row, column, was)
                == Some(cells[cell])
            &&& cells.contains_key(cell) && cells[cell].len() == 0 ==> h.painted(offset, row, column, was) is None
        }),
{
    lemma_first_at(h.columns(), column, 0);
}

proof fn lemma_first_at(chosen: Seq<usize>, at: int, from: int)
    requires
        0 <= from <= at < chosen.len(),
        forall|i: int| from <= i < at ==> chosen[i] != chosen[at],
    ensures
        first_at(chosen, chosen[at], from) == Some(at),
    decreases at - from,
{
    if from < at {
        assert(chosen[from] != chosen[at]);
        lemma_first_at(chosen, at, from + 1);
    }
}

/// An edit of what is shown is an edit of what it stands for, and one of what is
/// not shown is none.
pub proof fn an_edit_goes_to_what_is_shown(
    edits: Seq<(Cell, Seq<char>)>,
    row: usize,
    column: usize,
    value: Seq<char>,
    rows: Seq<usize>,
    columns: Seq<usize>,
    positions: Seq<usize>,
)
    ensures
        row < rows.len() && column < columns.len() ==> mapped(edits.push(((row, column), value)), rows, columns)
            == mapped(edits, rows, columns).push(((rows[row as int], columns[column as int]), value)),
        row >= rows.len() || column >= columns.len() ==> mapped(
            edits.push(((row, column), value)),
            rows,
            columns,
        ) == mapped(edits, rows, columns),
        row < rows.len() ==> rows_at(positions.push(row), rows) == rows_at(positions, rows).push(
            rows[row as int],
        ),
        row >= rows.len() ==> rows_at(positions.push(row), rows) == rows_at(positions, rows),
        mapped(Seq::empty(), rows, columns).len() == 0,
        rows_at(Seq::empty(), rows).len() == 0,
{
    assert(edits.push(((row, column), value)).drop_last() =~= edits);
    assert(positions.push(row).drop_last() =~= positions);
}

/// The keys of the columns on show keep their order and directions, and a key on a
/// column that is not on show is not among them.
pub proof fn keys_on_show_keep_their_directions(store: Store, sort: Seq<(usize, bool)>, column: usize, ascends: bool)
    ensures
        store.shown_at(column) matches Some(place) ==> shown_keys(store, sort.push((column, ascends)))
            == shown_keys(store, sort).push((place, ascends)),
        store.shown_at(column) is None ==> shown_keys(store, sort.push((column, ascends))) == shown_keys(
            store,
            sort,
        ),
        shown_keys(store, Seq::empty()).len() == 0,
{
    assert(sort.push((column, ascends)).drop_last() =~= sort);
}

/// A column stands where it is shown first.
pub proof fn a_column_stands_where_it_is_shown(store: Store, column: usize)
    ensures
        match store.shown_at(column) {
            Some(at) => {
                &&& store.view.select matches Some(chosen) ==> 0 <= at < chosen@.len() && chosen@[at] == column
                &&& store.view.select is None ==> at == column && column < store.names@.len()
            },
            None => {
                &&& store.view.select matches Some(chosen) ==> !chosen@.contains(column)
                &&& store.view.select is None ==> column >= store.names@.len()
            },
        },
{
    if store.view.select is Some {
        lemma_place(store.view.select->Some_0@, column, 0);
    }
}

proof fn lemma_place(chosen: Seq<usize>, column: usize, from: int)
    requires
        0 <= from,
    ensures
        match first_at(chosen, column, from) {
            Some(at) => from <= at < chosen.len() && chosen[at] == column,
            None => forall|i: int| from <= i < chosen.len() ==> #[trigger] chosen[i] != column,
        },
    decreases chosen.len() - from,
{
    if from < chosen.len() && chosen[from] != column {
        lemma_place(chosen, column, from + 1);
    }
}

/// A file is written only where one can be, and not over what something else has
/// made of it, unless that is asked for.
pub proof fn a_file_that_changed_is_not_written_over(store: Store, now: Option<Stamp>, path: Seq<char>)
    ensures
        store.edit is None ==> store.save_refusal(now, false, path) == Some("this view is read-only"@)
            && store.save_refusal(now, true, path) == Some("this view is read-only"@),
        store.edit matches Some(target) ==> {
            &&& store.save_refusal(now, true, path) is None
            &&& now == Some(target.stamp) ==> store.save_refusal(now, false, path) is None
            &&& now != Some(target.stamp) ==> store.save_refusal(now, false, path) == Some(
                path + " has changed on disk \u{2014} :w! overwrites it"@,
            )
        },
{
}

/// Columns found in a document take the place of the one that it stands in.
pub proof fn found_columns_take_the_documents_place(shown: Seq<usize>, at: int, from: usize, to: usize, i: int)
    requires
        from <= to,
        0 <= at < shown.len(),
        forall|k: int| 0 <= k < at ==> shown[k] != shown[at],
    ensures
        ({
            let after = spliced(shown, shown[at], from, to);
            let n = to - from;
            &&& after.len() == shown.len() - 1 + n
            &&& 0 <= i < at ==> after[i] == shown[i]
            &&& 0 <= i < n ==> after[at + i] == from + i
            &&& at < i < shown.len() ==> after[i - 1 + n] == shown[i]
        }),
{
    lemma_first_at(shown, at, 0);
}

/// Columns, keys and conditions follow the columns' names to where they stand in
/// the file as it is read again; what is about a column that is gone goes with it.
pub proof fn a_view_follows_the_names(
    chosen: Seq<usize>,
    keys: Seq<(usize, bool)>,
    conditions: Seq<Condition>,
    condition: Condition,
    ascends: bool,
    names: Seq<Seq<char>>,
    after: Seq<Seq<char>>,
)
    requires
        condition.column < names.len(),
    ensures
        ({
            let column = condition.column;
            match name_at(after, names[column as int], 0) {
                Some(at) => {
                    &&& renumbered(chosen.push(column), names, after) == renumbered(chosen, names, after).push(
                        at as usize,
                    )
                    &&& renumbered_keys(keys.push((column, ascends)), names, after) == renumbered_keys(
                        keys,
                        names,
                        after,
                    ).push((at as usize, ascends))
                    &&& ({
                        let more = renumbered_conditions(conditions.push(condition), names, after);
                        let before = renumbered_conditions(conditions, names, after);
                        &&& more.len() == before.len() + 1
                        &&& more.drop_last() == before
                        &&& more.last().column == at as usize
                        &&& more.last().op == condition.op
                        &&& more.last().value == condition.value
                    })
                },
                None => {
                    &&& renumbered(chosen.push(column), names, after) == renumbered(chosen, names, after)
                    &&& renumbered_keys(keys.push((column, ascends)), names, after) == renumbered_keys(
                        keys,
                        names,
                        after,
                    )
                    &&& renumbered_conditions(conditions.push(condition), names, after)
                        == renumbered_conditions(conditions, names, after)
                },
            }
        }),
{
    let column = condition.column;
    assert(chosen.push(column).drop_last() =~= chosen);
    assert(keys.push((column, ascends)).drop_last() =~= keys);
    assert(conditions.push(condition).drop_last() =~= conditions);
    if name_at(after, names[column as int], 0) is Some {
        let more = renumbered_conditions(conditions.push(condition), names, after);
        assert(more.drop_last() =~= renumbered_conditions(conditions, names, after));
    }
}

/// Matches are taken up to a limit. What is past it is left out, and said to be.
pub proof fn matches_are_taken_up_to_a_limit(m: Matches, batch: Seq<usize>, i: int)
    requires
        m.rows.len() <= m.limit,
        0 <= i,
    ensures
        ({
            let more = m.extended(batch);
            let all = m.rows.len() + batch.len();
            &&& all <= m.limit ==> more.rows.len() == all && more.complete == m.complete && more.truncated
                == m.truncated
            &&& all > m.limit ==> more.rows.len() == m.limit && more.complete && more.truncated
            &&& i < m.rows.len() ==> more.rows[i] == m.rows[i]
            &&& m.rows.len() <= i < more.rows.len() ==> more.rows[i] == batch[i - m.rows.len()]
            &&& more.limit == m.limit
        }),
{
}

/// A filter goes on while its set has room, and is through when it has none.
pub proof fn a_filter_goes_on_while_there_is_room(h: Held, m: Matches, batch: Seq<usize>)
    requires
        h.matches == Some(m),
        m.continued_by(batch),
        !m.complete,
    ensures
        h.wants_more(batch) <==> m.rows.len() + batch.len() < m.limit,
        h.took(batch).matches matches Some(now) && now.rows == m.extended(batch).rows && (now.complete
            <==> m.rows.len() + batch.len() >= m.limit),
        h.took(batch).buffer == h.buffer && h.took(batch).sort == h.sort,
{
}

} // verus!
