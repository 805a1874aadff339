//! Looking for text, and going from one match to the next.
use vstd::prelude::*;
use crate::app::find::in_order;
use crate::app::highlight::{is_lit, lights_up};
use crate::app::keys::Key;
use crate::app::session::{Hunt, Mode, SelectionMode, Session, Task};
use crate::data::ordered::ascending;
use crate::data::store::Held;
use crate::search::{is_nearest, is_next, is_previous, regex_accepts, regex_finds, SearchStatus};

verus! {

/// The next match is the first one below the cursor, or the very first where none
/// is below; the one before is the last one above, or the very last.
pub proof fn the_next_match_is_the_first_below(rows: Seq<usize>, row: usize, at: int, i: int)
    requires
        ascending(rows),
        0 <= i < rows.len(),
    ensures
        is_next(rows, row, at) && rows[i] > row ==> row < rows[at] <= rows[i],
        is_next(rows, row, at) && rows[at] <= row ==> at == 0 && rows[i] <= row,
        is_previous(rows, row, at) && rows[i] < row ==> rows[i] <= rows[at] < row,
        is_previous(rows, row, at) && rows[at] >= row ==> at == rows.len() - 1 && rows[i] >= row,
        is_nearest(rows, row, i) && rows.contains(row) ==> rows[i] == row,
{
    if is_next(rows, row, at) && rows[i] > row {
        assert(rows[i] <= rows.last()) by {
            if i < rows.len() - 1 {
                assert(rows[i] < rows[rows.len() - 1]);
            }
        }
        if i < at {
            if i < at - 1 {
                assert(rows[i] < rows[at - 1]);
            }
        } else if at < i {
            assert(rows[at] < rows[i]);
        }
    }
    if is_next(rows, row, at) && rows[at] <= row && i < rows.len() - 1 {
        assert(rows[i] < rows[rows.len() - 1]);
    }
    if is_previous(rows, row, at) && rows[i] < row {
        assert(rows[0] <= rows[i]) by {
            if i > 0 {
                assert(rows[0] < rows[i]);
            }
        }
        if at < i {
            if at + 1 < i {
                assert(rows[at + 1] < rows[i]);
            }
        } else if i < at {
            assert(rows[i] < rows[at]);
        }
    }
    if is_previous(rows, row, at) && rows[at] >= row && i > 0 {
        assert(rows[0] < rows[i]);
    }
    if is_nearest(rows, row, i) && rows.contains(row) {
        let k = choose|k: int| 0 <= k < rows.len() && rows[k] == row;
        assert(crate::search::distance(rows[i] as int, row as int) <= crate::search::distance(
            rows[k] as int,
            row as int,
        ));
    }
}

/// A step goes to the match below or above and to the column searched, and the
/// matches stay as they are.
pub proof fn a_step_goes_to_a_match(s: Session, after: Session, forward: bool, h: Hunt)
    requires
        s.hunt == Some(h),
        h.rows.len() > 0,
        s.steps(after, forward),
        s.store is Some,
        forall|i: int| 0 <= i < h.rows.len() ==> #[trigger] h.rows[i] < s.rows(),
    ensures
        after.hunt matches Some(now) && now.rows == h.rows && now.pattern == h.pattern && 0 <= now.current
            < h.rows.len() && after.cursor_row == h.rows[now.current as int] && (forward ==> is_next(
            h.rows,
            s.cursor_row,
            now.current as int,
        )) && (!forward ==> is_previous(h.rows, s.cursor_row, now.current as int)),
        h.column matches Some(c) ==> after.cursor_col == c,
        h.column is None ==> after.cursor_col == s.cursor_col,
        after.pending_num.len() == 0,
{
    reveal(Session::cursor_to);
}

/// Without a match a step stays where it is.
pub proof fn no_match_no_step(s: Session, after: Session, forward: bool)
    requires
        s.steps(after, forward),
        s.hunt matches Some(h) ==> h.rows.len() == 0,
    ensures
        after.cursor_row == s.cursor_row,
        after.store == s.store,
        after.hunt == s.hunt,
{
}

/// What is typed is looked for: nothing ends the search, a pattern that is none is
/// told of, and any other is searched for from then on.
pub proof fn what_is_typed_is_searched_for(s: Session, c: char)
    ensures
        s.search_key(Key::Char(c)).search_buf == s.search_buf + seq![c],
        s.search_key(Key::Char(c)).search_key(Key::Backspace) == s,
        s.search_buf.len() == 0 ==> s.search_key(Key::Backspace) == s,
        s.search_key(Key::Esc).search_buf.len() == 0 && s.search_key(Key::Esc).mode == Mode::Normal && s.search_key(
            Key::Esc,
        ).hunt == s.hunt,
        s.search_key(Key::Enter).mode == Mode::Normal && s.search_key(Key::Enter).search_buf.len() == 0,
        s.search_buf.len() == 0 ==> s.search_key(Key::Enter).hunt is None && !s.search_key(
            Key::Enter,
        ).running.search,
        s.search_buf.len() > 0 && !regex_accepts(s.search_buf) ==> s.search_key(Key::Enter).hunt == s.hunt
            && s.search_key(Key::Enter).message is Some,
        s.search_buf.len() > 0 && regex_accepts(s.search_buf) && s.store is Some ==> {
            let after = s.search_key(Key::Enter);
            &&& after.running.search
            &&& after.hunt matches Some(h) && h.pattern == s.search_buf && h.rows.len() == 0 && h.status
                == SearchStatus::Searching && !h.jumped && h.column == s.search_column()
        },
{
    assert(s.search_buf.push(c) =~= s.search_buf + seq![c]);
    assert(s.search_buf.push(c).drop_last() =~= s.search_buf);
    let typed = s.search_key(Key::Char(c));
    assert(typed.search_key(Key::Backspace) == (Session { search_buf: s.search_buf, ..s }));
}

/// With whole rows selected every column is searched, and else the cursor's, by
/// its name.
pub proof fn the_cursors_column_is_searched(s: Session, h: Held, task: Task)
    requires
        s.store == Some(h),
        s.search_buf.len() > 0,
        regex_accepts(s.search_buf),
        s.search_asked(task),
    ensures
        s.selection_mode == SelectionMode::Row ==> s.search_column() is None && task == Task::Search(None),
        s.selection_mode != SelectionMode::Row && s.cursor_col < h.columns().len()
            && h.columns()[s.cursor_col as int] < h.names@.len() ==> s.search_column() == Some(s.cursor_col)
            && (task matches Task::Search(Some(name)) && name@ == h.names@[h.columns()[s.cursor_col as int] as int]@),
        s.selection_mode != SelectionMode::Row && s.cursor_col >= h.columns().len() ==> task == Task::Search(
            None,
        ),
{
}

/// Matches come in order, and none is taken for a row that is not shown.
pub proof fn matches_arrive_in_order(s: Session, h: Hunt, reported: Seq<usize>, row: usize)
    requires
        s.hunt == Some(h),
    ensures
        s.found(reported).hunt matches Some(now) && now.pattern == h.pattern && now.current == h.current
            && now.rows == in_order(h.rows, s.on_show(reported)),
        s.on_show(Seq::empty()).len() == 0,
        s.store is None ==> s.on_show(reported.push(row)) == s.on_show(reported).push(row),
        s.store matches Some(held) ==> match held.display_of(row) {
            Some(place) => s.on_show(reported.push(row)) == s.on_show(reported).push(place),
            None => s.on_show(reported.push(row)) == s.on_show(reported),
        },
        s.searched().hunt matches Some(now) && now.status == SearchStatus::Complete && now.rows == h.rows,
        !s.searched().running.search,
{
    assert(reported.push(row).drop_last() =~= reported);
}

/// The place of a source row is where it is shown.
pub proof fn a_reported_row_is_found_where_it_is_shown(h: Held, reported: usize, place: usize)
    requires
        h.rows().len() <= usize::MAX,
    ensures
        h.sorted is Some ==> h.display_of(reported) == Some(reported),
        h.sorted is None && h.display_of(reported) == Some(place) ==> place < h.rows().len()
            && h.rows()[place as int] == reported,
        h.sorted is None && h.matches is Some && h.rows().contains(reported) ==> h.display_of(reported) is Some,
        h.sorted is None && h.matches is None && reported < h.total_rows && h.rows().contains(reported)
            ==> h.display_of(reported) is Some,
        h.sorted is None && !h.rows().contains(reported) ==> h.display_of(reported) is None,
{
    if h.sorted is None && h.rows().contains(reported) {
        let at = h.rows().index_of(reported);
        let k = choose|k: int| 0 <= k < h.rows().len() && h.rows()[k] == reported;
        assert(0 <= at < h.rows().len() && h.rows()[at] == reported);
    }
}

/// A cell lights up just when it is in what is searched and the pattern is found
/// in it.
pub proof fn a_cell_lights_up_where_the_pattern_is_found(
    cells: Seq<(usize, usize)>,
    page: Seq<Vec<Option<String>>>,
    pattern: Seq<char>,
    searched: Option<usize>,
    row: usize,
    column: usize,
    text: String,
)
    requires
        is_lit(cells, page, pattern, searched),
        regex_accepts(pattern),
        column < page.len(),
        row < page[column as int]@.len(),
        page[column as int]@[row as int] == Some(text),
    ensures
        cells.contains((row, column)) <==> regex_finds(pattern, text@) && (searched is None || searched == Some(
            column,
        )),
{
    assert(cells.contains((row, column)) <==> lights_up(page, pattern, searched, row, column));
}

} // verus!
