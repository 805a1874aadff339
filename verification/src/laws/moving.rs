//! Where the cursor goes, and what is on the screen then.
use vstd::prelude::*;
use crate::app::motion::{counted, page_step, spelled};
use crate::app::session::{Drawn, SelectionMode, Session};
use crate::text::decimal_text;

verus! {

/// Only the cursor's row and what of the rows is on the screen may differ.
pub open spec fn only_rows_move(before: Session, after: Session) -> bool {
    &&& after.cursor_col == before.cursor_col
    &&& after.col_offset == before.col_offset
    &&& after.mode == before.mode
    &&& after.selection_mode == before.selection_mode
    &&& after.visual_anchor == before.visual_anchor
    &&& after.pinned == before.pinned
    &&& after.exit == before.exit
    &&& after.message == before.message
    &&& (after.store is Some) == (before.store is Some)
    &&& before.store is Some ==> {
        let (b, a) = (before.store->Some_0, after.store->Some_0);
        &&& a.buffer == b.buffer
        &&& a.viewport_rows == b.viewport_rows
        &&& a.names == b.names
    }
}

/// The cursor goes to the row that it is sent to, or to the last one if there are
/// fewer, and that row is on the screen.
pub proof fn the_cursor_goes_where_it_is_sent(s: Session, row: int)
    requires
        s.store is Some,
        s.rows() > 0,
        0 <= row,
        s.store->Some_0.viewport_rows > 0,
    ensures
        ({
            let after = s.cursor_to(row);
            let h = after.store->Some_0;
            &&& only_rows_move(s, after)
            &&& row < s.rows() ==> after.cursor_row == row
            &&& row >= s.rows() ==> after.cursor_row == s.rows() - 1
            &&& h.row_offset <= after.cursor_row < h.row_offset + h.viewport_rows
        }),
{
    reveal(Session::cursor_to);
}

/// What is on the screen stays there while the cursor moves within it.
pub proof fn the_screen_stays_while_the_cursor_is_on_it(s: Session, row: int)
    requires
        s.store is Some,
        s.rows() > 0,
        s.store->Some_0.row_offset <= row < s.store->Some_0.row_offset + s.store->Some_0.viewport_rows,
        row < s.rows(),
    ensures
        s.cursor_to(row) == (Session { cursor_row: row as usize, ..s }),
{
    reveal(Session::cursor_to);
}

/// Down goes that many rows down and up that many up, as far as there are rows,
/// and one takes back the other.
pub proof fn down_and_up_are_opposite(s: Session, n: int)
    requires
        s.store is Some,
        s.cursor_row < s.rows(),
        0 <= n,
        s.store->Some_0.viewport_rows > 0,
    ensures
        s.cursor_row + n < s.rows() ==> s.down(n).cursor_row == s.cursor_row + n,
        s.cursor_row + n >= s.rows() ==> s.down(n).cursor_row == s.rows() - 1,
        s.cursor_row >= n ==> s.up(n).cursor_row == s.cursor_row - n,
        s.cursor_row < n ==> s.up(n).cursor_row == 0,
        s.cursor_row + n < s.rows() ==> s.down(n).up(n).cursor_row == s.cursor_row,
        s.cursor_row >= n ==> s.up(n).down(n).cursor_row == s.cursor_row,
        only_rows_move(s, s.down(n)),
        only_rows_move(s, s.up(n)),
{
    reveal(Session::cursor_to);
}

/// What is on the screen after a scroll starts at the row asked for, and no
/// further down than leaves the screen full.
pub open spec fn starts_at(after: Session, row: int, rows: int) -> bool {
    let h = after.store->Some_0;
    if row + h.viewport_rows <= rows {
        h.row_offset == row
    } else if h.viewport_rows >= rows {
        h.row_offset == 0
    } else {
        h.row_offset == rows - h.viewport_rows
    }
}

/// The cursor's row can be put at the top of the screen, at its middle or at its
/// bottom, and the cursor stays on it.
pub proof fn the_cursors_row_can_be_placed(s: Session)
    requires
        s.store is Some,
        s.store->Some_0.viewport_rows > 0,
        s.cursor_row < s.rows(),
    ensures
        ({
            let screen = s.store->Some_0.viewport_rows as int;
            let at = s.cursor_row as int;
            &&& starts_at(s.topped(), at, s.rows() as int)
            &&& starts_at(
                s.centered(),
                if at >= screen / 2 {
                    at - screen / 2
                } else {
                    0
                },
                s.rows() as int,
            )
            &&& starts_at(
                s.bottomed(),
                if at >= screen - 1 {
                    at - (screen - 1)
                } else {
                    0
                },
                s.rows() as int,
            )
            &&& s.topped().cursor_row == at && s.centered().cursor_row == at && s.bottomed().cursor_row == at
            &&& at >= screen - 1 ==> s.bottomed().store->Some_0.row_offset + screen == at + 1
        }),
        only_rows_move(s, s.topped()),
        only_rows_move(s, s.centered()),
        only_rows_move(s, s.bottomed()),
{
}

/// A page is a screen of rows, or half of one, and never nothing.
pub proof fn a_page_is_a_screen(screen: usize)
    ensures
        screen > 0 ==> page_step(screen, true) == screen,
        screen > 1 ==> page_step(screen, false) == screen / 2,
        page_step(screen, true) >= 1,
        page_step(screen, false) >= 1,
        page_step(screen, false) <= page_step(screen, true),
        screen <= 1 ==> page_step(screen, true) == 1 && page_step(screen, false) == 1,
{
}

/// A page down shows the rows a page further down and a page up those a page
/// further up, the cursor as far from the top of the screen as it was; at the end
/// of the rows the cursor itself goes a page, as far as there are rows.
pub proof fn a_page_moves_the_screen(s: Session, whole: bool)
    requires
        s.store is Some,
        s.cursor_row < s.rows(),
        s.store->Some_0.viewport_rows > 0,
        s.store->Some_0.row_offset <= s.cursor_row,
        s.store->Some_0.row_offset + s.store->Some_0.viewport_rows <= s.rows(),
    ensures
        ({
            let h = s.store->Some_0;
            let step = page_step(h.viewport_rows, whole);
            let down = s.paged(true, whole);
            let up = s.paged(false, whole);
            let d = down.store->Some_0;
            let u = up.store->Some_0;
            &&& h.row_offset + step + h.viewport_rows <= s.rows() ==> d.row_offset == h.row_offset + step
                && down.cursor_row == (if s.cursor_row + step < s.rows() {
                s.cursor_row + step
            } else {
                s.rows() - 1
            })
            &&& h.row_offset + step + h.viewport_rows > s.rows() ==> d.row_offset + h.viewport_rows
                == s.rows()
            &&& h.row_offset + h.viewport_rows == s.rows() ==> down.cursor_row == (if s.cursor_row + step
                < s.rows() {
                s.cursor_row + step
            } else {
                s.rows() - 1
            })
            &&& h.row_offset >= step ==> u.row_offset == h.row_offset - step && up.cursor_row
                == s.cursor_row - step
            &&& h.row_offset < step ==> u.row_offset == 0
            &&& h.row_offset == 0 ==> up.cursor_row == (if s.cursor_row >= step {
                s.cursor_row - step
            } else {
                0
            })
            &&& 0 < h.row_offset < step ==> up.cursor_row == s.cursor_row - h.row_offset
        }),
        only_rows_move(s, s.paged(true, whole)),
        only_rows_move(s, s.paged(false, whole)),
{
}

/// Digits say the number that they are written for.
pub proof fn digits_say_their_number(n: nat, default: usize)
    ensures
        spelled(decimal_text(n)) == n,
        0 < n <= usize::MAX ==> counted(decimal_text(n), default) == n,
        counted(Seq::empty(), default) == default,
    decreases n,
{
    if n >= 10 {
        digits_say_their_number(n / 10, default);
        assert(decimal_text(n).drop_last() =~= decimal_text(n / 10));
    } else {
        assert(decimal_text(n).drop_last() =~= Seq::empty());
        assert(spelled(Seq::empty()) == 0);
    }
    assert(decimal_text(n).len() > 0);
}

/// A line is counted from one. One that there is becomes the cursor's, and the
/// cursor stays where it is when there is no such line.
pub proof fn lines_are_counted_from_one(s: Session, n: nat)
    requires
        s.store is Some,
        s.store->Some_0.viewport_rows > 0,
    ensures
        1 <= n <= s.rows() ==> s.to_line(decimal_text(n)).cursor_row == n - 1 && s.to_line(
            decimal_text(n),
        ).message == s.message,
        n == 0 || n > s.rows() ==> s.to_line(decimal_text(n)).cursor_row == s.cursor_row && s.to_line(
            decimal_text(n),
        ).store == s.store,
        n == 0 ==> s.to_line(decimal_text(n)).message == Some(
            "Invalid line: 0  (valid: 1\u{2013}"@ + decimal_text(s.rows() as nat) + ")"@,
        ),
        s.rows() < n <= usize::MAX ==> s.to_line(decimal_text(n)).message == Some(
            "Line "@ + decimal_text(n) + " out of range  (file has "@ + decimal_text(s.rows() as nat)
                + " rows)"@,
        ),
{
    reveal(Session::cursor_to);
    digits_say_their_number(n, 0);
}

/// Without a number the first row and the last are gone to, and with one the line
/// of that number, from either key.
pub proof fn the_ends_are_gone_to(s: Session)
    requires
        s.store is Some,
        s.store->Some_0.viewport_rows > 0,
        s.rows() > 0,
    ensures
        s.pending_num.len() == 0 ==> s.to_first().cursor_row == 0 && s.to_bottom().cursor_row == s.rows() - 1,
        s.pending_num.len() > 0 ==> s.to_first() == s.to_bottom() && s.to_first() == s.uncounted().to_line(
            s.pending_num,
        ),
{
    reveal(Session::cursor_to);
}

/// Left and right go that many columns, as far as there are columns, and one
/// takes back the other. With whole rows selected they move the columns shown
/// instead.
pub proof fn left_and_right_are_opposite(s: Session, n: int, drawn: Drawn)
    requires
        0 <= n,
        s.cursor_col <= s.last_column(),
    ensures
        s.selection_mode != SelectionMode::Row ==> {
            &&& s.cursor_col >= n ==> s.left(n).cursor_col == s.cursor_col - n
            &&& s.cursor_col < n ==> s.left(n).cursor_col == 0
            &&& s.cursor_col + n <= s.last_column() ==> s.right(n, drawn).cursor_col == s.cursor_col + n
            &&& s.cursor_col + n > s.last_column() ==> s.right(n, drawn).cursor_col == s.last_column()
            &&& s.cursor_col + n <= s.last_column() ==> s.right(n, drawn).left(n).cursor_col == s.cursor_col
            &&& s.right(n, drawn).col_offset == s.col_offset
            &&& !s.pinned_at(s.left(n).cursor_col) ==> s.left(n).col_offset <= s.left(n).cursor_col
            &&& s.left(n).col_offset != s.col_offset ==> s.left(n).col_offset == s.left(n).cursor_col
                && s.left(n).col_offset < s.col_offset
        },
        s.selection_mode == SelectionMode::Row ==> {
            &&& s.left(n).cursor_col == s.cursor_col && s.right(n, drawn).cursor_col == s.cursor_col
            &&& s.col_offset >= n ==> s.left(n).col_offset == s.col_offset - n
            &&& s.col_offset < n ==> s.left(n).col_offset == 0
            &&& s.col_offset + n <= drawn.max_col_offset ==> s.right(n, drawn).col_offset == s.col_offset + n
            &&& s.col_offset + n > drawn.max_col_offset ==> s.right(n, drawn).col_offset
                == drawn.max_col_offset
        },
        s.left(n).cursor_row == s.cursor_row && s.right(n, drawn).cursor_row == s.cursor_row,
        s.left(n).store == s.store && s.right(n, drawn).store == s.store,
{
}

/// The first column and the last are gone to with one key each.
pub proof fn the_end_columns_are_gone_to(s: Session, drawn: Drawn)
    ensures
        s.first_column().cursor_col == 0 && s.first_column().col_offset == 0,
        s.to_last_column(drawn).cursor_col == s.last_column() && s.to_last_column(drawn).col_offset
            == drawn.max_col_offset,
        s.first_column().cursor_row == s.cursor_row && s.to_last_column(drawn).cursor_row == s.cursor_row,
        s.first_column().store == s.store && s.to_last_column(drawn).store == s.store,
        s.first_column().pending_num.len() == 0 && s.to_last_column(drawn).pending_num.len() == 0,
{
}

/// What is selected goes round: rows, columns, cells and rows again. No two follow
/// the same one, and after three steps it is as it was.
pub proof fn selection_modes_go_round(s: Session)
    ensures
        SelectionMode::Row.next() == SelectionMode::Column,
        SelectionMode::Column.next() == SelectionMode::Cell,
        SelectionMode::Cell.next() == SelectionMode::Row,
        s.cycled().selection_mode == s.selection_mode.next(),
        s.cycled().visual_anchor is None,
        s.selection_mode == SelectionMode::Row ==> s.cycled().cursor_col == s.col_offset,
        s.selection_mode == SelectionMode::Cell ==> s.cycled().cursor_col == s.cursor_col,
        s.cycled().cursor_row == s.cursor_row,
        s.cycled().cycled().cycled().selection_mode == s.selection_mode,
{
}

/// The cursor's column is drawn: the columns shown start no later than it and
/// reach as far as it, but that a pinned column is always drawn.
pub proof fn the_cursors_column_is_drawn(s: Session, drawn: Drawn, last_drawn: usize, showing: usize)
    requires
        s.selection_mode != SelectionMode::Row,
        showing <= s.cursor_col,
    ensures
        ({
            let after = s.settled(drawn, last_drawn, showing);
            &&& after == (Session { col_offset: after.col_offset, ..s })
            &&& s.pinned_at(s.cursor_col) ==> after.col_offset == s.col_offset
            &&& !s.pinned_at(s.cursor_col) ==> after.col_offset <= s.cursor_col
            &&& !s.pinned_at(s.cursor_col) && s.col_offset <= s.cursor_col <= last_drawn ==> after.col_offset
                == s.col_offset
            &&& !s.pinned_at(s.cursor_col) && s.cursor_col < s.col_offset ==> after.col_offset == s.cursor_col
            &&& !s.pinned_at(s.cursor_col) && s.cursor_col > last_drawn && s.cursor_col >= s.col_offset
                ==> after.col_offset == showing
        }),
{
}

/// The column that a command is about is the cursor's, or with whole rows
/// selected the first one shown.
pub proof fn a_command_is_about_the_cursors_column(s: Session)
    ensures
        s.selection_mode == SelectionMode::Row ==> s.named_column() == s.col_offset,
        s.selection_mode != SelectionMode::Row ==> s.named_column() == s.cursor_col,
{
}

} // verus!
