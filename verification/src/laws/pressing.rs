//! What each key does over the table.
use vstd::prelude::*;
use crate::app::keys::{normal_key, EditStart, FillMode, Key, Normal, Setting};
use crate::app::motion::counted;
use crate::app::session::{Drawn, Limits, Mode, Screen, SelectionMode, Session, Task};

verus! {

/// The table is on the screen, no key is waited for to go with another, and
/// nothing is said from before.
pub open spec fn at_the_table(s: Session) -> bool {
    &&& !s.help_visible
    &&& s.screen == Screen::Viewer
    &&& s.mode == Mode::Normal
    &&& s.pending_prefix is None
    &&& s.message is None
}

/// A key of the table was pressed, and this is what it came to.
#[verifier::opaque]
pub open spec fn pressed(
    s: Session,
    key: Key,
    ctrl: bool,
    drawn: Drawn,
    limits: Limits,
    after: Session,
    task: Task,
) -> bool {
    &&& at_the_table(s)
    &&& s.handles(after, task, key, ctrl, drawn, limits)
}

/// What a key stands for.
#[verifier::opaque]
pub open spec fn bound(key: Key, setting: Setting) -> Normal {
    normal_key(key, setting)
}

/// What a key stands for is acted on.
#[verifier::opaque]
pub open spec fn acted(s: Session, b: Normal, drawn: Drawn, limits: Limits, after: Session, task: Task) -> bool {
    s.acts(after, task, b, drawn, limits)
}

/// A key that is pressed at the table does what it stands for; the one that asks for
/// help has it come up.
pub proof fn a_key_does_what_it_stands_for(
    s: Session,
    key: Key,
    ctrl: bool,
    drawn: Drawn,
    limits: Limits,
    after: Session,
    task: Task,
)
    requires
        pressed(s, key, ctrl, drawn, limits, after, task),
    ensures
        key == Key::Char('?') ==> task is Nothing && after == (Session { help_visible: true, ..s }),
        key != Key::Char('?') ==> acted(s, bound(key, s.setting(ctrl)), drawn, limits, after, task),
{
    reveal(pressed);
    reveal(bound);
    reveal(acted);
    assert(s == (Session { message: None, ..s }));
}

proof fn lemma_move_keys(key: Key, s: Setting)
    ensures
        ({
            let b = bound(key, s);
            &&& key == Key::Char('j') || key == Key::Down ==> b == Normal::Down
            &&& key == Key::Char('k') || key == Key::Up ==> b == Normal::Up
            &&& key == Key::Char('h') || key == Key::Left ==> b == Normal::Left
            &&& key == Key::Char('l') || key == Key::Right ==> b == Normal::Right
            &&& key == Key::Home ==> b == Normal::Top
            &&& key == Key::End || key == Key::Char('G') ==> b == Normal::Bottom
            &&& key == Key::Char('H') || (key == Key::Char('0') && !s.ctrl && !s.counting) ==> b
                == Normal::FirstColumn
            &&& key == Key::Char('$') ==> b == Normal::LastColumn
            &&& key == Key::Tab ==> b == Normal::Mode
            &&& key == Key::PageDown || (s.ctrl && key == Key::Char('f')) ==> b == (Normal::Page {
                down: true,
                whole: true,
            })
            &&& key == Key::PageUp || (s.ctrl && key == Key::Char('b')) ==> b == (Normal::Page {
                down: false,
                whole: true,
            })
            &&& s.ctrl && key == Key::Char('d') ==> b == (Normal::Page { down: true, whole: false })
            &&& s.ctrl && key == Key::Char('u') ==> b == (Normal::Page { down: false, whole: false })
        }),
{
    reveal(bound);
}

/// The keys that change what is on the screen.
pub proof fn keys_that_switch(key: Key, s: Setting)
    ensures
        ({
            let b = bound(key, s);
            &&& key == Key::Char('q') || key == Key::Char('Q') ==> b == Normal::Quit
            &&& key == Key::Char('C') ==> b == Normal::Picker
            &&& key == Key::Char('/') ==> b == Normal::Search
            &&& key == Key::Char(':') ==> b == Normal::Command
            &&& key == Key::Char('v') ==> b == Normal::Select
            &&& key == Key::Char('#') ==> b == Normal::RelativeRows
            &&& key == Key::Char('K') ==> b == Normal::CellView
            &&& key == Key::Char('-') ==> b == (if s.columns {
                Normal::Hide
            } else {
                Normal::TakeColumn
            })
            &&& key == Key::Esc ==> b == (if s.cell_view {
                Normal::CloseCellView
            } else if s.selecting {
                Normal::DropSelection
            } else {
                Normal::Escape
            })
            &&& key == Key::Enter || key == Key::Backspace || key == Key::Delete || key == Key::BackTab
                || key == Key::Other ==> b == Normal::Nothing
            &&& key == Key::Char('s') ==> b == Normal::Sort
        }),
{
    reveal(bound);
}

/// The keys that edit a cell by itself, or all that is selected.
pub proof fn keys_that_edit(key: Key, s: Setting)
    requires
        !s.ctrl,
    ensures
        ({
            let b = bound(key, s);
            &&& key == Key::Char('c') ==> b == (if s.selecting {
                Normal::Fill(FillMode::Replace)
            } else {
                Normal::Edit(EditStart::Empty)
            })
            &&& key == Key::Char('i') ==> b == (if s.selecting {
                Normal::Fill(FillMode::Prepend)
            } else {
                Normal::Edit(EditStart::Front)
            })
            &&& key == Key::Char('a') ==> b == (if s.selecting {
                Normal::Fill(FillMode::Append)
            } else {
                Normal::Edit(EditStart::End)
            })
            &&& key == Key::Char('x') ==> b == (if s.selecting {
                Normal::ClearSelection
            } else {
                Normal::ClearCell
            })
            &&& key == Key::Char('d') && s.selecting ==> b == Normal::DeleteSelection
            &&& key == Key::Char('o') ==> b == (Normal::OpenRow { below: true })
            &&& key == Key::Char('O') ==> b == (Normal::OpenRow { below: false })
            &&& key == Key::Char('p') ==> b == Normal::Paste
            &&& key == Key::Char('u') ==> b == Normal::Undo
            &&& key == Key::Char('n') ==> b == Normal::NextMatch
            &&& key == Key::Char('N') ==> b == Normal::PreviousMatch
            &&& key == Key::Char('y') ==> b == Normal::Yank
        }),
{
    reveal(bound);
}

proof fn lemma_moves(s: Session, b: Normal, drawn: Drawn, limits: Limits, after: Session, task: Task)
    requires
        acted(s, b, drawn, limits, after, task),
    ensures
        ({
            let n = counted(s.pending_num, 1) as int;
            let t = Session { pending_num: Seq::empty(), ..s };
            &&& b == Normal::Down ==> after == t.down(n) && task is Nothing
            &&& b == Normal::Up ==> after == t.up(n) && task is Nothing
            &&& b == Normal::Left ==> after == t.left(n) && task is Nothing
            &&& b == Normal::Right ==> after == t.right(n, drawn) && task is Nothing
            &&& b == Normal::Top ==> after == t.cursor_to(0) && task is Nothing
            &&& b == Normal::Bottom ==> after == s.to_bottom() && task is Nothing
            &&& b == Normal::FirstColumn ==> after == s.first_column() && task is Nothing
            &&& b == Normal::LastColumn ==> after == s.to_last_column(drawn) && task is Nothing
            &&& b == Normal::Mode ==> after == s.cycled() && task is Nothing
            &&& b matches Normal::Page { down, whole } ==> after == s.paged(down, whole) && task is Nothing
        }),
{
    reveal(acted);
}

/// What is typed next, what is selected and what is shown are switched.
pub proof fn what_is_switched(s: Session, b: Normal, drawn: Drawn, limits: Limits, after: Session, task: Task)
    requires
        acted(s, b, drawn, limits, after, task),
    ensures
        ({
            let t = Session { pending_num: Seq::empty(), ..s };
            &&& b == Normal::Search ==> after == (Session {
                mode: Mode::Search,
                search_buf: Seq::empty(),
                ..t
            })
            &&& b == Normal::Command ==> after == (Session {
                mode: Mode::Command,
                command_buf: Seq::empty(),
                ..t
            })
            &&& b == Normal::Select && s.visual_anchor is Some ==> after == (Session { visual_anchor: None, ..t })
            &&& b == Normal::Select && s.visual_anchor is None ==> after == (Session {
                visual_anchor: after.visual_anchor,
                ..t
            }) && (after.visual_anchor matches Some(spot) && spot.row == s.cursor_row && spot.column
                == s.cursor_col)
            &&& b == Normal::RelativeRows ==> after == (Session { relative_rows: !s.relative_rows, ..t })
            &&& b == Normal::CloseCellView ==> after == (Session { cell_view: false, ..t })
            &&& b == Normal::DropSelection ==> after == (Session { visual_anchor: None, ..t })
            &&& b == Normal::Nothing ==> after == t && task is Nothing
        }),
{
    reveal(acted);
}

/// What a key is about is the cursor's column, which there is from then on; leaving
/// takes back the search and the order.
pub proof fn what_is_changed(s: Session, b: Normal, drawn: Drawn, limits: Limits, after: Session, task: Task)
    requires
        acted(s, b, drawn, limits, after, task),
    ensures
        ({
            let t = Session { pending_num: Seq::empty(), ..s };
            &&& b == Normal::Quit ==> after == s.quitting(false)
            &&& b == Normal::Picker ==> after == t.picking()
            &&& b == Normal::CellView ==> after.cell_view == !s.cell_view && after.selection_mode
                != SelectionMode::Row && after.store == s.store
            &&& b == Normal::TakeColumn && s.selection_mode == SelectionMode::Row ==> after == (Session {
                selection_mode: SelectionMode::Cell,
                cursor_col: s.col_offset,
                ..t
            })
            &&& b == Normal::Hide ==> after == t.hidden(limits)
            &&& b == Normal::Escape ==> after == s.escaped(limits) && task == s.escape_task()
            &&& b == Normal::Sort && s.selection_mode != SelectionMode::Row ==> after == s.sorted_here(limits)
                && task == s.sort_task(limits)
            &&& b == Normal::Sort && s.selection_mode == SelectionMode::Row ==> {
                let c = Session { selection_mode: SelectionMode::Cell, cursor_col: s.col_offset, ..s };
                after == c.sorted_here(limits) && task == c.sort_task(limits)
            }
        }),
{
    reveal(acted);
}

/// What is edited.
pub proof fn what_is_edited(s: Session, b: Normal, drawn: Drawn, limits: Limits, after: Session, task: Task)
    requires
        acted(s, b, drawn, limits, after, task),
    ensures
        b matches Normal::Edit(start) ==> after == s.editing(start) && task is Nothing,
        b matches Normal::Fill(mode) ==> after == s.filling(mode) && task is Nothing,
        b == Normal::ClearCell ==> after == s.cell_cleared() && task is Nothing,
        b == Normal::ClearSelection ==> after == s.selection_cleared() && task is Nothing,
        b == Normal::DeleteSelection ==> s.selection_deletes(after) && task is Nothing,
        b matches Normal::OpenRow { below } ==> s.opens(after, below) && task is Nothing,
        b == Normal::Paste ==> after == s.pasted() && task is Nothing,
        b == Normal::Undo ==> after == s.undone() && task is Nothing,
        b == Normal::NextMatch ==> s.steps(after, true) && task is Nothing,
        b == Normal::PreviousMatch ==> s.steps(after, false) && task is Nothing,
        b == Normal::Yank ==> s.yanks(after, task),
{
    reveal(acted);
}

/// The rows of a selection are taken out from the first of them to the last.
pub proof fn the_rows_selected_are_taken_out(s: Session, after: Session)
    requires
        s.selection_deletes(after),
        s.visual_anchor is Some,
        s.store is Some,
    ensures
        exists|top: usize, bottom: usize|
            top <= bottom && #[trigger] spans(s, top, bottom) && s.deletes(
                after,
                top,
                if bottom - top == usize::MAX {
                    usize::MAX
                } else {
                    (bottom - top + 1) as usize
                },
            ),
{
    let b = s.selection()->Some_0;
    assert(spans(s, b.top, b.bottom));
    assert(b.top <= b.bottom);
}

/// The keys that move: down and up by rows, left and right by columns, as often
/// as was typed before.
pub proof fn keys_that_move(
    s: Session,
    key: Key,
    ctrl: bool,
    drawn: Drawn,
    limits: Limits,
    after: Session,
    task: Task,
)
    requires
        pressed(s, key, ctrl, drawn, limits, after, task),
    ensures
        ({
            let n = counted(s.pending_num, 1) as int;
            let t = Session { pending_num: Seq::empty(), ..s };
            &&& key == Key::Char('j') || key == Key::Down ==> after == t.down(n)
            &&& key == Key::Char('k') || key == Key::Up ==> after == t.up(n)
            &&& key == Key::Char('h') || key == Key::Left ==> after == t.left(n)
            &&& key == Key::Char('l') || key == Key::Right ==> after == t.right(n, drawn)
            &&& key == Key::Home ==> after == t.cursor_to(0)
            &&& key == Key::End || key == Key::Char('G') ==> after == s.to_bottom()
            &&& key == Key::Char('H') || (key == Key::Char('0') && !ctrl && s.pending_num.len() == 0) ==> after
                == s.first_column()
            &&& key == Key::Char('$') ==> after == s.to_last_column(drawn)
            &&& key == Key::Tab ==> after == s.cycled()
            &&& key == Key::PageDown || (ctrl && key == Key::Char('f')) ==> after == s.paged(true, true)
            &&& key == Key::PageUp || (ctrl && key == Key::Char('b')) ==> after == s.paged(false, true)
            &&& ctrl && key == Key::Char('d') ==> after == s.paged(true, false)
            &&& ctrl && key == Key::Char('u') ==> after == s.paged(false, false)
        }),
        match key {
            Key::Down | Key::Up | Key::Left | Key::Right | Key::Home | Key::End | Key::Tab | Key::PageDown
            | Key::PageUp => task is Nothing,
            Key::Char(c) => c == 'j' || c == 'k' || c == 'h' || c == 'l' || c == 'G' || c == 'H' || c == '$'
                || (ctrl && (c == 'f' || c == 'b' || c == 'd' || c == 'u')) ==> task is Nothing,
            _ => true,
        },
{
    a_key_does_what_it_stands_for(s, key, ctrl, drawn, limits, after, task);
    let b = bound(key, s.setting(ctrl));
    lemma_move_keys(key, s.setting(ctrl));
    if key != Key::Char('?') {
        lemma_moves(s, b, drawn, limits, after, task);
    }
}

/// Digits make a number, but that a nought by itself is the first column.
pub proof fn digits_make_a_number(
    s: Session,
    c: char,
    drawn: Drawn,
    limits: Limits,
    after: Session,
    task: Task,
)
    requires
        pressed(s, Key::Char(c), false, drawn, limits, after, task),
        '0' <= c <= '9',
        c != '0' || s.pending_num.len() > 0,
    ensures
        task is Nothing,
        after == (Session { pending_num: s.pending_num + seq![c], ..s }),
{
    a_key_does_what_it_stands_for(s, Key::Char(c), false, drawn, limits, after, task);
    reveal(acted);
    reveal(bound);
    assert(s.pending_num + seq![c] =~= s.pending_num.push(c));
}

/// The keys of a lake: its catalog, its snapshots, and the partitions of the
/// table. They do nothing without a lake.
pub proof fn keys_of_a_lake(
    s: Session,
    key: Key,
    drawn: Drawn,
    limits: Limits,
    after: Session,
    task: Task,
)
    requires
        pressed(s, key, false, drawn, limits, after, task),
        key == Key::Char('b') || key == Key::Char('T') || key == Key::Char('f'),
    ensures
        ({
            let t = Session { pending_num: Seq::empty(), ..s };
            &&& s.lake is None ==> after == t && task is Nothing
            &&& s.lake is Some && key == Key::Char('b') ==> task is Nothing && after == (Session {
                screen: Screen::Browser,
                ..t
            })
            &&& s.lake is Some && key == Key::Char('T') ==> task is Nothing && after.screen
                == Screen::Browser && after.lake == Some(s.lake->Some_0.listing_snapshots())
            &&& s.lake is Some && key == Key::Char('f') ==> after == t
            &&& s.lake is Some && key == Key::Char('f') && s.lake->Some_0.scope is None ==> task is Nothing
            &&& s.lake is Some && key == Key::Char('f') && s.lake->Some_0.scope is Some ==> {
                let scope = s.lake->Some_0.scope->Some_0;
                task == (Task::Partitions {
                    table: scope.table,
                    select: if scope.partition is Some {
                        scope.partition->Some_0
                    } else {
                        0
                    },
                })
            }
        }),
{
    a_key_does_what_it_stands_for(s, key, false, drawn, limits, after, task);
    reveal(acted);
    reveal(bound);
}

/// The rows of a selection run from the one to the other.
pub open spec fn spans(s: Session, top: usize, bottom: usize) -> bool {
    s.visual_anchor matches Some(anchor) && if s.selection_mode == SelectionMode::Column {
        top == 0 && bottom == s.last_row()
    } else {
        (top == anchor.row && bottom == s.cursor_row) || (top == s.cursor_row && bottom == anchor.row)
    }
}

/// What was taken back is done again with a key of its own.
pub proof fn what_was_taken_back_can_be_done_again(
    s: Session,
    drawn: Drawn,
    limits: Limits,
    after: Session,
    task: Task,
)
    requires
        pressed(s, Key::Char('r'), true, drawn, limits, after, task),
    ensures
        after == s.redone(),
        task is Nothing,
{
    a_key_does_what_it_stands_for(s, Key::Char('r'), true, drawn, limits, after, task);
    reveal(acted);
    reveal(bound);
}

/// Three keys wait for another one, and a count that was typed waits with two of
/// them.
pub proof fn keys_that_wait_for_another(
    s: Session,
    c: char,
    drawn: Drawn,
    limits: Limits,
    after: Session,
    task: Task,
)
    requires
        pressed(s, Key::Char(c), false, drawn, limits, after, task),
    ensures
        c == 'g' ==> after == (Session { pending_prefix: Some('g'), ..s }),
        c == 'd' && s.visual_anchor is None ==> after == (Session { pending_prefix: Some('d'), ..s }),
        c == 'z' || c == 'Z' ==> after == (Session {
            pending_prefix: Some('z'),
            pending_num: Seq::empty(),
            ..s
        }),
        c == 'g' || (c == 'd' && s.visual_anchor is None) || c == 'z' ==> task is Nothing,
{
    a_key_does_what_it_stands_for(s, Key::Char(c), false, drawn, limits, after, task);
    reveal(acted);
    reveal(bound);
}

/// The second of two keys.
pub proof fn the_second_of_two_keys(
    s: Session,
    c: char,
    ctrl: bool,
    drawn: Drawn,
    limits: Limits,
    after: Session,
    task: Task,
)
    requires
        s.pending_prefix is Some,
        at_the_table(Session { pending_prefix: None, ..s }),
        s.handles(after, task, Key::Char(c), ctrl, drawn, limits),
        c != '?',
    ensures
        task is Nothing,
        ({
            let t = Session { pending_prefix: None, ..s };
            let z = s.pending_prefix == Some('z');
            &&& z && (c == 'z' || c == 'Z') ==> after == t.centered()
            &&& z && (c == 't' || c == 'T') ==> after == t.topped()
            &&& z && (c == 'b' || c == 'B') ==> after == t.bottomed()
            &&& z && c == '>' ==> after == t.column_resized(true, drawn)
            &&& z && c == '<' ==> after == t.column_resized(false, drawn)
            &&& z && c == '_' ==> after == t.column_fitted(drawn)
            &&& z && (c == 'p' || c == 'P') ==> after == t.pin_toggled()
            &&& z && c == '|' ==> after == (Session { pinned: Set::empty(), ..t })
            &&& z && c == '=' ==> after.widths == Map::<usize, usize>::empty() && after.pinned == s.pinned
                && after.message == Some("column widths reset"@)
            &&& z && (c == 'k' || c == 'K') ==> after.cell_view == !s.cell_view
            &&& s.pending_prefix == Some('g') && c == 'g' ==> after == t.to_first()
            &&& s.pending_prefix == Some('d') && c == 'd' ==> t.deletes(
                after,
                s.cursor_row,
                counted(s.pending_num, 1),
            )
            &&& !z && c != 'g' && c != 'G' && c != 'd' && c != 'D' ==> after == (Session {
                pending_num: Seq::empty(),
                ..t
            })
            &&& s.pending_prefix == Some('g') && c == 'd' || s.pending_prefix == Some('d') && c == 'g'
                ==> after == (Session { pending_num: Seq::empty(), ..t })
        }),
{
    let t = Session { pending_prefix: None, ..s };
    assert(s == (Session { message: None, ..s }));
    assert(('Z' as u8 + 32) as u8 as char == 'z');
    assert(('T' as u8 + 32) as u8 as char == 't');
    assert(('B' as u8 + 32) as u8 as char == 'b');
    assert(('P' as u8 + 32) as u8 as char == 'p');
    assert(('K' as u8 + 32) as u8 as char == 'k');
    if 'A' <= c <= 'Z' && c != 'G' && c != 'D' {
        assert((c as u8 + 32) as u8 as char != 'g');
        assert((c as u8 + 32) as u8 as char != 'd');
    }
}

/// Help is up until a key is pressed, and the key does nothing else.
pub proof fn any_key_takes_help_away(
    s: Session,
    key: Key,
    ctrl: bool,
    drawn: Drawn,
    limits: Limits,
    after: Session,
    task: Task,
)
    requires
        s.help_visible,
        s.handles(after, task, key, ctrl, drawn, limits),
    ensures
        task is Nothing,
        after == (Session { help_visible: false, message: None, ..s }),
{
}

/// What was said is gone with the next key, in every mode.
pub proof fn a_key_goes_to_what_has_the_screen(
    s: Session,
    key: Key,
    ctrl: bool,
    drawn: Drawn,
    limits: Limits,
    after: Session,
    task: Task,
)
    requires
        !s.help_visible,
        key != Key::Char('?'),
        s.handles(after, task, key, ctrl, drawn, limits),
    ensures
        ({
            let t = Session { message: None, ..s };
            &&& s.screen == Screen::Browser ==> after == t.browser_key(key, ctrl)
            &&& s.screen == Screen::Viewer && s.mode == Mode::Search ==> after == t.search_key(key)
            &&& s.screen == Screen::Viewer && s.mode == Mode::Edit ==> after == t.edit_key(key, ctrl)
            &&& s.screen == Screen::Viewer && s.mode == Mode::Picker ==> after == t.picker_key(key, ctrl)
                && task is Nothing
            &&& s.screen == Screen::Viewer && s.mode == Mode::Command ==> t.command_key(
                after,
                task,
                key,
                ctrl,
                limits,
            )
        }),
{
}

} // verus!
