//! What a command does to what is shown of a table.
use vstd::prelude::*;
use crate::app::command::{first_space, first_word, unforced, unsaved_text};
use crate::app::session::{Limits, PinCheck, Session, Task};
use crate::app::columns::resized;
use crate::data::store::{Held, Source};
use crate::description::op_text;
use crate::grammar::operator;
use crate::laws::commands::{each_operator_has_its_sign, lemma_signs};
use crate::text::is_space;
use crate::view::{Command, Op, Shown, Slot};

verus! {

/// Each command changes its own part of a view and leaves the others.
pub proof fn a_command_changes_its_own_part(view: Shown, command: Command, width: nat)
    ensures
        ({
            let after = view.after(command, width);
            match command {
                Command::Select(columns) => if columns@.len() == 0 {
                    after is None
                } else {
                    after matches Some(v) && v.select == Some(columns@) && v.filter == view.filter && v.sort
                        == view.sort
                },
                Command::Hide(_) => after matches Some(v) ==> v.filter == view.filter && v.sort == view.sort,
                Command::Filter(filter) => after matches Some(v) && v.filter == Some(filter) && v.select
                    == view.select && v.sort == view.sort,
                Command::Sort(keys) => after matches Some(v) && v.sort == keys@ && v.select == view.select
                    && v.filter == view.filter,
                Command::Reset(slot) => {
                    &&& after is Some
                    &&& slot is None || slot == Some(Slot::Select) ==> after->Some_0.select is None
                    &&& slot is None || slot == Some(Slot::Filter) ==> after->Some_0.filter is None
                    &&& slot is None || slot == Some(Slot::Sort) ==> after->Some_0.sort.len() == 0
                    &&& slot is Some && slot != Some(Slot::Select) ==> after->Some_0.select == view.select
                    &&& slot is Some && slot != Some(Slot::Filter) ==> after->Some_0.filter == view.filter
                    &&& slot is Some && slot != Some(Slot::Sort) ==> after->Some_0.sort == view.sort
                },
            }
        }),
{
}

/// Hidden columns are the ones named. The others stay, in their order.
pub proof fn only_the_columns_named_are_hidden(view: Shown, hidden: Vec<usize>, width: nat, column: usize)
    requires
        view.select is Some,
    ensures
        ({
            let longer = Shown { select: Some(view.select->Some_0.push(column)), ..view };
            let before = view.after(Command::Hide(hidden), width);
            let left = if before is Some {
                before->Some_0.select->Some_0
            } else {
                Seq::empty()
            };
            let after = longer.after(Command::Hide(hidden), width);
            &&& hidden@.contains(column) ==> after == before
            &&& !hidden@.contains(column) ==> after is Some && after->Some_0.select == Some(left.push(column))
        }),
        view.select->Some_0.len() == 0 ==> view.after(Command::Hide(hidden), width) is None,
{
    reveal(Seq::filter);
    let keep = |c: usize| !hidden@.contains(c);
    let chosen = view.select->Some_0;
    let longer = Shown { select: Some(chosen.push(column)), ..view };
    assert(chosen.push(column).drop_last() =~= chosen);
    let left = chosen.filter(keep);
    if left.len() == 0 {
        assert(left =~= Seq::empty());
    }
    if hidden@.contains(column) && left.len() > 0 {
        assert(Shown { select: Some(left), ..longer } == Shown { select: Some(left), ..view });
    }
}

/// Without a choice of columns all of them are shown, in their order.
pub proof fn all_columns_are_shown_unless_some_are_chosen(view: Shown, width: nat)
    requires
        width <= usize::MAX,
    ensures
        view.select is None ==> view.columns(width).len() == width && forall|i: int|
            0 <= i < width ==> #[trigger] view.columns(width)[i] == i,
        view.select matches Some(chosen) ==> view.columns(width) == chosen,
{
}

/// A view is told of in the words that ask for it: an operator by the sign that it
/// is read from.
pub proof fn an_operator_is_told_by_its_sign(op: Op)
    ensures
        operator(op_text(op)) == Some(op),
{
    each_operator_has_its_sign(op_text(op));
    lemma_signs();
}

/// The verb of a line is what stands before its first white space.
pub proof fn a_line_starts_with_its_verb(line: Seq<char>)
    ensures
        ({
            let at = first_space(line);
            &&& 0 <= at <= line.len()
            &&& at < line.len() ==> is_space(line[at])
            &&& forall|i: int| 0 <= i < at ==> !is_space(#[trigger] line[i])
            &&& first_word(line) == line.take(at)
        }),
    decreases line.len(),
{
    if line.len() > 0 && !is_space(line[0]) {
        a_line_starts_with_its_verb(line.skip(1));
        let at = first_space(line);
        assert(at < line.len() ==> line[at] == line.skip(1)[at - 1]);
        assert forall|i: int| 0 <= i < at implies !is_space(#[trigger] line[i]) by {
            if i > 0 {
                assert(line[i] == line.skip(1)[i - 1]);
            }
        }
    }
}

/// A verb can be forced, and is the same verb then.
pub proof fn a_verb_can_be_forced(verb: Seq<char>)
    requires
        verb.len() > 0 ==> verb.last() != '!',
    ensures
        unforced(verb) == verb,
        unforced(verb + seq!['!']) == verb,
{
    let loud = verb + seq!['!'];
    assert(loud.last() == '!');
    assert(loud.drop_last() =~= verb);
    assert(unforced(loud) == unforced(loud.drop_last()));
}

/// The verbs that write and leave: one writes, one leaves, two do both; forced,
/// they do it past what would stop them.
pub proof fn the_verbs_that_write_and_leave(
    s: Session,
    after: Session,
    task: Task,
    line: Seq<char>,
    limits: Limits,
)
    requires
        s.store is Some,
        s.runs(after, task, line, limits),
    ensures
        ({
            let word = first_word(line);
            &&& word == seq!['w'] ==> after == s && (task matches Task::Write { path, force, quit } && !force
                && !quit)
            &&& word == seq!['w', '!'] ==> after == s && (task matches Task::Write { path, force, quit } && force
                && !quit)
            &&& word == seq!['w', 'q'] || word == seq!['x'] ==> after == s && (task matches Task::Write {
                path,
                force,
                quit,
            } && !force && quit)
            &&& word == seq!['w', 'q', '!'] || word == seq!['x', '!'] ==> after == s && (
            task matches Task::Write { path, force, quit } && force && quit)
            &&& word == seq!['q'] && s.dirty() == 0 ==> task is Nothing && after == (Session {
                exit: true,
                ..s
            })
            &&& word == seq!['q'] && s.dirty() > 0 ==> task is Nothing && after == (Session {
                message: Some(unsaved_text(s.dirty() as nat)),
                ..s
            })
            &&& word == seq!['q', '!'] ==> task is Nothing && after == (Session { exit: true, ..s })
        }),
{
    reveal_strlit("w");
    reveal_strlit("wq");
    reveal_strlit("x");
    reveal_strlit("q");
    let w = seq!['w'];
    let wq = seq!['w', 'q'];
    let x = seq!['x'];
    let q = seq!['q'];
    assert("w"@ =~= w);
    assert("wq"@ =~= wq);
    assert("x"@ =~= x);
    assert("q"@ =~= q);
    a_verb_can_be_forced(w);
    a_verb_can_be_forced(wq);
    a_verb_can_be_forced(x);
    a_verb_can_be_forced(q);
    assert(w + seq!['!'] =~= seq!['w', '!']);
    assert(wq + seq!['!'] =~= seq!['w', 'q', '!']);
    assert(x + seq!['!'] =~= seq!['x', '!']);
    assert(q + seq!['!'] =~= seq!['q', '!']);
    assert(w[0] == 'w' && x[0] == 'x' && q[0] == 'q' && wq.len() == 2 && w.len() == 1);
}

/// A view that a command makes is the one shown, and the cursor goes to the first
/// row just when the rows are others or in another order.
pub proof fn a_command_shows_its_view(s: Session, command: Command, limits: Limits, view: Shown)
    requires
        s.store is Some,
        s.store->Some_0.sort_refusal(command, limits) is None,
        s.store->Some_0.shows().after(command, s.store->Some_0.names@.len()) == Some(view),
    ensures
        ({
            let after = s.viewed(command, limits);
            let h = s.store->Some_0;
            let reordered = view.sort != h.sort || command is Filter || command == Command::Reset(None)
                || command == Command::Reset(Some(Slot::Filter));
            &&& after.store is Some
            &&& after.store->Some_0.shows() == view
            &&& after.store->Some_0.buffer == h.buffer
            &&& after.hunt is None && after.visual_anchor is None
            &&& reordered && after.rows() > 0 ==> after.cursor_row == 0
            &&& !reordered ==> after.cursor_row == s.cursor_row
            &&& after.cursor_col <= after.last_column()
            &&& s.cursor_col <= after.last_column() ==> after.cursor_col == s.cursor_col
            &&& s.view_task(command, limits) == (if !reordered {
                Task::Nothing
            } else if view.sort.len() > 0 {
                Task::Sort
            } else if view.filter is Some && h.source != Source::Lake {
                Task::Filter
            } else {
                Task::Nothing
            })
            &&& reordered && view.sort.len() > 0 ==> after.running.sort && !after.running.filter
            &&& reordered && view.sort.len() == 0 ==> !after.running.sort && (after.running.filter
                == (view.filter is Some && h.source != Source::Lake))
        }),
{
    reveal(Session::cursor_to);
}

/// A table that there is no memory to sort stays as it is.
pub proof fn a_table_can_be_too_large_to_sort(s: Session, keys: Vec<(usize, bool)>, limits: Limits)
    requires
        s.store is Some,
    ensures
        ({
            let h = s.store->Some_0;
            let after = s.viewed(Command::Sort(keys), limits);
            let large = h.source != Source::Lake && !h.fits(limits.cells);
            &&& keys@.len() > 0 && large ==> after.store == s.store && after.message == Some(h.too_big())
                && s.view_task(Command::Sort(keys), limits) is Nothing
            &&& keys@.len() == 0 || !large ==> h.sort_refusal(Command::Sort(keys), limits) is None
            &&& large ==> s.sorted_here(limits).store == s.store && s.sorted_here(limits).message == Some(
                h.too_big(),
            ) && s.sort_task(limits) is Nothing
        }),
{
}

/// What a table takes to sort: its rows, or those that a filter has matched once
/// it is through, by its columns.
pub proof fn a_sort_takes_every_cell(h: Held, cells: usize)
    requires
        h.total_rows * h.names@.len() <= usize::MAX,
    ensures
        h.matches is None ==> (h.fits(cells) <==> h.total_rows * h.names@.len() <= cells),
        h.matches matches Some(m) ==> {
            &&& !m.complete ==> (h.fits(cells) <==> h.total_rows * h.names@.len() <= cells)
            &&& m.complete && m.rows.len() <= h.total_rows ==> (h.fits(cells) <==> m.rows.len() * h.names@.len()
                <= cells)
        },
{
    if h.matches is Some && h.matches->Some_0.rows.len() <= h.total_rows {
        let (a, b, n) = (h.matches->Some_0.rows.len(), h.total_rows as nat, h.names@.len());
        assert(a * n <= b * n) by (nonlinear_arith)
            requires
                a <= b,
        ;
    }
}

/// The cursor's column becomes a key, or the key that it is turns round; the rows
/// are then shown from the first on.
pub proof fn the_cursors_column_is_sorted_by(s: Session, limits: Limits)
    requires
        s.store is Some,
        s.store->Some_0.source == Source::Lake || s.store->Some_0.fits(limits.cells),
        s.cursor_col < s.store->Some_0.columns().len(),
    ensures
        ({
            let h = s.store->Some_0;
            let after = s.sorted_here(limits);
            let column = h.columns()[s.cursor_col as int];
            &&& after.store->Some_0.sort == crate::data::store::toggled(h.sort, column)
            &&& after.store->Some_0.select == h.select && after.store->Some_0.filter == h.filter
            &&& after.store->Some_0.sorted is None && after.store->Some_0.matches is None
            &&& after.cursor_row == 0 && after.store->Some_0.row_offset == 0
            &&& after.cursor_col == s.cursor_col
            &&& after.running.sort && s.sort_task(limits) == Task::Sort
            &&& after.visual_anchor is None && after.hunt is None
        }),
{
}

/// Leaving takes the order and the search away and nothing else of the view.
pub proof fn leaving_takes_the_order_away(s: Session, limits: Limits)
    requires
        s.store is Some,
    ensures
        ({
            let h = s.store->Some_0;
            let after = s.escaped(limits);
            let a = after.store->Some_0;
            &&& after.hunt is None && after.pending_num.len() == 0
            &&& a.sort.len() == 0 && a.select == h.select && a.filter == h.filter && a.buffer == h.buffer
            &&& h.sort.len() == 0 ==> after.store == s.store && after.cursor_row == s.cursor_row
            &&& h.sort.len() > 0 ==> after.cursor_row == 0 && a.row_offset == 0 && a.sorted is None
            &&& s.escape_task() == (if h.sort.len() > 0 && h.filter is Some && h.source != Source::Lake {
                Task::Filter
            } else {
                Task::Nothing
            })
            &&& h.sort.len() > 0 ==> after.running.filter == (s.escape_task() is Filter)
        }),
{
}

/// The cursor's column is hidden and told of, unless it is the only one.
pub proof fn the_cursors_column_is_hidden(s: Session, limits: Limits)
    requires
        s.store is Some,
        s.store->Some_0.select is Some,
        s.cursor_col < s.store->Some_0.columns().len(),
        s.message is None,
        s.store->Some_0.columns()[s.cursor_col as int] < s.store->Some_0.names@.len(),
    ensures
        ({
            let h = s.store->Some_0;
            let column = h.columns()[s.cursor_col as int];
            let after = s.hidden(limits);
            let others = h.columns().filter(|c: usize| c != column);
            &&& others.len() == 0 ==> after.store == s.store && after.message == Some(
                "that would hide every column"@,
            )
            &&& others.len() > 0 ==> after.store->Some_0.columns() == others && after.store->Some_0.sort
                == h.sort && after.message == Some(
                "hid "@ + h.names@[column as int]@ + " \u{2014} :reset select brings it back"@,
            )
        }),
{
    let h = s.store->Some_0;
    let column = h.columns()[s.cursor_col as int];
    assert(crate::app::reshape::other_than(column) =~= (|c: usize| c != column));
}

/// A column is widened and narrowed by four, and never below the least width. It
/// is fitted to what it holds on the screen.
pub proof fn a_column_is_widened_and_narrowed(s: Session, drawn: crate::app::session::Drawn, width: usize, column: usize)
    requires
        s.cursor_source() == Some(column),
        s.widths.contains_key(column) ==> s.widths[column] == width,
        !s.widths.contains_key(column) ==> drawn.cursor_width == width,
        width >= 4,
        width + 4 <= usize::MAX,
    ensures
        ({
            let wider = s.column_resized(true, drawn);
            let narrower = s.column_resized(false, drawn);
            let fitted = s.column_fitted(drawn);
            &&& wider.widths == s.widths.insert(column, (width + 4) as usize)
            &&& width >= 8 ==> narrower.widths == s.widths.insert(
                column,
                (width - 4) as usize,
            )
            &&& width < 8 ==> narrower.widths == s.widths.insert(
                column,
                4,
            )
            &&& drawn.widest matches Some(widest) ==> fitted.widths == s.widths.insert(column, widest)
            &&& drawn.widest is None ==> fitted == s
            &&& wider.pinned == s.pinned && wider.store == s.store && narrower.store == s.store
        }),
        resized(width, true) > width,
        resized(width, false) <= width,
{
}

/// The cursor's column is pinned, or no longer pinned if it was; a pin that there
/// is no room for is taken back.
pub proof fn a_column_is_pinned(s: Session, column: usize)
    requires
        s.cursor_source() == Some(column),
    ensures
        s.pinned.contains(column) ==> s.pin_toggled().pinned == s.pinned.remove(column)
            && s.pin_toggled().pin_check == s.pin_check,
        !s.pinned.contains(column) ==> s.pin_toggled().pinned == s.pinned.insert(column)
            && s.pin_toggled().pin_check == Some(PinCheck::Pinned(column)),
        !s.pinned.contains(column) ==> s.pin_toggled().pins_checked(true).pinned == s.pinned.insert(column),
        !s.pinned.contains(column) ==> s.pin_toggled().pins_checked(false).pinned =~= s.pinned
            && s.pin_toggled().pins_checked(false).message == Some(
            "no room to pin: unpin one, or narrow one with z<"@,
        ),
        s.pin_toggled().store == s.store,
{
}

} // verus!
