//! Typing values, taking rows out and putting rows in.
use vstd::prelude::*;
use crate::app::editing::{line_after, Reading, MAX_BLOCK};
use crate::app::keys::{EditStart, FillMode, Key};
use crate::app::session::{Block, Mode, SelectionMode, Session, Task};
use crate::data::edit::Pending;
use crate::data::store::{Held, Source};
use crate::text::decimal_text;

verus! {

/// A character goes in at the caret, between what stood before it and what stood
/// behind it, and the next one goes in behind it.
pub proof fn a_character_goes_in_at_the_caret(text: Seq<char>, caret: usize, c: char)
    requires
        caret <= text.len() < usize::MAX,
    ensures
        ({
            let (after, at) = line_after(text, caret, Key::Char(c), false);
            &&& after == text.take(caret as int) + seq![c] + text.skip(caret as int)
            &&& at == caret + 1
            &&& line_after(after, at, Key::Backspace, false) == (text, caret)
            &&& line_after(after, caret, Key::Delete, false) == (text, caret)
            &&& line_after(text, caret, Key::Char(c), true) == (text, caret)
        }),
{
    let after = line_after(text, caret, Key::Char(c), false).0;
    assert(after =~= text.take(caret as int) + seq![c] + text.skip(caret as int));
    assert(after.remove(caret as int) =~= text);
}

/// The character before the caret or the one behind it is taken out, and no
/// other.
pub proof fn a_character_is_taken_out_at_the_caret(text: Seq<char>, caret: usize)
    requires
        caret <= text.len(),
    ensures
        caret > 0 ==> line_after(text, caret, Key::Backspace, false) == (
            text.take(caret - 1) + text.skip(caret as int),
            (caret - 1) as usize,
        ),
        caret < text.len() ==> line_after(text, caret, Key::Delete, false) == (
            text.take(caret as int) + text.skip(caret + 1),
            caret,
        ),
        caret == 0 ==> line_after(text, caret, Key::Backspace, false) == (text, caret),
        caret == text.len() ==> line_after(text, caret, Key::Delete, false) == (text, caret),
{
    if caret > 0 {
        assert(text.remove(caret - 1) =~= text.take(caret - 1) + text.skip(caret as int));
    }
    if caret < text.len() {
        assert(text.remove(caret as int) =~= text.take(caret as int) + text.skip(caret + 1));
    }
}

/// The caret moves within the text and changes nothing of it.
pub proof fn the_caret_moves_within_the_text(text: Seq<char>, caret: usize, ctrl: bool)
    requires
        caret <= text.len() <= usize::MAX,
    ensures
        caret > 0 ==> line_after(text, caret, Key::Left, ctrl) == (text, (caret - 1) as usize),
        caret == 0 ==> line_after(text, caret, Key::Left, ctrl) == (text, caret),
        caret < text.len() ==> line_after(text, caret, Key::Right, ctrl) == (text, (caret + 1) as usize),
        caret == text.len() ==> line_after(text, caret, Key::Right, ctrl) == (text, caret),
        line_after(text, caret, Key::Home, ctrl) == (text, 0usize),
        line_after(text, caret, Key::End, ctrl) == (text, text.len() as usize),
        line_after(text, caret, Key::Up, ctrl) == (text, caret),
        line_after(text, caret, Key::Down, ctrl) == (text, caret),
{
}

/// An edit starts from the cell under the cursor: at its front, at its end, or
/// with nothing.
pub proof fn an_edit_starts_from_the_cell(s: Session, start: EditStart)
    requires
        s.edit_refusal() is None,
        s.selection_mode != SelectionMode::Row,
        s.store->Some_0.cell(s.cursor_row, s.cursor_col) is Some,
        s.store->Some_0.cell(s.cursor_row, s.cursor_col)->Some_0.len() <= usize::MAX,
    ensures
        ({
            let current = s.store->Some_0.cell(s.cursor_row, s.cursor_col)->Some_0;
            let after = s.editing(start);
            &&& after.mode == Mode::Edit
            &&& after.store == s.store
            &&& after.edit_cell matches Some(spot) && spot.row == s.cursor_row && spot.column == s.cursor_col
            &&& after.cursor_row == s.cursor_row && after.cursor_col == s.cursor_col
            &&& start == EditStart::Front ==> after.edit_buf == current && after.edit_cursor == 0
            &&& start == EditStart::End ==> after.edit_buf == current && after.edit_cursor == current.len()
            &&& start == EditStart::Empty ==> after.edit_buf.len() == 0 && after.edit_cursor == 0
        }),
{
}

/// What can be edited: a file that can be written, unless its rows are still to
/// be put in order. Rows come and go only where the file's own are shown.
pub proof fn only_a_file_that_can_be_written_is_edited(s: Session)
    ensures
        s.store is None ==> s.edit_refusal() == Some("no file open"@) && s.row_refusal() == Some(
            "no file open"@,
        ),
        s.store matches Some(h) ==> {
            let editable = h.edit is Some && (h.sort.len() == 0 || h.sorted is Some);
            &&& s.edit_refusal() is None <==> editable
            &&& s.row_refusal() is None <==> editable && h.matches is None && h.sorted is None
            &&& h.edit is None && h.source == Source::Lake ==> s.edit_refusal() == Some(
                "lake tables are read-only"@,
            )
            &&& h.edit is None && h.source != Source::Lake ==> s.edit_refusal() == Some(
                "only csv, tsv, tab, txt and jsonl files can be edited"@,
            )
            &&& h.edit is Some && !editable ==> s.edit_refusal() == Some("still sorting"@)
            &&& !editable ==> s.row_refusal() == s.edit_refusal()
            &&& editable && s.row_refusal() is Some ==> s.row_refusal() == Some(
                "cannot delete rows from a filtered or sorted view"@,
            )
        },
{
}

/// Leaving an edit changes nothing; ending it writes what was typed to the cell
/// that it was begun in, unless that is what the cell holds.
pub proof fn an_edit_is_written_when_it_ends(s: Session)
    requires
        s.edit_fill is None,
        s.edit_cell is Some,
        s.store is Some,
    ensures
        ({
            let spot = s.edit_cell->Some_0;
            let h = s.store->Some_0;
            let left = s.edit_key(Key::Esc, false);
            let ended = s.edit_key(Key::Enter, false);
            &&& left.store == s.store && left.mode == Mode::Normal && left.edit_cell is None
            &&& ended.mode == Mode::Normal && ended.edit_cell is None && ended.edit_buf.len() == 0
            &&& left.cursor_row == s.cursor_row && ended.cursor_row == s.cursor_row
            &&& left.cursor_col == s.cursor_col && ended.cursor_col == s.cursor_col
            &&& h.cell(spot.row, spot.column) == Some(s.edit_buf) ==> ended.store == s.store
            &&& h.cell(spot.row, spot.column) != Some(s.edit_buf) ==> ended.store == Some(
                h.edited(seq![((spot.row, spot.column), s.edit_buf)]),
            ) && ended.visual_anchor is None
        }),
{
}

/// What was typed over a selection is written to every cell of it.
pub proof fn a_fill_is_written_when_it_ends(s: Session)
    requires
        s.edit_fill is Some,
        s.edit_cell is Some,
        s.store is Some,
    ensures
        ({
            let fill = s.edit_fill->Some_0;
            let ended = s.edit_key(Key::Enter, false);
            &&& ended.mode == Mode::Normal && ended.edit_fill is None
            &&& s.edit_key(Key::Esc, false).store == s.store
            &&& fill.mode == FillMode::Replace ==> ended.store == Some(
                s.store->Some_0.edited(
                    Seq::new(
                        fill.block.area() as nat,
                        |i: int| (fill.block.cell(i), s.edit_buf),
                    ),
                ),
            ) && s.fill_wanted() is None
            &&& fill.mode != FillMode::Replace ==> ended.store == s.store && s.fill_wanted() == Some(fill)
        }),
{
    let fill = s.edit_fill->Some_0;
    assert(crate::app::editing::block_edits(fill.block, |i: int| s.edit_buf) =~= Seq::new(
        fill.block.area() as nat,
        |i: int| (fill.block.cell(i), s.edit_buf),
    ));
}

/// An edit goes on to the next column or to the one before, as long as there is
/// one; what was typed is written as if the edit had ended.
pub proof fn an_edit_goes_on_to_the_neighbour(s: Session)
    ensures
        ({
            let ended = s.edit_key(Key::Enter, false);
            let on = s.edit_key(Key::Tab, false);
            let back = s.edit_key(Key::BackTab, false);
            &&& on.store == ended.store && back.store == ended.store
            &&& on.message == ended.message && back.message == ended.message
            &&& s.edit_fill is None && s.cursor_col < s.last_column() ==> on.cursor_col == s.cursor_col + 1
                && on.opening == Some(EditStart::End)
            &&& s.edit_fill is None && 0 < s.cursor_col <= s.last_column() ==> back.cursor_col == s.cursor_col
                - 1 && back.opening == Some(EditStart::End)
            &&& s.edit_fill is Some || s.cursor_col >= s.last_column() ==> on == ended
            &&& s.edit_fill is Some || s.cursor_col == 0 ==> back == ended
        }),
{
}

/// The cell under the cursor, and no other, is emptied.
pub proof fn one_cell_is_emptied(s: Session)
    requires
        s.edit_refusal() is None,
        s.selection_mode != SelectionMode::Row,
    ensures
        s.cell_cleared().store == Some(
            s.store->Some_0.edited(seq![((s.cursor_row, s.cursor_col), Seq::empty())]),
        ),
        s.cell_cleared().cursor_row == s.cursor_row,
        s.cell_cleared().cursor_col == s.cursor_col,
{
}

/// Something is to be typed over the selection, with nothing to start from.
pub proof fn a_fill_starts_from_nothing(s: Session, mode: FillMode)
    requires
        s.edit_refusal() is None,
        s.visual_anchor is Some,
        s.store is Some,
        s.selection()->Some_0.area() <= MAX_BLOCK,
    ensures
        ({
            let after = s.filling(mode);
            &&& after.mode == Mode::Edit
            &&& after.edit_buf.len() == 0 && after.edit_cursor == 0
            &&& after.edit_fill matches Some(fill) && fill.mode == mode && Some(fill.block) == s.selection()
            &&& after.store == s.store
        }),
{
}

/// What is read for the register is the selection, or without one the cell, the
/// column or the row under the cursor.
pub proof fn a_yank_reads_what_is_selected(s: Session, after: Session, task: Task)
    requires
        s.store is Some,
        s.yanks(after, task),
    ensures
        s.visual_anchor is Some && s.selection()->Some_0.area() <= MAX_BLOCK ==> task == Task::Read(
            Reading::Yank(s.selection()->Some_0),
        ),
        s.visual_anchor is None ==> (task matches Task::Read(reading) ==> {
            &&& reading matches Reading::Yank(b)
            &&& s.selection_mode == SelectionMode::Cell ==> b == (Block {
                top: s.cursor_row,
                bottom: s.cursor_row,
                left: s.cursor_col,
                right: s.cursor_col,
            })
            &&& s.selection_mode == SelectionMode::Row ==> b == (Block {
                top: s.cursor_row,
                bottom: s.cursor_row,
                left: 0,
                right: s.last_column(),
            })
            &&& s.selection_mode == SelectionMode::Column ==> b == (Block {
                top: 0,
                bottom: s.last_row(),
                left: s.cursor_col,
                right: s.cursor_col,
            })
        }),
        s.visual_anchor is None && s.selection_mode == SelectionMode::Cell ==> task is Read,
        after.store == s.store,
        after.register == s.register,
{
    assert(s.uncounted().selection() == s.selection());
    let b = Block {
        top: s.cursor_row,
        bottom: s.cursor_row,
        left: s.cursor_col,
        right: s.cursor_col,
    };
    assert(s.visual_anchor is None && s.selection_mode == SelectionMode::Cell ==> b.area() == 1) by {
        reveal(Block::area);
        assert(b.height() == 1 && b.breadth() == 1);
        assert(b.height() * b.breadth() == 1) by (nonlinear_arith)
            requires
                b.height() == 1,
                b.breadth() == 1,
        ;
    }
}

proof fn lemma_filter_add(a: Seq<usize>, b: Seq<usize>, keep: spec_fn(usize) -> bool)
    ensures
        (a + b).filter(keep) == a.filter(keep) + b.filter(keep),
    decreases b.len(),
{
    reveal(Seq::filter);
    if b.len() == 0 {
        assert(a + b =~= a);
        assert(a.filter(keep) + b.filter(keep) =~= a.filter(keep));
    } else {
        lemma_filter_add(a, b.drop_last(), keep);
        assert((a + b).drop_last() =~= a + b.drop_last());
        assert((a + b).filter(keep) =~= a.filter(keep) + b.filter(keep));
    }
}

proof fn lemma_filter_same(
    a: Seq<usize>,
    one: spec_fn(usize) -> bool,
    other: spec_fn(usize) -> bool,
)
    requires
        forall|i: int| 0 <= i < a.len() ==> one(#[trigger] a[i]) == other(a[i]),
    ensures
        a.filter(one) == a.filter(other),
    decreases a.len(),
{
    reveal(Seq::filter);
    if a.len() > 0 {
        let front = a.drop_last();
        assert forall|i: int| 0 <= i < front.len() implies one(#[trigger] front[i]) == other(front[i]) by {
            assert(front[i] == a[i]);
        }
        lemma_filter_same(front, one, other);
        assert(one(a[a.len() - 1]) == other(a[a.len() - 1]));
    }
}

proof fn lemma_added_left(p: Pending, gone: Set<usize>, total: usize, a: usize)
    requires
        p.within(total),
    ensures
        p.deleted(gone, total).added_at(a) == p.added_at(a).filter(|r: usize| !gone.contains(r)),
{
    let kept = |id: usize| id < total || !gone.contains(id);
    let left = |r: usize| !gone.contains(r);
    let ids = p.added_at(a);
    assert forall|i: int| 0 <= i < ids.len() implies kept(#[trigger] ids[i]) == left(ids[i]) by {
        assert(p.added.contains_key(a));
        assert(ids[i] >= total);
    }
    lemma_filter_same(ids, kept, left);
    let d = p.deleted(gone, total);
    if !d.added.contains_key(a) {
        assert(ids.filter(kept).len() == 0);
        assert(d.added_at(a) =~= ids.filter(kept));
    }
}

proof fn lemma_rows_left(p: Pending, gone: Set<usize>, total: usize, n: nat)
    requires
        p.within(total),
        n <= total,
    ensures
        p.deleted(gone, total).rows_under(n) == p.rows_under(n).filter(|r: usize| !gone.contains(r)),
    decreases n,
{
    let left = |r: usize| !gone.contains(r);
    if n == 0 {
        reveal(Seq::filter);
        assert(p.rows_under(0).filter(left) =~= Seq::empty());
    } else {
        let row = (n - 1) as usize;
        lemma_rows_left(p, gone, total, (n - 1) as nat);
        lemma_added_left(p, gone, total, row);
        let before = p.rows_under((n - 1) as nat);
        let added = p.added_at(row);
        let own: Seq<usize> = if p.struck.contains(row) {
            Seq::empty()
        } else {
            seq![row]
        };
        lemma_filter_add(before + added, own, left);
        lemma_filter_add(before, added, left);
        let d = p.deleted(gone, total);
        let own_left: Seq<usize> = if d.struck.contains(row) {
            Seq::empty()
        } else {
            seq![row]
        };
        assert(own.filter(left) =~= own_left) by {
            reveal(Seq::filter);
            assert(seq![row].drop_last() =~= Seq::empty());
            assert(Seq::<usize>::empty().filter(left) =~= Seq::empty());
            assert(d.struck.contains(row) <==> p.struck.contains(row) || gone.contains(row));
        }
    }
}

/// Rows that were taken out are no longer shown, and the others are shown as they
/// were, in the same order.
pub proof fn deleted_rows_are_gone(p: Pending, gone: Set<usize>, total: usize)
    requires
        p.within(total),
    ensures
        p.deleted(gone, total).rows_shown(total) == p.rows_shown(total).filter(
            |r: usize| !gone.contains(r),
        ),
        forall|row: usize, column: usize|
            row < total || !gone.contains(row) ==> (#[trigger] p.deleted(gone, total).cells.contains_key(
                (row, column),
            ) <==> p.cells.contains_key((row, column))),
        forall|row: usize, column: usize|
            p.deleted(gone, total).cells.contains_key((row, column)) ==> #[trigger] p.deleted(
                gone,
                total,
            ).cells[(row, column)] == p.cells[(row, column)],
{
    let left = |r: usize| !gone.contains(r);
    lemma_rows_left(p, gone, total, total as nat);
    lemma_added_left(p, gone, total, total);
    lemma_filter_add(p.rows_under(total as nat), p.added_at(total), left);
}

/// The rows taken out are those from the first one on, as many as were asked for
/// or as there are.
pub proof fn the_rows_from_one_on(h: Held, first: usize, count: usize)
    requires
        h.rows().len() <= usize::MAX,
    ensures
        ({
            let gone = h.rows_from(first, count);
            &&& first + count <= h.count() ==> gone.len() == count
            &&& first < h.count() < first + count ==> gone.len() == h.count() - first
            &&& first >= h.count() ==> gone.len() == 0
            &&& forall|i: int| 0 <= i < gone.len() ==> #[trigger] gone[i] == h.rows()[first + i]
        }),
{
}

/// After rows are taken out the table shows what is left of them, and the message
/// says how many are gone.
pub proof fn rows_are_taken_out(s: Session, after: Session, first: usize, count: usize)
    requires
        s.deletes(after, first, count),
        s.store is Some,
        s.row_refusal() is None,
        s.store->Some_0.buffer.pending.within(s.store->Some_0.total_rows),
    ensures
        ({
            let h = s.store->Some_0;
            let gone = h.rows_from(first, count);
            &&& after.store is Some
            &&& after.store->Some_0.rows() == h.rows().filter(|r: usize| !gone.contains(r))
            &&& after.visual_anchor is None
            &&& after.message == Some(
                if gone.len() == 1 {
                    "deleted 1 row"@
                } else {
                    "deleted "@ + decimal_text(gone.len()) + " rows"@
                },
            )
        }),
{
    reveal(Session::cursor_to);
    let h = s.store->Some_0;
    let gone = h.rows_from(first, count);
    let t = s.uncounted();
    assert(t.store == s.store);
    let buffer = choose|buffer: crate::data::edit::Buffer|
        {
            &&& #[trigger] h.deletes(buffer, gone)
            &&& after == (Session {
                store: Some(Held { buffer, ..h }),
                stale: true,
                visual_anchor: None,
                ..t
            }).within_rows().say(
                "deleted "@ + decimal_text(gone.len()) + (if gone.len() == 1 {
                    " row"@
                } else {
                    " rows"@
                }),
            )
        };
    deleted_rows_are_gone(h.buffer.pending, gone.to_set(), h.total_rows);
    assert(after.store->Some_0.rows() == buffer.pending.rows_shown(h.total_rows));
    let one = |r: usize| !gone.to_set().contains(r);
    let other = |r: usize| !gone.contains(r);
    lemma_filter_same(h.rows(), one, other);
    if gone.len() == 1 {
        reveal_strlit("deleted ");
        reveal_strlit(" row");
        reveal_strlit("deleted 1 row");
        assert(decimal_text(1) =~= seq!['1']);
        assert("deleted "@ + decimal_text(1) + " row"@ =~= "deleted 1 row"@);
    }
}

} // verus!
