//! Selections, and what is done to the cells in them.
use vstd::prelude::*;
use crate::app::editing::{block_edits, pasted_edits, read_at, row_edits};
use crate::app::keys::FillMode;
use crate::app::session::{Block, SelectionMode, Session, Spot};
use crate::data::edit::{cell_steps, Buffer, Cell, Pending, Step};
use crate::data::page::{block_cell, block_of};
use crate::data::store::{mapped, Held};

verus! {

/// A cell stands in a block.
pub open spec fn stands_in(block: Block, row: usize, column: usize) -> bool {
    block.top <= row <= block.bottom && block.left <= column <= block.right
}

/// A selection holds the spot where it was begun and the cursor, and reaches no
/// further than those two: in cell mode both ways, in row mode over every column,
/// in column mode over every row.
pub proof fn a_selection_spans_its_two_ends(s: Session, anchor: Spot)
    requires
        s.store is Some,
        s.width() <= usize::MAX,
    ensures
        s.block_from(anchor) matches Some(b) && {
            let rows_ends = (b.top == anchor.row && b.bottom == s.cursor_row) || (b.top == s.cursor_row
                && b.bottom == anchor.row);
            let column_ends = (b.left == anchor.column && b.right == s.cursor_col) || (b.left
                == s.cursor_col && b.right == anchor.column);
            &&& s.selection_mode == SelectionMode::Cell ==> rows_ends && column_ends && stands_in(
                b,
                anchor.row,
                anchor.column,
            ) && stands_in(b, s.cursor_row, s.cursor_col)
            &&& s.selection_mode == SelectionMode::Row ==> rows_ends && b.top <= b.bottom && b.left == 0
                && b.right + 1 == if s.width() == 0 {
                1
            } else {
                s.width() as int
            }
            &&& s.selection_mode == SelectionMode::Column ==> column_ends && b.left <= b.right && b.top
                == 0 && b.bottom + 1 == if s.rows() == 0 {
                1
            } else {
                s.rows() as int
            }
        },
{
}

/// It is the same selection when it is begun where the cursor is and ends where
/// it was begun.
pub proof fn a_selection_has_no_direction(s: Session, anchor: Spot)
    ensures
        s.block_from(anchor) == (Session {
            cursor_row: anchor.row,
            cursor_col: anchor.column,
            ..s
        }).block_from(Spot { row: s.cursor_row, column: s.cursor_col }),
{
}

proof fn lemma_split(i: int, n: int, q: int, r: int)
    requires
        0 < n,
        0 <= r < n,
        i == q * n + r,
    ensures
        i / n == q,
        i % n == r,
{
    assert(i / n == q && i % n == r) by (nonlinear_arith)
        requires
            0 < n,
            0 <= r < n,
            i == q * n + r,
    ;
}

/// An operation on a block names every cell of it once and no other.
pub proof fn a_block_is_gone_over_cell_by_cell(
    block: Block,
    values: spec_fn(int) -> Seq<char>,
    row: usize,
    column: usize,
)
    requires
        block.top <= block.bottom,
        block.left <= block.right,
    ensures
        block_edits(block, values).len() == (block.bottom - block.top + 1) * (block.right - block.left + 1),
        stands_in(block, row, column) ==> {
            let at = (row - block.top) * (block.right - block.left + 1) + (column - block.left);
            &&& 0 <= at < block_edits(block, values).len()
            &&& block_edits(block, values)[at].0 == (row, column)
            &&& block_edits(block, values)[at].1 == values(at)
        },
        forall|i: int|
            0 <= i < block_edits(block, values).len() ==> stands_in(
                block,
                ((#[trigger] block_edits(block, values)[i]).0).0,
                (block_edits(block, values)[i].0).1,
            ),
{
    let n = block.right - block.left + 1;
    let m = block.bottom - block.top + 1;
    let edits = block_edits(block, values);
    assert(m * n >= 0) by (nonlinear_arith)
        requires
            m >= 0,
            n >= 0,
    ;
    reveal(Block::area);
    assert(block.height() == m && block.breadth() == n);
    assert(block.area() == m * n);
    assert(edits.len() == m * n);
    if stands_in(block, row, column) {
        let (q, r) = (row - block.top, column - block.left);
        let at = q * n + r;
        assert(0 <= at < m * n) by (nonlinear_arith)
            requires
                0 <= q < m,
                0 <= r < n,
                at == q * n + r,
        ;
        lemma_split(at, n, q, r);
    }
    assert forall|i: int| 0 <= i < edits.len() implies stands_in(
        block,
        ((#[trigger] edits[i]).0).0,
        (edits[i].0).1,
    ) by {
        assert(0 <= i / n < m && 0 <= i % n < n) by (nonlinear_arith)
            requires
                0 <= i < m * n,
                n > 0,
        ;
        assert(edits[i].0 == block.cell(i));
    }
}

/// An edit on screen goes to this place of the file.
pub open spec fn goes_to(h: Held, cell: Cell, place: Cell) -> bool {
    &&& cell.0 < h.rows().len()
    &&& cell.1 < h.columns().len()
    &&& h.rows()[cell.0 as int] == place.0
    &&& h.columns()[cell.1 as int] == place.1
}

proof fn lemma_places(
    p: Pending,
    edits: Seq<(Cell, Seq<char>)>,
    rows: Seq<usize>,
    columns: Seq<usize>,
    h: Held,
    place: Cell,
)
    requires
        rows == h.rows(),
        columns == h.columns(),
    ensures
        ({
            let q = p.put_all(cell_steps(mapped(edits, rows, columns)));
            &&& q.struck == p.struck
            &&& q.added == p.added
            &&& (exists|i: int| 0 <= i < edits.len() && #[trigger] goes_to(h, edits[i].0, place))
                ==> q.cells.contains_key(place) && exists|i: int|
                0 <= i < edits.len() && #[trigger] goes_to(h, edits[i].0, place) && q.cells[place]
                    == edits[i].1
            &&& !(exists|i: int| 0 <= i < edits.len() && #[trigger] goes_to(h, edits[i].0, place)) ==> (
            q.cells.contains_key(place) <==> p.cells.contains_key(place)) && (p.cells.contains_key(place)
                ==> q.cells[place] == p.cells[place])
        }),
    decreases edits.len(),
{
    let all = mapped(edits, rows, columns);
    if edits.len() > 0 {
        let front = edits.drop_last();
        let last = edits.last();
        lemma_places(p, front, rows, columns, h, place);
        let before = mapped(front, rows, columns);
        let q0 = p.put_all(cell_steps(before));
        if (last.0).0 < rows.len() && (last.0).1 < columns.len() {
            let spot = (rows[(last.0).0 as int], columns[(last.0).1 as int]);
            assert(all =~= before.push((spot, last.1)));
            assert(cell_steps(all).drop_last() =~= cell_steps(before));
            assert(cell_steps(all).last() == Step::Cell(spot, Some(last.1)));
            assert(goes_to(h, edits[edits.len() - 1].0, spot));
        } else {
            assert(all == before);
        }
        assert forall|i: int| 0 <= i < front.len() implies #[trigger] goes_to(h, front[i].0, place)
            == goes_to(h, edits[i].0, place) by {
            assert(front[i] == edits[i]);
        }
        if exists|i: int| 0 <= i < front.len() && #[trigger] goes_to(h, front[i].0, place) {
            let i = choose|i: int|
                0 <= i < front.len() && #[trigger] goes_to(h, front[i].0, place) && q0.cells[place]
                    == front[i].1;
            assert(goes_to(h, edits[i].0, place));
            assert(edits[i] == front[i]);
        }
        if exists|i: int| 0 <= i < edits.len() && #[trigger] goes_to(h, edits[i].0, place) {
            let i = choose|i: int| 0 <= i < edits.len() && #[trigger] goes_to(h, edits[i].0, place);
            if i < front.len() {
                assert(goes_to(h, front[i].0, place));
            }
        }
    }
}

/// A cell that is typed into holds what was typed, at the place in the file of
/// the row and the column it is shown in.
pub proof fn what_is_typed_is_held_where_it_is_shown(
    h: Held,
    edits: Seq<(Cell, Seq<char>)>,
    i: int,
    place: Cell,
)
    requires
        0 <= i < edits.len(),
        goes_to(h, edits[i].0, place),
        forall|j: int|
            0 <= j < edits.len() && #[trigger] goes_to(h, edits[j].0, place) ==> edits[j].1 == edits[i].1,
    ensures
        h.edited(edits).buffer.pending.cells.contains_key(place),
        h.edited(edits).buffer.pending.cells[place] == edits[i].1,
{
    let p = h.buffer.pending;
    lemma_places(p, edits, h.rows(), h.columns(), h, place);
    let change = cell_steps(mapped(edits, h.rows(), h.columns()));
    let q = p.put_all(change);
    let k = choose|k: int|
        0 <= k < edits.len() && #[trigger] goes_to(h, edits[k].0, place) && q.cells[place] == edits[k].1;
    assert(edits[k].1 == edits[i].1);
    lemma_changed(h.buffer, change);
}

proof fn lemma_changed(b: Buffer, change: Seq<Step>)
    ensures
        b.change(change).pending == b.pending.put_all(change),
{
}

/// A place in the file that no cell typed into is shown for holds what it held,
/// and no row comes or goes.
pub proof fn typing_leaves_the_other_cells_alone(h: Held, edits: Seq<(Cell, Seq<char>)>, place: Cell)
    requires
        forall|j: int| 0 <= j < edits.len() ==> !#[trigger] goes_to(h, edits[j].0, place),
    ensures
        ({
            let (was, now) = (h.buffer.pending, h.edited(edits).buffer.pending);
            &&& now.cells.contains_key(place) <==> was.cells.contains_key(place)
            &&& was.cells.contains_key(place) ==> now.cells[place] == was.cells[place]
            &&& now.struck == was.struck
            &&& now.added == was.added
        }),
{
    let change = cell_steps(mapped(edits, h.rows(), h.columns()));
    lemma_places(h.buffer.pending, edits, h.rows(), h.columns(), h, place);
    lemma_changed(h.buffer, change);
}

/// Clearing a selection leaves every cell of it empty.
pub proof fn clearing_empties_every_cell_selected(s: Session, block: Block, row: usize, column: usize)
    requires
        s.operable() == Some(block),
        block.top <= block.bottom,
        block.left <= block.right,
        stands_in(block, row, column),
        s.store matches Some(h) && row < h.rows().len() && column < h.columns().len(),
    ensures
        ({
            let h = s.store->Some_0;
            let place = (h.rows()[row as int], h.columns()[column as int]);
            let now = s.selection_cleared().store->Some_0.buffer.pending;
            now.cells.contains_key(place) && now.cells[place].len() == 0
        }),
{
    let h = s.store->Some_0;
    let place = (h.rows()[row as int], h.columns()[column as int]);
    let values = |i: int| Seq::<char>::empty();
    let edits = block_edits(block, values);
    a_block_is_gone_over_cell_by_cell(block, values, row, column);
    let at = (row - block.top) * (block.right - block.left + 1) + (column - block.left);
    assert(goes_to(h, edits[at].0, place));
    assert forall|j: int| 0 <= j < edits.len() && #[trigger] goes_to(h, edits[j].0, place) implies edits[j].1
        == edits[at].1 by {
        assert(edits[j].1 == values(j));
    }
    what_is_typed_is_held_where_it_is_shown(h, edits, at, place);
    assert(edits == block_edits(block, |i: int| Seq::<char>::empty()));
}

/// What is typed takes the place of a value, or goes in front of it or behind it.
pub proof fn a_fill_joins_what_is_typed_to_what_was_there(typed: Seq<char>, current: Seq<char>)
    ensures
        FillMode::Replace.combined(typed, current) == typed,
        ({
            let front = FillMode::Prepend.combined(typed, current);
            &&& front.len() == typed.len() + current.len()
            &&& front.take(typed.len() as int) == typed
            &&& front.skip(typed.len() as int) == current
        }),
        FillMode::Append.combined(typed, current) == FillMode::Prepend.combined(current, typed),
{
    let front = FillMode::Prepend.combined(typed, current);
    assert(front.take(typed.len() as int) =~= typed);
    assert(front.skip(typed.len() as int) =~= current);
}

/// A row of texts is laid along the cells from the cursor on, as far as there are
/// rows and columns.
proof fn lemma_row_laid(
    cells: Seq<Seq<char>>,
    row: int,
    column: int,
    last_row: int,
    last_column: int,
    k: int,
)
    requires
        0 <= row <= last_row <= usize::MAX,
        0 <= column,
        last_column <= usize::MAX,
        0 <= k < cells.len(),
        column + k <= last_column,
    ensures
        ({
            let edits = row_edits(cells, row, column, last_row, last_column);
            &&& k < edits.len()
            &&& edits[k] == ((row as usize, (column + k) as usize), cells[k])
        }),
    decreases cells.len(),
{
    let front = cells.drop_last();
    lemma_row_count(front, row, column, last_row, last_column);
    if k < front.len() {
        lemma_row_laid(front, row, column, last_row, last_column, k);
        assert(front[k] == cells[k]);
    }
}

proof fn lemma_row_count(cells: Seq<Seq<char>>, row: int, column: int, last_row: int, last_column: int)
    requires
        0 <= row,
        0 <= column,
    ensures
        ({
            let edits = row_edits(cells, row, column, last_row, last_column);
            edits.len() == if row > last_row || column > last_column {
                0
            } else if column + cells.len() <= last_column + 1 {
                cells.len() as int
            } else {
                last_column + 1 - column
            }
        }),
    decreases cells.len(),
{
    if cells.len() > 0 {
        lemma_row_count(cells.drop_last(), row, column, last_row, last_column);
    }
}

/// A pasted block is laid out from the cursor on, its shape kept: the text in its
/// row `r` and column `k` goes so many rows down and so many columns across.
pub proof fn a_pasted_block_keeps_its_shape(
    block: Seq<Seq<Seq<char>>>,
    row: int,
    column: int,
    last_row: int,
    last_column: int,
    r: int,
    k: int,
)
    requires
        0 <= row,
        0 <= column,
        last_row <= usize::MAX,
        last_column <= usize::MAX,
        0 <= r < block.len(),
        0 <= k < block[r].len(),
        row + r <= last_row,
        column + k <= last_column,
    ensures
        pasted_edits(block, row, column, last_row, last_column).contains(
            (((row + r) as usize, (column + k) as usize), block[r][k]),
        ),
    decreases block.len(),
{
    let front = block.drop_last();
    let edit = (((row + r) as usize, (column + k) as usize), block[r][k]);
    let before = pasted_edits(front, row, column, last_row, last_column);
    let last = row_edits(block.last(), row + block.len() - 1, column, last_row, last_column);
    let all = pasted_edits(block, row, column, last_row, last_column);
    assert(all =~= before + last);
    if r < front.len() {
        assert(front[r] == block[r]);
        a_pasted_block_keeps_its_shape(front, row, column, last_row, last_column, r, k);
        let i = choose|i: int| 0 <= i < before.len() && before[i] == edit;
        assert(all[i] == edit);
    } else {
        lemma_row_laid(block.last(), row + r, column, last_row, last_column, k);
        assert(all[before.len() + k] == edit);
    }
}

/// Nothing is pasted but what the block holds, each in its own place, and nothing
/// past the last row or column.
pub proof fn nothing_is_pasted_past_the_edge(
    block: Seq<Seq<Seq<char>>>,
    row: int,
    column: int,
    last_row: int,
    last_column: int,
    i: int,
)
    requires
        0 <= row,
        0 <= column,
        last_row <= usize::MAX,
        last_column <= usize::MAX,
        0 <= i < pasted_edits(block, row, column, last_row, last_column).len(),
    ensures
        exists|r: int, k: int|
            0 <= r < block.len() && 0 <= k < block[r].len() && row + r <= last_row && column + k
                <= last_column && pasted_edits(block, row, column, last_row, last_column)[i] == (
                ((row + r) as usize, (column + k) as usize),
                #[trigger] block[r][k],
            ),
    decreases block.len(),
{
    let all = pasted_edits(block, row, column, last_row, last_column);
    if block.len() > 0 {
        let front = block.drop_last();
        let before = pasted_edits(front, row, column, last_row, last_column);
        let last = block.last();
        let down = row + block.len() - 1;
        if i < before.len() {
            nothing_is_pasted_past_the_edge(front, row, column, last_row, last_column, i);
            let (r, k) = choose|r: int, k: int|
                0 <= r < front.len() && 0 <= k < front[r].len() && row + r <= last_row && column + k
                    <= last_column && before[i] == (
                    ((row + r) as usize, (column + k) as usize),
                    #[trigger] front[r][k],
                );
            assert(front[r] == block[r]);
            assert(block[r][k] == front[r][k]);
        } else {
            let k = i - before.len();
            lemma_row_count(last, down, column, last_row, last_column);
            lemma_row_laid(last, down, column, last_row, last_column, k);
            assert(block[block.len() - 1][k] == last[k]);
        }
    }
}

/// The text of a block is the cells of the page, row by row, from its first
/// column to its last; a cell with nothing in it is an empty text.
pub proof fn a_block_is_read_as_it_is_shown(
    page: Seq<Seq<Option<Seq<char>>>>,
    left: int,
    right: int,
    height: nat,
    row: int,
    column: int,
)
    requires
        0 <= left <= column <= right,
        0 <= row < height,
    ensures
        block_of(page, left, right, height).len() == height,
        block_of(page, left, right, height)[row].len() == right - left + 1,
        column < page.len() && row < page[column].len() ==> block_of(page, left, right, height)[row][column
            - left] == match page[column][row] {
            Some(text) => text,
            None => Seq::empty(),
        },
        column >= page.len() || row >= page[column].len() ==> block_of(page, left, right, height)[row][column
            - left].len() == 0,
{
    assert(block_of(page, left, right, height)[row][column - left] == block_cell(page, column, row));
}

/// What a block read gives for a row and a column of it is the text there.
pub proof fn what_was_read_is_found(cells: Seq<Seq<Seq<char>>>, row: int, column: int)
    requires
        0 <= row,
        0 <= column,
    ensures
        row < cells.len() && column < cells[row].len() ==> read_at(cells, row, column)
            == cells[row][column],
        row >= cells.len() || column >= cells[row].len() ==> read_at(cells, row, column).len() == 0,
{
}

/// A yank puts the block's text in the register.
pub proof fn a_yank_fills_the_register(s: Session, block: Block, cells: Seq<Seq<Seq<char>>>)
    ensures
        s.yanked(block, cells).register == cells,
        s.yanked(block, cells).visual_anchor is None,
        s.visual_anchor matches Some(anchor) ==> s.yanked(block, cells).cursor_col == anchor.column,
        s.visual_anchor is None ==> s.yanked(block, cells).cursor_col == s.cursor_col && s.yanked(
            block,
            cells,
        ).cursor_row == s.cursor_row,
{
    reveal(Session::cursor_to);
}

} // verus!
