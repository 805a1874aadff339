//! What becomes of a table and its session when a file was written, a page is
//! scrolled or cells were read.
use vstd::prelude::*;
use crate::app::editing::{block_edits, read_at};
use crate::app::session::{App, Fill};
use crate::data::edit::{Buffer, Cell};
use crate::data::store::Store;
use crate::data::writer::Stamp;
use crate::text::table;

verus! {

/// What was written in place is no longer pending, and the file is known as it is
/// then; what was written elsewhere is still to be written here.
pub proof fn what_was_written_in_place_is_not_pending(store: &mut Store, in_place: bool, stamp: Stamp)
    requires
        call_ensures(Store::saved, (store, in_place, stamp), ()),
    ensures
        in_place ==> final(store).overlay@ == Buffer::empty(),
        in_place ==> (old(store).edit matches Some(target) ==> (final(store).edit matches Some(now) && now.stamp
            == stamp && now.written == target.written)),
        !in_place ==> *final(store) == *old(store),
        final(store).names == old(store).names && final(store).view == old(store).view && final(store).total_rows
            == old(store).total_rows,
{
}

/// A table is scrolled to the row asked for, or as far as leaves the screen full.
pub proof fn a_table_is_scrolled(store: &mut Store, offset: usize)
    requires
        call_ensures(Store::scroll_to_offset, (store, offset), ()),
        old(store).display_rows().len() <= usize::MAX,
    ensures
        ({
            let rows = old(store).display_rows().len() as int;
            let screen = old(store).viewport_rows as int;
            &&& offset + screen <= rows ==> final(store).row_offset == offset
            &&& offset + screen > rows && rows >= screen ==> final(store).row_offset + screen == rows
            &&& rows < screen ==> final(store).row_offset == 0
        }),
{
}

/// A fill that was read for joins what was typed to each cell's own text.
pub proof fn a_fill_that_was_read_for_is_written(
    app: &mut App,
    fill: Fill,
    typed: &str,
    cells: &Vec<Vec<String>>,
    edits: Seq<(Cell, Seq<char>)>,
)
    requires
        call_ensures(App::finish_fill, (app, fill, typed, cells), ()),
        old(app)@.store is Some,
        edits.len() == fill.block.area(),
        forall|i: int|
            0 <= i < edits.len() ==> #[trigger] edits[i] == (
                fill.block.cell(i),
                fill.mode.combined(
                    typed@,
                    read_at(table(cells@), i / fill.block.breadth(), i % fill.block.breadth()),
                ),
            ),
    ensures
        final(app)@.visual_anchor is None,
        final(app)@.store == Some(old(app)@.store->Some_0.edited(edits)),
{
    let values = |i: int|
        fill.mode.combined(
            typed@,
            read_at(table(cells@), i / fill.block.breadth(), i % fill.block.breadth()),
        );
    assert(block_edits(fill.block, values) =~= edits);
}

} // verus!
