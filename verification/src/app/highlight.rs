//! The cells on screen that a search found something in.
use vstd::prelude::*;
use crate::app::session::App;
use crate::search;
use crate::search::{regex_accepts, regex_finds};

verus! {

/// A cell of a page holds something that the pattern matches, in a column that
/// is looked through.
pub open spec fn lights_up(
    page: Seq<Vec<Option<String>>>,
    pattern: Seq<char>,
    searched: Option<usize>,
    row: usize,
    column: usize,
) -> bool {
    &&& regex_accepts(pattern)
    &&& searched matches Some(only) ==> column == only
    &&& column < page.len()
    &&& row < page[column as int]@.len()
    &&& page[column as int]@[row as int] matches Some(text) && regex_finds(pattern, text@)
}

/// These are the cells of a page that light up.
pub open spec fn is_lit(
    cells: Seq<(usize, usize)>,
    page: Seq<Vec<Option<String>>>,
    pattern: Seq<char>,
    searched: Option<usize>,
) -> bool {
    forall|row: usize, column: usize| #[trigger]
        cells.contains((row, column)) <==> lights_up(page, pattern, searched, row, column)
}

proof fn lemma_pushed(cells: Seq<(usize, usize)>, cell: (usize, usize), other: (usize, usize))
    ensures
        cells.push(cell).contains(other) <==> cells.contains(other) || other == cell,
{
    let more = cells.push(cell);
    assert(more[cells.len() as int] == cell);
    if cells.contains(other) {
        let i = choose|i: int| 0 <= i < cells.len() && cells[i] == other;
        assert(more[i] == other);
    }
}

/// Add the cells of one column.
fn light_column(
    cells: &mut Vec<(usize, usize)>,
    page: &Vec<Vec<Option<String>>>,
    column: usize,
    pattern: &str,
)
    requires
        column < page@.len(),
    ensures
        forall|r: usize, c: usize| #[trigger]
            final(cells)@.contains((r, c)) <==> old(cells)@.contains((r, c)) || c == column && lights_up(
                page@,
                pattern@,
                Some(column),
                r,
                c,
            ),
{
    let ghost was = cells@;
    let found = match search::hits(pattern, &page[column]) {
        Some(found) => found,
        None => {
            return;
        },
    };
    let mut row: usize = 0;
    while row < found.len()
        invariant
            row <= found.len(),
            column < page@.len(),
            regex_accepts(pattern@),
            found@.len() == page@[column as int]@.len(),
            forall|k: int|
                0 <= k < found@.len() ==> #[trigger] found@[k] == (match page@[column as int]@[k] {
                    Some(text) => Some(regex_finds(pattern@, text@)),
                    None => None,
                }),
            forall|r: usize, c: usize| #[trigger]
                cells@.contains((r, c)) <==> was.contains((r, c)) || c == column && r < row && lights_up(
                    page@,
                    pattern@,
                    Some(column),
                    r,
                    c,
                ),
        decreases found.len() - row,
    {
        let ghost before = cells@;
        let hit: bool = match found[row] {
            Some(found) => found,
            None => false,
        };
        assert(hit == lights_up(page@, pattern@, Some(column), row, column));
        if hit {
            cells.push((row, column));
        }
        proof {
            assert forall|r: usize, c: usize| #[trigger]
                cells@.contains((r, c)) <==> was.contains((r, c)) || c == column && r < row + 1
                    && lights_up(page@, pattern@, Some(column), r, c) by {
                lemma_pushed(before, (row, column), (r, c));
                assert(before.contains((r, c)) <==> was.contains((r, c)) || c == column && r < row
                    && lights_up(page@, pattern@, Some(column), r, c));
            }
        }
        row += 1;
    }
}

/// The cells of a page that a search lights up, each as its row and column on
/// the page.
pub fn lit(page: &Vec<Vec<Option<String>>>, pattern: &str, searched: Option<usize>) -> (cells: Vec<
    (usize, usize),
>)
    ensures
        is_lit(cells@, page@, pattern@, searched),
{
    let mut cells: Vec<(usize, usize)> = Vec::new();
    let mut column: usize = 0;
    while column < page.len()
        invariant
            column <= page.len(),
            forall|r: usize, c: usize| #[trigger]
                cells@.contains((r, c)) <==> c < column && lights_up(page@, pattern@, searched, r, c),
        decreases page.len() - column,
    {
        let ghost before = cells@;
        let wanted: bool = match searched {
            Some(only) => only == column,
            None => true,
        };
        if wanted {
            light_column(&mut cells, page, column, pattern);
        }
        proof {
            assert forall|r: usize, c: usize| #[trigger]
                cells@.contains((r, c)) <==> c < column + 1 && lights_up(
                    page@,
                    pattern@,
                    searched,
                    r,
                    c,
                ) by {
                assert(before.contains((r, c)) <==> c < column && lights_up(
                    page@,
                    pattern@,
                    searched,
                    r,
                    c,
                ));
            }
        }
        column += 1;
    }
    cells
}

impl App {
    /// The cells of the page on show that the search lights up.
    pub fn highlights(&self) -> (cells: Vec<(usize, usize)>)
        ensures
            match (self.store, self.search_state) {
                (Some(store), Some(state)) => is_lit(
                    cells@,
                    store.page@,
                    state.query.raw@,
                    state.column,
                ),
                _ => cells@.len() == 0,
            },
    {
        match (&self.store, &self.search_state) {
            (Some(store), Some(state)) => lit(&store.page, state.query.raw.as_str(), state.column),
            _ => Vec::new(),
        }
    }
}

} // verus!
