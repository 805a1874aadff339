//! A page of a table: the rows that were read for it, blanks for the rows that
//! are not in the file yet, and the pending edits painted on.
use vstd::prelude::*;
use crate::data::edit::{cell_steps, Cell, Pending, Step};
use crate::data::jsonl::{maybe_text, ColumnType};
use crate::data::span::{all_read_as, column_text, cut, kind_of, patched_kind};
use crate::data::store::{first_at, mapped, page_text, patch_column, patched_cell, Held, PageEdit, ReadPlan, Source, Store};
use crate::text;
use crate::text::table;

verus! {

/// One cell of a page that was read: from its place in the span, or blank.
pub open spec fn picked_cell(column: Seq<Option<Seq<char>>>, pick: Option<usize>) -> Option<Seq<char>> {
    match pick {
        Some(place) => if place < column.len() {
            column[place as int]
        } else {
            None
        },
        None => None,
    }
}

/// The rows of a page picked out of the span that was read.
pub open spec fn picked(span: Seq<Seq<Option<Seq<char>>>>, picks: Seq<Option<usize>>) -> Seq<
    Seq<Option<Seq<char>>>,
> {
    span.map_values(
        |column: Seq<Option<Seq<char>>>|
            picks.map_values(|pick: Option<usize>| picked_cell(column, pick)),
    )
}

fn copied(cell: &Option<String>) -> (out: Option<String>)
    ensures
        maybe_text(out) == maybe_text(*cell),
{
    match cell {
        Some(text) => Some(text.clone()),
        None => None,
    }
}

fn pick_column(column: &Vec<Option<String>>, picks: &Vec<Option<usize>>) -> (out: Vec<Option<String>>)
    ensures
        out@.len() == picks@.len(),
        forall|i: int|
            0 <= i < out@.len() ==> maybe_text(#[trigger] out@[i]) == picked_cell(
                column@.map_values(|cell: Option<String>| maybe_text(cell)),
                picks@[i],
            ),
{
    let ghost cells = column@.map_values(|cell: Option<String>| maybe_text(cell));
    let mut out: Vec<Option<String>> = Vec::new();
    let mut i: usize = 0;
    while i < picks.len()
        invariant
            i <= picks@.len(),
            out@.len() == i,
            cells == column@.map_values(|cell: Option<String>| maybe_text(cell)),
            forall|k: int|
                0 <= k < i ==> maybe_text(#[trigger] out@[k]) == picked_cell(cells, picks@[k]),
        decreases picks@.len() - i,
    {
        let cell: Option<String> = match picks[i] {
            Some(place) => if place < column.len() {
                copied(&column[place])
            } else {
                None
            },
            None => None,
        };
        out.push(cell);
        i += 1;
    }
    out
}

/// The rows of a page picked out of the span that was read, a column at a time.
/// A row that is not in the file yet is blank.
pub fn assemble(plan: &ReadPlan, span: &Vec<Vec<Option<String>>>) -> (page: Vec<Vec<Option<String>>>)
    ensures
        page_text(page@) == picked(page_text(span@), plan.picks@),
{
    let mut page: Vec<Vec<Option<String>>> = Vec::new();
    let mut i: usize = 0;
    while i < span.len()
        invariant
            i <= span@.len(),
            page@.len() == i,
            forall|c: int, r: int|
                0 <= c < i && 0 <= r < plan.picks@.len() ==> maybe_text(#[trigger] page@[c]@[r])
                    == picked_cell(
                    span@[c]@.map_values(|cell: Option<String>| maybe_text(cell)),
                    plan.picks@[r],
                ),
            forall|c: int| 0 <= c < i ==> (#[trigger] page@[c])@.len() == plan.picks@.len(),
        decreases span@.len() - i,
    {
        page.push(pick_column(&span[i], &plan.picks));
        i += 1;
    }
    proof {
        reveal(page_text);
        let want = picked(page_text(span@), plan.picks@);
        let got = page_text(page@);
        assert forall|c: int| 0 <= c < got.len() implies #[trigger] got[c] == want[c] by {
            assert(got[c] =~= want[c]);
        }
        assert(got =~= want);
    }
    page
}

impl Held {
    /// What is pending for a cell of a page, if anything is: the text to show, or
    /// nothing for one that was emptied. A source column that is on show twice
    /// is painted where it stands first.
    pub open spec fn painted(self, offset: int, row: int, column: int, was: Option<Seq<char>>) -> Option<
        Seq<char>,
    > {
        let c = self.columns()[column];
        if 0 <= offset + row < self.rows().len() && 0 <= column < self.columns().len()
            && first_at(self.columns(), c, 0) == Some(column)
            && self.buffer.pending.cells.contains_key((self.rows()[offset + row], c)) {
            let text = self.buffer.pending.cells[(self.rows()[offset + row], c)];
            if text.len() == 0 {
                None
            } else {
                Some(text)
            }
        } else {
            was
        }
    }
}

/// Where a column first stands, it stands.
proof fn lemma_first_at(chosen: Seq<usize>, column: usize, from: int)
    ensures
        first_at(chosen, column, from) matches Some(at) ==> from <= at < chosen.len() && chosen[at] == column,
    decreases chosen.len() - from,
{
    if 0 <= from < chosen.len() && chosen[from] != column {
        lemma_first_at(chosen, column, from + 1);
    }
}

/// Among all columns in order, each stands at its own number.
proof fn lemma_first_of_all(n: nat, column: usize, from: int)
    requires
        0 <= from <= column < n,
        n <= usize::MAX,
    ensures
        first_at(crate::view::all_columns(n), column, from) == Some(column as int),
    decreases column - from,
{
    if from < column {
        lemma_first_of_all(n, column, from + 1);
    }
}

impl Store {
    /// Where a source column is on show is where it first stands among the
    /// columns on show.
    proof fn lemma_shown_at(self, column: usize)
        requires
            self.names@.len() <= usize::MAX,
        ensures
            self.shown_at(column) matches Some(at) ==> 0 <= at < self@.columns().len() && self@.columns()[at]
                == column && first_at(self@.columns(), column, 0) == Some(at),
            first_at(self@.columns(), column, 0) matches Some(at) ==> self.shown_at(column) == Some(at),
    {
        lemma_first_at(self@.columns(), column, 0);
        if self.view.select is None {
            let n = self.names@.len();
            if column < n {
                lemma_first_of_all(n, column, 0);
            }
        }
    }
}

/// A patched cell is what one of the edits on it says, or what it was where there
/// is none.
proof fn lemma_patched(edits: Seq<PageEdit>, column: usize, row: int, was: Option<Seq<char>>) -> (at: Option<
    int,
>)
    ensures
        match at {
            Some(k) => 0 <= k < edits.len() && edits[k].column == column && edits[k].row == row
                && patched_cell(edits, column, row, was) == if edits[k].value@.len() == 0 {
                None
            } else {
                Some(edits[k].value@)
            },
            None => patched_cell(edits, column, row, was) == was && forall|k: int|
                0 <= k < edits.len() ==> !((#[trigger] edits[k]).column == column && edits[k].row == row),
        },
    decreases edits.len(),
{
    if edits.len() == 0 {
        None
    } else if edits.last().column == column && edits.last().row == row {
        Some(edits.len() - 1)
    } else {
        let before = lemma_patched(edits.drop_last(), column, row, was);
        match before {
            Some(k) => {
                assert(edits.drop_last()[k] == edits[k]);
            },
            None => {
                assert forall|k: int| 0 <= k < edits.len() implies !((#[trigger] edits[k]).column == column
                    && edits[k].row == row) by {
                    if k < edits.len() - 1 {
                        assert(edits.drop_last()[k] == edits[k]);
                    }
                }
            },
        }
        before
    }
}

impl Store {
    /// The edits on a page, each on its cell, paint what is pending there.
    proof fn lemma_painted(
        self,
        edits: Seq<PageEdit>,
        offset: usize,
        height: int,
        column: usize,
        row: int,
        was: Option<Seq<char>>,
    )
        requires
            0 <= row < height,
            column < self@.columns().len(),
            self.names@.len() <= usize::MAX,
            forall|k: int|
                0 <= k < edits.len() ==> (#[trigger] edits[k]).row < height && exists|c: usize|
                    self.shows(offset as int, edits[k], c),
            forall|r: int, c: usize| #[trigger]
                self.edits_here(offset as int, r, c) && 0 <= r < height ==> exists|k: int|
                    0 <= k < edits.len() && (#[trigger] edits[k]).row == r && self.shows(
                        offset as int,
                        edits[k],
                        c,
                    ),
        ensures
            patched_cell(edits, column, row, was) == self@.painted(offset as int, row, column as int, was),
    {
        let c = self@.columns()[column as int];
        self.lemma_shown_at(c);
        match lemma_patched(edits, column, row, was) {
            Some(k) => {
                let d = choose|d: usize| self.shows(offset as int, edits[k], d);
                self.lemma_shown_at(d);
                assert(d == c);
            },
            None => {
                if self.edits_here(offset as int, row, c) && self.shown_at(c) == Some(column as int) {
                    let k = choose|k: int|
                        0 <= k < edits.len() && (#[trigger] edits[k]).row == row && self.shows(
                            offset as int,
                            edits[k],
                            c,
                        );
                    assert(edits[k].column == column);
                }
            },
        }
    }

    /// Paint pending edits onto a page that was read.
    ///
    /// Only the rows of the page are touched, so the cost follows the screen and
    /// not the file.
    pub fn apply_overlay(&self, page: Vec<Vec<Option<String>>>, offset: usize, height: usize) -> (out: Vec<
        Vec<Option<String>>,
    >)
        requires
            self.wf(),
            offset + height <= usize::MAX,
            page@.len() <= self@.columns().len(),
            forall|c: int| 0 <= c < page@.len() ==> (#[trigger] page@[c])@.len() <= height,
        ensures
            out@.len() == page@.len(),
            forall|c: int| 0 <= c < out@.len() ==> (#[trigger] out@[c])@.len() == page@[c]@.len(),
            forall|c: int, r: int|
                0 <= c < out@.len() && 0 <= r < out@[c]@.len() ==> maybe_text(#[trigger] out@[c]@[r])
                    == self@.painted(offset as int, r, c, maybe_text(page@[c]@[r])),
    {
        let edits = self.edits_in_page(offset, height);
        let ghost was = page@;
        let mut rest = page;
        let mut out: Vec<Vec<Option<String>>> = Vec::new();
        let mut i: usize = 0;
        let n = rest.len();
        let width = self.names.len();
        assert(width == self.names@.len());
        while i < n
            invariant
                i <= n,
                n == was.len(),
                self.names@.len() <= usize::MAX,
                was.len() <= self@.columns().len(),
                rest@.len() == n - i,
                rest@ == was.skip(i as int),
                out@.len() == i,
                forall|c: int| 0 <= c < was.len() ==> (#[trigger] was[c])@.len() <= height,
                forall|k: int|
                    0 <= k < edits@.len() ==> (#[trigger] edits@[k]).row < height && exists|c: usize|
                        self.shows(offset as int, edits@[k], c),
                forall|r: int, c: usize| #[trigger]
                    self.edits_here(offset as int, r, c) && 0 <= r < height ==> exists|k: int|
                        0 <= k < edits@.len() && (#[trigger] edits@[k]).row == r && self.shows(
                            offset as int,
                            edits@[k],
                            c,
                        ),
                forall|c: int| 0 <= c < i ==> (#[trigger] out@[c])@.len() == was[c]@.len(),
                forall|c: int, r: int|
                    0 <= c < i && 0 <= r < out@[c]@.len() ==> maybe_text(#[trigger] out@[c]@[r])
                        == self@.painted(offset as int, r, c, maybe_text(was[c]@[r])),
            decreases n - i,
        {
            let column = rest.remove(0);
            assert(rest@ =~= was.skip(i + 1));
            assert(column == was[i as int]);
            let patched = patch_column(column, &edits, i);
            proof {
                assert forall|r: int| 0 <= r < patched@.len() implies maybe_text(#[trigger] patched@[r])
                    == self@.painted(offset as int, r, i as int, maybe_text(was[i as int]@[r])) by {
                    self.lemma_painted(
                        edits@,
                        offset,
                        height as int,
                        i,
                        r,
                        maybe_text(was[i as int]@[r]),
                    );
                }
            }
            out.push(patched);
            i += 1;
        }
        out
    }

    /// Pending edits inside the page on screen, as row within the page and
    /// display column: what a table needs in order to mark them.
    pub fn edited_cells(&self, height: usize) -> (out: Vec<(usize, usize)>)
        requires
            self.wf(),
            self.row_offset + height <= usize::MAX,
        ensures
            forall|row: usize, column: usize| #[trigger]
                out@.contains((row, column)) <==> row < height && exists|c: usize| #[trigger]
                    self.edits_here(self.row_offset as int, row as int, c) && self.shown_at(c) == Some(
                        column as int,
                    ),
    {
        let edits = self.edits_in_page(self.row_offset, height);
        let mut out: Vec<(usize, usize)> = Vec::new();
        let mut i: usize = 0;
        while i < edits.len()
            invariant
                i <= edits@.len(),
                out@.len() == i,
                forall|k: int| 0 <= k < i ==> #[trigger] out@[k] == (edits@[k].row, edits@[k].column),
            decreases edits@.len() - i,
        {
            out.push((edits[i].row, edits[i].column));
            i += 1;
        }
        proof {
            let offset = self.row_offset as int;
            assert forall|row: usize, column: usize| #[trigger]
                out@.contains((row, column)) <==> row < height && exists|c: usize| #[trigger]
                    self.edits_here(offset, row as int, c) && self.shown_at(c) == Some(column as int) by {
                if out@.contains((row, column)) {
                    let k = choose|k: int| 0 <= k < out@.len() && out@[k] == (row, column);
                    let c = choose|c: usize| self.shows(offset, edits@[k], c);
                    assert(self.edits_here(offset, row as int, c));
                }
                if row < height && exists|c: usize| #[trigger]
                    self.edits_here(offset, row as int, c) && self.shown_at(c) == Some(column as int) {
                    let c = choose|c: usize| #[trigger]
                        self.edits_here(offset, row as int, c) && self.shown_at(c) == Some(column as int);
                    let k = choose|k: int|
                        0 <= k < edits@.len() && (#[trigger] edits@[k]).row == row && self.shows(
                            offset,
                            edits@[k],
                            c,
                        );
                    assert(out@[k] == (row, column));
                }
            }
        }
        out
    }

    /// A display column has an edit in the page on screen.
    pub open spec fn edits_column(self, column: usize, height: usize) -> bool {
        exists|row: usize, c: usize|
            row < height && #[trigger] self.edits_here(self.row_offset as int, row as int, c)
                && self.shown_at(c) == Some(column as int)
    }

    /// What a display column reads as on the page: its own kind, unless an edit
    /// on the page does not fit it. `None` where there is no such column.
    pub fn shown_kind(&self, column: usize, height: usize) -> (kind: Option<ColumnType>)
        requires
            self.wf(),
            self.row_offset + height <= usize::MAX,
        ensures
            ({
                let columns = self.display_columns();
                if column < columns.len() && columns[column as int] < self.types@.len() {
                    let own = self.types@[columns[column as int] as int];
                    kind == Some(
                        if self.edits_column(column, height) && column < self.page@.len() {
                            patched_kind(
                                all_read_as(column_text(self.page@[column as int]@), own),
                                own,
                            )
                        } else {
                            own
                        },
                    )
                } else {
                    kind is None
                }
            }),
    {
        let source = match self.source_column(column) {
            Some(source) => source,
            None => {
                return None;
            },
        };
        if source >= self.types.len() {
            return None;
        }
        let own = self.types[source];
        let cells = self.edited_cells(height);
        let mut i: usize = 0;
        while i < cells.len() && cells[i].1 != column
            invariant
                i <= cells@.len(),
                forall|k: int| 0 <= k < i ==> (#[trigger] cells@[k]).1 != column,
            decreases cells@.len() - i,
        {
            i += 1;
        }
        proof {
            if i < cells@.len() {
                let row = cells@[i as int].0;
                assert(cells@.contains((row, column)));
                let c = choose|c: usize| #[trigger]
                    self.edits_here(self.row_offset as int, row as int, c) && self.shown_at(c) == Some(
                        column as int,
                    );
                assert(self.edits_column(column, height));
            } else if self.edits_column(column, height) {
                let (row, c) = choose|row: usize, c: usize|
                    row < height && #[trigger] self.edits_here(self.row_offset as int, row as int, c)
                        && self.shown_at(c) == Some(column as int);
                assert(cells@.contains((row, column)));
                let k = choose|k: int| 0 <= k < cells@.len() && cells@[k] == (row, column);
                assert(cells@[k].1 != column);
            }
        }
        if i < cells.len() && column < self.page.len() {
            let values = cut(&self.page[column], 0, self.page[column].len());
            assert(column_text(values@) =~= column_text(self.page@[column as int]@));
            Some(kind_of(values, own))
        } else {
            Some(own)
        }
    }

    /// Whether a page is read from the byte range that an index points at. A
    /// sort or a choice of columns changes what is to be read, so those go the
    /// slow way; a JSON file can be read no other way, and its parse makes the
    /// choice itself.
    pub fn reads_by_index(&self) -> (b: bool)
        ensures
            b == (self.source == Source::Json || (self.view.sort@.len() == 0 && self.view.select is None)),
    {
        match self.source {
            Source::Json => true,
            _ => self.view.sort.is_empty() && self.view.select.is_none(),
        }
    }

    /// Whether a search can read the file itself: only while the view has not
    /// changed what a row is.
    pub fn searches_by_index(&self) -> (b: bool)
        ensures
            b == (self.sorted is None && self.view.sort@.len() == 0 && (self.source == Source::Json
                || self.view.select is None)),
    {
        let projected = match self.source {
            Source::Json => false,
            _ => self.view.select.is_some(),
        };
        self.sorted.is_none() && self.view.sort.is_empty() && !projected
    }
}

/// One cell of a block of a page; nothing reads as empty.
pub open spec fn block_cell(page: Seq<Seq<Option<Seq<char>>>>, column: int, row: int) -> Seq<char> {
    if 0 <= column < page.len() && 0 <= row < page[column].len() {
        match page[column][row] {
            Some(text) => text,
            None => Seq::empty(),
        }
    } else {
        Seq::empty()
    }
}

/// Some columns of a page as rows of text.
pub open spec fn block_of(page: Seq<Seq<Option<Seq<char>>>>, left: int, right: int, height: nat) -> Seq<
    Seq<Seq<char>>,
> {
    Seq::new(
        height,
        |row: int| Seq::new((right - left + 1) as nat, |i: int| block_cell(page, left + i, row)),
    )
}

fn cell_of(page: &Vec<Vec<Option<String>>>, column: usize, row: usize) -> (out: String)
    ensures
        out@ == block_cell(page_text(page@), column as int, row as int),
{
    proof {
        reveal(page_text);
    }
    if column < page.len() && row < page[column].len() {
        match &page[column][row] {
            Some(text) => text.clone(),
            None => {
                let out = String::new();
                assert(out@ =~= Seq::empty());
                out
            },
        }
    } else {
        let out = String::new();
        assert(out@ =~= Seq::empty());
        out
    }
}

fn block_row(page: &Vec<Vec<Option<String>>>, left: usize, right: usize, row: usize) -> (out: Vec<String>)
    requires
        left <= right < usize::MAX,
    ensures
        text::texts(out@) == Seq::new(
            (right - left + 1) as nat,
            |i: int| block_cell(page_text(page@), left + i, row as int),
        ),
{
    let mut out: Vec<String> = Vec::new();
    let mut c: usize = left;
    while c <= right
        invariant
            left <= c <= right + 1,
            right < usize::MAX,
            out@.len() == c - left,
            forall|i: int|
                0 <= i < out@.len() ==> (#[trigger] out@[i])@ == block_cell(
                    page_text(page@),
                    left + i,
                    row as int,
                ),
        decreases right + 1 - c,
    {
        out.push(cell_of(page, c, row));
        c += 1;
    }
    assert(text::texts(out@) =~= Seq::new(
        (right - left + 1) as nat,
        |i: int| block_cell(page_text(page@), left + i, row as int),
    ));
    out
}

/// The text of every cell of a block: some columns of a page, all its rows.
///
/// A selection can be taller than the screen, so the page is the one that was
/// read for the block and not the one on show.
pub fn block_text(page: &Vec<Vec<Option<String>>>, left: usize, right: usize, height: usize) -> (out: Vec<
    Vec<String>,
>)
    requires
        left <= right < usize::MAX,
    ensures
        table(out@) == block_of(page_text(page@), left as int, right as int, height as nat),
{
    let ghost want = block_of(page_text(page@), left as int, right as int, height as nat);
    let mut out: Vec<Vec<String>> = Vec::new();
    let mut row: usize = 0;
    while row < height
        invariant
            row <= height,
            left <= right < usize::MAX,
            want == block_of(page_text(page@), left as int, right as int, height as nat),
            out@.len() == row,
            forall|i: int| 0 <= i < row ==> text::texts((#[trigger] out@[i])@) == want[i],
        decreases height - row,
    {
        out.push(block_row(page, left, right, row));
        row += 1;
    }
    assert(table(out@) =~= want);
    out
}

proof fn lemma_same_rows(p: Pending, q: Pending, n: nat)
    requires
        p.struck == q.struck,
        p.added == q.added,
    ensures
        p.rows_under(n) == q.rows_under(n),
    decreases n,
{
    if n > 0 {
        lemma_same_rows(p, q, (n - 1) as nat);
    }
}

/// An edit shows where it was made: the cell that was typed into reads as what
/// was typed, and an emptied one as empty.
pub proof fn an_edit_shows_where_it_was_made(
    h: Held,
    row: usize,
    column: usize,
    value: Seq<char>,
    offset: int,
    was: Option<Seq<char>>,
)
    requires
        row < h.rows().len(),
        column < h.columns().len(),
        first_at(h.columns(), h.columns()[column as int], 0) == Some(column as int),
    ensures
        h.edited(seq![((row, column), value)]).painted(offset, row - offset, column as int, was)
            == if value.len() == 0 { None } else { Some(value) },
{
    let cell = (h.rows()[row as int], h.columns()[column as int]);
    lemma_one_edit(h, row, column, value);
    let after = h.edited(seq![((row, column), value)]);
    assert(after.buffer.pending.cells[cell] == value);
}

/// An edit leaves every other cell as it was.
pub proof fn an_edit_leaves_the_rest_alone(
    h: Held,
    row: usize,
    column: usize,
    value: Seq<char>,
    offset: int,
    other_row: int,
    other_column: int,
    was: Option<Seq<char>>,
)
    requires
        row < h.rows().len(),
        column < h.columns().len(),
        0 <= offset + other_row < h.rows().len(),
        0 <= other_column < h.columns().len(),
        (h.rows()[offset + other_row], h.columns()[other_column]) != (
            h.rows()[row as int],
            h.columns()[column as int],
        ),
    ensures
        h.edited(seq![((row, column), value)]).painted(offset, other_row, other_column, was) == h.painted(
            offset,
            other_row,
            other_column,
            was,
        ),
{
    lemma_one_edit(h, row, column, value);
}

/// What one edit changes in the buffer.
proof fn lemma_one_edit(h: Held, row: usize, column: usize, value: Seq<char>)
    requires
        row < h.rows().len(),
        column < h.columns().len(),
    ensures
        ({
            let after = h.edited(seq![((row, column), value)]);
            &&& after.rows() == h.rows()
            &&& after.columns() == h.columns()
            &&& after.buffer.pending.cells == h.buffer.pending.cells.insert(
                (h.rows()[row as int], h.columns()[column as int]),
                value,
            )
        }),
{
    let edits = seq![((row, column), value)];
    let cell = (h.rows()[row as int], h.columns()[column as int]);
    assert(edits.drop_last() =~= Seq::empty());
    let m = mapped(edits, h.rows(), h.columns());
    assert(mapped(edits.drop_last(), h.rows(), h.columns()) == Seq::<(Cell, Seq<char>)>::empty());
    assert(edits.last() == ((row, column), value));
    assert(m =~= seq![(cell, value)]);
    let change = cell_steps(m);
    assert(change =~= seq![Step::Cell(cell, Some(value))]);
    let p = h.buffer.pending;
    assert(change.drop_last() =~= Seq::empty());
    assert(p.put_all(change.drop_last()) == p);
    let q = p.put_all(change);
    assert(q == p.put(Step::Cell(cell, Some(value))));
    lemma_same_rows(p, q, h.total_rows as nat);
}

} // verus!
