//! What is open: a file or a table, the part of it on show, and the edits that
//! wait to be written.
//!
//! Rows and columns have two numberings. *Source* numbers are the file's own:
//! the schema, the sort keys and the pending edits are written in them.
//! *Display* positions count what is on screen. Everything above this layer
//! counts in display positions, and the conversion happens here.
use vstd::prelude::*;
use crate::data::budget;
use crate::data::budget::allowance;
use crate::data::edit::{at_most_max, cell_steps, edit_text, takes, takes_out, Buffer, Cell, Overlay, Pending, Step};
use crate::data::jsonl::{maybe_text, ColumnType};
use crate::data::rows::{Matches, RowSet};
use crate::data::shown::{buffer_within, change_within, changing_keeps_within, history_keeps_within, past, place_of, shown_count, step_within, walk_to};
use crate::data::writer::Stamp;
use crate::text;
use crate::text::{decimal_text, texts};
use crate::view::{all_columns, Command, Condition, Filter, Shown, TableView};

verus! {

/// Where a store's rows come from.
#[derive(Clone, Copy, Debug, PartialEq, Eq, Structural)]
pub enum Source {
    /// A delimited or columnar file, read lazily.
    Lazy,
    /// A file of one JSON object to a line.
    Json,
    /// A table of a lake.
    Lake,
}

/// How a file is written back: as delimited records, or as JSON ones.
#[derive(Clone, Copy, Debug, PartialEq, Eq, Structural)]
pub enum Written {
    Delimited(u8),
    Json,
}

/// A file that edits can be written back to.
#[derive(Clone, Copy, Debug, PartialEq, Eq, Structural)]
pub struct EditTarget {
    pub written: Written,
    /// How the file looked when it was opened. A write checks this first, so
    /// it cannot clobber changes something else made in the meantime.
    pub stamp: Stamp,
}

pub struct Store {
    pub source: Source,
    /// The file's columns.
    pub names: Vec<String>,
    pub types: Vec<ColumnType>,
    /// For a JSON file, the keys under which each column lives in a record. A
    /// column found when the file opened is one key deep; expanding adds longer
    /// ones.
    pub paths: Vec<Vec<String>>,
    /// The file's own count of rows, whatever is on show.
    pub total_rows: usize,
    pub row_offset: usize,
    pub viewport_rows: usize,
    /// Which columns are on show, in what order, sorted how.
    pub view: TableView,
    /// Present when the rows came from a file that can be written back.
    pub edit: Option<EditTarget>,
    /// Edits made but not yet written, keyed by position in the source file.
    pub overlay: Overlay,
    /// The rows a filter matched, when one is active. Present means the viewer
    /// is paging through this set rather than through the file.
    pub filter_rows: Option<RowSet>,
    /// The source row at each position of a sort that is held.
    pub sorted: Option<Vec<usize>>,
    /// The page on screen, a column at a time, as text.
    pub page: Vec<Vec<Option<String>>>,
}

/// The cells of a page as sequences of characters, a column at a time.
#[verifier::opaque]
pub open spec fn page_text(page: Seq<Vec<Option<String>>>) -> Seq<Seq<Option<Seq<char>>>> {
    page.map_values(
        |column: Vec<Option<String>>| column@.map_values(|cell: Option<String>| maybe_text(cell)),
    )
}

/// What a store holds.
#[verifier::ext_equal]
pub struct Held {
    pub source: Source,
    pub names: Vec<String>,
    pub types: Vec<ColumnType>,
    pub paths: Vec<Vec<String>>,
    pub total_rows: usize,
    pub row_offset: usize,
    pub viewport_rows: usize,
    pub select: Option<Seq<usize>>,
    pub filter: Option<Filter>,
    pub sort: Seq<(usize, bool)>,
    pub edit: Option<EditTarget>,
    pub buffer: Buffer,
    pub matches: Option<Matches>,
    pub sorted: Option<Seq<usize>>,
    pub page: Seq<Seq<Option<Seq<char>>>>,
}

impl Held {
    /// The source rows on show, in order: the sorted table, the rows that a
    /// filter kept, or the file with its pending rows.
    pub open spec fn rows(self) -> Seq<usize> {
        match (self.sorted, self.matches) {
            (Some(sorted), _) => sorted,
            (None, Some(set)) => set.rows,
            (None, None) => self.buffer.pending.rows_shown(self.total_rows),
        }
    }

    /// How many rows are on show.
    pub open spec fn count(self) -> usize {
        at_most_max(self.rows().len())
    }

    /// The source columns on show, in order.
    pub open spec fn columns(self) -> Seq<usize> {
        match self.select {
            Some(chosen) => chosen,
            None => all_columns(self.names@.len()),
        }
    }

    /// Whether the table can be held sorted, when `cells` is what may be held. A
    /// filter that has finished resolving has already narrowed the table, so
    /// the question is how many rows are on show rather than how many the file
    /// holds.
    pub open spec fn fits(self, cells: usize) -> bool {
        let rows = match self.matches {
            Some(set) => if set.complete {
                set.rows.len()
            } else {
                self.total_rows as nat
            },
            None => self.total_rows as nat,
        };
        at_most_max(rows * self.names@.len()) <= cells
    }

    pub open spec fn too_big(self) -> Seq<char> {
        decimal_text(self.count() as nat) + " rows across "@ + decimal_text(self.names@.len())
            + " columns is more than there is memory to sort"@
    }

    /// The columns, the conditions and the order, as a view has them.
    pub open spec fn shows(self) -> Shown {
        Shown { select: self.select, filter: self.filter, sort: self.sort }
    }

    pub open spec fn showing(self, view: Shown) -> Held {
        Held { select: view.select, filter: view.filter, sort: view.sort, ..self }
    }

    /// To be sorted anew: nothing that was held stands.
    pub open spec fn unsorted(self) -> Held {
        Held { sorted: None, matches: None, row_offset: 0, ..self }
    }

    /// The row set brought in line with the view when nothing is sorted: an
    /// empty set to be filled by a scan, or none where there is nothing to filter
    /// by. A lake table is filtered by its database.
    pub open spec fn filtered_anew(self, limit: usize) -> Held {
        if self.filter is None {
            self.unsorted()
        } else if self.source == Source::Lake {
            Held { sorted: None, ..self }
        } else {
            Held {
                sorted: None,
                matches: Some(
                    Matches {
                        rows: Seq::empty(),
                        complete: false,
                        limit: if limit == 0 { 1 } else { limit as nat },
                        truncated: false,
                    },
                ),
                row_offset: 0,
                ..self
            }
        }
    }

    /// Where a search's row is on show. A sorted table was searched in the order
    /// it has; elsewhere the file was, and a row that a filter dropped or that is
    /// struck is nowhere.
    pub open spec fn display_of(self, reported: usize) -> Option<usize> {
        match (self.sorted, self.matches) {
            (Some(_), _) => Some(reported),
            (None, Some(set)) => if set.rows.contains(reported) {
                Some(set.rows.index_of(reported) as usize)
            } else {
                None
            },
            (None, None) => if reported < self.total_rows && self.rows().contains(reported) {
                Some(at_most_max(self.rows().index_of(reported) as nat))
            } else {
                None
            },
        }
    }

    /// Why an edit cannot be taken, if it cannot. Without the sorted table there
    /// is no record of where each row came from, so an edit could not be told
    /// which line it belongs to.
    pub open spec fn edit_refusal(self) -> Option<Seq<char>> {
        if self.edit is None {
            if self.source == Source::Lake {
                Some("lake tables are read-only"@)
            } else {
                Some("only csv, tsv, tab, txt and jsonl files can be edited"@)
            }
        } else if self.sort.len() > 0 && self.sorted is None {
            Some("still sorting"@)
        } else {
            None
        }
    }

    /// Why rows cannot be added or deleted, if they cannot. A sort or a filter
    /// puts an explicit list of rows on screen, and taking one out of the
    /// middle would mean rebuilding that list.
    pub open spec fn delete_refusal(self) -> Option<Seq<char>> {
        match self.edit_refusal() {
            Some(why) => Some(why),
            None => if self.matches is Some || self.sorted is Some {
                Some("cannot delete rows from a filtered or sorted view"@)
            } else {
                None
            },
        }
    }

    /// Where a row opened next to a display position belongs: before which row
    /// of the file, and in which place among those added there.
    pub open spec fn opening(self, display: usize, below: bool, before: usize, place: usize) -> bool {
        let p = self.buffer.pending;
        let rows = self.rows();
        if display >= rows.len() {
            // An empty file, or the cursor past the end: it goes on the end.
            before == self.total_rows && place == p.added_at(before).len()
        } else if rows[display as int] < self.total_rows {
            if below {
                before == rows[display as int] + 1 && place == 0
            } else {
                before == rows[display as int] && place == p.added_at(before).len()
            }
        } else {
            // Next to a row that is itself an added one.
            exists|k: int|
                0 <= k < p.added_at(before).len() && #[trigger] p.added_at(before)[k] == rows[display as int]
                    && place == (if below { k + 1 } else { k })
        }
    }

    /// Cells edited as one undoable change, by display position.
    pub open spec fn edited(self, edits: Seq<(Cell, Seq<char>)>) -> Held {
        Held {
            buffer: self.buffer.change(cell_steps(mapped(edits, self.rows(), self.columns()))),
            ..self
        }
    }

    /// The name and type of the column at a display position.
    pub open spec fn column(self, display: usize) -> Option<(Seq<char>, ColumnType)> {
        if display < self.columns().len() && self.columns()[display as int] < self.names@.len() {
            let c = self.columns()[display as int] as int;
            Some((self.names@[c]@, self.types@[c]))
        } else {
            None
        }
    }

    /// The text of one cell of the page, by display position. Nothing where the
    /// row is not on the page; a cell that holds nothing reads as empty.
    pub open spec fn cell(self, row: usize, column: usize) -> Option<Seq<char>> {
        if row < self.row_offset || column >= self.page.len() || row - self.row_offset
            >= self.page[column as int].len() {
            None
        } else {
            match self.page[column as int][row - self.row_offset] {
                Some(text) => Some(text),
                None => Some(Seq::empty()),
            }
        }
    }
}

impl View for Store {
    type V = Held;

    open spec fn view(&self) -> Held {
        Held {
            source: self.source,
            names: self.names,
            types: self.types,
            paths: self.paths,
            total_rows: self.total_rows,
            row_offset: self.row_offset,
            viewport_rows: self.viewport_rows,
            select: match self.view.select {
                Some(chosen) => Some(chosen@),
                None => None,
            },
            filter: self.view.filter,
            sort: self.view.sort@,
            edit: self.edit,
            buffer: self.overlay@,
            matches: match self.filter_rows {
                Some(set) => Some(set@),
                None => None,
            },
            sorted: match self.sorted {
                Some(rows) => Some(rows@),
                None => None,
            },
            page: page_text(self.page@),
        }
    }
}

/// Where `column` first stands among the columns chosen.
pub open spec fn first_at(chosen: Seq<usize>, column: usize, from: int) -> Option<int>
    decreases chosen.len() - from,
{
    if from < 0 || from >= chosen.len() {
        None
    } else if chosen[from] == column {
        Some(from)
    } else {
        first_at(chosen, column, from + 1)
    }
}

impl Store {
    pub open spec fn wf(self) -> bool {
        &&& self.overlay.wf()
        &&& buffer_within(self.overlay@, self.total_rows)
        &&& self.names@.len() == self.types@.len()
        &&& self.source == Source::Json ==> self.paths@.len() == self.names@.len()
        &&& self.filter_rows matches Some(set) ==> set@.wf()
    }

    /// The source rows on show, in order.
    pub open spec fn display_rows(self) -> Seq<usize> {
        self@.rows()
    }

    /// The source columns on show, in order.
    pub open spec fn display_columns(self) -> Seq<usize> {
        self@.columns()
    }

    /// Where a source column is on show.
    pub open spec fn shown_at(self, column: usize) -> Option<int> {
        match self.view.select {
            Some(chosen) => first_at(chosen@, column, 0),
            None => if column < self.names@.len() {
                Some(column as int)
            } else {
                None
            },
        }
    }

    pub fn new(
        source: Source,
        names: Vec<String>,
        types: Vec<ColumnType>,
        total_rows: usize,
        viewport_rows: usize,
        edit: Option<EditTarget>,
    ) -> (s: Self)
        requires
            names@.len() == types@.len(),
        ensures
            s.wf(),
            s.source == source,
            s.names == names,
            s.types == types,
            source == Source::Json ==> forall|i: int|
                0 <= i < names@.len() ==> texts((#[trigger] s.paths@[i])@) == seq![names@[i]@],
            s.total_rows == total_rows,
            s.row_offset == 0,
            s.viewport_rows == viewport_rows,
            s.view.select is None,
            s.view.filter is None,
            s.view.sort@.len() == 0,
            s.edit == edit,
            s.overlay@ == Buffer::empty(),
            s.filter_rows is None,
            s.sorted is None,
            s.page@.len() == 0,
    {
        let mut paths: Vec<Vec<String>> = Vec::new();
        let mut i: usize = 0;
        while i < names.len()
            invariant
                i <= names.len(),
                paths@.len() == i,
                forall|k: int| 0 <= k < i ==> texts((#[trigger] paths@[k])@) == seq![names@[k]@],
            decreases names.len() - i,
        {
            let mut path: Vec<String> = Vec::new();
            path.push(names[i].clone());
            assert(texts(path@) =~= seq![names@[i as int]@]);
            paths.push(path);
            i += 1;
        }
        Store {
            source,
            names,
            types,
            paths,
            total_rows,
            row_offset: 0,
            viewport_rows,
            view: TableView::new(),
            edit,
            overlay: Overlay::new(),
            filter_rows: None,
            sorted: None,
            page: Vec::new(),
        }
    }

    /// Take the page that is to be on screen, a column at a time, as text.
    pub fn show(&mut self, page: Vec<Vec<Option<String>>>)
        requires
            old(self).wf(),
        ensures
            final(self).wf(),
            *final(self) == (Store { page, ..*old(self) }),
    {
        self.page = page;
    }

    /// The visible text of one cell, by display row and column.
    ///
    /// `None` when the row is not on the current page. A null cell reads as
    /// empty, which is also how an empty field is written back.
    pub fn cell_text(&self, row: usize, column: usize) -> (text: Option<String>)
        ensures
            maybe_text(text) == self@.cell(row, column),
    {
        proof {
            reveal(page_text);
        }
        if row < self.row_offset || column >= self.page.len() {
            return None;
        }
        let local: usize = row - self.row_offset;
        assert(self@.page[column as int].len() == self.page@[column as int]@.len());
        if local >= self.page[column].len() {
            return None;
        }
        assert(self@.page[column as int][local as int] == maybe_text(
            self.page@[column as int]@[local as int],
        ));
        match &self.page[column][local] {
            Some(text) => Some(text.clone()),
            None => {
                let none = String::new();
                assert(none@ =~= Seq::empty());
                Some(none)
            },
        }
    }

    /// Rows on show. Not the file's own count, which the writer needs to check
    /// that it is looking at the same file.
    pub fn row_count(&self) -> (n: usize)
        requires
            self.wf(),
        ensures
            n == at_most_max(self.display_rows().len()),
    {
        match (&self.sorted, &self.filter_rows) {
            (Some(sorted), _) => sorted.len(),
            (None, Some(set)) => set.len(),
            // Deleted rows are struck rather than removed: still in the file,
            // simply not counted among what is on show. Added ones are the
            // other way round.
            (None, None) => shown_count(&self.overlay, self.total_rows),
        }
    }

    /// The source row behind a display position.
    pub fn source_row(&self, display: usize) -> (row: Option<usize>)
        requires
            self.wf(),
        ensures
            row == if display < self.display_rows().len() {
                Some(self.display_rows()[display as int])
            } else {
                None
            },
    {
        match (&self.sorted, &self.filter_rows) {
            (Some(sorted), _) => if display < sorted.len() {
                Some(sorted[display])
            } else {
                None
            },
            (None, Some(set)) => set.source(display),
            (None, None) => walk_to(&self.overlay, display, self.total_rows),
        }
    }

    /// Whether a row number is one of the file's, or an added row's id.
    ///
    /// Added rows are numbered past the end of the file, so the two can never
    /// be confused and the same key works for both.
    pub fn is_added(&self, row: usize) -> (b: bool)
        ensures
            b == (row >= self.total_rows),
    {
        row >= self.total_rows
    }

    /// Turn a row index reported by a background search into a display
    /// position.
    ///
    /// The search reads whatever the viewer is reading, so under a sort it
    /// already reports display positions. Elsewhere it reads the file and
    /// reports the file's rows, which have to be looked up, and a row that the
    /// filter dropped or that is struck has nowhere to go.
    pub fn search_row_to_display(&self, reported: usize) -> (at: Option<usize>)
        requires
            self.wf(),
        ensures
            at == self@.display_of(reported),
    {
        match (&self.sorted, &self.filter_rows) {
            (Some(_), _) => Some(reported),
            (None, Some(set)) => {
                let at = set.display(reported);
                proof {
                    let rows = set@.rows;
                    if let Some(i) = at {
                        assert(rows[i as int] == reported);
                        let j = rows.index_of(reported);
                        assert(rows[j] == reported);
                        assert(i == j);
                    }
                }
                at
            },
            (None, None) => if reported < self.total_rows {
                place_of(&self.overlay, reported, self.total_rows)
            } else {
                None
            },
        }
    }

    /// Whether a filter is still scanning.
    pub fn filtering(&self) -> (b: bool)
        ensures
            b == (self.filter_rows matches Some(set) && !set@.complete),
    {
        match &self.filter_rows {
            Some(set) => !set.is_complete(),
            None => false,
        }
    }

    /// Source column indices, in the order they are shown.
    pub fn columns(&self) -> (out: Vec<usize>)
        ensures
            out@ == self.display_columns(),
    {
        self.view.columns(self.names.len())
    }

    /// How many columns are on show, which is not how many the file has once a
    /// view narrows it.
    pub fn column_count(&self) -> (n: usize)
        ensures
            n == self.display_columns().len(),
    {
        match &self.view.select {
            Some(chosen) => chosen.len(),
            None => self.names.len(),
        }
    }

    /// The source column behind a display position.
    pub fn source_column(&self, display: usize) -> (c: Option<usize>)
        ensures
            c == if display < self.display_columns().len() {
                Some(self.display_columns()[display as int])
            } else {
                None
            },
    {
        match &self.view.select {
            Some(chosen) => if display < chosen.len() {
                Some(chosen[display])
            } else {
                None
            },
            None => if display < self.names.len() {
                Some(display)
            } else {
                None
            },
        }
    }

    /// Where a source column appears, if it is on show at all.
    pub fn display_column(&self, source: usize) -> (at: Option<usize>)
        ensures
            match at {
                Some(d) => self.shown_at(source) == Some(d as int) && d < self.display_columns().len()
                    && self.display_columns()[d as int] == source,
                None => self.shown_at(source) is None && !self.display_columns().contains(source),
            },
    {
        match &self.view.select {
            Some(chosen) => {
                let mut i: usize = 0;
                while i < chosen.len()
                    invariant
                        self.view.select == Some(*chosen),
                        i <= chosen.len(),
                        first_at(chosen@, source, i as int) == first_at(chosen@, source, 0),
                        forall|k: int| 0 <= k < i ==> chosen@[k] != source,
                    decreases chosen.len() - i,
                {
                    if chosen[i] == source {
                        return Some(i);
                    }
                    i += 1;
                }
                None
            },
            None => if source < self.names.len() {
                Some(source)
            } else {
                None
            },
        }
    }

    /// Name and type of the column at a display position.
    pub fn column_info(&self, display: usize) -> (info: Option<(String, ColumnType)>)
        requires
            self.wf(),
        ensures
            ({
                let there = display < self.display_columns().len()
                    && self.display_columns()[display as int] < self.names@.len();
                let c = self.display_columns()[display as int];
                match info {
                    Some((name, kind)) => there && name@ == self.names@[c as int]@ && kind
                        == self.types@[c as int],
                    None => !there,
                }
            }),
    {
        match self.source_column(display) {
            Some(c) => if c < self.names.len() {
                Some((self.names[c].clone(), self.types[c]))
            } else {
                None
            },
            None => None,
        }
    }
}

/// Sort keys as display positions. A key on a column that is not on show does
/// not appear.
pub open spec fn shown_keys(store: Store, sort: Seq<(usize, bool)>) -> Seq<(int, bool)>
    decreases sort.len(),
{
    if sort.len() == 0 {
        Seq::empty()
    } else {
        let before = shown_keys(store, sort.drop_last());
        match store.shown_at(sort.last().0) {
            Some(d) => before.push((d, sort.last().1)),
            None => before,
        }
    }
}

/// Sort keys by name, dropping those on columns the file no longer has.
pub open spec fn named_keys(names: Seq<Seq<char>>, sort: Seq<(usize, bool)>) -> Seq<(Seq<char>, bool)>
    decreases sort.len(),
{
    if sort.len() == 0 {
        Seq::empty()
    } else {
        let before = named_keys(names, sort.drop_last());
        if sort.last().0 < names.len() {
            before.push((names[sort.last().0 as int], sort.last().1))
        } else {
            before
        }
    }
}

/// The sort with one column's direction turned round, or with that column as its
/// last key if it was none.
pub open spec fn toggled(sort: Seq<(usize, bool)>, column: usize) -> Seq<(usize, bool)>
    decreases sort.len(),
{
    if sort.len() == 0 {
        seq![(column, true)]
    } else if sort[0].0 == column {
        seq![(column, !sort[0].1)] + sort.skip(1)
    } else {
        seq![sort[0]] + toggled(sort.skip(1), column)
    }
}

impl Store {
    /// Sort keys as display positions, for the header indicators.
    pub fn sort_display(&self) -> (out: Vec<(usize, bool)>)
        ensures
            out@.map_values(|k: (usize, bool)| (k.0 as int, k.1)) == shown_keys(*self, self.view.sort@),
    {
        let ghost f = |k: (usize, bool)| (k.0 as int, k.1);
        let mut out: Vec<(usize, bool)> = Vec::new();
        let mut i: usize = 0;
        assert(self.view.sort@.take(0) =~= Seq::empty());
        assert(out@.map_values(f) =~= Seq::empty());
        while i < self.view.sort.len()
            invariant
                i <= self.view.sort.len(),
                f == |k: (usize, bool)| (k.0 as int, k.1),
                out@.map_values(f) == shown_keys(*self, self.view.sort@.take(i as int)),
            decreases self.view.sort.len() - i,
        {
            assert(self.view.sort@.take(i + 1).drop_last() =~= self.view.sort@.take(i as int));
            let (column, ascends) = self.view.sort[i];
            if let Some(d) = self.display_column(column) {
                let ghost before = out@;
                out.push((d, ascends));
                assert(out@.map_values(f) =~= before.map_values(f).push((d as int, ascends)));
            }
            i += 1;
        }
        assert(self.view.sort@.take(i as int) =~= self.view.sort@);
        out
    }

    /// Sort keys as column names and whether they ascend, dropping any stale
    /// indices.
    pub fn sort_keys(&self) -> (out: Vec<(String, bool)>)
        ensures
            crate::data::lake_db::sort_keys(out@) == named_keys(texts(self.names@), self.view.sort@),
    {
        let mut out: Vec<(String, bool)> = Vec::new();
        let mut i: usize = 0;
        assert(self.view.sort@.take(0) =~= Seq::empty());
        assert(crate::data::lake_db::sort_keys(out@) =~= Seq::empty());
        while i < self.view.sort.len()
            invariant
                i <= self.view.sort.len(),
                crate::data::lake_db::sort_keys(out@) == named_keys(
                    texts(self.names@),
                    self.view.sort@.take(i as int),
                ),
            decreases self.view.sort.len() - i,
        {
            assert(self.view.sort@.take(i + 1).drop_last() =~= self.view.sort@.take(i as int));
            let (column, ascends) = self.view.sort[i];
            if column < self.names.len() {
                let ghost before = out@;
                out.push((self.names[column].clone(), ascends));
                assert(crate::data::lake_db::sort_keys(out@) =~= crate::data::lake_db::sort_keys(
                    before,
                ).push((self.names@[column as int]@, ascends)));
            }
            i += 1;
        }
        assert(self.view.sort@.take(i as int) =~= self.view.sort@);
        out
    }

    /// Toggle sort direction on a display column, or add it as a new ascending
    /// sort key. Returns whether there is such a column; the caller then has
    /// the table sorted anew.
    pub fn begin_sort(&mut self, display: usize) -> (sorting: bool)
        requires
            old(self).wf(),
        ensures
            final(self).wf(),
            sorting == (display < old(self).display_columns().len()),
            if sorting {
                final(self).view.sort@ == toggled(
                    old(self).view.sort@,
                    old(self).display_columns()[display as int],
                )
            } else {
                final(self).view.sort == old(self).view.sort
            },
            *final(self) == (Store {
                view: TableView { sort: final(self).view.sort, ..old(self).view },
                ..*old(self)
            }),
    {
        let column = match self.source_column(display) {
            Some(c) => c,
            None => {
                return false;
            },
        };
        let ghost keys = self.view.sort@;
        let mut i: usize = 0;
        assert(keys.skip(0) =~= keys);
        assert(keys.take(0) + toggled(keys, column) =~= toggled(keys, column));
        while i < self.view.sort.len() && self.view.sort[i].0 != column
            invariant
                *self == *old(self),
                keys == self.view.sort@,
                i <= self.view.sort.len(),
                keys.take(i as int) + toggled(keys.skip(i as int), column) == toggled(keys, column),
            decreases self.view.sort.len() - i,
        {
            proof {
                let rest = keys.skip(i as int);
                assert(rest.skip(1) =~= keys.skip(i + 1));
                assert(keys.take(i + 1) + toggled(rest.skip(1), column) =~= keys.take(i as int) + (
                seq![rest[0]] + toggled(rest.skip(1), column)));
            }
            i += 1;
        }
        if i < self.view.sort.len() {
            let ascends = self.view.sort[i].1;
            self.view.sort.set(i, (column, !ascends));
            proof {
                let rest = keys.skip(i as int);
                assert(rest.skip(1) =~= keys.skip(i + 1));
                assert(self.view.sort@ =~= keys.take(i as int) + (seq![(column, !ascends)] + rest.skip(1)));
            }
        } else {
            self.view.sort.push((column, true));
            assert(keys.skip(i as int) =~= Seq::empty());
            assert(self.view.sort@ =~= keys.take(i as int) + seq![(column, true)]);
        }
        true
    }
}

/// Turning a column's direction round twice gives the sort it was, wherever the
/// column was already a key.
pub proof fn toggling_a_key_twice_restores(sort: Seq<(usize, bool)>, column: usize)
    requires
        exists|i: int| 0 <= i < sort.len() && (#[trigger] sort[i]).0 == column,
    ensures
        toggled(toggled(sort, column), column) == sort,
    decreases sort.len(),
{
    let once = toggled(sort, column);
    if sort[0].0 == column {
        assert(once.skip(1) =~= sort.skip(1));
        assert(toggled(once, column) =~= sort);
    } else {
        let rest = sort.skip(1);
        let i = choose|i: int| 0 <= i < sort.len() && (#[trigger] sort[i]).0 == column;
        assert(rest[i - 1].0 == column);
        toggling_a_key_twice_restores(rest, column);
        assert(once.skip(1) =~= toggled(rest, column));
        assert(toggled(once, column) =~= sort);
    }
}

/// The source rows of one page.
pub open spec fn page_of(rows: Seq<usize>, offset: int, height: int) -> Seq<usize> {
    let from = if offset < rows.len() { offset } else { rows.len() as int };
    let to = if from + height < rows.len() { from + height } else { rows.len() as int };
    rows.subrange(from, to)
}

/// What to read for a page: a span of the file, and for each row of the page its
/// place in the span, or nothing for a row that is not in the file.
#[derive(Debug)]
pub struct ReadPlan {
    pub first: usize,
    pub span: usize,
    pub picks: Vec<Option<usize>>,
}

impl Store {
    /// The source rows that a page shows: picked out by a filter, missing the
    /// ones deleted, or simply the next few in order when neither applies.
    pub fn page_rows(&self, offset: usize, height: usize) -> (out: Vec<usize>)
        requires
            self.wf(),
            offset + height <= usize::MAX,
        ensures
            out@ == page_of(self.display_rows(), offset as int, height as int),
    {
        let ghost rows = self.display_rows();
        let mut out: Vec<usize> = Vec::new();
        let mut i: usize = 0;
        while i < height
            invariant
                self.wf(),
                rows == self.display_rows(),
                offset + height <= usize::MAX,
                i <= height,
                out@.len() == i,
                i > 0 ==> offset + i <= rows.len(),
                forall|k: int| 0 <= k < i ==> #[trigger] out@[k] == rows[offset + k],
            decreases height - i,
        {
            match self.source_row(offset + i) {
                Some(row) => {
                    out.push(row);
                    i += 1;
                },
                None => {
                    assert(out@ =~= page_of(rows, offset as int, height as int));
                    return out;
                },
            }
        }
        assert(out@ =~= page_of(rows, offset as int, height as int));
        out
    }

    /// How to read these rows: the span of the file from the first to the last
    /// of those that are in it, and where in the span each one stands. Added
    /// rows are not in the file, so they are not fetched: a blank stands in for
    /// each, and the overlay fills it in afterwards the same way it fills in an
    /// edited cell.
    pub fn read_plan(&self, wanted: &[usize]) -> (plan: ReadPlan)
        ensures
            plan.picks@.len() == wanted@.len(),
            plan.first + plan.span <= self.total_rows,
            forall|i: int|
                0 <= i < wanted@.len() ==> match #[trigger] plan.picks@[i] {
                    Some(place) => wanted@[i] < self.total_rows && place < plan.span && plan.first + place
                        == wanted@[i],
                    None => wanted@[i] >= self.total_rows,
                },
            // No more is read than from the first to the last of them.
            plan.span == 0 <==> forall|i: int|
                0 <= i < wanted@.len() ==> #[trigger] wanted@[i] >= self.total_rows,
            plan.span > 0 ==> wanted@.contains(plan.first) && wanted@.contains(
                (plan.first + plan.span - 1) as usize,
            ),
    {
        let mut first: usize = 0;
        let mut last: usize = 0;
        let mut any = false;
        let mut i: usize = 0;
        while i < wanted.len()
            invariant
                i <= wanted.len(),
                any <==> exists|k: int| 0 <= k < i && #[trigger] wanted@[k] < self.total_rows,
                any ==> first <= last < self.total_rows && wanted@.contains(first) && wanted@.contains(last),
                forall|k: int|
                    0 <= k < i && #[trigger] wanted@[k] < self.total_rows ==> first <= wanted@[k] <= last,
            decreases wanted.len() - i,
        {
            let row = wanted[i];
            assert(wanted@.contains(wanted@[i as int]));
            if row < self.total_rows {
                if !any {
                    first = row;
                    last = row;
                    any = true;
                } else if row < first {
                    first = row;
                } else if row > last {
                    last = row;
                }
            }
            i += 1;
        }
        let span: usize = if any { last - first + 1 } else { 0 };
        let mut picks: Vec<Option<usize>> = Vec::new();
        let mut j: usize = 0;
        while j < wanted.len()
            invariant
                j <= wanted.len(),
                picks@.len() == j,
                span == if any { last - first + 1 } else { 0 },
                any ==> first <= last < self.total_rows,
                any <==> exists|k: int| 0 <= k < wanted@.len() && #[trigger] wanted@[k] < self.total_rows,
                forall|k: int|
                    0 <= k < wanted@.len() && #[trigger] wanted@[k] < self.total_rows ==> first <= wanted@[k]
                        <= last,
                forall|k: int|
                    0 <= k < j ==> match #[trigger] picks@[k] {
                        Some(place) => wanted@[k] < self.total_rows && place < span && first + place
                            == wanted@[k],
                        None => wanted@[k] >= self.total_rows,
                    },
            decreases wanted.len() - j,
        {
            let row = wanted[j];
            if row < self.total_rows {
                assert(first <= wanted@[j as int] <= last);
                picks.push(Some(row - first));
            } else {
                picks.push(None);
            }
            j += 1;
        }
        ReadPlan { first: if any { first } else { 0 }, span, picks }
    }

    pub open spec fn fits(self, cells: usize) -> bool {
        self@.fits(cells)
    }

    /// Whether a table this big can be held sorted, when `cells` is what may be.
    pub fn sort_fits(&self, cells: usize) -> (b: bool)
        ensures
            b == self.fits(cells),
    {
        let rows: usize = match &self.filter_rows {
            Some(set) => if set.is_complete() {
                set.len()
            } else {
                self.total_rows
            },
            None => self.total_rows,
        };
        let columns: usize = self.names.len();
        match rows.checked_mul(columns) {
            Some(n) => n <= cells,
            None => usize::MAX <= cells,
        }
    }

    pub open spec fn too_big(self) -> Seq<char> {
        self@.too_big()
    }

    /// Why this store will not sort when `cells` is what may be held, or `None`
    /// when it will.
    ///
    /// Asked before a sort key is recorded, so a refusal leaves the view as it
    /// was rather than in an order nothing can produce. Lake tables are sorted
    /// by the database, which spills to disk; everything else has to fit.
    pub fn sort_blocked_by(&self, cells: usize) -> (why: Option<String>)
        requires
            self.wf(),
        ensures
            why is Some <==> self.source != Source::Lake && !self.fits(cells),
            why matches Some(text) ==> text@ == self.too_big(),
    {
        let lake = match self.source {
            Source::Lake => true,
            _ => false,
        };
        if lake || self.sort_fits(cells) {
            return None;
        }
        let mut out = text::decimal(self.row_count());
        text::push_str(&mut out, " rows across ");
        text::push_str(&mut out, text::decimal(self.names.len()).as_str());
        text::push_str(&mut out, " columns is more than there is memory to sort");
        Some(out)
    }

    /// Why this store will not sort on this machine, or `None` when it will: the
    /// machine has some memory, and a part of it is what may be held.
    pub fn sort_blocked(&self) -> (why: Option<String>)
        requires
            self.wf(),
        ensures
            exists|total: u64|
                total > 0 && (why is Some <==> self.source != Source::Lake && !self.fits(
                    #[trigger] allowance(total, budget::SORT_PART, budget::BYTES_PER_CELL) as usize,
                )),
            why matches Some(text) ==> text@ == self.too_big() && !self.fits(budget::FLOOR),
    {
        let cells = budget::sort_cells();
        assert(cells >= budget::FLOOR);
        let why = self.sort_blocked_by(cells);
        proof {
            let total = choose|total: u64|
                #![auto]
                cells == allowance(total, budget::SORT_PART, budget::BYTES_PER_CELL) && total > 0;
            assert(allowance(total, budget::SORT_PART, budget::BYTES_PER_CELL) as usize == cells);
        }
        why
    }

    /// The row set and any held sort no longer stand: the table is to be sorted
    /// anew. A held sort carries its own filter, so the row set has nothing left
    /// to save.
    pub fn resort(&mut self)
        requires
            old(self).wf(),
        ensures
            final(self).wf(),
            *final(self) == (Store { sorted: None, filter_rows: None, row_offset: 0, ..*old(self) }),
    {
        self.sorted = None;
        self.filter_rows = None;
        self.row_offset = 0;
    }

    /// Take the result of a sort: the source row at each position.
    pub fn adopt_sorted(&mut self, rows: Vec<usize>)
        requires
            old(self).wf(),
        ensures
            final(self).wf(),
            *final(self) == (Store { sorted: Some(rows), ..*old(self) }),
            final(self).display_rows() == rows@,
    {
        self.sorted = Some(rows);
    }

    /// Clear all sort keys and return to natural order.
    pub fn clear_sort(&mut self)
        requires
            old(self).wf(),
        ensures
            final(self).wf(),
            final(self).view.sort@.len() == 0,
            *final(self) == (Store {
                view: TableView { sort: final(self).view.sort, ..old(self).view },
                sorted: None,
                row_offset: 0,
                ..*old(self)
            }),
    {
        self.view.sort.clear();
        self.sorted = None;
        self.row_offset = 0;
    }

    /// Show the page at `offset`, or the last full page where that is sooner.
    pub fn scroll_to_offset(&mut self, offset: usize)
        requires
            old(self).wf(),
        ensures
            final(self).wf(),
            ({
                let rows = at_most_max(old(self).display_rows().len());
                let last = if rows < old(self).viewport_rows { 0 } else { rows - old(self).viewport_rows };
                *final(self) == (Store {
                    row_offset: (if offset < last { offset as int } else { last }) as usize,
                    ..*old(self)
                })
            }),
    {
        let last: usize = self.row_count().saturating_sub(self.viewport_rows);
        self.row_offset = if offset < last { offset } else { last };
    }

    /// The screen has another height. Returns whether the page has to be read
    /// again.
    pub fn resize(&mut self, height: usize) -> (changed: bool)
        requires
            old(self).wf(),
        ensures
            final(self).wf(),
            changed == (height != old(self).viewport_rows && height > 0),
            *final(self) == if changed {
                Store { viewport_rows: height, ..*old(self) }
            } else {
                *old(self)
            },
    {
        if self.viewport_rows != height && height > 0 {
            self.viewport_rows = height;
            true
        } else {
            false
        }
    }

    /// Take a command that changes the view. Refuses one that would leave no
    /// column to look at, and then changes nothing.
    pub fn reshape(&mut self, command: Command) -> (applied: bool)
        requires
            old(self).wf(),
        ensures
            final(self).wf(),
            match old(self)@.shows().after(command, old(self).names@.len()) {
                Some(view) => applied && final(self)@ == old(self)@.showing(view),
                None => !applied && final(self)@ == old(self)@,
            },
    {
        let width = self.names.len();
        let applied = self.view.apply(command, width);
        assert(old(self).view.shows() =~= old(self)@.shows());
        proof {
            if applied {
                assert(self@ =~= old(self)@.showing(self.view.shows()));
            }
        }
        applied
    }

    /// Why an edit cannot be taken, if it cannot.
    pub open spec fn edit_refusal(self) -> Option<Seq<char>> {
        self@.edit_refusal()
    }

    /// Why rows cannot be added or deleted, if they cannot.
    pub open spec fn delete_refusal(self) -> Option<Seq<char>> {
        self@.delete_refusal()
    }

    /// Why this store cannot take an edit right now, or `None` when it can.
    pub fn edit_blocked(&self) -> (why: Option<&'static str>)
        ensures
            match why {
                Some(text) => self.edit_refusal() == Some(text@),
                None => self.edit_refusal() is None,
            },
    {
        if self.edit.is_none() {
            return match self.source {
                Source::Lake => Some("lake tables are read-only"),
                _ => Some("only csv, tsv, tab, txt and jsonl files can be edited"),
            };
        }
        if !self.view.sort.is_empty() && self.sorted.is_none() {
            return Some("still sorting");
        }
        None
    }

    /// Whether the rows came from a file that can be written back to.
    ///
    /// Unlike [`Store::edit_blocked`] this does not change with the sort, so it
    /// is the right question for deciding what to advertise.
    pub fn is_editable(&self) -> (b: bool)
        ensures
            b == self.edit is Some,
    {
        self.edit.is_some()
    }

    /// Why rows cannot be deleted here, or `None` when they can.
    pub fn delete_blocked(&self) -> (why: Option<&'static str>)
        ensures
            match why {
                Some(text) => self.delete_refusal() == Some(text@),
                None => self.delete_refusal() is None,
            },
    {
        match self.edit_blocked() {
            Some(why) => Some(why),
            None => if self.filter_rows.is_some() || self.sorted.is_some() {
                Some("cannot delete rows from a filtered or sorted view")
            } else {
                None
            },
        }
    }

    /// Why a row cannot be added here, or `None` when it can.
    pub fn insert_blocked(&self) -> (why: Option<&'static str>)
        ensures
            match why {
                Some(text) => self.delete_refusal() == Some(text@),
                None => self.delete_refusal() is None,
            },
    {
        self.delete_blocked()
    }

    /// Everything pending: cells edited, rows deleted and rows added.
    pub fn dirty(&self) -> (n: usize)
        requires
            self.wf(),
        ensures
            n == at_most_max(self.overlay@.pending.count()),
    {
        self.overlay.pending()
    }

    /// Take back the last change. Returns false when there is nothing to undo.
    pub fn undo(&mut self) -> (undone: bool)
        requires
            old(self).wf(),
        ensures
            final(self).wf(),
            undone == (old(self).overlay@.undo.len() > 0),
            final(self).overlay@ == old(self).overlay@.undone(),
            *final(self) == (Store { overlay: final(self).overlay, ..*old(self) }),
    {
        proof {
            history_keeps_within(self.overlay@, self.total_rows);
        }
        self.overlay.undo()
    }

    /// Re-apply the last undone change.
    pub fn redo(&mut self) -> (redone: bool)
        requires
            old(self).wf(),
        ensures
            final(self).wf(),
            redone == (old(self).overlay@.redo.len() > 0),
            final(self).overlay@ == old(self).overlay@.redone(),
            *final(self) == (Store { overlay: final(self).overlay, ..*old(self) }),
    {
        proof {
            history_keeps_within(self.overlay@, self.total_rows);
        }
        self.overlay.redo()
    }

    /// Take a batch of matching rows from the scan.
    ///
    /// Returns whether the scan is still wanted: once the set is as large as
    /// the budget allows, it keeps what it has and the scan can stop.
    pub fn extend_filter(&mut self, batch: Vec<usize>) -> (wanted: bool)
        requires
            old(self).wf(),
            old(self).filter_rows matches Some(set) ==> set@.continued_by(batch@),
        ensures
            final(self).wf(),
            match old(self).filter_rows {
                Some(set) => final(self).filter_rows is Some && final(self).filter_rows->Some_0@
                    == set@.extended(batch@) && wanted == (set@.rows.len() + batch@.len() < set@.limit),
                None => !wanted && final(self).filter_rows is None,
            },
            *final(self) == (Store { filter_rows: final(self).filter_rows, ..*old(self) }),
    {
        match &mut self.filter_rows {
            Some(set) => set.extend(batch),
            None => false,
        }
    }

    /// Whether a batch goes on from the rows that a scan found before.
    pub fn filter_follows(&self, batch: &Vec<usize>) -> (b: bool)
        requires
            self.wf(),
        ensures
            b == match self.filter_rows {
                Some(set) => set@.continued_by(batch@),
                None => false,
            },
    {
        match &self.filter_rows {
            Some(set) => set.follows(batch),
            None => false,
        }
    }

    /// Whether the filter stopped short of every match.
    pub fn filter_truncated(&self) -> (b: bool)
        ensures
            b == (self.filter_rows matches Some(set) && set@.truncated),
    {
        match &self.filter_rows {
            Some(set) => set.is_truncated(),
            None => false,
        }
    }

    /// The scan has run out; what is here is all of it.
    pub fn finish_filter(&mut self)
        requires
            old(self).wf(),
        ensures
            final(self).wf(),
            match old(self).filter_rows {
                Some(set) => final(self).filter_rows is Some && final(self).filter_rows->Some_0@ == (
                Matches { complete: true, ..set@ }),
                None => final(self).filter_rows is None,
            },
            *final(self) == (Store { filter_rows: final(self).filter_rows, ..*old(self) }),
    {
        match &mut self.filter_rows {
            Some(set) => set.finish(),
            None => {},
        }
    }

    /// Bring the filtered row set in line with the view: an empty set of at most
    /// `limit` rows, to be filled by a scan, or none where there is nothing to
    /// filter by. Returns whether a scan is wanted. A lake table is filtered by
    /// its database, not here.
    pub fn begin_filter(&mut self, limit: usize) -> (scan: bool)
        requires
            old(self).wf(),
        ensures
            final(self).wf(),
            scan == (old(self).view.filter is Some && old(self).source != Source::Lake),
            if scan {
                final(self).filter_rows is Some && final(self).filter_rows->Some_0@ == (
                Matches {
                    rows: Seq::empty(),
                    complete: false,
                    limit: if limit == 0 { 1 } else { limit as nat },
                    truncated: false,
                }) && final(self).row_offset == 0
            } else if old(self).view.filter is None {
                final(self).filter_rows is None && final(self).row_offset == 0
            } else {
                final(self).filter_rows == old(self).filter_rows && final(self).row_offset == old(
                    self,
                ).row_offset
            },
            *final(self) == (Store {
                sorted: None,
                filter_rows: final(self).filter_rows,
                row_offset: final(self).row_offset,
                ..*old(self)
            }),
    {
        // This is the way without a sort, so any held table is in an order the
        // view no longer asks for.
        self.sorted = None;
        if self.view.filter.is_none() {
            self.filter_rows = None;
            self.row_offset = 0;
            return false;
        }
        match self.source {
            Source::Lake => false,
            _ => {
                self.filter_rows = Some(RowSet::new(limit));
                self.row_offset = 0;
                true
            },
        }
    }
}

/// Edits moved from display positions to the file's own. One that names no row
/// or column on show is dropped.
pub open spec fn mapped(
    edits: Seq<(Cell, Seq<char>)>,
    rows: Seq<usize>,
    columns: Seq<usize>,
) -> Seq<(Cell, Seq<char>)>
    decreases edits.len(),
{
    if edits.len() == 0 {
        Seq::empty()
    } else {
        let before = mapped(edits.drop_last(), rows, columns);
        let (cell, value) = edits.last();
        if cell.0 < rows.len() && cell.1 < columns.len() {
            before.push(((rows[cell.0 as int], columns[cell.1 as int]), value))
        } else {
            before
        }
    }
}

/// The rows that some display positions stand for.
pub open spec fn rows_at(positions: Seq<usize>, rows: Seq<usize>) -> Seq<usize>
    decreases positions.len(),
{
    if positions.len() == 0 {
        Seq::empty()
    } else {
        let before = rows_at(positions.drop_last(), rows);
        if positions.last() < rows.len() {
            before.push(rows[positions.last() as int])
        } else {
            before
        }
    }
}

/// No added row stands in two places.
pub open spec fn ids_distinct(p: Pending) -> bool {
    forall|a: usize, i: int, b: usize, j: int|
        0 <= i < p.added_at(a).len() && 0 <= j < p.added_at(b).len() && #[trigger] p.added_at(a)[i]
            == #[trigger] p.added_at(b)[j] ==> a == b && i == j
}

/// The struck rows, the added ones and what either leads back to are untouched
/// by edits of cells.
proof fn lemma_cells_within(edits: Seq<(Cell, Seq<char>)>, total: usize)
    ensures
        change_within(cell_steps(edits), total),
{
}

impl Store {
    /// Apply `edits` as a single undoable change. Both coordinates are display
    /// positions, so an edit made through a narrowed or reordered view still
    /// lands on the right field of the file.
    pub fn edit(&mut self, edits: Vec<(Cell, String)>)
        requires
            old(self).wf(),
        ensures
            final(self).wf(),
            final(self).overlay@ == old(self).overlay@.change(
                cell_steps(
                    mapped(edit_text(edits@), old(self).display_rows(), old(self).display_columns()),
                ),
            ),
            *final(self) == (Store { overlay: final(self).overlay, ..*old(self) }),
    {
        let ghost rows = self.display_rows();
        let ghost columns = self.display_columns();
        let ghost all = edit_text(edits@);
        let mut out: Vec<(Cell, String)> = Vec::new();
        assert(all.take(0) =~= Seq::empty());
        assert(edit_text(out@) =~= Seq::empty());
        for edit in it: edits
            invariant
                self.wf(),
                *self == *old(self),
                rows == self.display_rows(),
                columns == self.display_columns(),
                it.seq() == edits@,
                all == edit_text(edits@),
                edit_text(out@) == mapped(all.take(it.index() as int), rows, columns),
        {
            let ghost k = it.index() as int;
            proof {
                assert(all.take(k + 1).drop_last() =~= all.take(k));
                assert(all.take(k + 1).last() == (edit.0, edit.1@));
            }
            let (cell, value) = edit;
            if let (Some(row), Some(column)) = (self.source_row(cell.0), self.source_column(cell.1)) {
                let ghost before = out@;
                out.push(((row, column), value));
                assert(edit_text(out@) =~= edit_text(before).push(((row, column), value@)));
            }
        }
        assert(all.take(all.len() as int) =~= all);
        proof {
            let steps = cell_steps(edit_text(out@));
            lemma_cells_within(edit_text(out@), self.total_rows);
            changing_keeps_within(self.overlay@, steps, self.total_rows);
        }
        self.overlay.set(out);
    }

    /// Strike out the rows at these display positions, as one undoable step.
    /// Returns how many there were.
    pub fn delete_rows(&mut self, positions: Vec<usize>) -> (count: usize)
        requires
            old(self).wf(),
        ensures
            final(self).wf(),
            ({
                let gone = rows_at(positions@, old(self).display_rows());
                &&& count == gone.len()
                &&& final(self).overlay@.pending == old(self).overlay@.pending.deleted(
                    gone.to_set(),
                    old(self).total_rows,
                )
                &&& exists|change: Seq<Step>| #[trigger]
                    takes_out(change, old(self).overlay@.pending, old(self).total_rows)
                        && final(self).overlay@ == old(self).overlay@.change(change)
            }),
            *final(self) == (Store { overlay: final(self).overlay, ..*old(self) }),
    {
        let ghost rows = self.display_rows();
        let mut gone: Vec<usize> = Vec::new();
        let mut i: usize = 0;
        assert(positions@.take(0) =~= Seq::empty());
        assert(gone@ =~= Seq::empty());
        while i < positions.len()
            invariant
                self.wf(),
                *self == *old(self),
                rows == self.display_rows(),
                i <= positions.len(),
                gone@ == rows_at(positions@.take(i as int), rows),
            decreases positions.len() - i,
        {
            assert(positions@.take(i + 1).drop_last() =~= positions@.take(i as int));
            if let Some(row) = self.source_row(positions[i]) {
                gone.push(row);
            }
            i += 1;
        }
        assert(positions@.take(i as int) =~= positions@);
        let count = gone.len();
        self.overlay.delete(gone, self.total_rows);
        proof {
            let named = rows_at(positions@, rows).to_set();
            old(self).overlay.pending_wf();
            let change = choose|change: Seq<Step>| #[trigger]
                takes_out(change, old(self).overlay@.pending, self.total_rows) && self.overlay@
                    == old(self).overlay@.change(change);
            lemma_deletion_within(old(self).overlay@, change, named, self.total_rows);
        }
        count
    }

    /// Whether there is a number left for another added row.
    pub open spec fn can_number(self) -> bool {
        self.total_rows < usize::MAX && self.overlay@.next_id < usize::MAX
    }

    pub fn can_add(&self) -> (b: bool)
        ensures
            b == self.can_number(),
    {
        self.total_rows < usize::MAX && self.overlay.next_id(0) < usize::MAX
    }

    /// Where a row opened next to a display position belongs.
    pub open spec fn opening(self, display: usize, below: bool, before: usize, place: usize) -> bool {
        self@.opening(display, below, before, place)
    }

    /// Add an empty row next to the one at `display`, and say where it landed.
    ///
    /// A new row belongs *before* some row of the file, and among any others
    /// already added there, which is what keeps above and below meaning that
    /// even when the neighbour is itself a new row.
    pub fn add_row(&mut self, display: usize, below: bool) -> (at: usize)
        requires
            old(self).wf(),
            old(self).sorted is None,
            old(self).filter_rows is None,
            old(self).can_number(),
            display < usize::MAX,
        ensures
            final(self).wf(),
            ({
                let b = old(self).overlay@;
                let id = if b.next_id < old(self).total_rows {
                    old(self).total_rows
                } else {
                    b.next_id as usize
                };
                exists|before: usize, place: usize| #[trigger]
                    old(self)@.opening(display, below, before, place) && final(self).overlay@ == (Buffer {
                        next_id: id as nat + 1,
                        ..b
                    }).change(
                        seq![Step::Added(before, b.pending.added_at(before).insert(place as int, id))],
                    )
            }),
            at == if below && at_most_max(final(self).display_rows().len()) > 1 {
                (display + 1) as usize
            } else {
                display
            },
            *final(self) == (Store { overlay: final(self).overlay, ..*old(self) }),
    {
        let total = self.total_rows;
        let ghost p = self.overlay@.pending;
        let (before, place): (usize, usize) = match self.source_row(display) {
            Some(row) => if row >= total {
                match self.overlay.locate(row) {
                    Some((anchor, place)) => {
                        assert(p.added_at(anchor)[place as int] == row);
                        (anchor, if below { place + 1 } else { place })
                    },
                    None => {
                        proof {
                            lemma_shown_added(p, display as int, total);
                        }
                        (total, 0)
                    },
                }
            } else if below {
                (row + 1, 0)
            } else {
                (row, self.overlay.added_at(row).len())
            },
            None => (total, self.overlay.added_at(total).len()),
        };
        assert(self@.opening(display, below, before, place));
        let ghost was = self.overlay@;
        proof {
            self.overlay.pending_wf();
            assert(before <= total) by {
                if p.added_at(before).len() > 0 {
                    assert(p.added.contains_key(before));
                }
            }
        }
        let id = self.overlay.add_row(before, place, total);
        proof {
            let b = Buffer { next_id: id as nat + 1, ..was };
            let list = p.added_at(before).insert(place as int, id);
            let change = seq![Step::Added(before, list)];
            assert(change =~= crate::data::edit::added_step(p, before, place, id));
            assert(past(list, total)) by {
                assert forall|i: int| 0 <= i < list.len() implies #[trigger] list[i] >= total by {
                    if i != place {
                        assert(p.added.contains_key(before));
                        let k = if i < place { i } else { i - 1 };
                        assert(past(p.added[before], total));
                        assert(p.added_at(before)[k] >= total);
                    }
                }
            }
            assert(step_within(change[0], total));
            assert(buffer_within(b, total));
            changing_keeps_within(b, change, total);
        }
        if below && self.row_count() > 1 {
            display + 1
        } else {
            display
        }
    }
}

/// A number past the file's rows that is on show is an added row's.
proof fn lemma_shown_added(p: Pending, at: int, total: usize)
    requires
        0 <= at < p.rows_shown(total).len(),
        p.rows_shown(total)[at] >= total,
    ensures
        exists|a: usize| #[trigger] p.added_at(a).contains(p.rows_shown(total)[at]),
{
    let rows = p.rows_under(total as nat);
    if at < rows.len() {
        lemma_under_added(p, at, total as nat);
    } else {
        let row = p.rows_shown(total)[at];
        assert(p.added_at(total)[at - rows.len()] == row);
        assert(p.added_at(total).contains(row));
    }
}

proof fn lemma_under_added(p: Pending, at: int, n: nat)
    requires
        n <= usize::MAX,
        0 <= at < p.rows_under(n).len(),
        p.rows_under(n)[at] >= n,
    ensures
        exists|a: usize| #[trigger] p.added_at(a).contains(p.rows_under(n)[at]),
    decreases n,
{
    if n > 0 {
        let row = (n - 1) as usize;
        let front = p.rows_under((n - 1) as nat);
        if at < front.len() {
            assert(p.rows_under(n)[at] == front[at]);
            lemma_under_added(p, at, (n - 1) as nat);
        } else if at < front.len() + p.added_at(row).len() {
            assert(p.added_at(row)[at - front.len()] == p.rows_under(n)[at]);
            assert(p.added_at(row).contains(p.rows_under(n)[at]));
        }
    }
}

/// Deleting keeps to the file.
proof fn lemma_deletion_within(was: Buffer, change: Seq<Step>, rows: Set<usize>, total: usize)
    requires
        buffer_within(was, total),
        was.pending.wf(),
        takes_out(change, was.pending, total),
        was.change(change).pending == was.pending.deleted(rows, total),
    ensures
        buffer_within(was.change(change), total),
{
    let p = was.pending;
    let q = p.deleted(rows, total);
    let kept = |id: usize| id < total || !rows.contains(id);
    assert forall|i: int| 0 <= i < change.len() implies step_within(#[trigger] change[i], total) by {
        assert(takes(change[i], p, total));
        match change[i] {
            Step::Added(anchor, ids) => {
                assert(p.added.contains_key(anchor));
                crate::data::edit::last_word(p, change, i);
                assert(q.at(change[i].target()) == change[i]);
                assert(q.added_at(anchor) == ids);
                assert(past(p.added[anchor], total));
                assert forall|k: int| 0 <= k < ids.len() implies #[trigger] ids[k] >= total by {
                    p.added_at(anchor).lemma_filter_contains_rev(kept, ids[k]);
                }
            },
            _ => {},
        }
    }
    changing_keeps_within(was, change, total);
}

/// A row of the file is shown in one place only.
proof fn lemma_row_place(p: Pending, total: usize, n: nat, at: int)
    requires
        p.within(total),
        n <= total,
        0 <= at < p.rows_under(n).len(),
        p.rows_under(n)[at] < total,
    ensures
        ({
            let row = p.rows_under(n)[at];
            &&& row < n
            &&& !p.struck.contains(row)
            &&& at == p.rows_under(row as nat).len() + p.added_at(row).len()
        }),
    decreases n,
{
    let last = (n - 1) as usize;
    let front = p.rows_under((n - 1) as nat);
    let row = p.rows_under(n)[at];
    if at < front.len() {
        assert(row == front[at]);
        lemma_row_place(p, total, (n - 1) as nat, at);
    } else if at < front.len() + p.added_at(last).len() {
        assert(row == p.added_at(last)[at - front.len()]);
        assert(p.added.contains_key(last));
        assert(past(p.added[last], total));
    }
}

/// So is an added row, if it was added once.
proof fn lemma_id_place(p: Pending, total: usize, n: nat, at: int, a: usize, k: int)
    requires
        p.within(total),
        ids_distinct(p),
        n <= total,
        0 <= at < p.rows_under(n).len(),
        p.rows_under(n)[at] >= total,
        0 <= k < p.added_at(a).len(),
        p.added_at(a)[k] == p.rows_under(n)[at],
    ensures
        a < n,
        at == p.rows_under(a as nat).len() + k,
    decreases n,
{
    let last = (n - 1) as usize;
    let front = p.rows_under((n - 1) as nat);
    let row = p.rows_under(n)[at];
    if at < front.len() {
        assert(row == front[at]);
        lemma_id_place(p, total, (n - 1) as nat, at, a, k);
    } else if at < front.len() + p.added_at(last).len() {
        assert(row == p.added_at(last)[at - front.len()]);
    }
}

/// A row opened above one on show takes its place and moves it and all behind it
/// on by one; a row opened below one comes right behind it; and past the end it
/// comes last. Nothing else moves.
pub proof fn an_opened_row_shows_next_to_its_neighbour(
    store: Store,
    display: usize,
    below: bool,
    before: usize,
    place: usize,
    id: usize,
)
    requires
        store.wf(),
        store.sorted is None,
        store.filter_rows is None,
        ids_distinct(store.overlay@.pending),
        store.opening(display, below, before, place),
    ensures
        ({
            let p = store.overlay@.pending;
            let q = p.put(Step::Added(before, p.added_at(before).insert(place as int, id)));
            let rows = store.display_rows();
            let at = if display >= rows.len() {
                rows.len() as int
            } else if below {
                display + 1
            } else {
                display as int
            };
            q.rows_shown(store.total_rows) == rows.insert(at, id)
        }),
{
    let p = store.overlay@.pending;
    let total = store.total_rows;
    let rows = store.display_rows();
    let under = p.rows_under(total as nat);
    assert(before <= total && place <= p.added_at(before).len()) by {
        if p.added_at(before).len() > 0 {
            assert(p.added.contains_key(before));
        }
    }
    crate::data::shown::an_added_row_shows_where_it_was_put(p, before, place as int, id, total);
    if display < rows.len() {
        let row = rows[display as int];
        if row < total {
            if display >= under.len() {
                assert(row == p.added_at(total)[display - under.len()]);
                assert(p.added.contains_key(total));
                assert(past(p.added[total], total));
            }
            lemma_row_place(p, total, total as nat, display as int);
            crate::data::shown::a_row_stands_behind_what_is_added_before_it(p, row, total);
        } else {
            let k = choose|k: int|
                0 <= k < p.added_at(before).len() && #[trigger] p.added_at(before)[k] == row && place == (
                if below {
                    k + 1
                } else {
                    k
                });
            if display < under.len() {
                lemma_id_place(p, total, total as nat, display as int, before, k);
            } else {
                assert(row == p.added_at(total)[display - under.len()]);
                assert(before == total && k == display - under.len());
            }
        }
    }
}

/// The name with a number behind it.
pub open spec fn numbered(wanted: Seq<char>, n: nat) -> Seq<char> {
    wanted + "#"@ + decimal_text(n)
}

/// A name no column has yet: the one wanted, or else the one with the least
/// number behind it, from 2 on, that no column has.
pub open spec fn is_unique_name(name: Seq<char>, names: Seq<Seq<char>>, wanted: Seq<char>) -> bool {
    &&& !names.contains(name)
    &&& names.contains(wanted) ==> exists|n: nat|
        2 <= n && name == #[trigger] numbered(wanted, n) && forall|m: nat|
            2 <= m < n ==> names.contains(#[trigger] numbered(wanted, m))
    &&& !names.contains(wanted) ==> name == wanted
}

proof fn lemma_decimal_len(n: nat)
    ensures
        decimal_text(n).len() >= 1,
    decreases n,
{
    if n >= 10 {
        lemma_decimal_len(n / 10);
    }
}

/// Different numbers are written differently.
pub proof fn decimals_differ(a: nat, b: nat)
    requires
        decimal_text(a) == decimal_text(b),
    ensures
        a == b,
    decreases a,
{
    let x = decimal_text(a);
    let y = decimal_text(b);
    if a >= 10 {
        lemma_decimal_len(a / 10);
        assert(x.last() == (48 + a % 10) as u8 as char);
    }
    if b >= 10 {
        lemma_decimal_len(b / 10);
        assert(y.last() == (48 + b % 10) as u8 as char);
    }
    if a >= 10 && b >= 10 {
        assert(x.drop_last() =~= decimal_text(a / 10));
        assert(y.drop_last() =~= decimal_text(b / 10));
        decimals_differ(a / 10, b / 10);
        assert((48 + a % 10) as u8 as char == (48 + b % 10) as u8 as char);
    } else if a < 10 && b < 10 {
        assert(x[0] == y[0]);
    }
}

/// As many numbered names as are taken, so many columns there are.
proof fn lemma_taken(names: Seq<Seq<char>>, wanted: Seq<char>, n: nat) -> (taken: Set<Seq<char>>)
    requires
        n >= 2,
        forall|m: nat| 2 <= m < n ==> names.contains(#[trigger] numbered(wanted, m)),
    ensures
        taken.finite(),
        taken.len() == n - 2,
        taken.subset_of(names.to_set()),
        forall|t: Seq<char>| #[trigger]
            taken.contains(t) ==> exists|m: nat| 2 <= m < n && t == #[trigger] numbered(wanted, m),
    decreases n,
{
    if n == 2 {
        Set::empty()
    } else {
        let before = lemma_taken(names, wanted, (n - 1) as nat);
        let name = numbered(wanted, (n - 1) as nat);
        assert(names.contains(name));
        assert(!before.contains(name)) by {
            if before.contains(name) {
                let m = choose|m: nat| 2 <= m < n - 1 && name == #[trigger] numbered(wanted, m);
                let head = wanted + "#"@;
                assert(decimal_text(m) =~= numbered(wanted, m).skip(head.len() as int));
                assert(decimal_text((n - 1) as nat) =~= name.skip(head.len() as int));
                decimals_differ(m, (n - 1) as nat);
            }
        }
        let taken = before.insert(name);
        assert forall|t: Seq<char>| #[trigger] taken.contains(t) implies exists|m: nat|
            2 <= m < n && t == #[trigger] numbered(wanted, m) by {
            if t != name {
                assert(before.contains(t));
            }
        }
        taken
    }
}

fn has_name(names: &Vec<String>, name: &str) -> (b: bool)
    ensures
        b == texts(names@).contains(name@),
{
    let mut i: usize = 0;
    while i < names.len()
        invariant
            i <= names.len(),
            forall|k: int| 0 <= k < i ==> #[trigger] texts(names@)[k] != name@,
        decreases names.len() - i,
    {
        if text::same(names[i].as_str(), name) {
            assert(texts(names@)[i as int] == name@);
            return true;
        }
        assert(texts(names@)[i as int] != name@);
        i += 1;
    }
    false
}

/// A name no column has yet.
///
/// Only reachable by a record holding both a key and a literal dotted one at the
/// top level, and only when the first is expanded. Rare enough to deserve a
/// suffix rather than a refusal: the name still says where the column came from.
pub fn unique_name(names: &Vec<String>, wanted: String) -> (name: String)
    requires
        names@.len() < usize::MAX - 2,
    ensures
        is_unique_name(name@, texts(names@), wanted@),
{
    let ghost all = texts(names@);
    if !has_name(names, wanted.as_str()) {
        return wanted;
    }
    let mut n: usize = 2;
    loop
        invariant
            all == texts(names@),
            all.contains(wanted@),
            names@.len() < usize::MAX - 2,
            2 <= n <= names@.len() + 2,
            forall|m: nat| 2 <= m < n ==> all.contains(#[trigger] numbered(wanted@, m)),
        decreases names@.len() + 3 - n,
    {
        let mut name = wanted.clone();
        text::push_str(&mut name, "#");
        text::push_str(&mut name, text::decimal(n).as_str());
        assert(name@ == numbered(wanted@, n as nat));
        if !has_name(names, name.as_str()) {
            return name;
        }
        proof {
            let taken = lemma_taken(all, wanted@, (n + 1) as nat);
            vstd::set_lib::lemma_len_subset(taken, all.to_set());
            all.lemma_cardinality_of_set();
        }
        n += 1;
    }
}

/// A pending edit that is on screen: the row within the page, the display
/// column, and the text.
#[derive(Debug)]
pub struct PageEdit {
    pub row: usize,
    pub column: usize,
    pub value: String,
}

impl Store {
    /// The edit of source column `c` in the row at `row` of the page at `offset`.
    pub open spec fn edits_here(self, offset: int, row: int, c: usize) -> bool {
        let rows = self.display_rows();
        &&& 0 <= offset + row < rows.len()
        &&& self.overlay@.pending.cells.contains_key((rows[offset + row], c))
        &&& self.shown_at(c) is Some
    }

    /// The edit on the page is the one pending there.
    pub open spec fn shows(self, offset: int, edit: PageEdit, c: usize) -> bool {
        &&& self.edits_here(offset, edit.row as int, c)
        &&& self.shown_at(c) == Some(edit.column as int)
        &&& edit.value@ == self.overlay@.pending.cells[(self.display_rows()[offset + edit.row], c)]
    }

    /// Pending edits falling inside a page of `height` rows starting at `offset`.
    /// Edits on a column the view has hidden are not reported: there is nowhere
    /// on screen to report them.
    ///
    /// Asked row by row rather than edit by edit: a filter or a sort can put any
    /// file row at any display position, so this way is one lookup per row on
    /// screen, whatever the view is doing.
    #[verifier::spinoff_prover]
    pub fn edits_in_page(&self, offset: usize, height: usize) -> (out: Vec<PageEdit>)
        requires
            self.wf(),
            offset + height <= usize::MAX,
        ensures
            forall|k: int|
                0 <= k < out@.len() ==> (#[trigger] out@[k]).row < height && exists|c: usize|
                    self.shows(offset as int, out@[k], c),
            forall|row: int, c: usize| #[trigger]
                self.edits_here(offset as int, row, c) && 0 <= row < height ==> exists|k: int|
                    0 <= k < out@.len() && (#[trigger] out@[k]).row == row && self.shows(
                        offset as int,
                        out@[k],
                        c,
                    ),
    {
        let ghost rows = self.display_rows();
        let mut out: Vec<PageEdit> = Vec::new();
        let mut local: usize = 0;
        while local < height
            invariant
                self.wf(),
                rows == self.display_rows(),
                offset + height <= usize::MAX,
                local <= height,
                forall|k: int|
                    0 <= k < out@.len() ==> (#[trigger] out@[k]).row < local && exists|c: usize|
                        self.shows(offset as int, out@[k], c),
                forall|row: int, c: usize| #[trigger]
                    self.edits_here(offset as int, row, c) && 0 <= row < local ==> exists|k: int|
                        0 <= k < out@.len() && (#[trigger] out@[k]).row == row && self.shows(
                            offset as int,
                            out@[k],
                            c,
                        ),
            decreases height - local,
        {
            let ghost start = out@;
            if let Some(source) = self.source_row(offset + local) {
                if let Some(cells) = self.overlay.row(source) {
                    let fields = crate::data::ordered::sorted_keys(cells);
                    let mut i: usize = 0;
                    while i < fields.len()
                        invariant
                            self.wf(),
                            rows == self.display_rows(),
                            i <= fields.len(),
                            offset + local < rows.len(),
                            local < height,
                            source == rows[offset + local],
                            crate::data::edit::row_text(cells@) == self.overlay@.pending.row(source),
                            forall|f: usize| fields@.contains(f) <==> cells@.contains_key(f),
                            start.len() <= out@.len(),
                            forall|k: int| 0 <= k < start.len() ==> out@[k] == start[k],
                            forall|k: int|
                                start.len() <= k < out@.len() ==> (#[trigger] out@[k]).row == local
                                    && exists|c: usize| self.shows(offset as int, out@[k], c),
                            forall|m: int|
                                0 <= m < i && self.shown_at(#[trigger] fields@[m]) is Some ==> exists|k: int|
                                    start.len() <= k < out@.len() && (#[trigger] out@[k]).row == local
                                        && self.shows(offset as int, out@[k], fields@[m]),
                        decreases fields.len() - i,
                    {
                        let field = fields[i];
                        assert(fields@.contains(field));
                        let ghost before = out@;
                        if let Some(d) = self.display_column(field) {
                            if let Some(value) = cells.get(&field) {
                                proof {
                                    assert(crate::data::edit::row_text(cells@).contains_key(field));
                                    assert(self.overlay@.pending.row(source).contains_key(field));
                                    assert(crate::data::edit::row_text(cells@)[field] == value@);
                                    assert(self.overlay@.pending.row(source)[field]
                                        == self.overlay@.pending.cells[(source, field)]);
                                }
                                out.push(PageEdit { row: local, column: d, value: value.clone() });
                                proof {
                                    let k = before.len() as int;
                                    assert(self.shows(offset as int, out@[k], field));
                                    assert forall|m: int|
                                        0 <= m < i + 1 && self.shown_at(#[trigger] fields@[m]) is Some implies exists|k: int|
                                        start.len() <= k < out@.len() && (#[trigger] out@[k]).row
                                            == local && self.shows(offset as int, out@[k], fields@[m]) by {
                                        if m < i {
                                            let j = choose|j: int|
                                                start.len() <= j < before.len() && (#[trigger] before[j]).row
                                                    == local && self.shows(
                                                    offset as int,
                                                    before[j],
                                                    fields@[m],
                                                );
                                            assert(out@[j] == before[j]);
                                        } else {
                                            assert(out@[k].row == local);
                                        }
                                    }
                                }
                            }
                        }
                        proof {
                            assert forall|k: int| start.len() <= k < out@.len() implies (
                            #[trigger] out@[k]).row == local && exists|c: usize|
                                self.shows(offset as int, out@[k], c) by {
                                if k < before.len() {
                                    assert(out@[k] == before[k]);
                                    let c = choose|c: usize| self.shows(offset as int, before[k], c);
                                    assert(self.shows(offset as int, out@[k], c));
                                } else {
                                    assert(self.shows(offset as int, out@[k], field));
                                }
                            }
                        }
                        i += 1;
                    }
                    proof {
                        assert forall|c: usize| #[trigger] self.edits_here(offset as int, local as int, c) implies exists|k: int|
                            0 <= k < out@.len() && (#[trigger] out@[k]).row == local && self.shows(
                                offset as int,
                                out@[k],
                                c,
                            ) by {
                            assert(self.overlay@.pending.row(source).contains_key(c));
                            assert(crate::data::edit::row_text(cells@).contains_key(c));
                            assert(fields@.contains(c));
                            let m = choose|m: int| 0 <= m < fields@.len() && fields@[m] == c;
                            assert(self.shown_at(fields@[m]) is Some);
                        }
                    }
                } else {
                    assert forall|c: usize| !#[trigger] self.edits_here(offset as int, local as int, c) by {
                        if self.overlay@.pending.cells.contains_key((source, c)) {
                            assert(self.overlay@.pending.has_row(source));
                        }
                    }
                }
            }
            proof {
                assert forall|row: int, c: usize| #[trigger]
                    self.edits_here(offset as int, row, c) && 0 <= row < local + 1 implies exists|k: int|
                    0 <= k < out@.len() && (#[trigger] out@[k]).row == row && self.shows(
                        offset as int,
                        out@[k],
                        c,
                    ) by {
                    if row < local {
                        let k = choose|k: int|
                            0 <= k < start.len() && (#[trigger] start[k]).row == row && self.shows(
                                offset as int,
                                start[k],
                                c,
                            );
                        assert(out@[k] == start[k]);
                    }
                }
                assert forall|k: int| 0 <= k < out@.len() implies (#[trigger] out@[k]).row < local + 1
                    && exists|c: usize| self.shows(offset as int, out@[k], c) by {
                    if k < start.len() {
                        assert(out@[k] == start[k]);
                    }
                }
            }
            local += 1;
        }
        out
    }

    /// Why a write is refused before it is tried, if it is. `now` is what the
    /// file looks like, if that could be found out.
    pub open spec fn save_refusal(self, now: Option<Stamp>, force: bool, path: Seq<char>) -> Option<Seq<char>> {
        match self.edit {
            None => Some("this view is read-only"@),
            Some(target) => if !force && now != Some(target.stamp) {
                Some(path + " has changed on disk \u{2014} :w! overwrites it"@)
            } else {
                None
            },
        }
    }

    /// Why a write is refused before it is tried, or `None`.
    ///
    /// Refuses when the file has changed since it was opened unless forced: the
    /// buffer's row numbers describe the file as it was read, so writing over a
    /// different one would put edits on the wrong lines.
    pub fn save_blocked(&self, now: Option<Stamp>, force: bool, path: &str) -> (why: Option<String>)
        ensures
            match why {
                Some(text) => self.save_refusal(now, force, path@) == Some(text@),
                None => self.save_refusal(now, force, path@) is None,
            },
    {
        match self.edit {
            None => Some("this view is read-only".to_owned()),
            Some(target) => if !force && !target.stamp.still_matches(now) {
                Some(text::joined(path, " has changed on disk \u{2014} :w! overwrites it"))
            } else {
                None
            },
        }
    }

    /// The file has been written. Written in place, nothing is pending any more
    /// and the file is known as it looks now; written elsewhere, the source file
    /// still lacks these changes and the buffer stays as it is.
    pub fn saved(&mut self, in_place: bool, stamp: Stamp)
        requires
            old(self).wf(),
        ensures
            final(self).wf(),
            if in_place {
                &&& final(self).overlay@ == Buffer::empty()
                &&& final(self).edit == match old(self).edit {
                    Some(target) => Some(EditTarget { stamp, ..target }),
                    None => None,
                }
                &&& *final(self) == (Store {
                    overlay: final(self).overlay,
                    edit: final(self).edit,
                    ..*old(self)
                })
            } else {
                *final(self) == *old(self)
            },
    {
        if in_place {
            self.overlay.clear();
            self.edit = match self.edit {
                Some(target) => Some(EditTarget { written: target.written, stamp }),
                None => None,
            };
        }
    }

    /// A delimited file has been opened again after a write: an edit may have
    /// changed what a column is read as, and a deleted or added row how many
    /// there are. The held sort describes the file as it was before.
    pub fn reopened(&mut self, names: Vec<String>, types: Vec<ColumnType>, rows: usize)
        requires
            old(self).wf(),
            old(self).source == Source::Lazy,
            old(self).overlay@ == Buffer::empty(),
            names@.len() == types@.len(),
        ensures
            final(self).wf(),
            *final(self) == (Store { names, types, total_rows: rows, sorted: None, ..*old(self) }),
    {
        self.names = names;
        self.types = types;
        self.total_rows = rows;
        self.sorted = None;
    }
}

/// Cells of one column with the edits of a page written in. An empty text is no
/// value, matching how it is read and written.
pub open spec fn patched_cell(edits: Seq<PageEdit>, column: usize, row: int, was: Option<Seq<char>>) -> Option<
    Seq<char>,
>
    decreases edits.len(),
{
    if edits.len() == 0 {
        was
    } else if edits.last().column == column && edits.last().row == row {
        if edits.last().value@.len() == 0 {
            None
        } else {
            Some(edits.last().value@)
        }
    } else {
        patched_cell(edits.drop_last(), column, row, was)
    }
}

/// One column of a page with its pending edits written in, as text.
pub fn patch_column(values: Vec<Option<String>>, edits: &Vec<PageEdit>, column: usize) -> (out: Vec<
    Option<String>,
>)
    ensures
        out@.len() == values@.len(),
        forall|row: int|
            0 <= row < out@.len() ==> maybe_text(#[trigger] out@[row]) == patched_cell(
                edits@,
                column,
                row,
                maybe_text(values@[row]),
            ),
{
    let ghost was = values@;
    let mut out = values;
    let mut i: usize = 0;
    assert(edits@.take(0) =~= Seq::empty());
    while i < edits.len()
        invariant
            i <= edits.len(),
            out@.len() == was.len(),
            forall|row: int|
                0 <= row < out@.len() ==> maybe_text(#[trigger] out@[row])
                    == patched_cell(
                    edits@.take(i as int),
                    column,
                    row,
                    maybe_text(was[row]),
                ),
        decreases edits.len() - i,
    {
        assert(edits@.take(i + 1).drop_last() =~= edits@.take(i as int));
        let edit = &edits[i];
        if edit.column == column && edit.row < out.len() {
            let value: Option<String> = if edit.value.as_str().is_empty() {
                None
            } else {
                Some(edit.value.clone())
            };
            let ghost before = out@;
            out.set(edit.row, value);
            assert(out@ =~= before.update(edit.row as int, value));
        }
        i += 1;
    }
    assert(edits@.take(i as int) =~= edits@);
    out
}

/// Records read to find what a column expands into.
pub const SAMPLE_RECORDS: usize = 20480;

/// The name of a key under a column.
pub open spec fn dotted(name: Seq<char>, child: Seq<char>) -> Seq<char> {
    name + "."@ + child
}

/// The columns after some were put on the end: each under the name wanted for
/// it, or one like it where that was taken.
pub open spec fn extended_names(before: Seq<Seq<char>>, after: Seq<Seq<char>>, wanted: Seq<Seq<char>>) -> bool {
    &&& after.len() == before.len() + wanted.len()
    &&& after.take(before.len() as int) == before
    &&& forall|i: int|
        0 <= i < wanted.len() ==> is_unique_name(
            after[before.len() + i],
            after.take(before.len() + i),
            #[trigger] wanted[i],
        )
}

/// Columns with those numbered `from..to` in the place of `column`, or on the
/// end where it is not among them.
pub open spec fn spliced(shown: Seq<usize>, column: usize, from: usize, to: usize) -> Seq<usize> {
    let children = Seq::new((to - from) as nat, |i: int| (from + i) as usize);
    match first_at(shown, column, 0) {
        Some(at) => shown.take(at) + children + shown.skip(at + 1),
        None => shown + children,
    }
}

/// Texts behind one name, with a dot between.
pub open spec fn children_of(name: Seq<char>, children: Seq<(String, ColumnType)>) -> Seq<Seq<char>> {
    children.map_values(|c: (String, ColumnType)| dotted(name, c.0@))
}

impl Store {
    /// Why a column cannot be expanded into `children`, if it cannot.
    pub open spec fn expand_refusal(self, column: usize, children: Seq<(String, ColumnType)>) -> Option<Seq<char>> {
        if self.source != Source::Json {
            Some("only jsonl columns can be expanded"@)
        } else if column >= self.names@.len() {
            Some("no such column"@)
        } else if children.len() == 0 {
            Some("nothing to expand: no documents in "@ + self.names@[column as int]@)
        } else if forall|i: int|
            0 <= i < children.len() ==> texts(self.names@).contains(
                #[trigger] children_of(self.names@[column as int]@, children)[i],
            ) {
            Some(self.names@[column as int]@ + " is already expanded"@)
        } else {
            None
        }
    }

    pub open spec fn expanded_text(self, column: usize, count: nat, complete: bool) -> Seq<char> {
        let said = self.names@[column as int]@ + " expanded into "@ + decimal_text(count) + " columns"@;
        if complete {
            said
        } else {
            said + " (from the first 20480 records with it)"@
        }
    }

    /// Lift the documents in one column out into columns of their own.
    ///
    /// `children` are the keys found in them, and `complete` whether all of the
    /// file was looked at. The new columns go on the end of the schema, so every
    /// source column keeps its number, and the parent's place in the view is
    /// taken by its children.
    pub fn expand(&mut self, column: usize, children: &[(String, ColumnType)], complete: bool) -> (r: Result<
        String,
        String,
    >)
        requires
            old(self).wf(),
            old(self).names@.len() + children@.len() < usize::MAX - 2,
        ensures
            final(self).wf(),
            match old(self).expand_refusal(column, children@) {
                Some(why) => r is Err && r->Err_0@ == why && *final(self) == *old(self),
                None => {
                    let n = old(self).names@.len();
                    &&& r is Ok && r->Ok_0@ == old(self).expanded_text(column, children@.len(), complete)
                    &&& extended_names(
                        texts(old(self).names@),
                        texts(final(self).names@),
                        children_of(old(self).names@[column as int]@, children@),
                    )
                    &&& final(self).types@ == old(self).types@ + children@.map_values(
                        |c: (String, ColumnType)| c.1,
                    )
                    &&& text::table(final(self).paths@) == text::table(old(self).paths@) + children@.map_values(
                        |c: (String, ColumnType)| texts(old(self).paths@[column as int]@).push(c.0@),
                    )
                    &&& final(self).view.select is Some
                    &&& final(self).view.select->Some_0@ == spliced(
                        old(self).display_columns(),
                        column,
                        n as usize,
                        (n + children@.len()) as usize,
                    )
                    &&& *final(self) == (Store {
                        names: final(self).names,
                        types: final(self).types,
                        paths: final(self).paths,
                        view: TableView { select: final(self).view.select, ..old(self).view },
                        sorted: None,
                        ..*old(self)
                    })
                },
            },
    {
        let json = match self.source {
            Source::Json => true,
            _ => false,
        };
        if !json {
            return Err("only jsonl columns can be expanded".to_owned());
        }
        if column >= self.names.len() {
            return Err("no such column".to_owned());
        }
        let name = self.names[column].clone();
        if children.len() == 0 {
            return Err(text::joined("nothing to expand: no documents in ", name.as_str()));
        }
        let ghost wanted = children_of(name@, children@);
        let mut new = false;
        let mut i: usize = 0;
        while i < children.len()
            invariant
                *self == *old(self),
                name@ == self.names@[column as int]@,
                wanted == children_of(name@, children@),
                i <= children.len(),
                new <==> exists|k: int|
                    0 <= k < i && !texts(self.names@).contains(#[trigger] wanted[k]),
            decreases children.len() - i,
        {
            let mut child = name.clone();
            text::push_str(&mut child, ".");
            text::push_str(&mut child, children[i].0.as_str());
            assert(child@ == wanted[i as int]);
            if !has_name(&self.names, child.as_str()) {
                new = true;
            }
            i += 1;
        }
        if !new {
            return Err(text::joined(name.as_str(), " is already expanded"));
        }

        // Read before the schema grows, since it is the old numbering that the
        // view is written in.
        let shown = self.columns();
        let first: usize = self.names.len();
        let count: usize = children.len();
        let path = copy_texts(&self.paths[column]);
        let ghost f = |c: (String, ColumnType)| c.1;
        let ghost g = |c: (String, ColumnType)| texts(path@).push(c.0@);
        i = 0;
        proof {
            assert(texts(self.names@).take(first as int) =~= texts(self.names@));
            assert(self.types@ =~= old(self).types@ + children@.map_values(f).take(0));
            assert(text::table(self.paths@) =~= text::table(old(self).paths@) + children@.map_values(
                g,
            ).take(0));
        }
        while i < count
            invariant
                count == children.len(),
                i <= count,
                first == old(self).names@.len(),
                old(self).wf(),
                old(self).source == Source::Json,
                column < old(self).names@.len(),
                name@ == old(self).names@[column as int]@,
                texts(path@) == texts(old(self).paths@[column as int]@),
                old(self).names@.len() + children@.len() < usize::MAX - 2,
                wanted == children_of(name@, children@),
                f == |c: (String, ColumnType)| c.1,
                g == |c: (String, ColumnType)| texts(path@).push(c.0@),
                self.names@.len() == first + i,
                self.types@ == old(self).types@ + children@.map_values(f).take(i as int),
                text::table(self.paths@) == text::table(old(self).paths@) + children@.map_values(
                    g,
                ).take(i as int),
                texts(self.names@).take(first as int) == texts(old(self).names@),
                forall|k: int|
                    0 <= k < i ==> is_unique_name(
                        texts(self.names@)[first + k],
                        texts(self.names@).take(first + k),
                        #[trigger] wanted[k],
                    ),
                *self == (Store {
                    names: self.names,
                    types: self.types,
                    paths: self.paths,
                    ..*old(self)
                }),
            decreases count - i,
        {
            let mut child = name.clone();
            text::push_str(&mut child, ".");
            text::push_str(&mut child, children[i].0.as_str());
            assert(child@ == wanted[i as int]);
            let unused = unique_name(&self.names, child);
            let ghost before = texts(self.names@);
            self.names.push(unused);
            assert(texts(self.names@) =~= before.push(unused@));
            self.types.push(children[i].1);
            assert(self.types@ =~= old(self).types@ + children@.map_values(f).take(i + 1));
            let mut under = copy_texts(&path);
            let ghost parent = texts(under@);
            under.push(children[i].0.clone());
            assert(texts(under@) =~= parent.push(children@[i as int].0@));
            let ghost paths = text::table(self.paths@);
            self.paths.push(under);
            proof {
                assert(text::table(self.paths@) =~= paths.push(texts(under@)));
                assert(texts(under@) == children@.map_values(g)[i as int]);
                assert(text::table(self.paths@) =~= text::table(old(self).paths@) + children@.map_values(
                    g,
                ).take(i + 1));
                assert(texts(self.names@).take(first as int) =~= before.take(first as int));
                assert forall|k: int| 0 <= k < i + 1 implies is_unique_name(
                    texts(self.names@)[first + k],
                    texts(self.names@).take(first + k),
                    #[trigger] wanted[k],
                ) by {
                    assert(texts(self.names@).take(first + k) =~= before.take(first + k));
                    if k == i {
                        assert(before.take(first + k) =~= before);
                    } else {
                        assert(texts(self.names@)[first + k] == before[first + k]);
                    }
                }
            }
            i += 1;
        }
        proof {
            assert(children@.map_values(f).take(i as int) =~= children@.map_values(f));
            assert(children@.map_values(g).take(i as int) =~= children@.map_values(g));
            assert(children@.map_values(g) =~= children@.map_values(
                |c: (String, ColumnType)| texts(old(self).paths@[column as int]@).push(c.0@),
            ));
            assert(self.paths@.len() == text::table(self.paths@).len());
            assert(old(self).paths@.len() == text::table(old(self).paths@).len());
        }
        let shown = splice_columns(shown, column, first, first + count);
        self.view.select = Some(shown);
        // The held sort was built against the old schema and has no such
        // columns.
        self.sorted = None;

        let mut said = name;
        text::push_str(&mut said, " expanded into ");
        text::push_str(&mut said, text::decimal(count).as_str());
        text::push_str(&mut said, " columns");
        if !complete {
            // A key further down the file would not be here. Said out loud.
            text::push_str(&mut said, " (from the first 20480 records with it)");
        }
        Ok(said)
    }
}

fn copy_texts(row: &Vec<String>) -> (out: Vec<String>)
    ensures
        texts(out@) == texts(row@),
{
    let mut out: Vec<String> = Vec::new();
    let mut i: usize = 0;
    while i < row.len()
        invariant
            i <= row.len(),
            texts(out@) == texts(row@).take(i as int),
        decreases row.len() - i,
    {
        let ghost before = out@;
        out.push(row[i].clone());
        assert(texts(out@) =~= texts(before).push(row@[i as int]@));
        assert(texts(out@) =~= texts(row@).take(i + 1));
        i += 1;
    }
    assert(texts(out@) =~= texts(row@));
    out
}

/// The children stand where their parent stood, so the table does not shuffle
/// sideways around the column being read. A column that is not on show has no
/// place, and they go on the end.
fn splice_columns(shown: Vec<usize>, column: usize, from: usize, to: usize) -> (out: Vec<usize>)
    requires
        from <= to,
    ensures
        out@ == spliced(shown@, column, from, to),
{
    let ghost children = Seq::new((to - from) as nat, |i: int| (from + i) as usize);
    let mut out: Vec<usize> = Vec::new();
    let mut at: usize = 0;
    while at < shown.len() && shown[at] != column
        invariant
            at <= shown.len(),
            out@ == shown@.take(at as int),
            first_at(shown@, column, at as int) == first_at(shown@, column, 0),
        decreases shown.len() - at,
    {
        out.push(shown[at]);
        at += 1;
        assert(out@ =~= shown@.take(at as int));
    }
    let mut c = from;
    assert(out@ =~= shown@.take(at as int) + children.take(0));
    while c < to
        invariant
            from <= c <= to,
            at <= shown.len(),
            children == Seq::new((to - from) as nat, |i: int| (from + i) as usize),
            out@ == shown@.take(at as int) + children.take(c - from),
        decreases to - c,
    {
        out.push(c);
        c += 1;
        assert(out@ =~= shown@.take(at as int) + children.take(c - from));
    }
    assert(children.take(c - from) =~= children);
    if at == shown.len() {
        assert(shown@.take(at as int) =~= shown@);
        return out;
    }
    let ghost head = shown@.take(at as int) + children;
    let mut k: usize = at + 1;
    assert(out@ =~= head + shown@.subrange(at + 1, k as int));
    while k < shown.len()
        invariant
            at < k <= shown.len(),
            out@ == head + shown@.subrange(at + 1, k as int),
        decreases shown.len() - k,
    {
        out.push(shown[k]);
        k += 1;
        assert(out@ =~= head + shown@.subrange(at + 1, k as int));
    }
    assert(shown@.subrange(at + 1, k as int) =~= shown@.skip(at + 1));
    out
}

/// The name that a column gets when `wanted` is asked for.
pub open spec fn unique(names: Seq<Seq<char>>, wanted: Seq<char>) -> Seq<char> {
    choose|name: Seq<char>| is_unique_name(name, names, wanted)
}

proof fn lemma_unique(name: Seq<char>, names: Seq<Seq<char>>, wanted: Seq<char>)
    requires
        is_unique_name(name, names, wanted),
    ensures
        unique(names, wanted) == name,
{
    let other = unique(names, wanted);
    assert(is_unique_name(other, names, wanted));
    if names.contains(wanted) {
        let n = choose|n: nat|
            2 <= n && name == #[trigger] numbered(wanted, n) && forall|m: nat|
                2 <= m < n ==> names.contains(#[trigger] numbered(wanted, m));
        let k = choose|n: nat|
            2 <= n && other == #[trigger] numbered(wanted, n) && forall|m: nat|
                2 <= m < n ==> names.contains(#[trigger] numbered(wanted, m));
        if n < k {
            assert(names.contains(numbered(wanted, n)));
        } else if k < n {
            assert(names.contains(numbered(wanted, k)));
        }
    }
}

/// The columns of a JSON file: names, types, and the keys each lives under.
#[verifier::ext_equal]
pub struct Columns {
    pub names: Seq<Seq<char>>,
    pub types: Seq<ColumnType>,
    pub paths: Seq<Seq<Seq<char>>>,
}

impl Columns {
    /// A column made by expanding is put back on the end, if the column it came
    /// from is still there.
    pub open spec fn regrow(self, kind: ColumnType, path: Seq<Seq<char>>) -> Columns {
        if path.len() > 1 && self.names.contains(path[0]) {
            Columns {
                names: self.names.push(unique(self.names, text::join_text(path, "."@))),
                types: self.types.push(kind),
                paths: self.paths.push(path),
            }
        } else {
            self
        }
    }

    /// All the expanded columns of another are put back.
    pub open spec fn regrown(self, other: Columns, n: nat) -> Columns
        decreases n,
    {
        if n == 0 {
            self
        } else {
            self.regrown(other, (n - 1) as nat).regrow(other.types[n - 1], other.paths[n - 1])
        }
    }
}

/// The columns that a file was found to have, each one key deep.
pub open spec fn found_columns(found: Seq<(String, ColumnType)>) -> Columns {
    Columns {
        names: found.map_values(|c: (String, ColumnType)| c.0@),
        types: found.map_values(|c: (String, ColumnType)| c.1),
        paths: found.map_values(|c: (String, ColumnType)| seq![c.0@]),
    }
}

/// Where a name first stands.
pub open spec fn name_at(names: Seq<Seq<char>>, name: Seq<char>, from: int) -> Option<int>
    decreases names.len() - from,
{
    if from < 0 || from >= names.len() {
        None
    } else if names[from] == name {
        Some(from)
    } else {
        name_at(names, name, from + 1)
    }
}

/// Columns found again by name under another numbering, those that are gone left
/// out.
pub open spec fn renumbered(chosen: Seq<usize>, names: Seq<Seq<char>>, after: Seq<Seq<char>>) -> Seq<usize>
    decreases chosen.len(),
{
    if chosen.len() == 0 {
        Seq::empty()
    } else {
        let before = renumbered(chosen.drop_last(), names, after);
        if chosen.last() < names.len() {
            match name_at(after, names[chosen.last() as int], 0) {
                Some(at) => before.push(at as usize),
                None => before,
            }
        } else {
            before
        }
    }
}

/// Sort keys found again by the names of their columns, those that are gone left
/// out.
pub open spec fn renumbered_keys(
    keys: Seq<(usize, bool)>,
    names: Seq<Seq<char>>,
    after: Seq<Seq<char>>,
) -> Seq<(usize, bool)>
    decreases keys.len(),
{
    if keys.len() == 0 {
        Seq::empty()
    } else {
        let before = renumbered_keys(keys.drop_last(), names, after);
        let (column, ascends) = keys.last();
        if column < names.len() {
            match name_at(after, names[column as int], 0) {
                Some(at) => before.push((at as usize, ascends)),
                None => before,
            }
        } else {
            before
        }
    }
}

/// Conditions found again by the names of their columns, those that are gone left
/// out.
pub open spec fn renumbered_conditions(
    conditions: Seq<Condition>,
    names: Seq<Seq<char>>,
    after: Seq<Seq<char>>,
) -> Seq<Condition>
    decreases conditions.len(),
{
    if conditions.len() == 0 {
        Seq::empty()
    } else {
        let before = renumbered_conditions(conditions.drop_last(), names, after);
        let last = conditions.last();
        if last.column < names.len() {
            match name_at(after, names[last.column as int], 0) {
                Some(at) => before.push(Condition { column: at as usize, ..last }),
                None => before,
            }
        } else {
            before
        }
    }
}

fn keys_again(keys: &Vec<(usize, bool)>, names: &Vec<String>, after: &Vec<String>) -> (out: Vec<
    (usize, bool),
>)
    ensures
        out@ == renumbered_keys(keys@, texts(names@), texts(after@)),
{
    let mut out: Vec<(usize, bool)> = Vec::new();
    let mut k: usize = 0;
    assert(keys@.take(0) =~= Seq::empty());
    assert(out@ =~= Seq::empty());
    while k < keys.len()
        invariant
            k <= keys.len(),
            out@ == renumbered_keys(keys@.take(k as int), texts(names@), texts(after@)),
        decreases keys.len() - k,
    {
        assert(keys@.take(k + 1).drop_last() =~= keys@.take(k as int));
        let (column, ascends): (usize, bool) = keys[k];
        if column < names.len() {
            assert(texts(names@)[column as int] == names@[column as int]@);
            if let Some(at) = find_name(after, names[column].as_str()) {
                out.push((at, ascends));
            }
        }
        k += 1;
    }
    assert(keys@.take(k as int) =~= keys@);
    out
}

fn conditions_again(conditions: Vec<Condition>, names: &Vec<String>, after: &Vec<String>) -> (out: Vec<
    Condition,
>)
    ensures
        out@ == renumbered_conditions(conditions@, texts(names@), texts(after@)),
        out@.len() <= conditions@.len(),
{
    let ghost all = conditions@;
    let ghost (x, y) = (texts(names@), texts(after@));
    let mut out = conditions;
    let mut i: usize = 0;
    let ghost k: int = 0;
    assert(all.take(0) =~= Seq::empty());
    assert(out@ =~= renumbered_conditions(all.take(0), x, y) + all.skip(0));
    while i < out.len()
        invariant
            x == texts(names@),
            y == texts(after@),
            0 <= k <= all.len(),
            i == renumbered_conditions(all.take(k), x, y).len(),
            i <= k,
            out@ == renumbered_conditions(all.take(k), x, y) + all.skip(k),
        decreases all.len() - k,
    {
        let ghost front = renumbered_conditions(all.take(k), x, y);
        let ghost before = out@;
        let column = out[i].column;
        proof {
            assert(before[i as int] == all.skip(k)[0]);
            assert(all.skip(k)[0] == all[k]);
            assert(all.take(k + 1).drop_last() =~= all.take(k));
            assert(all.take(k + 1).last() == all[k]);
        }
        let found: Option<usize> = if column < names.len() {
            assert(x[column as int] == names@[column as int]@);
            find_name(after, names[column].as_str())
        } else {
            None
        };
        match found {
            Some(at) => {
                let here = &mut out[i];
                here.column = at;
                i += 1;
                proof {
                    assert(out@ =~= front.push(Condition { column: at, ..all[k] }) + all.skip(k + 1));
                }
            },
            None => {
                out.remove(i);
                proof {
                    assert(out@ =~= front + all.skip(k + 1));
                }
            },
        }
        proof {
            k = k + 1;
        }
    }
    proof {
        assert(k == all.len()) by {
            if k < all.len() {
                assert(out@.len() == i + (all.len() - k));
            }
        }
        assert(all.take(k) =~= all);
        assert(out@ =~= renumbered_conditions(all, x, y));
    }
    out
}

pub(crate) fn find_name(names: &Vec<String>, name: &str) -> (at: Option<usize>)
    ensures
        match at {
            Some(i) => name_at(texts(names@), name@, 0) == Some(i as int),
            None => name_at(texts(names@), name@, 0) is None,
        },
{
    let mut i: usize = 0;
    while i < names.len()
        invariant
            i <= names.len(),
            name_at(texts(names@), name@, i as int) == name_at(texts(names@), name@, 0),
        decreases names.len() - i,
    {
        if text::same(names[i].as_str(), name) {
            return Some(i);
        }
        i += 1;
    }
    None
}

impl Store {
    pub open spec fn all_columns(self) -> Columns {
        Columns { names: texts(self.names@), types: self.types@, paths: text::table(self.paths@) }
    }

    /// A JSON file has been read again after a write to it.
    ///
    /// An edit can widen a column's type, and a deleted or added record changes
    /// both the row count and the keys, so all of them are found anew. The view
    /// is put back by name, since column numbers are only meaningful against
    /// the schema they were written for, and any column that expanding made is
    /// put back on the end: it is derived from the file rather than found in it.
    /// Where a condition is gone with its column, the rows that met it no longer
    /// stand for the filter.
    pub fn reload_json(&mut self, found: &[(String, ColumnType)], rows: usize)
        requires
            old(self).wf(),
            old(self).source == Source::Json,
            old(self).overlay@ == Buffer::empty(),
            old(self).names@.len() + found@.len() < usize::MAX - 2,
        ensures
            final(self).wf(),
            final(self).all_columns() == found_columns(found@).regrown(
                old(self).all_columns(),
                old(self).names@.len(),
            ),
            ({
                let chosen = match old(self).view.select {
                    Some(chosen) => renumbered(
                        chosen@,
                        texts(old(self).names@),
                        texts(final(self).names@),
                    ),
                    None => Seq::empty(),
                };
                match final(self).view.select {
                    Some(after) => chosen.len() > 0 && after@ == chosen,
                    None => chosen.len() == 0,
                }
            }),
            final(self).view.sort@ == renumbered_keys(
                old(self).view.sort@,
                texts(old(self).names@),
                texts(final(self).names@),
            ),
            match old(self).view.filter {
                Some(filter) => {
                    let left = renumbered_conditions(
                        filter.conditions@,
                        texts(old(self).names@),
                        texts(final(self).names@),
                    );
                    &&& match final(self).view.filter {
                        Some(after) => left.len() > 0 && after.conditions@ == left,
                        None => left.len() == 0,
                    }
                    &&& final(self).filter_rows == if left.len() == filter.conditions@.len() {
                        old(self).filter_rows
                    } else {
                        None
                    }
                },
                None => final(self).view.filter is None && final(self).filter_rows == old(
                    self,
                ).filter_rows,
            },
            final(self).total_rows == rows,
            ({
                let shown = at_most_max(final(self).display_rows().len());
                let last = if shown == 0 { 0 } else { shown - 1 };
                final(self).row_offset == if old(self).row_offset < last {
                    old(self).row_offset as int
                } else {
                    last
                }
            }),
            *final(self) == (Store {
                names: final(self).names,
                types: final(self).types,
                paths: final(self).paths,
                total_rows: rows,
                row_offset: final(self).row_offset,
                view: final(self).view,
                filter_rows: final(self).filter_rows,
                sorted: None,
                ..*old(self)
            }),
    {
        let ghost was = self.all_columns();
        let ghost start = found_columns(found@);
        let mut names: Vec<String> = Vec::new();
        let mut types: Vec<ColumnType> = Vec::new();
        let mut paths: Vec<Vec<String>> = Vec::new();
        let mut i: usize = 0;
        while i < found.len()
            invariant
                i <= found.len(),
                start == found_columns(found@),
                texts(names@) == start.names.take(i as int),
                types@ == start.types.take(i as int),
                text::table(paths@) == start.paths.take(i as int),
            decreases found.len() - i,
        {
            let ghost (a, b, c) = (texts(names@), types@, text::table(paths@));
            names.push(found[i].0.clone());
            assert(texts(names@) =~= a.push(found@[i as int].0@));
            types.push(found[i].1);
            let mut path: Vec<String> = Vec::new();
            path.push(found[i].0.clone());
            assert(texts(path@) =~= seq![found@[i as int].0@]);
            paths.push(path);
            assert(text::table(paths@) =~= c.push(texts(path@)));
            assert(texts(names@) =~= start.names.take(i + 1));
            assert(types@ =~= start.types.take(i + 1));
            assert(text::table(paths@) =~= start.paths.take(i + 1));
            i += 1;
        }
        proof {
            assert(start.names.take(i as int) =~= start.names);
            assert(start.types.take(i as int) =~= start.types);
            assert(start.paths.take(i as int) =~= start.paths);
            assert(text::table(self.paths@).len() == self.paths@.len());
        }
        let width: usize = self.names.len();
        i = 0;
        while i < width
            invariant
                *self == *old(self),
                self.wf(),
                self.source == Source::Json,
                width == self.names@.len(),
                was == self.all_columns(),
                was.paths.len() == width,
                i <= width,
                start == found_columns(found@),
                self.names@.len() + found@.len() < usize::MAX - 2,
                names@.len() <= found@.len() + i,
                names@.len() == types@.len() == paths@.len(),
                (Columns { names: texts(names@), types: types@, paths: text::table(paths@) })
                    == start.regrown(was, i as nat),
            decreases width - i,
        {
            let ghost before = Columns { names: texts(names@), types: types@, paths: text::table(paths@) };
            let path = &self.paths[i];
            assert(was.paths[i as int] == texts(path@));
            if path.len() > 1 {
                assert(texts(path@)[0] == path@[0]@);
                if has_name(&names, path[0].as_str()) {
                    let name = unique_name(&names, text::join(path, "."));
                    proof {
                        lemma_unique(name@, before.names, text::join_text(texts(path@), "."@));
                    }
                    names.push(name);
                    types.push(self.types[i]);
                    let again = copy_texts(path);
                    paths.push(again);
                    assert(texts(names@) =~= before.names.push(name@));
                    assert(types@ =~= before.types.push(was.types[i as int]));
                    assert(text::table(paths@) =~= before.paths.push(texts(again@)));
                }
            }
            i += 1;
        }
        let select: Option<Vec<usize>> = match &self.view.select {
            None => None,
            Some(chosen) => {
                let mut out: Vec<usize> = Vec::new();
                let mut k: usize = 0;
                assert(chosen@.take(0) =~= Seq::empty());
                assert(out@ =~= Seq::empty());
                while k < chosen.len()
                    invariant
                        k <= chosen.len(),
                        out@ == renumbered(chosen@.take(k as int), texts(self.names@), texts(names@)),
                    decreases chosen.len() - k,
                {
                    assert(chosen@.take(k + 1).drop_last() =~= chosen@.take(k as int));
                    let c = chosen[k];
                    if c < self.names.len() {
                        assert(texts(self.names@)[c as int] == self.names@[c as int]@);
                        if let Some(at) = find_name(&names, self.names[c].as_str()) {
                            out.push(at);
                        }
                    }
                    k += 1;
                }
                assert(chosen@.take(k as int) =~= chosen@);
                if out.is_empty() {
                    None
                } else {
                    Some(out)
                }
            },
        };
        let sort = keys_again(&self.view.sort, &self.names, &names);
        let mut filter: Option<Filter> = None;
        let mut whole = true;
        if let Some(before) = self.view.filter.take() {
            let count: usize = before.conditions.len();
            let conditions = conditions_again(before.conditions, &self.names, &names);
            whole = conditions.len() == count;
            if conditions.len() > 0 {
                filter = Some(Filter { conditions });
            }
        }
        self.view = TableView { select, filter, sort };
        if !whole {
            self.filter_rows = None;
        }
        self.names = names;
        self.types = types;
        self.paths = paths;
        self.total_rows = rows;
        // The held sort describes the file as it was before the write.
        self.sorted = None;
        let last: usize = self.row_count().saturating_sub(1);
        if self.row_offset >= last {
            self.row_offset = last;
        }
    }
}

} // verus!
