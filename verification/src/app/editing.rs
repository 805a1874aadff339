//! Typing into cells, and operators over blocks of them.
use vstd::prelude::*;
use crate::app::keys::{EditStart, FillMode, Key};
use crate::app::motion::{least, less};
use crate::app::session::{sound, App, Block, Fill, Mode, SelectionMode, Session, Spot};
use crate::app::values::{fits, kind_name, reads_as, type_label};
use crate::data::edit::{
    at_most_max, cell_steps, edit_text, takes_out, undo_takes_back_a_change, Buffer, Cell, Step,
};
use crate::data::store::{mapped, page_of, page_text, rows_at, Held};
use crate::text;
use crate::text::{decimal_text, table, texts};

verus! {

/// A block operator holds a value per cell, and a column-mode selection covers
/// every row in the file. Past this many cells it is refused rather than
/// attempted.
pub const MAX_BLOCK: usize = 100000;

impl FillMode {
    pub open spec fn verb_text(self) -> Seq<char> {
        match self {
            FillMode::Replace => "fill"@,
            FillMode::Prepend => "prepend to"@,
            FillMode::Append => "append to"@,
        }
    }

    pub open spec fn combined(self, typed: Seq<char>, current: Seq<char>) -> Seq<char> {
        match self {
            FillMode::Replace => typed,
            FillMode::Prepend => typed + current,
            FillMode::Append => current + typed,
        }
    }

    /// How the prompt describes what is about to happen.
    pub fn verb(self) -> (s: &'static str)
        ensures
            s@ == self.verb_text(),
    {
        match self {
            FillMode::Replace => "fill",
            FillMode::Prepend => "prepend to",
            FillMode::Append => "append to",
        }
    }

    pub fn combine(self, typed: &str, current: &str) -> (out: String)
        ensures
            out@ == self.combined(typed@, current@),
    {
        match self {
            FillMode::Replace => typed.to_owned(),
            FillMode::Prepend => text::joined(typed, current),
            FillMode::Append => text::joined(current, typed),
        }
    }
}

impl Block {
    pub open spec fn height(self) -> int {
        self.bottom - self.top + 1
    }

    pub open spec fn breadth(self) -> int {
        self.right - self.left + 1
    }

    /// How many cells there are.
    #[verifier::opaque]
    pub open spec fn area(self) -> int {
        self.height() * self.breadth()
    }

    /// The cells, row by row.
    pub open spec fn cell(self, i: int) -> Cell {
        ((self.top + i / self.breadth()) as usize, (self.left + i % self.breadth()) as usize)
    }

    /// How many cells there are, as far as that can be counted.
    pub fn size(self) -> (n: usize)
        requires
            self.wf(),
        ensures
            n == at_most_max(self.area() as nat),
    {
        proof {
            reveal(Block::area);
            assert(self.area() >= 0) by (nonlinear_arith)
                requires
                    self.height() >= 1,
                    self.breadth() >= 1,
                    self.area() == self.height() * self.breadth(),
            ;
        }
        let tall: usize = self.bottom - self.top;
        let wide: usize = self.right - self.left;
        if tall == usize::MAX || wide == usize::MAX {
            proof {
                let (h, b) = (self.height(), self.breadth());
                assert(h * b > usize::MAX) by (nonlinear_arith)
                    requires
                        h >= 1,
                        b >= 1,
                        h > usize::MAX || b > usize::MAX,
                ;
            }
            return usize::MAX;
        }
        match (tall + 1).checked_mul(wide + 1) {
            Some(n) => n,
            None => usize::MAX,
        }
    }
}

/// A value for every cell of a block.
pub open spec fn block_edits(block: Block, values: spec_fn(int) -> Seq<char>) -> Seq<(Cell, Seq<char>)> {
    Seq::new(block.area() as nat, |i: int| (block.cell(i), values(i)))
}

/// What a block reads in one cell of it, counted within the block. What was not
/// read is empty.
pub open spec fn read_at(cells: Seq<Seq<Seq<char>>>, row: int, column: int) -> Seq<char> {
    if row < cells.len() && column < cells[row].len() {
        cells[row][column]
    } else {
        Seq::empty()
    }
}

/// The edits that put a row of texts into the grid, those past the edge left
/// out.
pub open spec fn row_edits(
    cells: Seq<Seq<char>>,
    row: int,
    column: int,
    last_row: int,
    last_column: int,
) -> Seq<(Cell, Seq<char>)>
    decreases cells.len(),
{
    if cells.len() == 0 {
        Seq::empty()
    } else {
        let before = row_edits(cells.drop_last(), row, column, last_row, last_column);
        let at = column + cells.len() - 1;
        if row > last_row || at > last_column {
            before
        } else {
            before.push(((row as usize, at as usize), cells.last()))
        }
    }
}

/// The edits that put a block of texts into the grid.
pub open spec fn pasted_edits(
    block: Seq<Seq<Seq<char>>>,
    row: int,
    column: int,
    last_row: int,
    last_column: int,
) -> Seq<(Cell, Seq<char>)>
    decreases block.len(),
{
    if block.len() == 0 {
        Seq::empty()
    } else {
        pasted_edits(block.drop_last(), row, column, last_row, last_column) + row_edits(
            block.last(),
            row + block.len() - 1,
            column,
            last_row,
            last_column,
        )
    }
}

/// How many texts a block holds.
pub open spec fn cell_total(block: Seq<Seq<Seq<char>>>) -> nat
    decreases block.len(),
{
    if block.len() == 0 {
        0
    } else {
        cell_total(block.drop_last()) + block.last().len()
    }
}

impl Held {
    /// Why a text does not read back as its column's type, if it does not.
    pub open spec fn warning(self, column: usize, value: Seq<char>) -> Option<Seq<char>> {
        match self.column(column) {
            None => None,
            Some((name, kind)) => if fits(kind, value) {
                None
            } else {
                Some(
                    "\""@ + value + "\" is not "@ + kind_name(kind) + " \u{2014} column \""@ + name
                        + "\" becomes text"@,
                )
            },
        }
    }

    /// The first word of warning that some edits give rise to.
    pub open spec fn first_warning(self, edits: Seq<(Cell, Seq<char>)>, from: int) -> Option<Seq<char>>
        decreases edits.len() - from,
    {
        if from < 0 || from >= edits.len() {
            None
        } else {
            match self.warning((edits[from].0).1, edits[from].1) {
                Some(text) => Some(text),
                None => self.first_warning(edits, from + 1),
            }
        }
    }
}

impl Session {
    /// Why an edit cannot start, if it cannot.
    pub open spec fn edit_refusal(self) -> Option<Seq<char>> {
        match self.store {
            None => Some("no file open"@),
            Some(h) => h.edit_refusal(),
        }
    }

    pub open spec fn row_refusal(self) -> Option<Seq<char>> {
        match self.store {
            None => Some("no file open"@),
            Some(h) => h.delete_refusal(),
        }
    }

    /// Ready for an edit, or a word on why not. An edit needs a column cursor,
    /// so row mode adopts one, the leftmost column in view, unless whole rows
    /// are being selected.
    pub open spec fn readied(self) -> Session {
        match self.edit_refusal() {
            Some(why) => self.say(why),
            None => if self.selection_mode == SelectionMode::Row && self.visual_anchor is None {
                Session { selection_mode: SelectionMode::Cell, cursor_col: self.col_offset, ..self }
            } else {
                self
            },
        }
    }

    /// The cell under the cursor opened for editing.
    pub open spec fn editing(self, start: EditStart) -> Session {
        let s = self.uncounted().readied();
        if self.edit_refusal() is Some {
            s
        } else {
            match s.store->Some_0.cell(s.cursor_row, s.cursor_col) {
                None => s,
                Some(current) => {
                    let text = if start == EditStart::Empty { Seq::empty() } else { current };
                    Session {
                        edit_buf: text,
                        edit_cursor: if start == EditStart::Front { 0 } else { text.len() as usize },
                        edit_cell: Some(Spot { row: s.cursor_row, column: s.cursor_col }),
                        mode: Mode::Edit,
                        ..s
                    }
                },
            }
        }
    }

    /// Cells edited as one undoable change.
    pub open spec fn edited(self, edits: Seq<(Cell, Seq<char>)>) -> Session {
        match self.store {
            Some(h) => Session { store: Some(h.edited(edits)), stale: true, ..self },
            None => self,
        }
    }

    /// The cell under the cursor emptied without opening the editor.
    pub open spec fn cell_cleared(self) -> Session {
        let s = self.uncounted().readied();
        if self.edit_refusal() is Some {
            s
        } else {
            s.edited(seq![((s.cursor_row, s.cursor_col), Seq::empty())])
        }
    }

    /// A block from a spot to the cursor. Its shape follows the selection mode:
    /// whole rows, whole columns, or a rectangle.
    pub open spec fn block_from(self, anchor: Spot) -> Option<Block> {
        match self.store {
            None => None,
            Some(h) => {
                let (r, c) = (self.cursor_row, self.cursor_col);
                let (top, bottom) = if anchor.row < r { (anchor.row, r) } else { (r, anchor.row) };
                let (left, right) = if anchor.column < c { (anchor.column, c) } else { (c, anchor.column) };
                Some(
                    match self.selection_mode {
                        SelectionMode::Row => Block { top, bottom, left: 0, right: self.last_column() },
                        SelectionMode::Column => Block { top: 0, bottom: self.last_row(), left, right },
                        SelectionMode::Cell => Block { top, bottom, left, right },
                    },
                )
            },
        }
    }

    /// The block being selected.
    pub open spec fn selection(self) -> Option<Block> {
        match self.visual_anchor {
            Some(anchor) => self.block_from(anchor),
            None => None,
        }
    }

    /// The block an operator acts on with no selection: the cursor, shaped as a
    /// selection of one would be.
    pub open spec fn cursor_block(self) -> Option<Block> {
        self.block_from(Spot { row: self.cursor_row, column: self.cursor_col })
    }

    pub open spec fn too_many(self, block: Block) -> Session {
        self.say(
            decimal_text(at_most_max(block.area() as nat) as nat)
                + " cells is too many to handle at once (limit 100000)"@,
        )
    }

    /// The selected block that an operator can run on, if there is one.
    pub open spec fn operable(self) -> Option<Block> {
        if self.edit_refusal() is Some {
            None
        } else {
            match self.readied().selection() {
                None => None,
                Some(block) => if block.area() > MAX_BLOCK {
                    None
                } else {
                    Some(block)
                },
            }
        }
    }

    /// What asking for that block comes to by itself.
    pub open spec fn operating(self) -> Session {
        let s = self.uncounted().readied();
        if self.edit_refusal() is Some {
            s
        } else {
            match s.selection() {
                None => s,
                Some(block) => if block.area() > MAX_BLOCK {
                    s.too_many(block)
                } else {
                    s
                },
            }
        }
    }

    /// A value typed once for every cell of the selection.
    pub open spec fn filling(self, mode: FillMode) -> Session {
        let s = self.operating();
        match self.operable() {
            None => s,
            Some(block) => Session {
                edit_buf: Seq::empty(),
                edit_cursor: 0,
                edit_cell: Some(Spot { row: s.cursor_row, column: s.cursor_col }),
                edit_fill: Some(Fill { block, mode }),
                mode: Mode::Edit,
                ..s
            },
        }
    }

    /// Every cell of the selection emptied, as one undoable change.
    pub open spec fn selection_cleared(self) -> Session {
        let s = self.operating();
        match self.operable() {
            None => s,
            Some(block) => (Session {
                visual_anchor: None,
                ..s.edited(block_edits(block, |i: int| Seq::empty()))
            }).say("cleared "@ + decimal_text(block.area() as nat) + " cells"@),
        }
    }

    /// The register written into the grid with its top left at the cursor.
    /// Overwrites rather than inserting, and what falls past the last row or
    /// column is dropped.
    pub open spec fn pasted(self) -> Session {
        let s = self.uncounted();
        if self.register.len() == 0 {
            s.say("nothing to paste"@)
        } else if self.edit_refusal() is Some {
            s.readied()
        } else {
            let r = s.readied();
            let edits = pasted_edits(
                r.register,
                r.cursor_row as int,
                r.cursor_col as int,
                r.last_row() as int,
                r.last_column() as int,
            );
            let clipped = cell_total(r.register) - edits.len();
            let said = "pasted "@ + decimal_text(edits.len()) + " cells"@;
            (Session { visual_anchor: None, ..r.edited(edits) }).say(
                if clipped == 0 {
                    said
                } else {
                    said + ", "@ + decimal_text(clipped as nat) + " past the edge"@
                },
            )
        }
    }

    /// A block from outside written into the grid as the register would be. The
    /// register stays what it is.
    pub open spec fn block_pasted(self, block: Seq<Seq<Seq<char>>>) -> Session {
        Session { register: self.register, ..(Session { register: block, ..self }).pasted() }
    }

    pub open spec fn undone(self) -> Session {
        let s = self.uncounted();
        match s.store {
            None => s,
            Some(h) => if h.buffer.undo.len() == 0 {
                s.say("nothing to undo"@)
            } else {
                Session { store: Some(Held { buffer: h.buffer.undone(), ..h }), stale: true, ..s }
            },
        }
    }

    pub open spec fn redone(self) -> Session {
        let s = self.uncounted();
        match s.store {
            None => s,
            Some(h) => if h.buffer.redo.len() == 0 {
                s.say("nothing to redo"@)
            } else {
                Session { store: Some(Held { buffer: h.buffer.redone(), ..h }), stale: true, ..s }
            },
        }
    }

    /// The editor closed, whatever was in it.
    pub open spec fn edit_ended(self) -> Session {
        Session {
            mode: Mode::Normal,
            edit_cell: None,
            edit_fill: None,
            edit_buf: Seq::empty(),
            edit_cursor: 0,
            ..self
        }
    }

    /// Edits put into the buffer, with a word on what they did.
    pub open spec fn written(self, edits: Seq<(Cell, Seq<char>)>) -> Session {
        match self.store {
            None => self,
            Some(h) => Session {
                visual_anchor: None,
                message: match h.first_warning(edits, 0) {
                    Some(text) => Some(text),
                    None => if edits.len() > 1 {
                        Some("filled "@ + decimal_text(edits.len()) + " cells"@)
                    } else {
                        None
                    },
                },
                ..self.edited(edits)
            },
        }
    }

    /// What is in the editor put into the buffer. Retyping what was already
    /// there does not make the file dirty.
    pub open spec fn committed(self) -> Session {
        match (self.edit_cell, self.store) {
            (Some(spot), Some(h)) => match self.edit_fill {
                Some(fill) => if fill.mode == FillMode::Replace {
                    self.written(block_edits(fill.block, |i: int| self.edit_buf))
                } else {
                    self
                },
                None => if h.cell(spot.row, spot.column) == Some(self.edit_buf) {
                    self
                } else {
                    self.written(seq![((spot.row, spot.column), self.edit_buf)])
                },
            },
            _ => self,
        }
    }
}

/// A line being typed and its caret, after a key.
pub open spec fn line_after(text: Seq<char>, caret: usize, key: Key, ctrl: bool) -> (Seq<char>, usize) {
    match key {
        Key::Left => (text, less(caret as int, 1) as usize),
        Key::Right => (text, least(caret + 1, text.len() as int) as usize),
        Key::Home => (text, 0),
        Key::End => (text, text.len() as usize),
        Key::Backspace => if caret > 0 {
            (text.remove(caret - 1), (caret - 1) as usize)
        } else {
            (text, caret)
        },
        Key::Delete => if caret < text.len() {
            (text.remove(caret as int), caret)
        } else {
            (text, caret)
        },
        Key::Char(c) => if ctrl {
            (text, caret)
        } else {
            (text.insert(caret as int, c), (caret + 1) as usize)
        },
        _ => (text, caret),
    }
}

/// A line being typed and its caret, after a key.
fn line_key(text: &str, caret: usize, key: Key, ctrl: bool) -> (line: (String, usize))
    requires
        caret <= text@.len() < usize::MAX,
    ensures
        (line.0@, line.1) == line_after(text@, caret, key, ctrl),
        line.1 <= line.0@.len(),
{
    match key {
        Key::Left => (text.to_owned(), caret.saturating_sub(1)),
        Key::Right => {
            let n = text::length(text);
            (text.to_owned(), if caret < n { caret + 1 } else { n })
        },
        Key::Home => (text.to_owned(), 0),
        Key::End => (text.to_owned(), text::length(text)),
        Key::Backspace => if caret > 0 {
            (text::removed(text, caret - 1), caret - 1)
        } else {
            (text.to_owned(), caret)
        },
        Key::Delete => if caret < text::length(text) {
            (text::removed(text, caret), caret)
        } else {
            (text.to_owned(), caret)
        },
        Key::Char(c) => if ctrl {
            (text.to_owned(), caret)
        } else {
            (text::inserted(text, caret, c), caret + 1)
        },
        _ => (text.to_owned(), caret),
    }
}

/// What has to be read from the file before an operator can go on.
#[derive(Debug)]
pub enum Reading {
    Nothing,
    /// The text of a block, to put in the register.
    Yank(Block),
    /// The text of a block, to combine with what was typed.
    Fill(Fill, String),
}

impl App {
    pub(crate) fn say(&mut self, text: &str)
        requires
            old(self).wf(),
        ensures
            final(self).wf(),
            final(self)@ == old(self)@.say(text@),
    {
        self.message = Some(text.to_owned());
    }

    /// A number between two words.
    fn say_counted(&mut self, front: &str, n: usize, back: &str)
        requires
            old(self).wf(),
        ensures
            final(self).wf(),
            final(self)@ == old(self)@.say(front@ + decimal_text(n as nat) + back@),
    {
        let mut out = text::joined(front, text::decimal(n).as_str());
        text::push_str(&mut out, back);
        self.message = Some(out);
    }

    /// Whether an edit can start here, reporting why not when it cannot.
    fn ready_to_edit(&mut self) -> (ready: bool)
        requires
            old(self).wf(),
        ensures
            final(self).wf(),
            ready == old(self)@.edit_refusal() is None,
            final(self)@ == old(self)@.readied(),
    {
        let blocked: Option<&'static str> = match &self.store {
            None => Some("no file open"),
            Some(store) => store.edit_blocked(),
        };
        match blocked {
            Some(why) => {
                self.say(why);
                false
            },
            None => {
                let rows = match self.selection_mode {
                    SelectionMode::Row => true,
                    _ => false,
                };
                if rows && self.visual_anchor.is_none() {
                    self.selection_mode = SelectionMode::Cell;
                    self.cursor_col = self.col_offset;
                }
                true
            },
        }
    }

    /// Open the cell under the cursor.
    #[verifier::spinoff_prover]
    #[verifier::rlimit(60)]
    pub fn begin_edit(&mut self, start: EditStart)
        requires
            old(self).wf(),
        ensures
            final(self).wf(),
            final(self)@ == old(self)@.editing(start),
    {
        self.uncount();
        if !self.ready_to_edit() {
            return;
        }
        let spot = Spot { row: self.cursor_row, column: self.cursor_col };
        let current: Option<String> = match &self.store {
            Some(store) => store.cell_text(spot.row, spot.column),
            None => None,
        };
        match current {
            None => {},
            Some(current) => {
                let (text, caret): (String, usize) = match start {
                    EditStart::Empty => (String::new(), 0),
                    EditStart::Front => (current, 0),
                    EditStart::End => {
                        let n = text::chars(current.as_str()).len();
                        (current, n)
                    },
                };
                assert(start == EditStart::Empty ==> text@ =~= Seq::empty());
                self.edit_buf = text;
                self.edit_cursor = caret;
                self.edit_cell = Some(spot);
                self.mode = Mode::Edit;
            },
        }
        assert(self@ =~= old(self)@.editing(start));
    }

    /// Put edits into the store's buffer.
    fn edit_store(&mut self, edits: Vec<(Cell, String)>)
        requires
            old(self).wf(),
        ensures
            final(self).wf(),
            final(self)@ == old(self)@.edited(edit_text(edits@)),
    {
        proof {
            reveal(sound);
        }
        match &mut self.store {
            Some(store) => {
                store.edit(edits);
                self.stale = true;
            },
            None => {},
        }
        assert(self@ =~= old(self)@.edited(edit_text(edits@)));
    }

    /// Empty the cell under the cursor without opening the editor.
    pub fn clear_cell(&mut self)
        requires
            old(self).wf(),
        ensures
            final(self).wf(),
            final(self)@ == old(self)@.cell_cleared(),
    {
        self.uncount();
        if !self.ready_to_edit() {
            return;
        }
        let mut edits: Vec<(Cell, String)> = Vec::new();
        let empty = String::new();
        assert(empty@ =~= Seq::empty());
        edits.push(((self.cursor_row, self.cursor_col), empty));
        assert(edit_text(edits@) =~= seq![((self.cursor_row, self.cursor_col), Seq::empty())]);
        self.edit_store(edits);
    }

    /// A block from `anchor` to the cursor.
    fn block_from(&self, anchor: Spot) -> (block: Option<Block>)
        requires
            self.wf(),
        ensures
            block == self@.block_from(anchor),
            block matches Some(b) ==> b.wf(),
    {
        if self.store.is_none() {
            return None;
        }
        let (r, c) = (self.cursor_row, self.cursor_col);
        let (top, bottom): (usize, usize) = if anchor.row < r { (anchor.row, r) } else { (r, anchor.row) };
        let (left, right): (usize, usize) = if anchor.column < c {
            (anchor.column, c)
        } else {
            (c, anchor.column)
        };
        Some(
            match self.selection_mode {
                SelectionMode::Row => Block { top, bottom, left: 0, right: self.last_column() },
                SelectionMode::Column => Block {
                    top: 0,
                    bottom: self.row_total().saturating_sub(1),
                    left,
                    right,
                },
                SelectionMode::Cell => Block { top, bottom, left, right },
            },
        )
    }

    /// The selected block.
    pub fn visual_range(&self) -> (block: Option<Block>)
        requires
            self.wf(),
        ensures
            block == self@.selection(),
            block matches Some(b) ==> b.wf(),
    {
        match self.visual_anchor {
            Some(anchor) => self.block_from(anchor),
            None => None,
        }
    }

    /// Whether a block of this size is taken on, complaining if not.
    fn within_limit(&mut self, block: Block) -> (b: bool)
        requires
            old(self).wf(),
            block.wf(),
        ensures
            final(self).wf(),
            b == (block.area() <= MAX_BLOCK),
            final(self)@ == if b { old(self)@ } else { old(self)@.too_many(block) },
    {
        proof {
            lemma_breadth(block);
        }
        let size = block.size();
        if size > MAX_BLOCK {
            let mut out = text::decimal(size);
            text::push_str(&mut out, " cells is too many to handle at once (limit 100000)");
            self.message = Some(out);
            return false;
        }
        true
    }

    /// The selected block an editing operator is about to run on, once it is
    /// known to be one the edit buffer can hold.
    #[verifier::spinoff_prover]
    #[verifier::rlimit(60)]
    fn operable_range(&mut self) -> (block: Option<Block>)
        requires
            old(self).wf(),
        ensures
            final(self).wf(),
            block == old(self)@.operable(),
            block matches Some(b) ==> b.wf() && b.area() <= MAX_BLOCK,
            final(self)@ == old(self)@.operating(),
    {
        self.uncount();
        assert(self@.readied().selection() == old(self)@.readied().selection());
        if !self.ready_to_edit() {
            return None;
        }
        match self.visual_range() {
            None => None,
            Some(block) => if self.within_limit(block) {
                Some(block)
            } else {
                None
            },
        }
    }

    /// Type one value, apply it to every cell in the selection.
    pub fn begin_fill(&mut self, mode: FillMode)
        requires
            old(self).wf(),
        ensures
            final(self).wf(),
            final(self)@ == old(self)@.filling(mode),
    {
        if let Some(block) = self.operable_range() {
            self.edit_buf = String::new();
            assert(self.edit_buf@ =~= Seq::empty());
            self.edit_cursor = 0;
            self.edit_cell = Some(Spot { row: self.cursor_row, column: self.cursor_col });
            self.edit_fill = Some(Fill { block, mode });
            self.mode = Mode::Edit;
        }
        assert(self@ =~= old(self)@.filling(mode));
    }
}

/// One value for every cell of a block.
fn fill_edits(block: Block, value: &str) -> (edits: Vec<(Cell, String)>)
    requires
        block.wf(),
        block.area() <= MAX_BLOCK,
    ensures
        edit_text(edits@) == block_edits(block, |i: int| value@),
{
    let ghost all = block_edits(block, |i: int| value@);
    let size = block.size();
    proof {
        lemma_breadth(block);
    }
    let wide: usize = block.right - block.left + 1;
    let mut edits: Vec<(Cell, String)> = Vec::new();
    let mut i: usize = 0;
    while i < size
        invariant
            block.wf(),
            size == block.area(),
            wide == block.breadth(),
            i <= size,
            all == block_edits(block, |i: int| value@),
            edit_text(edits@) == all.take(i as int),
        decreases size - i,
    {
        proof {
            lemma_in_block(block, i as int);
        }
        let cell: Cell = (block.top + i / wide, block.left + i % wide);
        let ghost before = edits@;
        edits.push((cell, value.to_owned()));
        assert(edit_text(edits@) =~= edit_text(before).push((cell, value@)));
        assert(edit_text(edits@) =~= all.take(i + 1));
        i += 1;
    }
    assert(all.take(i as int) =~= all);
    edits
}

proof fn lemma_breadth(block: Block)
    requires
        block.wf(),
    ensures
        1 <= block.breadth() <= block.area(),
        1 <= block.height() <= block.area(),
{
    reveal(Block::area);
    let (h, b) = (block.height(), block.breadth());
    assert(b <= h * b && h <= h * b) by (nonlinear_arith)
        requires
            h >= 1,
            b >= 1,
    ;
}

proof fn lemma_in_block(block: Block, i: int)
    requires
        block.wf(),
        0 <= i < block.area(),
    ensures
        0 <= i / block.breadth() < block.height(),
        0 <= i % block.breadth() < block.breadth(),
{
    reveal(Block::area);
    let b = block.breadth();
    let h = block.height();
    assert(0 <= i / b && i / b < h && 0 <= i % b && i % b < b) by (nonlinear_arith)
        requires
            b >= 1,
            h >= 1,
            0 <= i < h * b,
    ;
}

/// The text of every cell of a block combined with what was typed.
fn combined_edits(fill: Fill, typed: &str, cells: &Vec<Vec<String>>) -> (edits: Vec<(Cell, String)>)
    requires
        fill.block.wf(),
        fill.block.area() <= MAX_BLOCK,
    ensures
        edit_text(edits@) == block_edits(
            fill.block,
            |i: int|
                fill.mode.combined(
                    typed@,
                    read_at(
                        table(cells@),
                        i / fill.block.breadth(),
                        i % fill.block.breadth(),
                    ),
                ),
        ),
{
    let block = fill.block;
    let ghost values = |i: int|
        fill.mode.combined(
            typed@,
            read_at(table(cells@), i / fill.block.breadth(), i % fill.block.breadth()),
        );
    let ghost all = block_edits(block, values);
    let size = block.size();
    proof {
        lemma_breadth(block);
    }
    let wide: usize = block.right - block.left + 1;
    let mut edits: Vec<(Cell, String)> = Vec::new();
    let mut i: usize = 0;
    while i < size
        invariant
            block == fill.block,
            block.wf(),
            size == block.area(),
            wide == block.breadth(),
            i <= size,
            values == (|i: int|
                fill.mode.combined(
                    typed@,
                    read_at(table(cells@), i / fill.block.breadth(), i % fill.block.breadth()),
                )),
            all == block_edits(block, values),
            edit_text(edits@) == all.take(i as int),
        decreases size - i,
    {
        proof {
            lemma_in_block(block, i as int);
        }
        let (down, across): (usize, usize) = (i / wide, i % wide);
        let cell: Cell = (block.top + down, block.left + across);
        let current: &str = if down < cells.len() && across < cells[down].len() {
            assert(table(cells@)[down as int][across as int] == cells@[down as int]@[across as int]@);
            cells[down][across].as_str()
        } else {
            ""
        };
        proof {
            reveal_strlit("");
            if !(down < cells@.len() && across < cells@[down as int]@.len()) {
                assert(current@ =~= Seq::empty());
            }
            assert(current@ == read_at(table(cells@), down as int, across as int));
        }
        let value = fill.mode.combine(typed, current);
        let ghost before = edits@;
        edits.push((cell, value));
        assert(edit_text(edits@) =~= edit_text(before).push((cell, value@)));
        assert(value@ == values(i as int));
        assert(edit_text(edits@) =~= all.take(i + 1));
        i += 1;
    }
    assert(all.take(i as int) =~= all);
    edits
}

impl Session {
    /// Rows struck out from a display position on, or a word on why not. What
    /// stands below moves up, and the cursor with it where it was past the end.
    pub open spec fn deletes(self, after: Session, first: usize, count: usize) -> bool {
        let s = self.uncounted();
        match self.row_refusal() {
            Some(why) => after == s.say(why),
            None => {
                let h = s.store->Some_0;
                let gone = h.rows_from(first, count);
                exists|buffer: Buffer|
                    {
                        &&& #[trigger] h.deletes(buffer, gone)
                        &&& after == (Session {
                            store: Some(Held { buffer, ..h }),
                            stale: true,
                            visual_anchor: None,
                            ..s
                        }).within_rows().say(
                            "deleted "@ + decimal_text(gone.len()) + (if gone.len() == 1 {
                                " row"@
                            } else {
                                " rows"@
                            }),
                        )
                    }
            },
        }
    }

    /// The cursor back on a row that is on show.
    pub open spec fn within_rows(self) -> Session {
        if self.cursor_row > self.last_row() {
            self.cursor_to(self.last_row() as int)
        } else {
            self
        }
    }

    /// A new row below or above, to be typed into once it is on screen, or a
    /// word on why not.
    pub open spec fn opens(self, after: Session, below: bool) -> bool {
        let s = self.uncounted();
        match self.row_refusal() {
            Some(why) => after == s.say(why),
            None => {
                let h = s.store->Some_0;
                if self.cursor_row == usize::MAX || h.total_rows == usize::MAX || h.buffer.next_id
                    >= usize::MAX {
                    after == s.say("no number left for another row"@)
                } else {
                    exists|buffer: Buffer|
                        {
                            &&& #[trigger] h.opens(buffer, self.cursor_row, below)
                            &&& after == s.opened(Held { buffer, ..h }, below)
                        }
                }
            },
        }
    }

    /// The cursor on a row just opened, in its first column.
    pub open spec fn opened(self, h: Held, below: bool) -> Session {
        let landed = if below && h.count() > 1 { self.cursor_row + 1 } else { self.cursor_row as int };
        (Session { visual_anchor: None, store: Some(h), ..self }).cursor_to(landed).in_first_column()
    }

    /// The first column, to be typed into once the page is there.
    pub open spec fn in_first_column(self) -> Session {
        Session {
            selection_mode: if self.selection_mode == SelectionMode::Row {
                SelectionMode::Cell
            } else {
                self.selection_mode
            },
            cursor_col: 0,
            col_offset: 0,
            opening: Some(EditStart::Empty),
            stale: true,
            ..self
        }
    }
}

impl Held {
    /// The rows from a display position on, so many as there are up to `count`.
    pub open spec fn rows_from(self, first: usize, count: usize) -> Seq<usize> {
        page_of(self.rows().take(self.count() as int), first as int, count as int)
    }

    /// Deleting these rows can leave this buffer: one undoable step, whatever
    /// the order of its parts.
    pub open spec fn deletes(self, buffer: Buffer, gone: Seq<usize>) -> bool {
        &&& buffer.pending == self.buffer.pending.deleted(gone.to_set(), self.total_rows)
        &&& exists|change: Seq<Step>| #[trigger]
            takes_out(change, self.buffer.pending, self.total_rows) && buffer == self.buffer.change(change)
    }

    /// Opening a row next to a display position can leave this buffer.
    pub open spec fn opens(self, buffer: Buffer, display: usize, below: bool) -> bool {
        let id = if self.buffer.next_id < self.total_rows {
            self.total_rows
        } else {
            self.buffer.next_id as usize
        };
        exists|before: usize, place: usize| #[trigger]
            self.opening(display, below, before, place) && buffer == (Buffer {
                next_id: id as nat + 1,
                ..self.buffer
            }).change(
                seq![Step::Added(before, self.buffer.pending.added_at(before).insert(place as int, id))],
            )
    }
}

proof fn lemma_rows_range(rows: Seq<usize>, positions: Seq<usize>, first: int, n: nat)
    requires
        0 <= first,
        first + n <= rows.len(),
        positions.len() == n,
        forall|i: int| 0 <= i < n ==> #[trigger] positions[i] == first + i,
    ensures
        rows_at(positions, rows) == rows.subrange(first, first + n),
    decreases n,
{
    if n == 0 {
        assert(rows_at(positions, rows) =~= rows.subrange(first, first + n));
    } else {
        lemma_rows_range(rows, positions.drop_last(), first, (n - 1) as nat);
        assert(positions.last() == first + n - 1);
        assert(rows_at(positions, rows) =~= rows.subrange(first, first + n));
    }
}

impl App {
    /// Empty every cell in the selection, as one undoable change.
    #[verifier::spinoff_prover]
    #[verifier::rlimit(60)]
    pub fn clear_selection(&mut self)
        requires
            old(self).wf(),
        ensures
            final(self).wf(),
            final(self)@ == old(self)@.selection_cleared(),
    {
        if let Some(block) = self.operable_range() {
            let ghost f = |i: int| Seq::<char>::empty();
            let edits = fill_edits(block, "");
            proof {
                reveal_strlit("");
                assert(""@ =~= Seq::empty());
                assert(block_edits(block, |i: int| ""@) =~= block_edits(block, f));
                lemma_breadth(block);
                assert(edit_text(edits@).len() == edits@.len());
            }
            let cleared = edits.len();
            self.edit_store(edits);
            self.visual_anchor = None;
            self.say_counted("cleared ", cleared, " cells");
        }
        assert(self@ =~= old(self)@.selection_cleared());
    }

    pub fn undo(&mut self)
        requires
            old(self).wf(),
        ensures
            final(self).wf(),
            final(self)@ == old(self)@.undone(),
    {
        self.uncount();
        proof {
            reveal(sound);
        }
        match &mut self.store {
            None => {},
            Some(store) => {
                let undone = store.undo();
                if undone {
                    self.stale = true;
                } else {
                    self.message = Some("nothing to undo".to_owned());
                }
            },
        }
        assert(self@ =~= old(self)@.undone());
    }

    pub fn redo(&mut self)
        requires
            old(self).wf(),
        ensures
            final(self).wf(),
            final(self)@ == old(self)@.redone(),
    {
        self.uncount();
        proof {
            reveal(sound);
        }
        match &mut self.store {
            None => {},
            Some(store) => {
                let redone = store.redo();
                if redone {
                    self.stale = true;
                } else {
                    self.message = Some("nothing to redo".to_owned());
                }
            },
        }
        assert(self@ =~= old(self)@.redone());
    }

    /// Strike out `count` rows from display position `first`.
    ///
    /// Nothing is removed from the file until it is written; until then the
    /// rows are simply not shown, and undo puts them back.
    #[verifier::spinoff_prover]
    #[verifier::rlimit(60)]
    pub fn delete_rows(&mut self, first: usize, count: usize)
        requires
            old(self).wf(),
        ensures
            final(self).wf(),
            old(self)@.deletes(final(self)@, first, count),
    {
        self.uncount();
        let ghost s = self@;
        if let Some(why) = self.row_blocked() {
            self.say(why);
            return;
        }
        let deleted = self.strike(first, count);
        self.visual_anchor = None;
        let ghost mid = self@;
        // Everything below has moved up; the cursor may now be past the end.
        let last = self.row_total().saturating_sub(1);
        if self.cursor_row > last {
            self.cursor_to(last);
        }
        assert(self@ == mid.within_rows());
        self.say_counted("deleted ", deleted, if deleted == 1 { " row" } else { " rows" });
        proof {
            let h = s.store->Some_0;
            let buffer = mid.store->Some_0.buffer;
            assert(h.deletes(buffer, h.rows_from(first, count)));
        }
    }

    /// Strike rows out of the store. Returns how many there were.
    #[verifier::spinoff_prover]
    #[verifier::rlimit(60)]
    fn strike(&mut self, first: usize, count: usize) -> (n: usize)
        requires
            old(self).wf(),
            old(self).store is Some,
        ensures
            final(self).wf(),
            ({
                let h = old(self)@.store->Some_0;
                let gone = h.rows_from(first, count);
                let buffer = final(self)@.store->Some_0.buffer;
                &&& n == gone.len()
                &&& h.deletes(buffer, gone)
                &&& final(self)@ == (Session {
                    store: Some(Held { buffer, ..h }),
                    stale: true,
                    ..old(self)@
                })
            }),
    {
        let total = self.row_total();
        let from: usize = if first < total { first } else { total };
        let n: usize = if count < total - from { count } else { total - from };
        let positions = numbers(from, n);
        proof {
            reveal(sound);
        }
        let ghost h = self@.store->Some_0;
        proof {
            lemma_rows_range(h.rows(), positions@, from as int, n as nat);
            assert(h.rows_from(first, count) =~= h.rows().subrange(from as int, from + n));
        }
        let ghost gone = rows_at(positions@, h.rows());
        self.stale = true;
        let mut struck: usize = 0;
        match &mut self.store {
            Some(store) => {
                struck = store.delete_rows(positions);
                assert(store@ =~= (Held { buffer: store@.buffer, ..h }));
                assert(h.deletes(store@.buffer, gone));
            },
            None => {},
        }
        assert(self@ =~= (Session {
            store: Some(Held { buffer: self@.store->Some_0.buffer, ..h }),
            stale: true,
            ..old(self)@
        }));
        struck
    }
}

/// So many numbers from one on.
fn numbers(from: usize, n: usize) -> (out: Vec<usize>)
    requires
        from + n <= usize::MAX,
    ensures
        out@.len() == n,
        forall|k: int| 0 <= k < n ==> #[trigger] out@[k] == from + k,
{
    let mut out: Vec<usize> = Vec::new();
    let mut i: usize = 0;
    while i < n
        invariant
            i <= n,
            from + n <= usize::MAX,
            out@.len() == i,
            forall|k: int| 0 <= k < i ==> #[trigger] out@[k] == from + k,
        decreases n - i,
    {
        out.push(from + i);
        i += 1;
    }
    out
}

impl Session {
    /// The editor after a key, as far as the key says what happens at once.
    /// Enter puts what was typed into the buffer; tab does so too and goes on to
    /// the next cell; escape drops it.
    pub open spec fn edit_key(self, key: Key, ctrl: bool) -> Session {
        match key {
            Key::Esc => self.edit_ended(),
            Key::Enter => self.committed().edit_ended(),
            Key::Tab => self.stepped(1),
            Key::BackTab => self.stepped(-1),
            _ => {
                let (text, caret) = line_after(self.edit_buf, self.edit_cursor, key, ctrl);
                Session { edit_buf: text, edit_cursor: caret, ..self }
            },
        }
    }

    /// The cell committed, and the one beside it to be opened once it is on
    /// screen, if there is one. A fill has no next cell to step to.
    pub open spec fn stepped(self, delta: int) -> Session {
        let done = self.committed().edit_ended();
        let next = self.cursor_col + delta;
        if self.edit_fill is Some || next < 0 || next > self.last_column() {
            done
        } else {
            Session { cursor_col: next as usize, opening: Some(EditStart::End), stale: true, ..done }
        }
    }

    /// What a commit needs read first: the block that a text is put in front of
    /// or behind.
    pub open spec fn fill_wanted(self) -> Option<Fill> {
        match (self.edit_cell, self.edit_fill, self.store) {
            (Some(_), Some(fill), Some(_)) => if fill.mode == FillMode::Replace {
                None
            } else {
                Some(fill)
            },
            _ => None,
        }
    }
}

impl App {
    /// Why a value will not read back as its column's type, if it will not.
    ///
    /// A warning and not a refusal: the file is text, the types are an inference
    /// over it, and the user may well mean it. But the column will come back as
    /// text next time, which is worth saying out loud.
    fn type_warning(&self, column: usize, value: &str) -> (why: Option<String>)
        requires
            self.wf(),
            self.store is Some,
        ensures
            match why {
                Some(text) => self@.store->Some_0.warning(column, value@) == Some(text@),
                None => self@.store->Some_0.warning(column, value@) is None,
            },
    {
        proof {
            reveal(sound);
        }
        match &self.store {
            None => None,
            Some(store) => match store.column_info(column) {
                None => None,
                Some((name, kind)) => if reads_as(kind, value) {
                    None
                } else {
                    let mut out = text::joined("\"", value);
                    text::push_str(&mut out, "\" is not ");
                    text::push_str(&mut out, type_label(kind));
                    text::push_str(&mut out, " \u{2014} column \"");
                    text::push_str(&mut out, name.as_str());
                    text::push_str(&mut out, "\" becomes text");
                    Some(out)
                },
            },
        }
    }

    /// Put edits into the buffer, with a word on what they did.
    #[verifier::spinoff_prover]
    #[verifier::rlimit(60)]
    fn write_edits(&mut self, edits: Vec<(Cell, String)>)
        requires
            old(self).wf(),
        ensures
            final(self).wf(),
            final(self)@ == old(self)@.written(edit_text(edits@)),
    {
        if self.store.is_none() {
            return;
        }
        let ghost h = self@.store->Some_0;
        let ghost all = edit_text(edits@);
        // Read the warning off the values actually about to be written, which
        // for text put in front or behind is the only place they exist.
        let mut warning: Option<String> = None;
        let mut i: usize = 0;
        while warning.is_none() && i < edits.len()
            invariant
                self.wf(),
                *self == *old(self),
                self.store is Some,
                h == self@.store->Some_0,
                all == edit_text(edits@),
                i <= edits.len(),
                match warning {
                    Some(text) => h.first_warning(all, 0) == Some(text@),
                    None => h.first_warning(all, i as int) == h.first_warning(all, 0),
                },
            decreases edits.len() - i,
        {
            assert(all[i as int] == (edits@[i as int].0, edits@[i as int].1@));
            warning = self.type_warning((edits[i].0).1, edits[i].1.as_str());
            i += 1;
        }
        let filled = edits.len();
        assert(all.len() == filled);
        self.edit_store(edits);
        self.visual_anchor = None;
        self.message = match warning {
            Some(text) => Some(text),
            None => if filled > 1 {
                let mut out = text::joined("filled ", text::decimal(filled).as_str());
                text::push_str(&mut out, " cells");
                Some(out)
            } else {
                None
            },
        };
        assert(self@ =~= old(self)@.written(all));
    }

    fn end_edit(&mut self)
        requires
            old(self).wf(),
        ensures
            final(self).wf(),
            final(self)@ == old(self)@.edit_ended(),
    {
        self.mode = Mode::Normal;
        self.edit_cell = None;
        self.edit_fill = None;
        self.edit_buf = String::new();
        assert(self.edit_buf@ =~= Seq::empty());
        self.edit_cursor = 0;
    }

    /// Put the typed value in the edit buffer. Nothing reaches the file until it
    /// is written.
    #[verifier::spinoff_prover]
    #[verifier::rlimit(60)]
    fn commit_edit(&mut self)
        requires
            old(self).wf(),
        ensures
            final(self).wf(),
            final(self)@ == old(self)@.committed(),
    {
        let spot = match self.edit_cell {
            Some(spot) => spot,
            None => {
                return;
            },
        };
        match self.edit_fill {
            Some(fill) => match fill.mode {
                // A fill writes every cell in the block, including any that
                // already hold the value: comparing first would mean reading
                // rows that are not on the page.
                FillMode::Replace => {
                    let edits = fill_edits(fill.block, self.edit_buf.as_str());
                    self.write_edits(edits);
                },
                _ => {},
            },
            None => {
                let current: Option<String> = match &self.store {
                    Some(store) => store.cell_text(spot.row, spot.column),
                    None => None,
                };
                let unchanged = match &current {
                    Some(current) => text::same(current.as_str(), self.edit_buf.as_str()),
                    None => false,
                };
                if !unchanged {
                    let mut edits: Vec<(Cell, String)> = Vec::new();
                    edits.push(((spot.row, spot.column), self.edit_buf.clone()));
                    assert(edit_text(edits@) =~= seq![((spot.row, spot.column), self.edit_buf@)]);
                    self.write_edits(edits);
                }
            },
        }
    }

    /// Commit the current cell and have the next one along opened.
    fn commit_and_step(&mut self, forward: bool)
        requires
            old(self).wf(),
        ensures
            final(self).wf(),
            final(self)@ == old(self)@.stepped(if forward { 1 } else { -1 }),
    {
        let next: Option<usize> = self.next_column(forward);
        self.commit_edit();
        self.end_edit();
        if let Some(column) = next {
            self.open_later(column);
        }
    }

    /// The column to step to, if there is one.
    fn next_column(&self, forward: bool) -> (column: Option<usize>)
        requires
            self.wf(),
        ensures
            ({
                let next = self.cursor_col + (if forward { 1int } else { -1 });
                column == if self.edit_fill is Some || next < 0 || next > self@.last_column() {
                    None
                } else {
                    Some(next as usize)
                }
            }),
    {
        let last = self.last_column();
        if self.edit_fill.is_some() {
            None
        } else if forward {
            if self.cursor_col < last {
                Some(self.cursor_col + 1)
            } else {
                None
            }
        } else if self.cursor_col > 0 && self.cursor_col - 1 <= last {
            Some(self.cursor_col - 1)
        } else {
            None
        }
    }

    /// A cell to be opened once the page is there.
    fn open_later(&mut self, column: usize)
        requires
            old(self).wf(),
        ensures
            final(self).wf(),
            final(self)@ == (Session {
                cursor_col: column,
                opening: Some(EditStart::End),
                stale: true,
                ..old(self)@
            }),
    {
        self.cursor_col = column;
        self.opening = Some(EditStart::End);
        self.stale = true;
    }

    fn fill_wanted(&self) -> (fill: Option<Fill>)
        ensures
            fill == self@.fill_wanted(),
    {
        if self.edit_cell.is_none() || self.store.is_none() {
            return None;
        }
        match self.edit_fill {
            Some(fill) => match fill.mode {
                FillMode::Replace => None,
                _ => Some(fill),
            },
            None => None,
        }
    }

    /// A key that changes the line being typed.
    fn edit_line(&mut self, key: Key, ctrl: bool)
        requires
            old(self).wf(),
            old(self).edit_buf@.len() < usize::MAX,
            !(key is Esc || key is Enter || key is Tab || key is BackTab),
        ensures
            final(self).wf(),
            final(self)@ == old(self)@.edit_key(key, ctrl),
    {
        let (text, caret) = line_key(self.edit_buf.as_str(), self.edit_cursor, key, ctrl);
        self.edit_buf = text;
        self.edit_cursor = caret;
    }

    /// A key while typing into a cell. Returns what has to be read before a text
    /// can be put in front of, or behind, what a block holds.
    pub fn handle_edit_key(&mut self, key: Key, ctrl: bool) -> (reading: Reading)
        requires
            old(self).wf(),
            old(self).edit_buf@.len() < usize::MAX,
        ensures
            final(self).wf(),
            final(self)@ == old(self)@.edit_key(key, ctrl),
            ({
                let commits = key == Key::Enter || key == Key::Tab || key == Key::BackTab;
                match reading {
                    Reading::Fill(fill, typed) => commits && old(self)@.fill_wanted() == Some(fill)
                        && typed@ == old(self)@.edit_buf,
                    Reading::Nothing => !commits || old(self)@.fill_wanted() is None,
                    Reading::Yank(_) => false,
                }
            }),
    {
        let reading = match key {
            Key::Enter | Key::Tab | Key::BackTab => match self.fill_wanted() {
                Some(fill) => Reading::Fill(fill, self.edit_buf.clone()),
                None => Reading::Nothing,
            },
            _ => Reading::Nothing,
        };
        match key {
            Key::Esc => self.end_edit(),
            Key::Enter => {
                self.commit_edit();
                self.end_edit();
            },
            // Commit and step sideways, so a row can be filled in without
            // leaving the editor between cells.
            Key::Tab => self.commit_and_step(true),
            Key::BackTab => self.commit_and_step(false),
            _ => self.edit_line(key, ctrl),
        }
        reading
    }

    /// The text of a block has been read, to be combined with what was typed.
    pub fn finish_fill(&mut self, fill: Fill, typed: &str, cells: &Vec<Vec<String>>)
        requires
            old(self).wf(),
            fill.block.wf(),
            fill.block.area() <= MAX_BLOCK,
        ensures
            final(self).wf(),
            final(self)@ == old(self)@.written(
                block_edits(
                    fill.block,
                    |i: int|
                        fill.mode.combined(
                            typed@,
                            read_at(
                                table(cells@),
                                i / fill.block.breadth(),
                                i % fill.block.breadth(),
                            ),
                        ),
                ),
            ),
    {
        let edits = combined_edits(fill, typed, cells);
        self.write_edits(edits);
    }
}

proof fn lemma_row_edits_len(
    cells: Seq<Seq<char>>,
    row: int,
    column: int,
    last_row: int,
    last_column: int,
)
    ensures
        row_edits(cells, row, column, last_row, last_column).len() <= cells.len(),
    decreases cells.len(),
{
    if cells.len() > 0 {
        lemma_row_edits_len(cells.drop_last(), row, column, last_row, last_column);
    }
}

proof fn lemma_pasted_len(
    block: Seq<Seq<Seq<char>>>,
    row: int,
    column: int,
    last_row: int,
    last_column: int,
)
    ensures
        pasted_edits(block, row, column, last_row, last_column).len() <= cell_total(block),
    decreases block.len(),
{
    if block.len() > 0 {
        lemma_pasted_len(block.drop_last(), row, column, last_row, last_column);
        lemma_row_edits_len(block.last(), row + block.len() - 1, column, last_row, last_column);
    }
}

/// A number as far as one is counted.
pub open spec fn counted_text(n: nat) -> Seq<char> {
    decimal_text(at_most_max(n) as nat)
}

/// The edits that put one row of texts into the grid, behind those so far.
/// Returns how many fell past the edge.
fn paste_row(
    edits: &mut Vec<(Cell, String)>,
    cells: &Vec<String>,
    row: Option<usize>,
    column: usize,
    last_column: usize,
    Ghost(at): Ghost<int>,
    Ghost(last_row): Ghost<int>,
) -> (clipped: usize)
    requires
        row matches Some(r) ==> r == at && at <= last_row,
        row is None ==> at > last_row,
    ensures
        edit_text(final(edits)@) == edit_text(old(edits)@) + row_edits(
            texts(cells@),
            at,
            column as int,
            last_row,
            last_column as int,
        ),
        clipped == cells@.len() - row_edits(
            texts(cells@),
            at,
            column as int,
            last_row,
            last_column as int,
        ).len(),
{
    let ghost all = texts(cells@);
    let ghost start = edit_text(edits@);
    let mut clipped: usize = 0;
    let mut i: usize = 0;
    assert(all.take(0) =~= Seq::empty());
    assert(start + row_edits(all.take(0), at, column as int, last_row, last_column as int) =~= start);
    while i < cells.len()
        invariant
            i <= cells.len(),
            clipped <= i,
            all == texts(cells@),
            row matches Some(r) ==> r == at && at <= last_row,
            row is None ==> at > last_row,
            edit_text(edits@) == start + row_edits(
                all.take(i as int),
                at,
                column as int,
                last_row,
                last_column as int,
            ),
            clipped == i - row_edits(
                all.take(i as int),
                at,
                column as int,
                last_row,
                last_column as int,
            ).len(),
        decreases cells.len() - i,
    {
        let ghost upto = all.take(i + 1);
        assert(upto.drop_last() =~= all.take(i as int));
        assert(upto.last() == cells@[i as int]@);
        let inside = column <= last_column && i <= last_column - column;
        match row {
            Some(r) => if inside {
                let ghost before = edit_text(edits@);
                edits.push(((r, column + i), cells[i].clone()));
                assert(edit_text(edits@) =~= before.push(((r, (column + i) as usize), upto.last())));
                assert(edit_text(edits@) =~= start + row_edits(
                    upto,
                    at,
                    column as int,
                    last_row,
                    last_column as int,
                ));
            } else {
                clipped += 1;
            },
            None => {
                clipped += 1;
            },
        }
        i += 1;
    }
    assert(all.take(i as int) =~= all);
    clipped
}

impl App {
    /// Write the register into the grid with its top left at the cursor.
    #[verifier::spinoff_prover]
    #[verifier::rlimit(60)]
    pub fn paste(&mut self)
        requires
            old(self).wf(),
            cell_total(old(self)@.register) <= usize::MAX,
        ensures
            final(self).wf(),
            final(self)@ == old(self)@.pasted(),
    {
        self.uncount();
        if self.register.is_empty() {
            self.say("nothing to paste");
            return;
        }
        assert(self@.register.len() > 0);
        if !self.ready_to_edit() {
            return;
        }
        let last_row = self.row_total().saturating_sub(1);
        let last_column = self.last_column();
        let (edits, clipped) = self.paste_edits(last_row, last_column);
        assert(edit_text(edits@).len() == edits@.len());
        let pasted = edits.len();
        self.edit_store(edits);
        self.visual_anchor = None;
        let mut out = text::joined("pasted ", text::decimal(pasted).as_str());
        text::push_str(&mut out, " cells");
        if clipped > 0 {
            text::push_str(&mut out, ", ");
            text::push_str(&mut out, text::decimal(clipped).as_str());
            text::push_str(&mut out, " past the edge");
        }
        self.message = Some(out);
    }

    /// Write a block that came from outside into the grid, with its top left at
    /// the cursor. What the register holds stays for `p`.
    pub fn paste_block(&mut self, block: Vec<Vec<String>>)
        requires
            old(self).wf(),
            cell_total(text::table(block@)) <= usize::MAX,
        ensures
            final(self).wf(),
            final(self)@ == old(self)@.block_pasted(text::table(block@)),
    {
        let mut held = block;
        std::mem::swap(&mut self.register, &mut held);
        assert(self@ =~= (Session { register: text::table(block@), ..old(self)@ }));
        self.paste();
        std::mem::swap(&mut self.register, &mut held);
    }

    fn paste_edits(&self, last_row: usize, last_column: usize) -> (out: (Vec<(Cell, String)>, usize))
        requires
            cell_total(self@.register) <= usize::MAX,
        ensures
            ({
                let edits = pasted_edits(
                    self@.register,
                    self.cursor_row as int,
                    self.cursor_col as int,
                    last_row as int,
                    last_column as int,
                );
                edit_text(out.0@) == edits && out.1 == cell_total(self@.register) - edits.len()
            }),
    {
        let ghost block = table(self.register@);
        let ghost (r, c) = (self.cursor_row as int, self.cursor_col as int);
        let ghost (lr, lc) = (last_row as int, last_column as int);
        let mut edits: Vec<(Cell, String)> = Vec::new();
        let mut clipped: usize = 0;
        let mut down: usize = 0;
        assert(block.take(0) =~= Seq::empty());
        assert(edit_text(edits@) =~= Seq::empty());
        while down < self.register.len()
            invariant
                down <= self.register.len(),
                block == table(self.register@),
                cell_total(block) <= usize::MAX,
                (r, c) == (self.cursor_row as int, self.cursor_col as int),
                (lr, lc) == (last_row as int, last_column as int),
                edit_text(edits@) == pasted_edits(block.take(down as int), r, c, lr, lc),
                clipped == cell_total(block.take(down as int)) - edit_text(edits@).len(),
            decreases self.register.len() - down,
        {
            let ghost upto = block.take(down + 1);
            proof {
                assert(upto.drop_last() =~= block.take(down as int));
                assert(upto.last() == texts(self.register@[down as int]@));
                lemma_total_front(block, down + 1);
                lemma_row_edits_len(upto.last(), r + down, c, lr, lc);
                lemma_pasted_len(block.take(down as int), r, c, lr, lc);
            }
            let row: Option<usize> = if self.cursor_row <= last_row && down <= last_row - self.cursor_row {
                Some(self.cursor_row + down)
            } else {
                None
            };
            let more = paste_row(
                &mut edits,
                &self.register[down],
                row,
                self.cursor_col,
                last_column,
                Ghost(r + down),
                Ghost(lr),
            );
            proof {
                lemma_pasted_len(upto, r, c, lr, lc);
            }
            clipped = clipped + more;
            down += 1;
        }
        assert(block.take(down as int) =~= block);
        (edits, clipped)
    }

    /// What to read for a yank: the selection, or the cursor shaped by the mode.
    /// Reading only, so it works on views that refuse edits.
    pub fn yank(&mut self) -> (reading: Reading)
        requires
            old(self).wf(),
        ensures
            final(self).wf(),
            ({
                let s = old(self)@.uncounted();
                let block = if s.visual_anchor is Some { s.selection() } else { s.cursor_block() };
                match block {
                    None => reading is Nothing && final(self)@ == s,
                    Some(b) => if b.area() > MAX_BLOCK {
                        reading is Nothing && final(self)@ == s.too_many(b)
                    } else {
                        reading == Reading::Yank(b) && final(self)@ == s && b.wf()
                    },
                }
            }),
    {
        self.uncount();
        let block = match self.visual_anchor {
            Some(anchor) => self.block_from(anchor),
            None => self.block_from(Spot { row: self.cursor_row, column: self.cursor_col }),
        };
        match block {
            None => Reading::Nothing,
            Some(block) => if self.within_limit(block) {
                Reading::Yank(block)
            } else {
                Reading::Nothing
            },
        }
    }

    /// The text of a block has been read for the register. The cursor goes back
    /// to where a selection began, so a paste can be aimed from a known place.
    pub fn finish_yank(&mut self, block: Block, cells: Vec<Vec<String>>)
        requires
            old(self).wf(),
            block.wf(),
        ensures
            final(self).wf(),
            final(self)@ == old(self)@.yanked(block, table(cells@)),
    {
        self.register = cells;
        let ghost s = self@;
        assert(s =~= (Session { register: table(cells@), ..old(self)@ }));
        if let Some(anchor) = self.visual_anchor {
            self.back_to(anchor);
        }
        self.say_counted("yanked ", block.size(), " cells");
    }

    /// The cursor back where a selection began, and the selection gone.
    fn back_to(&mut self, anchor: Spot)
        requires
            old(self).wf(),
        ensures
            final(self).wf(),
            final(self)@ == (Session {
                visual_anchor: None,
                cursor_col: anchor.column,
                ..old(self)@
            }).cursor_to(anchor.row as int),
    {
        self.visual_anchor = None;
        self.cursor_col = anchor.column;
        assert(self@ =~= (Session { visual_anchor: None, cursor_col: anchor.column, ..old(self)@ }));
        self.cursor_to(anchor.row);
    }

    /// The cursor on a row just opened, in its first column, ready to be typed
    /// into.
    #[verifier::spinoff_prover]
    #[verifier::rlimit(60)]
    fn onto_opened(&mut self, landed: usize)
        requires
            old(self).wf(),
        ensures
            final(self).wf(),
            final(self)@ == (Session { visual_anchor: None, ..old(self)@ }).cursor_to(
                landed as int,
            ).in_first_column(),
    {
        self.visual_anchor = None;
        assert(self@ =~= (Session { visual_anchor: None, ..old(self)@ }));
        self.cursor_to(landed);
        let ghost s = self@;
        // A row needs a column cursor to be typed into, the way a cell edit
        // does, and starts at the first column.
        match self.selection_mode {
            SelectionMode::Row => {
                self.selection_mode = SelectionMode::Cell;
            },
            _ => {},
        }
        self.cursor_col = 0;
        self.col_offset = 0;
        self.opening = Some(EditStart::Empty);
        self.stale = true;
        assert(self@ =~= s.in_first_column());
    }

    /// Why rows cannot be added or deleted, if they cannot.
    fn row_blocked(&self) -> (why: Option<&'static str>)
        ensures
            match why {
                Some(text) => self@.row_refusal() == Some(text@),
                None => self@.row_refusal() is None,
            },
    {
        match &self.store {
            None => Some("no file open"),
            Some(store) => store.delete_blocked(),
        }
    }

    /// Whether there is a number left for another row.
    fn has_number(&self) -> (b: bool)
        requires
            self.store is Some,
        ensures
            b == !(self.cursor_row == usize::MAX || self@.store->Some_0.total_rows == usize::MAX
                || self@.store->Some_0.buffer.next_id >= usize::MAX),
    {
        match &self.store {
            Some(store) => self.cursor_row < usize::MAX && store.can_add(),
            None => false,
        }
    }

    /// A new row below or above, ready to be typed into.
    #[verifier::spinoff_prover]
    #[verifier::rlimit(60)]
    pub fn open_row(&mut self, below: bool)
        requires
            old(self).wf(),
        ensures
            final(self).wf(),
            old(self)@.opens(final(self)@, below),
    {
        self.uncount();
        let ghost s = self@;
        if let Some(why) = self.row_blocked() {
            self.say(why);
            return;
        }
        if !self.has_number() {
            self.say("no number left for another row");
            return;
        }
        let landed = self.add_row(below);
        let ghost mid = self@;
        self.onto_opened(landed);
        proof {
            let h = s.store->Some_0;
            let buffer = mid.store->Some_0.buffer;
            assert(h.opens(buffer, s.cursor_row, below));
            assert(self@ == s.opened(Held { buffer, ..h }, below));
        }
    }

    #[verifier::spinoff_prover]
    #[verifier::rlimit(60)]
    fn add_row(&mut self, below: bool) -> (landed: usize)
        requires
            old(self).wf(),
            old(self).store is Some,
            old(self)@.row_refusal() is None,
            old(self)@.store->Some_0.total_rows < usize::MAX,
            old(self)@.store->Some_0.buffer.next_id < usize::MAX,
            old(self).cursor_row < usize::MAX,
        ensures
            final(self).wf(),
            ({
                let h = old(self)@.store->Some_0;
                let now = final(self)@.store->Some_0;
                &&& h.opens(now.buffer, old(self).cursor_row, below)
                &&& final(self)@ == (Session {
                    store: Some(Held { buffer: now.buffer, ..h }),
                    ..old(self)@
                })
                &&& landed == if below && now.count() > 1 {
                    (old(self).cursor_row + 1) as usize
                } else {
                    old(self).cursor_row
                }
            }),
    {
        proof {
            reveal(sound);
        }
        let at = self.cursor_row;
        let mut landed = at;
        let ghost h = self@.store->Some_0;
        match &mut self.store {
            Some(store) => {
                landed = store.add_row(at, below);
                assert(store@ =~= (Held { buffer: store@.buffer, ..h }));
                assert(h.opens(store@.buffer, at, below));
            },
            None => {},
        }
        assert(self@ =~= (Session {
            store: Some(Held { buffer: self@.store->Some_0.buffer, ..h }),
            ..old(self)@
        }));
        landed
    }

    /// The page to be shown has been read. A cell that was to be opened once it
    /// is on screen is opened.
    pub fn page_ready(&mut self, page: Vec<Vec<Option<String>>>)
        requires
            old(self).wf(),
        ensures
            final(self).wf(),
            final(self)@ == old(self)@.shown(page_text(page@)),
    {
        proof {
            reveal(sound);
        }
        self.stale = false;
        let ghost s = self@;
        match &mut self.store {
            Some(store) => {
                store.show(page);
            },
            None => {},
        }
        match self.opening {
            Some(start) => {
                self.opening = None;
                self.begin_edit(start);
            },
            None => {},
        }
    }
}

proof fn lemma_total_front(block: Seq<Seq<Seq<char>>>, k: int)
    requires
        0 <= k <= block.len(),
    ensures
        cell_total(block.take(k)) <= cell_total(block),
    decreases block.len() - k,
{
    if k < block.len() {
        assert(block.take(k + 1).drop_last() =~= block.take(k));
        lemma_total_front(block, k + 1);
    } else {
        assert(block.take(k) =~= block);
    }
}

impl Session {
    /// A block's text in the register.
    pub open spec fn yanked(self, block: Block, cells: Seq<Seq<Seq<char>>>) -> Session {
        let s = Session { register: cells, ..self };
        let back = match s.visual_anchor {
            Some(anchor) => (Session { visual_anchor: None, cursor_col: anchor.column, ..s }).cursor_to(
                anchor.row as int,
            ),
            None => s,
        };
        back.say("yanked "@ + counted_text(block.area() as nat) + " cells"@)
    }

    /// The page is on screen.
    pub open spec fn shown(self, page: Seq<Seq<Option<Seq<char>>>>) -> Session {
        let s = Session {
            store: match self.store {
                Some(h) => Some(Held { page, ..h }),
                None => None,
            },
            stale: false,
            opening: None,
            ..self
        };
        match self.opening {
            Some(start) => s.editing(start),
            None => s,
        }
    }
}

/// An edit is one step to undo however many cells it touched: what was pending
/// before it is pending again, with the history that was there.
pub proof fn one_undo_takes_back_an_edit(s: Session, edits: Seq<(Cell, Seq<char>)>)
    requires
        s.store matches Some(h) && h.buffer.pending.wf() && mapped(edits, h.rows(), h.columns()).len() > 0,
    ensures
        s.edited(edits).undone().store matches Some(now) && now.buffer.pending
            == s.store->Some_0.buffer.pending && now.buffer.undo == s.store->Some_0.buffer.undo,
{
    let h = s.store->Some_0;
    let change = cell_steps(mapped(edits, h.rows(), h.columns()));
    undo_takes_back_a_change(h.buffer, change);
}

} // verus!
