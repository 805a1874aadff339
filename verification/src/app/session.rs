//! The state of the program, and what it is as plain mathematics.
use vstd::prelude::*;
use std::collections::{BTreeMap, BTreeSet};
use crate::app::editing::{Reading, MAX_BLOCK};
use crate::app::keys::{EditStart, FillMode};
use crate::complete::Completion;
use crate::data::store::{Held, Store};
use crate::lake::{Lake, Scope};
use crate::picker::{Choice, Picker};
use crate::search::{SearchState, SearchStatus};
use crate::text::{table, texts};

verus! {

/// What the keys go to.
#[derive(Clone, Copy, Debug, PartialEq, Eq, Structural)]
pub enum Mode {
    Normal,
    Search,
    /// Typing a new value for one cell. What is typed goes into the edit
    /// buffer, never straight to disk.
    Edit,
    /// Typing a command after a colon.
    Command,
    /// The column picker is up. It holds a working copy of what it edits, so
    /// the table underneath is untouched until it is applied.
    Picker,
}

/// What the cursor selects.
#[derive(Clone, Copy, Debug, PartialEq, Eq, Structural)]
pub enum SelectionMode {
    Row,
    Column,
    Cell,
}

impl SelectionMode {
    pub open spec fn next(self) -> SelectionMode {
        match self {
            SelectionMode::Row => SelectionMode::Column,
            SelectionMode::Column => SelectionMode::Cell,
            SelectionMode::Cell => SelectionMode::Row,
        }
    }

    /// Row, column, cell, and row again.
    pub fn cycle(self) -> (m: SelectionMode)
        ensures
            m == self.next(),
    {
        match self {
            SelectionMode::Row => SelectionMode::Column,
            SelectionMode::Column => SelectionMode::Cell,
            SelectionMode::Cell => SelectionMode::Row,
        }
    }
}

/// Which screen is in front: the lake catalog browser, or the data viewer.
#[derive(Clone, Copy, Debug, PartialEq, Eq, Structural)]
pub enum Screen {
    Browser,
    Viewer,
}

/// A rectangle of cells by display position, its last row and column included.
#[derive(Clone, Copy, Debug, PartialEq, Eq, Structural)]
pub struct Block {
    pub top: usize,
    pub bottom: usize,
    pub left: usize,
    pub right: usize,
}

/// A pending operator over a selection.
#[derive(Clone, Copy, Debug, PartialEq, Eq, Structural)]
pub struct Fill {
    pub block: Block,
    pub mode: FillMode,
}

/// A display cell: row and column.
#[derive(Clone, Copy, Debug, PartialEq, Eq, Structural)]
pub struct Spot {
    pub row: usize,
    pub column: usize,
}

/// Why the layout is being asked whether the pinned columns leave room.
#[derive(Clone, Copy, Debug, PartialEq, Eq, Structural)]
pub enum PinCheck {
    /// A column was just pinned.
    Pinned(usize),
    /// Pins were taken over whole, and so many have been dropped since.
    Adopted(usize),
}

/// What is running in the background.
#[derive(Clone, Copy, Debug, PartialEq, Eq, Structural)]
pub struct Running {
    pub search: bool,
    pub sort: bool,
    pub filter: bool,
}

/// What only the drawing of the screen can tell.
#[derive(Clone, Copy, Debug, PartialEq, Eq, Structural)]
pub struct Drawn {
    /// The first column drawn when the last one stands at the right edge.
    pub max_col_offset: usize,
    /// How wide the cursor column is drawn.
    pub cursor_width: usize,
    /// How wide the widest value of the cursor column on screen is.
    pub widest: Option<usize>,
}

/// How much the machine lets be held.
#[derive(Clone, Copy, Debug, PartialEq, Eq, Structural)]
pub struct Limits {
    /// Cells of a sorted table.
    pub cells: usize,
    /// Rows that a filter matched.
    pub rows: usize,
}

/// What a key asks of the world outside.
#[derive(Debug)]
pub enum Task {
    Nothing,
    /// Look for the pattern that is now searched for, in the column of this name
    /// or in all of them.
    Search(Option<String>),
    /// Sort the table by the keys of the view.
    Sort,
    /// Look for the rows that the view's conditions keep.
    Filter,
    /// Read the text of a block, to go on with it.
    Read(Reading),
    /// Write the file, here or elsewhere, perhaps past the guard, and perhaps
    /// quit once it is written.
    Write { path: Option<String>, force: bool, quit: bool },
    /// Find the keys of the documents in a source column, to make columns of
    /// them.
    Expand(usize),
    /// List the partitions of a table, one of them selected.
    Partitions { table: usize, select: usize },
    /// Open a table, or a partition of it.
    Open(Scope),
    /// Read the catalog as of a snapshot.
    Travel { snapshot: i64, time: String },
}

pub struct App {
    pub store: Option<Store>,
    /// Present when a lake rather than a file is open.
    pub lake: Option<Lake>,
    /// The column picker, while it is up.
    pub picker: Option<Picker>,
    pub screen: Screen,
    pub mode: Mode,
    pub col_offset: usize,
    pub cursor_row: usize,
    /// The column cursor. Row mode does not move it.
    pub cursor_col: usize,
    /// Rows of the table on screen.
    pub last_vp: usize,
    /// The digits of a count being typed.
    pub pending_num: String,
    /// A multi-key prefix waiting for its second key.
    pub pending_prefix: Option<char>,
    pub message: Option<String>,
    pub exit: bool,
    pub selection_mode: SelectionMode,
    /// The cell being edited.
    pub edit_cell: Option<Spot>,
    /// When set, committing runs over a whole block rather than over
    /// `edit_cell` alone.
    pub edit_fill: Option<Fill>,
    /// Where a selection started.
    pub visual_anchor: Option<Spot>,
    /// The yank register: a block of cell text, rows outermost.
    pub register: Vec<Vec<String>>,
    pub edit_buf: String,
    /// Caret position in `edit_buf`, counted in characters.
    pub edit_cursor: usize,
    pub command_buf: String,
    /// Candidates from the last completion on the command line, and which of
    /// them is currently applied.
    pub completion: Option<Completion>,
    pub completion_index: Option<usize>,
    pub search_buf: String,
    pub search_state: Option<SearchState>,
    pub running: Running,
    /// The key-binding overlay is showing.
    pub help_visible: bool,
    /// Number rows by distance from the cursor.
    pub relative_rows: bool,
    /// The cursor cell is being shown in full.
    pub cell_view: bool,
    /// Column widths set by hand, by source column.
    pub widths: BTreeMap<usize, usize>,
    /// Columns held at the left edge while the rest scroll past, by source
    /// column, so a pin follows its column when the view is reordered.
    pub pinned: BTreeSet<usize>,
    /// The page on screen is no longer what is to be shown.
    pub stale: bool,
    /// The cell under the cursor is to be edited once the page is there.
    pub opening: Option<EditStart>,
    /// The layout has been asked whether the pins fit.
    pub pin_check: Option<PinCheck>,
}

/// A search and its matches so far.
#[verifier::ext_equal]
pub struct Hunt {
    pub pattern: Seq<char>,
    pub column: Option<usize>,
    pub rows: Seq<usize>,
    pub current: usize,
    pub status: SearchStatus,
    pub jumped: bool,
}

/// What completion offers.
#[verifier::ext_equal]
pub struct Offer {
    pub head: Seq<char>,
    pub word: Seq<char>,
    pub options: Seq<Seq<char>>,
}

pub open spec fn hunt_of(state: Option<SearchState>) -> Option<Hunt> {
    match state {
        None => None,
        Some(s) => Some(
            Hunt {
                pattern: s.query.raw@,
                column: s.column,
                rows: s.matching_rows@,
                current: s.current_idx,
                status: s.status,
                jumped: s.initial_jump_done,
            },
        ),
    }
}

pub open spec fn offer_of(completion: Option<Completion>) -> Option<Offer> {
    match completion {
        None => None,
        Some(c) => Some(Offer { head: c.head@, word: c.word@, options: texts(c.options@) }),
    }
}

pub open spec fn said(message: Option<String>) -> Option<Seq<char>> {
    match message {
        Some(text) => Some(text@),
        None => None,
    }
}

/// The state of the program as plain mathematics.
#[verifier::ext_equal]
pub struct Session {
    pub store: Option<Held>,
    pub lake: Option<Lake>,
    pub picker: Option<Choice>,
    pub screen: Screen,
    pub mode: Mode,
    pub col_offset: usize,
    pub cursor_row: usize,
    pub cursor_col: usize,
    pub last_vp: usize,
    pub pending_num: Seq<char>,
    pub pending_prefix: Option<char>,
    pub message: Option<Seq<char>>,
    pub exit: bool,
    pub selection_mode: SelectionMode,
    pub edit_cell: Option<Spot>,
    pub edit_fill: Option<Fill>,
    pub visual_anchor: Option<Spot>,
    pub register: Seq<Seq<Seq<char>>>,
    pub edit_buf: Seq<char>,
    pub edit_cursor: usize,
    pub command_buf: Seq<char>,
    pub completion: Option<Offer>,
    pub completion_index: Option<usize>,
    pub search_buf: Seq<char>,
    pub hunt: Option<Hunt>,
    pub running: Running,
    pub help_visible: bool,
    pub relative_rows: bool,
    pub cell_view: bool,
    pub widths: Map<usize, usize>,
    pub pinned: Set<usize>,
    pub stale: bool,
    pub opening: Option<EditStart>,
    pub pin_check: Option<PinCheck>,
}

impl View for App {
    type V = Session;

    open spec fn view(&self) -> Session {
        Session {
            store: match self.store {
                Some(store) => Some(store@),
                None => None,
            },
            lake: self.lake,
            picker: match self.picker {
                Some(picker) => Some(picker@),
                None => None,
            },
            screen: self.screen,
            mode: self.mode,
            col_offset: self.col_offset,
            cursor_row: self.cursor_row,
            cursor_col: self.cursor_col,
            last_vp: self.last_vp,
            pending_num: self.pending_num@,
            pending_prefix: self.pending_prefix,
            message: said(self.message),
            exit: self.exit,
            selection_mode: self.selection_mode,
            edit_cell: self.edit_cell,
            edit_fill: self.edit_fill,
            visual_anchor: self.visual_anchor,
            register: table(self.register@),
            edit_buf: self.edit_buf@,
            edit_cursor: self.edit_cursor,
            command_buf: self.command_buf@,
            completion: offer_of(self.completion),
            completion_index: self.completion_index,
            search_buf: self.search_buf@,
            hunt: hunt_of(self.search_state),
            running: self.running,
            help_visible: self.help_visible,
            relative_rows: self.relative_rows,
            cell_view: self.cell_view,
            widths: self.widths@,
            pinned: self.pinned@,
            stale: self.stale,
            opening: self.opening,
            pin_check: self.pin_check,
        }
    }
}

/// What is open is well formed.
#[verifier::opaque]
pub open spec fn sound(store: Option<Store>) -> bool {
    store matches Some(store) ==> store.wf()
}

impl App {
    pub open spec fn wf(self) -> bool {
        &&& sound(self.store)
        &&& self.picker matches Some(picker) ==> picker.wf()
        &&& self.search_state matches Some(state) ==> state.wf()
        &&& all_digits(self.pending_num@)
        &&& self.edit_cursor <= self.edit_buf@.len()
        &&& self.edit_fill matches Some(fill) ==> fill.block.wf() && fill.block.area() <= MAX_BLOCK
        &&& self.completion matches Some(c) ==> self.completion_index matches Some(i) ==> i
            < c.options@.len()
    }

    /// Nothing open yet.
    pub fn new() -> (a: App)
        ensures
            a.wf(),
            a@ == Session::fresh(),
    {
        let a = App {
            store: None,
            lake: None,
            picker: None,
            screen: Screen::Viewer,
            mode: Mode::Normal,
            col_offset: 0,
            cursor_row: 0,
            cursor_col: 0,
            last_vp: 20,
            pending_num: String::new(),
            pending_prefix: None,
            message: None,
            exit: false,
            selection_mode: SelectionMode::Row,
            edit_cell: None,
            edit_fill: None,
            visual_anchor: None,
            register: Vec::new(),
            edit_buf: String::new(),
            edit_cursor: 0,
            command_buf: String::new(),
            completion: None,
            completion_index: None,
            search_buf: String::new(),
            search_state: None,
            running: Running { search: false, sort: false, filter: false },
            help_visible: false,
            relative_rows: true,
            cell_view: false,
            widths: BTreeMap::new(),
            pinned: BTreeSet::new(),
            stale: false,
            opening: None,
            pin_check: None,
        };
        proof {
            reveal(sound);
        }
        assert(table(a.register@) =~= Seq::empty());
        assert(a@ =~= Session::fresh());
        a
    }
}

/// A run of digits, perhaps none.
pub open spec fn all_digits(text: Seq<char>) -> bool {
    forall|i: int| 0 <= i < text.len() ==> '0' <= #[trigger] text[i] <= '9'
}

impl Block {
    pub open spec fn wf(self) -> bool {
        self.top <= self.bottom && self.left <= self.right
    }
}

impl Session {
    pub open spec fn fresh() -> Session {
        Session {
            store: None,
            lake: None,
            picker: None,
            screen: Screen::Viewer,
            mode: Mode::Normal,
            col_offset: 0,
            cursor_row: 0,
            cursor_col: 0,
            last_vp: 20,
            pending_num: Seq::empty(),
            pending_prefix: None,
            message: None,
            exit: false,
            selection_mode: SelectionMode::Row,
            edit_cell: None,
            edit_fill: None,
            visual_anchor: None,
            register: Seq::empty(),
            edit_buf: Seq::empty(),
            edit_cursor: 0,
            command_buf: Seq::empty(),
            completion: None,
            completion_index: None,
            search_buf: Seq::empty(),
            hunt: None,
            running: Running { search: false, sort: false, filter: false },
            help_visible: false,
            relative_rows: true,
            cell_view: false,
            widths: Map::empty(),
            pinned: Set::empty(),
            stale: false,
            opening: None,
            pin_check: None,
        }
    }

    /// The count being typed is dropped.
    pub open spec fn uncounted(self) -> Session {
        Session { pending_num: Seq::empty(), ..self }
    }

    pub open spec fn say(self, text: Seq<char>) -> Session {
        Session { message: Some(text), ..self }
    }

    /// The search is over and its matches are gone.
    pub open spec fn unsearched(self) -> Session {
        Session { hunt: None, running: Running { search: false, ..self.running }, ..self }
    }

    /// Rows on show, or 0 with nothing open.
    pub open spec fn rows(self) -> usize {
        match self.store {
            Some(h) => h.count(),
            None => 0,
        }
    }

    /// Columns on show, or 0 with nothing open.
    pub open spec fn width(self) -> nat {
        match self.store {
            Some(h) => h.columns().len(),
            None => 0,
        }
    }

    /// The last row on show, or 0 where there is none.
    pub open spec fn last_row(self) -> usize {
        if self.rows() == 0 {
            0
        } else {
            (self.rows() - 1) as usize
        }
    }

    /// The last column on show, or 0 where there is none.
    pub open spec fn last_column(self) -> usize {
        if self.width() == 0 {
            0
        } else {
            (self.width() - 1) as usize
        }
    }
}

} // verus!
