//! What one frame shows: how many rows there is room for, the prompt, and what
//! the status bar says.
use vstd::prelude::*;
use crate::app::motion::{less, viewport_rows};
use crate::app::session::{said, sound, App, Mode, Session};
use crate::data::edit::at_most_max;
use crate::data::store::Held;
use crate::search::SearchStatus;
use crate::text::{chars, decimal, decimal_text, push_str, texts};
use crate::ui::longest;

verus! {

/// A line being typed.
#[derive(Debug)]
pub struct Prompt {
    /// What stands in front of it.
    pub label: String,
    pub text: String,
    /// Where the caret is, in characters.
    pub caret: usize,
}

/// Where a search stands.
#[derive(Debug)]
pub struct Progress {
    pub pattern: String,
    /// Which match the cursor is at, counted from 1, or 0 without one.
    pub current: usize,
    pub total: usize,
    pub complete: bool,
}

/// What the status bar says.
#[derive(Debug)]
pub struct Status {
    pub row: usize,
    pub rows: usize,
    pub column: usize,
    pub columns: usize,
    pub message: Option<String>,
    /// Edits that are not written.
    pub dirty: usize,
    /// Rows and columns of a selection.
    pub selection: Option<(usize, usize)>,
    pub count: String,
    pub prefix: Option<char>,
    pub search: Option<Progress>,
    /// A filter is still scanning.
    pub filtering: bool,
    /// The view in words, where something shapes it, with a word on a filter
    /// that stopped short of every match.
    pub view: Option<String>,
    pub hint: &'static str,
}

/// How far a search is.
pub open spec fn is_progress(progress: Option<Progress>, app: App) -> bool {
    match (progress, app@.hunt) {
        (Some(p), Some(hunt)) => {
            &&& p.pattern@ == hunt.pattern
            &&& p.complete == (hunt.status == SearchStatus::Complete)
            &&& p.total == hunt.rows.len()
            &&& p.current == if hunt.rows.len() == 0 {
                0
            } else {
                hunt.current + 1
            }
        },
        (None, None) => true,
        _ => false,
    }
}

impl Session {
    /// Rows of the table that a screen has room for.
    pub open spec fn room(self, width: u16, height: u16) -> usize {
        less(height as int, 4 + self.panel(width, height)) as usize
    }

    /// The screen has this size. A table with room for another number of rows
    /// has to be read again.
    pub open spec fn sized(self, width: u16, height: u16) -> Session {
        let room = self.room(width, height);
        let sized = Session { last_vp: room, ..self };
        match self.store {
            Some(h) => if room != h.viewport_rows && room > 0 {
                Session { store: Some(Held { viewport_rows: room, ..h }), stale: true, ..sized }
            } else {
                sized
            },
            None => sized,
        }
    }

    /// The line being typed: what stands in front of it, what it holds, and
    /// where its caret is.
    pub open spec fn prompt(self) -> Option<(Seq<char>, Seq<char>, nat)> {
        match self.mode {
            Mode::Search => Some(("/"@, self.search_buf, self.search_buf.len())),
            Mode::Command => Some((":"@, self.command_buf, self.command_buf.len())),
            Mode::Edit => Some((self.edit_label(), self.edit_buf, self.edit_cursor as nat)),
            _ => None,
        }
    }

    /// The view in words. A filter that stopped short says that these are the
    /// first of its matches.
    pub open spec fn view_words(self) -> Option<Seq<char>> {
        match self.store {
            None => None,
            Some(h) => match h.shows().described(texts(h.names@)) {
                None => None,
                Some(words) => if h.matches matches Some(set) && set.truncated {
                    Some(words + "  (first "@ + decimal_text(self.rows() as nat) + ")"@)
                } else {
                    Some(words)
                },
            },
        }
    }

    /// The panel above the status bar shows the cell under the cursor, which a
    /// completion takes the place of.
    pub open spec fn cell_panel(self) -> Option<(Seq<char>, Seq<char>)> {
        if self.cell_view && self.completion is None {
            self.cursor_cell()
        } else {
            None
        }
    }
}

impl Status {
    /// These are what the status bar of a program says.
    pub open spec fn is_of(self, app: App) -> bool {
        let s = app@;
        &&& self.row == s.cursor_row
        &&& self.rows == s.rows()
        &&& self.column == s.named_column()
        &&& self.columns == s.width()
        &&& said(self.message) == s.message
        &&& self.dirty == s.dirty()
        &&& self.selection == match s.selection() {
            Some(b) => Some(
                (
                    at_most_max((b.bottom - b.top + 1) as nat),
                    at_most_max((b.right - b.left + 1) as nat),
                ),
            ),
            None => None,
        }
        &&& self.count@ == s.pending_num
        &&& self.prefix == s.pending_prefix
        &&& is_progress(self.search, app)
        &&& self.filtering == (s.store matches Some(h) && (h.matches matches Some(set) && !set.complete))
        &&& said(self.view) == s.view_words()
        &&& self.hint@ == s.hint()
    }
}

impl App {
    /// The screen has this size.
    pub fn frame_sized(&mut self, width: u16, height: u16)
        requires
            old(self).wf(),
            old(self).completion matches Some(c) ==> longest(texts(c.options@)) <= usize::MAX - 2,
        ensures
            final(self).wf(),
            final(self)@ == old(self)@.sized(width, height),
    {
        proof {
            reveal(sound);
        }
        let panel = self.panel_height(width, height);
        let room = viewport_rows(height, panel);
        let mut changed = false;
        if let Some(store) = &mut self.store {
            changed = store.resize(room);
        }
        self.last_vp = room;
        if changed {
            self.stale = true;
        }
        assert(self@ =~= old(self)@.sized(width, height));
    }

    /// The line being typed, if one is.
    pub fn prompt(&self) -> (out: Option<Prompt>)
        requires
            self.wf(),
        ensures
            match out {
                Some(p) => self@.prompt() == Some((p.label@, p.text@, p.caret as nat)),
                None => self@.prompt() is None,
            },
    {
        match self.mode {
            Mode::Search => Some(
                Prompt {
                    label: "/".to_owned(),
                    text: self.search_buf.clone(),
                    caret: chars(self.search_buf.as_str()).len(),
                },
            ),
            Mode::Command => Some(
                Prompt {
                    label: ":".to_owned(),
                    text: self.command_buf.clone(),
                    caret: chars(self.command_buf.as_str()).len(),
                },
            ),
            Mode::Edit => Some(
                Prompt {
                    label: self.edit_label(),
                    text: self.edit_buf.clone(),
                    caret: self.edit_cursor,
                },
            ),
            _ => None,
        }
    }

    fn progress(&self) -> (out: Option<Progress>)
        requires
            self.wf(),
        ensures
            is_progress(out, *self),
    {
        match &self.search_state {
            None => None,
            Some(state) => {
                assert(state.matching_rows.len() <= usize::MAX);
                let (current, total, complete) = state.match_info();
                Some(Progress { pattern: state.query.raw.clone(), current, total, complete })
            },
        }
    }

    fn view_in_words(&self) -> (out: Option<String>)
        requires
            self.wf(),
        ensures
            said(out) == self@.view_words(),
    {
        proof {
            reveal(sound);
        }
        match &self.store {
            None => None,
            Some(store) => {
                assert(store.view.shows() =~= store@.shows());
                match store.view.describe(store.names.as_slice()) {
                    None => None,
                    Some(words) => {
                        let mut out = words;
                        if store.filter_truncated() {
                            push_str(&mut out, "  (first ");
                            push_str(&mut out, decimal(self.row_total()).as_str());
                            push_str(&mut out, ")");
                        }
                        Some(out)
                    },
                }
            },
        }
    }

    /// What the status bar says.
    pub fn status(&self) -> (out: Status)
        requires
            self.wf(),
        ensures
            out.is_of(*self),
    {
        proof {
            reveal(sound);
        }
        let (columns, filtering): (usize, bool) = match &self.store {
            Some(store) => (store.column_count(), store.filtering()),
            None => (0, false),
        };
        let selection = match self.visual_range() {
            Some(b) => Some(((b.bottom - b.top).saturating_add(1), (b.right - b.left).saturating_add(1))),
            None => None,
        };
        let message = match &self.message {
            Some(text) => Some(text.clone()),
            None => None,
        };
        Status {
            row: self.cursor_row,
            rows: self.row_total(),
            column: self.col_position(),
            columns,
            message,
            dirty: self.dirty(),
            selection,
            count: self.pending_num.clone(),
            prefix: self.pending_prefix,
            search: self.progress(),
            filtering,
            view: self.view_in_words(),
            hint: self.status_hint(),
        }
    }

    /// The name and text of the cell that the panel shows, if it shows one.
    pub fn panel_cell(&self) -> (cell: Option<(String, String)>)
        requires
            self.wf(),
        ensures
            match cell {
                Some((name, text)) => self@.cell_panel() == Some((name@, text@)),
                None => self@.cell_panel() is None,
            },
    {
        if self.cell_view && self.completion.is_none() {
            self.cell_under_cursor()
        } else {
            None
        }
    }
}

} // verus!
