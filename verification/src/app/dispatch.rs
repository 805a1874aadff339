//! Every key, sent to what it is bound to.
use vstd::prelude::*;
use crate::app::editing::{cell_total, Reading, MAX_BLOCK};
use crate::app::keys::{
    bind_normal, bind_prefixed, normal_key, prefixed_key, Key, Normal, Prefixed, Setting,
};
use crate::app::motion::counted;
use crate::app::session::{
    all_digits, App, Drawn, Limits, Mode, Screen, SelectionMode, Session, Spot, Task,
};
use crate::data::edit::at_most_max;
use crate::text;

verus! {

/// Nothing is asked of the world outside.
pub open spec fn idle(task: Task) -> bool {
    task is Nothing
}

impl Session {
    /// What the meaning of a key depends on.
    pub open spec fn setting(self, ctrl: bool) -> Setting {
        Setting {
            ctrl,
            counting: self.pending_num.len() > 0,
            selecting: self.visual_anchor is Some,
            columns: self.selection_mode != SelectionMode::Row,
            lake: self.lake is Some,
            cell_view: self.cell_view,
        }
    }

    /// A block's text asked for, to put in the register, or a word on why not.
    pub open spec fn yanks(self, after: Session, task: Task) -> bool {
        let s = self.uncounted();
        let block = if s.visual_anchor is Some { s.selection() } else { s.cursor_block() };
        match block {
            None => idle(task) && after == s,
            Some(b) => if b.area() > MAX_BLOCK {
                idle(task) && after == s.too_many(b)
            } else {
                task == Task::Read(Reading::Yank(b)) && after == s
            },
        }
    }

    /// The selected rows struck out.
    pub open spec fn selection_deletes(self, after: Session) -> bool {
        match self.selection() {
            Some(block) => self.deletes(
                after,
                block.top,
                at_most_max((block.bottom - block.top + 1) as nat),
            ),
            None => after == self,
        }
    }

    /// The cell under the cursor shown in full, or no longer. That takes a column
    /// cursor.
    pub open spec fn cell_viewed(self) -> Session {
        let s = self.uncounted().column_taken();
        Session { cell_view: !s.cell_view, ..s }
    }

    /// A column cursor where there is none, on the leftmost column in view.
    pub open spec fn column_taken(self) -> Session {
        if self.selection_mode == SelectionMode::Row {
            Session { selection_mode: SelectionMode::Cell, cursor_col: self.col_offset, ..self }
        } else {
            self
        }
    }

    /// A selection begun where the cursor is, or given up.
    pub open spec fn selection_toggled(self) -> Session {
        let s = self.uncounted();
        Session {
            visual_anchor: match s.visual_anchor {
                Some(_) => None,
                None => Some(Spot { row: s.cursor_row, column: s.cursor_col }),
            },
            ..s
        }
    }

    /// What the partitions key asks for: the list for the table on show.
    pub open spec fn asks_partitions(self, task: Task) -> bool {
        match self.lake {
            Some(lake) => match lake.scope {
                Some(scope) => task == (Task::Partitions {
                    table: scope.table,
                    select: match scope.partition {
                        Some(i) => i,
                        None => 0,
                    },
                }),
                None => idle(task),
            },
            None => idle(task),
        }
    }

    /// What a second key behind a prefix does.
    pub open spec fn prefixed(self, after: Session, b: Prefixed, drawn: Drawn) -> bool {
        match b {
            Prefixed::Center => after == self.centered(),
            Prefixed::CursorTop => after == self.topped(),
            Prefixed::CursorBottom => after == self.bottomed(),
            Prefixed::Wider => after == self.column_resized(true, drawn),
            Prefixed::Narrower => after == self.column_resized(false, drawn),
            Prefixed::Fit => after == self.column_fitted(drawn),
            Prefixed::Pin => after == self.pin_toggled(),
            Prefixed::UnpinAll => after == self.unpinned(),
            Prefixed::ResetWidths => after == self.widths_reset(),
            Prefixed::CellView => after == self.cell_viewed(),
            Prefixed::DeleteRows => self.deletes(
                after,
                self.cursor_row,
                counted(self.pending_num, 1),
            ),
            Prefixed::First => after == self.to_first(),
            Prefixed::Nothing => after == self.uncounted(),
        }
    }

    /// What a binding does while a table is being moved about in.
    pub open spec fn moves(self, b: Normal, drawn: Drawn) -> Session {
        let n = counted(self.pending_num, 1) as int;
        match b {
            Normal::FirstColumn => self.first_column(),
            Normal::LastColumn => self.to_last_column(drawn),
            Normal::Digit(c) => Session { pending_num: self.pending_num.push(c), ..self },
            Normal::Down => self.uncounted().down(n),
            Normal::Up => self.uncounted().up(n),
            Normal::Page { down, whole } => self.paged(down, whole),
            Normal::Prefix(p) => if p == 'z' {
                Session { pending_prefix: Some(p), ..self.uncounted() }
            } else {
                Session { pending_prefix: Some(p), ..self }
            },
            Normal::Top => self.uncounted().cursor_to(0),
            Normal::Bottom => self.to_bottom(),
            Normal::Left => self.uncounted().left(n),
            Normal::Right => self.uncounted().right(n, drawn),
            Normal::Mode => self.cycled(),
            _ => self,
        }
    }

    /// What a binding does to the modes, the panels and the prompts.
    pub open spec fn switches(self, b: Normal) -> Session {
        match b {
            Normal::Quit => self.quitting(false),
            Normal::Picker => self.uncounted().picking(),
            Normal::Catalog => Session { screen: Screen::Browser, ..self.uncounted() },
            Normal::Snapshots => match self.lake {
                Some(lake) => Session {
                    screen: Screen::Browser,
                    ..self.uncounted().with_lake(lake.listing_snapshots())
                },
                None => self.uncounted(),
            },
            Normal::Search => Session {
                search_buf: Seq::empty(),
                mode: Mode::Search,
                ..self.uncounted()
            },
            Normal::Select => self.selection_toggled(),
            Normal::CellView => self.cell_viewed(),
            Normal::TakeColumn => self.uncounted().column_taken(),
            Normal::RelativeRows => Session { relative_rows: !self.relative_rows, ..self.uncounted() },
            Normal::Command => Session {
                command_buf: Seq::empty(),
                mode: Mode::Command,
                ..self.uncounted()
            },
            Normal::CloseCellView => Session { cell_view: false, ..self.uncounted() },
            Normal::DropSelection => Session { visual_anchor: None, ..self.uncounted() },
            Normal::Nothing => self.uncounted(),
            _ => self,
        }
    }

    /// What a binding does to cells.
    pub open spec fn edits(self, b: Normal) -> Session {
        match b {
            Normal::Fill(mode) => self.filling(mode),
            Normal::ClearSelection => self.selection_cleared(),
            Normal::Paste => self.pasted(),
            Normal::Edit(start) => self.editing(start),
            Normal::ClearCell => self.cell_cleared(),
            Normal::Undo => self.undone(),
            Normal::Redo => self.redone(),
            _ => self,
        }
    }

    /// What a binding does, and what it asks for.
    pub open spec fn acts(self, after: Session, task: Task, b: Normal, drawn: Drawn, limits: Limits) -> bool {
        match b {
            Normal::Hide => idle(task) && after == self.uncounted().hidden(limits),
            Normal::Sort => task == self.column_taken().sort_task(limits) && after
                == self.column_taken().sorted_here(limits),
            Normal::Escape => task == self.escape_task() && after == self.escaped(limits),
            Normal::Partitions => after == self.uncounted() && self.asks_partitions(task),
            Normal::NextMatch => idle(task) && self.steps(after, true),
            Normal::PreviousMatch => idle(task) && self.steps(after, false),
            Normal::DeleteSelection => idle(task) && self.selection_deletes(after),
            Normal::OpenRow { below } => idle(task) && self.opens(after, below),
            Normal::Yank => self.yanks(after, task),
            _ => idle(task) && after == (if is_move(b) {
                self.moves(b, drawn)
            } else if is_edit(b) {
                self.edits(b)
            } else {
                self.switches(b)
            }),
        }
    }

    /// What a key does while a table is being looked at. Behind a prefix it is
    /// the prefix's second key.
    pub open spec fn normal(
        self,
        after: Session,
        task: Task,
        key: Key,
        ctrl: bool,
        drawn: Drawn,
        limits: Limits,
    ) -> bool {
        match self.pending_prefix {
            Some(prefix) => idle(task) && (Session { pending_prefix: None, ..self }).prefixed(
                after,
                prefixed_key(prefix, key),
                drawn,
            ),
            None => self.acts(after, task, normal_key(key, self.setting(ctrl)), drawn, limits),
        }
    }

    /// What a key does in whatever mode the program is in.
    pub open spec fn handles(
        self,
        after: Session,
        task: Task,
        key: Key,
        ctrl: bool,
        drawn: Drawn,
        limits: Limits,
    ) -> bool {
        let s = Session { message: None, ..self };
        if s.help_visible {
            // Any key dismisses the overlay.
            idle(task) && after == (Session { help_visible: false, ..s })
        } else if key == Key::Char('?') && (s.mode == Mode::Normal || s.mode == Mode::Picker) {
            idle(task) && after == (Session { help_visible: true, ..s })
        } else if s.screen == Screen::Browser {
            after == s.browser_key(key, ctrl) && s.browser_asks(task, key)
        } else {
            match s.mode {
                Mode::Search => after == s.search_key(key) && if key == Key::Enter {
                    s.search_asked(task)
                } else {
                    idle(task)
                },
                Mode::Edit => after == s.edit_key(key, ctrl) && s.edit_asks(task, key),
                Mode::Command => s.command_key(after, task, key, ctrl, limits),
                Mode::Picker => idle(task) && after == s.picker_key(key, ctrl),
                Mode::Normal => s.normal(after, task, key, ctrl, drawn, limits),
            }
        }
    }

    /// What a key asks for while a cell is being typed into: the text of a block
    /// that something is to be put in front of, or behind.
    pub open spec fn edit_asks(self, task: Task, key: Key) -> bool {
        let commits = key == Key::Enter || key == Key::Tab || key == Key::BackTab;
        match self.fill_wanted() {
            Some(wanted) => if commits {
                task matches Task::Read(Reading::Fill(fill, typed)) && fill == wanted && typed@
                    == self.edit_buf
            } else {
                idle(task)
            },
            None => idle(task),
        }
    }
}

pub open spec fn is_move(b: Normal) -> bool {
    match b {
        Normal::FirstColumn
        | Normal::LastColumn
        | Normal::Digit(_)
        | Normal::Down
        | Normal::Up
        | Normal::Page { .. }
        | Normal::Prefix(_)
        | Normal::Top
        | Normal::Bottom
        | Normal::Left
        | Normal::Right
        | Normal::Mode => true,
        _ => false,
    }
}

pub open spec fn is_edit(b: Normal) -> bool {
    match b {
        Normal::Fill(_)
        | Normal::ClearSelection
        | Normal::Paste
        | Normal::Edit(_)
        | Normal::ClearCell
        | Normal::Undo
        | Normal::Redo => true,
        _ => false,
    }
}

impl App {
    fn setting(&self, ctrl: bool) -> (s: Setting)
        ensures
            s == self@.setting(ctrl),
    {
        let columns = match self.selection_mode {
            SelectionMode::Row => false,
            _ => true,
        };
        Setting {
            ctrl,
            counting: !self.pending_num.as_str().is_empty(),
            selecting: self.visual_anchor.is_some(),
            columns,
            lake: self.lake.is_some(),
            cell_view: self.cell_view,
        }
    }

    fn add_digit(&mut self, c: char)
        requires
            old(self).wf(),
            '0' <= c <= '9',
        ensures
            final(self).wf(),
            final(self)@ == (Session { pending_num: old(self)@.pending_num.push(c), ..old(self)@ }),
    {
        text::push(&mut self.pending_num, c);
        assert(all_digits(self.pending_num@)) by {
            assert forall|i: int| 0 <= i < self.pending_num@.len() implies '0' <= #[trigger] self.pending_num@[i]
                <= '9' by {
                if i < old(self).pending_num@.len() {
                    assert(old(self).pending_num@[i] == self.pending_num@[i]);
                }
            }
        }
    }

    fn wait_for(&mut self, p: char)
        requires
            old(self).wf(),
        ensures
            final(self).wf(),
            final(self)@ == if p == 'z' {
                Session { pending_prefix: Some(p), ..old(self)@.uncounted() }
            } else {
                Session { pending_prefix: Some(p), ..old(self)@ }
            },
    {
        if p == 'z' {
            self.uncount();
        }
        self.pending_prefix = Some(p);
    }

    /// Move as a binding says.
    fn do_move(&mut self, b: Normal, drawn: Drawn)
        requires
            old(self).wf(),
            is_move(b),
            b matches Normal::Digit(c) ==> '0' <= c <= '9',
        ensures
            final(self).wf(),
            final(self)@ == old(self)@.moves(b, drawn),
    {
        match b {
            Normal::FirstColumn => self.go_first_column(),
            Normal::LastColumn => self.go_last_column(drawn),
            Normal::Digit(c) => self.add_digit(c),
            Normal::Down => {
                let n = self.take_count(1);
                self.cursor_down(n);
            },
            Normal::Up => {
                let n = self.take_count(1);
                self.cursor_up(n);
            },
            Normal::Page { down, whole } => self.scroll_page(down, whole),
            Normal::Prefix(p) => self.wait_for(p),
            Normal::Top => {
                self.uncount();
                self.cursor_to(0);
            },
            Normal::Bottom => self.go_counted(true),
            Normal::Left => {
                let n = self.take_count(1);
                self.column_left(n);
            },
            Normal::Right => {
                let n = self.take_count(1);
                self.column_right(n, drawn);
            },
            _ => self.cycle_mode(),
        }
    }

    /// Edit as a binding says.
    fn do_edit(&mut self, b: Normal)
        requires
            old(self).wf(),
            is_edit(b),
            cell_total(old(self)@.register) <= usize::MAX,
        ensures
            final(self).wf(),
            final(self)@ == old(self)@.edits(b),
    {
        match b {
            Normal::Fill(mode) => self.begin_fill(mode),
            Normal::ClearSelection => self.clear_selection(),
            Normal::Paste => self.paste(),
            Normal::Edit(start) => self.begin_edit(start),
            Normal::ClearCell => self.clear_cell(),
            Normal::Undo => self.undo(),
            _ => self.redo(),
        }
    }

    fn to_catalog(&mut self, snapshots: bool)
        requires
            old(self).wf(),
        ensures
            final(self).wf(),
            final(self)@ == old(self)@.switches(
                if snapshots {
                    Normal::Snapshots
                } else {
                    Normal::Catalog
                },
            ),
    {
        self.uncount();
        if snapshots {
            if self.lake.is_none() {
                return;
            }
            self.list_snapshots();
        }
        self.screen = Screen::Browser;
    }

    fn view_cell(&mut self)
        requires
            old(self).wf(),
        ensures
            final(self).wf(),
            final(self)@ == old(self)@.cell_viewed(),
    {
        self.uncount();
        self.take_column();
        self.cell_view = !self.cell_view;
    }

    fn take_column(&mut self)
        requires
            old(self).wf(),
        ensures
            final(self).wf(),
            final(self)@ == old(self)@.column_taken(),
    {
        let rows = match self.selection_mode {
            SelectionMode::Row => true,
            _ => false,
        };
        let mode = if rows { SelectionMode::Cell } else { self.selection_mode };
        let column: usize = if rows { self.col_offset } else { self.cursor_col };
        self.selection_mode = mode;
        self.cursor_col = column;
    }

    fn toggle_selection(&mut self)
        requires
            old(self).wf(),
        ensures
            final(self).wf(),
            final(self)@ == old(self)@.selection_toggled(),
    {
        self.uncount();
        self.visual_anchor = match self.visual_anchor {
            Some(_) => None,
            None => Some(Spot { row: self.cursor_row, column: self.cursor_col }),
        };
    }

    fn open_prompt(&mut self, command: bool)
        requires
            old(self).wf(),
        ensures
            final(self).wf(),
            final(self)@ == old(self)@.switches(
                if command {
                    Normal::Command
                } else {
                    Normal::Search
                },
            ),
    {
        self.uncount();
        let empty = String::new();
        assert(empty@ =~= Seq::empty());
        if command {
            self.command_buf = empty;
            self.mode = Mode::Command;
        } else {
            self.search_buf = empty;
            self.mode = Mode::Search;
        }
    }

    /// Switch as a binding says.
    fn do_switch(&mut self, b: Normal)
        requires
            old(self).wf(),
            !is_move(b),
            !is_edit(b),
        ensures
            final(self).wf(),
            final(self)@ == old(self)@.switches(b),
    {
        match b {
            Normal::Quit => self.quit(false),
            Normal::Picker => {
                self.uncount();
                self.open_picker();
            },
            Normal::Catalog => self.to_catalog(false),
            Normal::Snapshots => self.to_catalog(true),
            Normal::Search => self.open_prompt(false),
            Normal::Command => self.open_prompt(true),
            Normal::Select => self.toggle_selection(),
            Normal::CellView => self.view_cell(),
            Normal::TakeColumn => {
                self.uncount();
                self.take_column();
            },
            Normal::RelativeRows => {
                self.uncount();
                self.relative_rows = !self.relative_rows;
            },
            Normal::CloseCellView => {
                self.uncount();
                self.cell_view = false;
            },
            Normal::DropSelection => {
                self.uncount();
                self.visual_anchor = None;
            },
            Normal::Nothing => self.uncount(),
            _ => {},
        }
    }

    fn ask_partitions(&mut self) -> (task: Task)
        requires
            old(self).wf(),
        ensures
            final(self).wf(),
            final(self)@ == old(self)@.uncounted(),
            old(self)@.asks_partitions(task),
    {
        self.uncount();
        match &self.lake {
            None => Task::Nothing,
            Some(lake) => match lake.scope {
                None => Task::Nothing,
                Some(scope) => Task::Partitions {
                    table: scope.table,
                    select: match scope.partition {
                        Some(i) => i,
                        None => 0,
                    },
                },
            },
        }
    }

    fn ask_yank(&mut self) -> (task: Task)
        requires
            old(self).wf(),
        ensures
            final(self).wf(),
            old(self)@.yanks(final(self)@, task),
    {
        let reading = self.yank();
        match reading {
            Reading::Yank(block) => Task::Read(Reading::Yank(block)),
            _ => Task::Nothing,
        }
    }

    fn delete_selection(&mut self)
        requires
            old(self).wf(),
        ensures
            final(self).wf(),
            old(self)@.selection_deletes(final(self)@),
    {
        if let Some(block) = self.visual_range() {
            let count: usize = (block.bottom - block.top).saturating_add(1);
            self.delete_rows(block.top, count);
        }
    }

    /// Do what a key is bound to.
    fn act(&mut self, b: Normal, drawn: Drawn, limits: Limits) -> (task: Task)
        requires
            old(self).wf(),
            cell_total(old(self)@.register) <= usize::MAX,
            b matches Normal::Digit(c) ==> '0' <= c <= '9',
        ensures
            final(self).wf(),
            old(self)@.acts(final(self)@, task, b, drawn, limits),
    {
        match b {
            Normal::Sort => {
                self.take_column();
                return self.sort_here(limits);
            },
            Normal::Escape => {
                return self.escape(limits);
            },
            Normal::Partitions => {
                return self.ask_partitions();
            },
            Normal::Yank => {
                return self.ask_yank();
            },
            Normal::Hide => {
                self.uncount();
                self.hide_column(limits);
            },
            Normal::NextMatch => self.step_match(true),
            Normal::PreviousMatch => self.step_match(false),
            Normal::DeleteSelection => self.delete_selection(),
            Normal::OpenRow { below } => self.open_row(below),
            Normal::FirstColumn
            | Normal::LastColumn
            | Normal::Digit(_)
            | Normal::Down
            | Normal::Up
            | Normal::Page { .. }
            | Normal::Prefix(_)
            | Normal::Top
            | Normal::Bottom
            | Normal::Left
            | Normal::Right
            | Normal::Mode => self.do_move(b, drawn),
            Normal::Fill(_)
            | Normal::ClearSelection
            | Normal::Paste
            | Normal::Edit(_)
            | Normal::ClearCell
            | Normal::Undo
            | Normal::Redo => self.do_edit(b),
            _ => self.do_switch(b),
        }
        Task::Nothing
    }

    /// The second key of a sequence. Anything else cancels it.
    fn resolve_prefix(&mut self, b: Prefixed, drawn: Drawn)
        requires
            old(self).wf(),
        ensures
            final(self).wf(),
            old(self)@.prefixed(final(self)@, b, drawn),
    {
        match b {
            Prefixed::Center => self.scroll_center(),
            Prefixed::CursorTop => self.scroll_cursor_top(),
            Prefixed::CursorBottom => self.scroll_cursor_bottom(),
            Prefixed::Wider => self.resize_column(true, drawn),
            Prefixed::Narrower => self.resize_column(false, drawn),
            Prefixed::Fit => self.fit_column(drawn),
            Prefixed::Pin => self.toggle_pin(),
            Prefixed::UnpinAll => self.unpin_all(),
            Prefixed::ResetWidths => self.reset_widths(),
            Prefixed::CellView => self.view_cell(),
            Prefixed::DeleteRows => {
                let ghost s = self@;
                let count = self.take_count(1);
                let row = self.cursor_row;
                self.delete_rows(row, count);
                assert(s.uncounted().uncounted() == s.uncounted());
                assert(s.uncounted().deletes(self@, row, count) ==> s.deletes(self@, row, count));
            },
            Prefixed::First => self.go_counted(false),
            Prefixed::Nothing => self.uncount(),
        }
    }

    /// A key while a table is being looked at.
    pub fn handle_normal_key(&mut self, key: Key, ctrl: bool, drawn: Drawn, limits: Limits) -> (task: Task)
        requires
            old(self).wf(),
            cell_total(old(self)@.register) <= usize::MAX,
        ensures
            final(self).wf(),
            old(self)@.normal(final(self)@, task, key, ctrl, drawn, limits),
    {
        match self.pending_prefix {
            Some(prefix) => {
                self.pending_prefix = None;
                let b = bind_prefixed(prefix, key);
                self.resolve_prefix(b, drawn);
                Task::Nothing
            },
            None => {
                let b = bind_normal(key, self.setting(ctrl));
                self.act(b, drawn, limits)
            },
        }
    }
}

impl App {
    /// A key, in whatever mode the program is in. What it asks of the world
    /// outside is handed back.
    pub fn handle_key_event(&mut self, key: Key, ctrl: bool, drawn: Drawn, limits: Limits) -> (task: Task)
        requires
            old(self).wf(),
            cell_total(old(self)@.register) <= usize::MAX,
            old(self).edit_buf@.len() < usize::MAX,
            old(self).command_buf@.len() <= usize::MAX - 5,
        ensures
            final(self).wf(),
            old(self)@.handles(final(self)@, task, key, ctrl, drawn, limits),
    {
        self.message = None;
        if self.help_visible {
            // Any key dismisses the overlay, a second question mark too.
            self.help_visible = false;
            return Task::Nothing;
        }
        if self.asks_for_help(key) {
            self.help_visible = true;
            return Task::Nothing;
        }
        let browsing = match self.screen {
            Screen::Browser => true,
            Screen::Viewer => false,
        };
        if browsing {
            return self.handle_browser_key(key, ctrl);
        }
        match self.mode {
            Mode::Search => self.handle_search_key(key),
            Mode::Edit => self.ask_edit(key, ctrl),
            Mode::Command => self.handle_command_key(key, ctrl, limits),
            Mode::Picker => {
                self.handle_picker_key(key, ctrl, limits);
                Task::Nothing
            },
            Mode::Normal => self.handle_normal_key(key, ctrl, drawn, limits),
        }
    }

    /// Only in the modes that take no text: a question mark is an ordinary
    /// character to type into a pattern, a cell or a command.
    fn asks_for_help(&self, key: Key) -> (b: bool)
        ensures
            b == (key == Key::Char('?') && (self.mode == Mode::Normal || self.mode == Mode::Picker)),
    {
        let mark = match key {
            Key::Char(c) => c == '?',
            _ => false,
        };
        mark && match self.mode {
            Mode::Normal | Mode::Picker => true,
            _ => false,
        }
    }

    fn ask_edit(&mut self, key: Key, ctrl: bool) -> (task: Task)
        requires
            old(self).wf(),
            old(self).edit_buf@.len() < usize::MAX,
        ensures
            final(self).wf(),
            final(self)@ == old(self)@.edit_key(key, ctrl),
            old(self)@.edit_asks(task, key),
    {
        match self.handle_edit_key(key, ctrl) {
            Reading::Nothing => Task::Nothing,
            reading => Task::Read(reading),
        }
    }
}

/// Question marks go into what is being typed, whatever it is.
pub proof fn a_question_mark_is_a_character_while_typing(
    s: Session,
    after: Session,
    task: Task,
    drawn: Drawn,
    limits: Limits,
)
    requires
        !s.help_visible,
        s.screen == Screen::Viewer,
        s.mode == Mode::Search || s.mode == Mode::Edit || s.mode == Mode::Command,
        s.edit_cursor <= s.edit_buf.len(),
        s.handles(after, task, Key::Char('?'), false, drawn, limits),
    ensures
        !after.help_visible,
        match s.mode {
            Mode::Search => after.search_buf == s.search_buf.push('?'),
            Mode::Edit => after.edit_buf == s.edit_buf.insert(s.edit_cursor as int, '?'),
            _ => after.command_buf == s.command_buf.push('?'),
        },
{
}

/// Nothing is lost by a key that leaves the program: while there are unsaved
/// edits, the quit key only says so.
pub proof fn quitting_refuses_while_edits_are_unwritten(
    s: Session,
    after: Session,
    task: Task,
    drawn: Drawn,
    limits: Limits,
)
    requires
        !s.help_visible,
        !s.exit,
        s.screen == Screen::Viewer,
        s.mode == Mode::Normal,
        s.pending_prefix is None,
        s.dirty() > 0,
        s.handles(after, task, Key::Char('q'), false, drawn, limits),
    ensures
        !after.exit,
        after.store == s.store,
        after.message is Some,
{
}

} // verus!
