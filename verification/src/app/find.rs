//! Searching, and taking in what searches, sorts and scans have found.
use vstd::prelude::*;
use crate::app::keys::Key;
use crate::app::motion::least;
use crate::app::session::{sound, App, Hunt, Mode, Running, SelectionMode, Session, Task};
use crate::data::ordered::ascending;
use crate::data::rows::Matches;
use crate::data::store::Held;
use crate::search;
use crate::search::{
    is_nearest, is_next, is_previous, regex_accepts, regex_error, SearchQuery, SearchState,
    SearchStatus,
};
use crate::text;

verus! {

impl Session {
    /// The column that a search goes through, by display position: the cursor's,
    /// unless whole rows are being looked at.
    pub open spec fn search_column(self) -> Option<usize> {
        if self.selection_mode == SelectionMode::Row {
            None
        } else {
            match self.store {
                Some(h) => if h.column(self.cursor_col) is Some {
                    Some(self.cursor_col)
                } else {
                    None
                },
                None => None,
            }
        }
    }

    /// The pattern that was typed looked for, or a word on why not.
    pub open spec fn searching(self) -> Session {
        let raw = self.search_buf;
        let s = Session { mode: Mode::Normal, search_buf: Seq::empty(), ..self };
        if raw.len() == 0 {
            s.unsearched()
        } else if !regex_accepts(raw) {
            s.say("Bad regex: "@ + regex_error(raw))
        } else if s.store is None {
            s
        } else {
            Session {
                hunt: Some(
                    Hunt {
                        pattern: raw,
                        column: s.search_column(),
                        rows: Seq::empty(),
                        current: 0,
                        status: SearchStatus::Searching,
                        jumped: false,
                    },
                ),
                running: Running { search: true, ..s.running },
                ..s
            }
        }
    }

    /// The pattern being typed, after a key.
    pub open spec fn search_key(self, key: Key) -> Session {
        match key {
            Key::Esc => Session { mode: Mode::Normal, search_buf: Seq::empty(), ..self },
            Key::Enter => self.searching(),
            Key::Backspace => if self.search_buf.len() > 0 {
                Session { search_buf: self.search_buf.drop_last(), ..self }
            } else {
                self
            },
            Key::Char(c) => Session { search_buf: self.search_buf.push(c), ..self },
            _ => self,
        }
    }

    /// To the next match or the one before, from where the cursor is.
    pub open spec fn steps(self, after: Session, forward: bool) -> bool {
        let s = self.uncounted();
        match s.hunt {
            None => after == s,
            Some(h) => {
                let t = Session {
                    cursor_col: match h.column {
                        Some(c) => c,
                        None => s.cursor_col,
                    },
                    ..s
                };
                t.leaps(after, forward)
            },
        }
    }

    /// To the match that comes after the cursor's row, or before it, wrapping
    /// round at the ends.
    pub open spec fn leaps(self, after: Session, forward: bool) -> bool {
        match self.hunt {
            None => after == self,
            Some(h) => if h.rows.len() == 0 {
                after == self
            } else {
                let at = after.hunt->Some_0.current;
                &&& after.hunt is Some
                &&& if forward {
                    is_next(h.rows, self.cursor_row, at as int)
                } else {
                    is_previous(h.rows, self.cursor_row, at as int)
                }
                &&& after == (Session { hunt: Some(Hunt { current: at, ..h }), ..self }).cursor_to(
                    h.rows[at as int] as int,
                )
            },
        }
    }

    /// The first time there are matches, the cursor goes to the nearest.
    pub open spec fn jumps(self, after: Session) -> bool {
        match self.hunt {
            None => after == self,
            Some(h) => if h.jumped || h.rows.len() == 0 {
                after == self
            } else {
                let at = after.hunt->Some_0.current;
                &&& after.hunt is Some
                &&& is_nearest(h.rows, self.cursor_row, at as int)
                &&& after == (Session {
                    hunt: Some(Hunt { current: at, jumped: true, ..h }),
                    ..self
                }).cursor_to(h.rows[at as int] as int)
            },
        }
    }

    /// Where the rows that a search reported are on show.
    pub open spec fn on_show(self, reported: Seq<usize>) -> Seq<usize>
        decreases reported.len(),
    {
        if reported.len() == 0 {
            Seq::empty()
        } else {
            let before = self.on_show(reported.drop_last());
            match self.store {
                None => before.push(reported.last()),
                Some(h) => match h.display_of(reported.last()) {
                    Some(row) => before.push(row),
                    None => before,
                },
            }
        }
    }

    /// Matches taken in. They come in order; one that does not is left out.
    pub open spec fn found(self, reported: Seq<usize>) -> Session {
        match self.hunt {
            None => self,
            Some(h) => Session {
                hunt: Some(Hunt { rows: in_order(h.rows, self.on_show(reported)), ..h }),
                ..self
            },
        }
    }

    /// The search has been through all there is.
    pub open spec fn searched(self) -> Session {
        Session {
            hunt: match self.hunt {
                Some(h) => Some(Hunt { status: SearchStatus::Complete, ..h }),
                None => None,
            },
            running: Running { search: false, ..self.running },
            ..self
        }
    }
}

/// Rows with more rows behind them, as far as those go on upwards.
pub open spec fn in_order(rows: Seq<usize>, more: Seq<usize>) -> Seq<usize>
    decreases more.len(),
{
    if more.len() == 0 {
        rows
    } else {
        let before = in_order(rows, more.drop_last());
        if before.len() == 0 || before.last() < more.last() {
            before.push(more.last())
        } else {
            before
        }
    }
}

impl App {
    fn drop_pattern(&mut self)
        requires
            old(self).wf(),
        ensures
            final(self).wf(),
            final(self)@ == (Session { mode: Mode::Normal, search_buf: Seq::empty(), ..old(self)@ }),
    {
        self.mode = Mode::Normal;
        self.search_buf = String::new();
        assert(self.search_buf@ =~= Seq::empty());
    }

    /// The column a search goes through, and its name.
    fn search_column(&self) -> (column: Option<(usize, String)>)
        requires
            self.wf(),
        ensures
            match column {
                Some((c, name)) => self@.search_column() == Some(c)
                    && self@.store->Some_0.column(c)->Some_0.0 == name@,
                None => self@.search_column() is None,
            },
    {
        proof {
            reveal(sound);
        }
        let rows = match self.selection_mode {
            SelectionMode::Row => true,
            _ => false,
        };
        if rows {
            return None;
        }
        match &self.store {
            None => None,
            Some(store) => match store.column_info(self.cursor_col) {
                Some((name, _)) => Some((self.cursor_col, name)),
                None => None,
            },
        }
    }

    /// Look for the pattern that was typed.
    fn begin_search(&mut self) -> (task: Task)
        requires
            old(self).wf(),
        ensures
            final(self).wf(),
            final(self)@ == old(self)@.searching(),
            old(self)@.search_asked(task),
    {
        let raw = self.search_buf.clone();
        self.drop_pattern();
        if raw.as_str().is_empty() {
            self.unsearch();
            return Task::Nothing;
        }
        let query = match SearchQuery::new(raw.clone()) {
            Err(_) => {
                match search::complaint(raw.as_str()) {
                    Some(why) => {
                        let text = text::joined("Bad regex: ", why.as_str());
                        self.message = Some(text);
                    },
                    None => {},
                }
                return Task::Nothing;
            },
            Ok(query) => query,
        };
        if self.store.is_none() {
            return Task::Nothing;
        }
        let column = self.search_column();
        let (at, name): (Option<usize>, Option<String>) = match column {
            Some((c, name)) => (Some(c), Some(name)),
            None => (None, None),
        };
        self.hunt_for(query, at);
        Task::Search(name)
    }

    fn hunt_for(&mut self, query: SearchQuery, column: Option<usize>)
        requires
            old(self).wf(),
        ensures
            final(self).wf(),
            final(self)@ == (Session {
                hunt: Some(
                    Hunt {
                        pattern: query.raw@,
                        column,
                        rows: Seq::empty(),
                        current: 0,
                        status: SearchStatus::Searching,
                        jumped: false,
                    },
                ),
                running: Running { search: true, ..old(self)@.running },
                ..old(self)@
            }),
    {
        self.running = Running { search: true, sort: self.running.sort, filter: self.running.filter };
        let state = SearchState::new(query, column);
        assert(state.matching_rows@ =~= Seq::empty());
        self.search_state = Some(state);
    }

    /// A key while typing a pattern.
    pub fn handle_search_key(&mut self, key: Key) -> (task: Task)
        requires
            old(self).wf(),
        ensures
            final(self).wf(),
            final(self)@ == old(self)@.search_key(key),
            if key == Key::Enter {
                old(self)@.search_asked(task)
            } else {
                task is Nothing
            },
    {
        match key {
            Key::Esc => {
                self.drop_pattern();
                Task::Nothing
            },
            Key::Enter => self.begin_search(),
            Key::Backspace => {
                match text::shortened(self.search_buf.as_str()) {
                    Some(text) => {
                        self.search_buf = text;
                    },
                    None => {},
                }
                Task::Nothing
            },
            Key::Char(c) => {
                text::push(&mut self.search_buf, c);
                Task::Nothing
            },
            _ => Task::Nothing,
        }
    }
}

impl Session {
    /// What a search asks for when it is begun.
    pub open spec fn search_asked(self, task: Task) -> bool {
        if self.search_buf.len() == 0 || !regex_accepts(self.search_buf) || self.store is None {
            task is Nothing
        } else {
            match self.search_column() {
                Some(c) => task matches Task::Search(Some(name)) && name@
                    == self.store->Some_0.column(c)->Some_0.0,
                None => task == Task::Search(None),
            }
        }
    }
}

proof fn lemma_in_order(rows: Seq<usize>, more: Seq<usize>)
    requires
        ascending(rows),
    ensures
        ascending(in_order(rows, more)),
        rows.is_prefix_of(in_order(rows, more)),
    decreases more.len(),
{
    if more.len() > 0 {
        lemma_in_order(rows, more.drop_last());
    }
}

/// Matches that come in order are all taken in.
pub proof fn matches_in_order_are_all_kept(rows: Seq<usize>, more: Seq<usize>)
    requires
        ascending(rows + more),
    ensures
        in_order(rows, more) == rows + more,
    decreases more.len(),
{
    if more.len() > 0 {
        let front = more.drop_last();
        assert(rows + front =~= (rows + more).drop_last());
        assert forall|i: int, j: int| 0 <= i < j < (rows + front).len() implies (rows + front)[i] < (rows
            + front)[j] by {
            assert((rows + more)[i] < (rows + more)[j]);
        }
        matches_in_order_are_all_kept(rows, front);
        if (rows + front).len() > 0 {
            let last = (rows + front).len() - 1;
            assert((rows + more)[last] < (rows + more)[last + 1]);
        }
        assert(in_order(rows, more) =~= rows + more);
    } else {
        assert(rows + more =~= rows);
    }
}

impl App {
    /// Where a search's row is on show.
    fn display_of(&self, reported: usize) -> (row: Option<usize>)
        requires
            self.wf(),
        ensures
            row == match self@.store {
                None => Some(reported),
                Some(h) => h.display_of(reported),
            },
    {
        proof {
            reveal(sound);
        }
        match &self.store {
            None => Some(reported),
            Some(store) => store.search_row_to_display(reported),
        }
    }

    /// The rows that a search reported, as far as they are on show.
    fn on_show(&self, reported: &Vec<usize>) -> (rows: Vec<usize>)
        requires
            self.wf(),
        ensures
            rows@ == self@.on_show(reported@),
    {
        let mut rows: Vec<usize> = Vec::new();
        let mut i: usize = 0;
        assert(reported@.take(0) =~= Seq::empty());
        while i < reported.len()
            invariant
                self.wf(),
                i <= reported.len(),
                rows@ == self@.on_show(reported@.take(i as int)),
            decreases reported.len() - i,
        {
            assert(reported@.take(i + 1).drop_last() =~= reported@.take(i as int));
            if let Some(row) = self.display_of(reported[i]) {
                rows.push(row);
            }
            i += 1;
        }
        assert(reported@.take(i as int) =~= reported@);
        rows
    }

    /// Take a batch of rows that a search found.
    pub fn search_found(&mut self, reported: Vec<usize>)
        requires
            old(self).wf(),
        ensures
            final(self).wf(),
            final(self)@ == old(self)@.found(reported@),
    {
        let rows = self.on_show(&reported);
        let ghost h = self@.hunt;
        match &mut self.search_state {
            None => {},
            Some(state) => {
                extend_in_order(state, &rows);
            },
        }
    }

    /// A search has been through all there is.
    pub fn search_finished(&mut self)
        requires
            old(self).wf(),
        ensures
            final(self).wf(),
            final(self)@ == old(self)@.searched(),
    {
        self.running = Running { search: false, sort: self.running.sort, filter: self.running.filter };
        match &mut self.search_state {
            None => {},
            Some(state) => {
                state.status = SearchStatus::Complete;
            },
        }
        assert(self@ =~= old(self)@.searched());
    }

    /// The match after the cursor's row, or before it.
    fn leap(&mut self, forward: bool)
        requires
            old(self).wf(),
        ensures
            final(self).wf(),
            old(self)@.leaps(final(self)@, forward),
    {
        let row = self.pick(forward);
        if let Some(row) = row {
            let ghost s = self@;
            self.cursor_to(row);
            proof {
                lemma_cursor_keeps_hunt(s, row as int);
            }
        }
    }

    /// Make the match after the cursor's row, or before it, the current one.
    fn pick(&mut self, forward: bool) -> (row: Option<usize>)
        requires
            old(self).wf(),
        ensures
            final(self).wf(),
            match old(self)@.hunt {
                None => row is None && final(self)@ == old(self)@,
                Some(h) => match row {
                    None => h.rows.len() == 0 && final(self)@ == old(self)@,
                    Some(row) => {
                        let at = final(self)@.hunt->Some_0.current;
                        &&& h.rows.len() > 0
                        &&& if forward {
                            is_next(h.rows, old(self).cursor_row, at as int)
                        } else {
                            is_previous(h.rows, old(self).cursor_row, at as int)
                        }
                        &&& row == h.rows[at as int]
                        &&& final(self)@ == (Session {
                            hunt: Some(Hunt { current: at, ..h }),
                            ..old(self)@
                        })
                    },
                },
            },
    {
        let cursor = self.cursor_row;
        let mut row: Option<usize> = None;
        match &mut self.search_state {
            None => {},
            Some(state) => {
                row = if forward {
                    state.next_from(cursor)
                } else {
                    state.prev_from(cursor)
                };
            },
        }
        proof {
            if let Some(h) = old(self)@.hunt {
                assert(self@ =~= (Session {
                    hunt: Some(Hunt { current: self@.hunt->Some_0.current, ..h }),
                    ..old(self)@
                }));
            }
        }
        row
    }

    /// The first time there are matches, go to the nearest.
    pub fn search_jump(&mut self)
        requires
            old(self).wf(),
        ensures
            final(self).wf(),
            old(self)@.jumps(final(self)@),
    {
        let row = self.first_pick();
        if let Some(row) = row {
            let ghost s = self@;
            self.cursor_to(row);
            proof {
                lemma_cursor_keeps_hunt(s, row as int);
            }
        }
    }

    /// Where the cursor goes the first time there are matches.
    fn first_pick(&mut self) -> (row: Option<usize>)
        requires
            old(self).wf(),
        ensures
            final(self).wf(),
            match row {
                None => final(self)@ == old(self)@ && (old(self)@.hunt matches Some(h) ==> h.jumped
                    || h.rows.len() == 0),
                Some(row) => {
                    let h = old(self)@.hunt->Some_0;
                    let at = final(self)@.hunt->Some_0.current;
                    &&& old(self)@.hunt is Some && !h.jumped && h.rows.len() > 0
                    &&& is_nearest(h.rows, old(self).cursor_row, at as int)
                    &&& row == h.rows[at as int]
                    &&& final(self)@ == (Session {
                        hunt: Some(Hunt { current: at, jumped: true, ..h }),
                        ..old(self)@
                    })
                },
            },
    {
        let cursor = self.cursor_row;
        let mut row: Option<usize> = None;
        match &mut self.search_state {
            None => {},
            Some(state) => {
                if !state.initial_jump_done && !state.matching_rows.is_empty() {
                    state.initial_jump_done = true;
                    row = state.nearest_from(cursor);
                }
            },
        }
        proof {
            if row is Some {
                let h = old(self)@.hunt->Some_0;
                assert(self@ =~= (Session {
                    hunt: Some(Hunt { current: self@.hunt->Some_0.current, jumped: true, ..h }),
                    ..old(self)@
                }));
            }
        }
        row
    }

    /// To the next match, or the one before.
    pub fn step_match(&mut self, forward: bool)
        requires
            old(self).wf(),
        ensures
            final(self).wf(),
            old(self)@.steps(final(self)@, forward),
    {
        self.uncount();
        let (any, column): (bool, Option<usize>) = match &self.search_state {
            None => (false, None),
            Some(state) => (true, state.column),
        };
        if !any {
            return;
        }
        self.cursor_col = match column {
            Some(c) => c,
            None => self.cursor_col,
        };
        self.leap(forward);
    }
}

/// Moving the cursor leaves a search as it is.
proof fn lemma_cursor_keeps_hunt(s: Session, row: int)
    ensures
        s.cursor_to(row).hunt == s.hunt,
{
    reveal(Session::cursor_to);
}

/// Take in matches as far as they go on upwards.
fn extend_in_order(state: &mut SearchState, rows: &Vec<usize>)
    requires
        old(state).wf(),
    ensures
        final(state).wf(),
        final(state).matching_rows@ == in_order(old(state).matching_rows@, rows@),
        *final(state) == (SearchState { matching_rows: final(state).matching_rows, ..*old(state) }),
{
    let ghost before = state.matching_rows@;
    let mut i: usize = 0;
    assert(rows@.take(0) =~= Seq::empty());
    while i < rows.len()
        invariant
            i <= rows.len(),
            ascending(before),
            before == old(state).matching_rows@,
            state.matching_rows@ == in_order(before, rows@.take(i as int)),
            *state == (SearchState { matching_rows: state.matching_rows, ..*old(state) }),
        decreases rows.len() - i,
    {
        assert(rows@.take(i + 1).drop_last() =~= rows@.take(i as int));
        let n = state.matching_rows.len();
        if n == 0 || state.matching_rows[n - 1] < rows[i] {
            state.matching_rows.push(rows[i]);
        }
        i += 1;
    }
    assert(rows@.take(i as int) =~= rows@);
    proof {
        lemma_in_order(before, rows@);
    }
}

impl Held {
    /// A scan is still wanted after this batch.
    pub open spec fn wants_more(self, batch: Seq<usize>) -> bool {
        match self.matches {
            Some(m) => m.continued_by(batch) && m.rows.len() + batch.len() < m.limit,
            None => false,
        }
    }

    /// A batch of a scan taken in. One that is out of order, or that fills the
    /// set, is the last.
    pub open spec fn took(self, batch: Seq<usize>) -> Held {
        match self.matches {
            Some(m) => {
                let rows = if m.continued_by(batch) { m.extended(batch) } else { m };
                Held {
                    matches: Some(
                        Matches { complete: rows.complete || !self.wants_more(batch), ..rows },
                    ),
                    ..self
                }
            },
            None => self,
        }
    }

    /// What a scan found is all there is.
    pub open spec fn scanned(self) -> Held {
        match self.matches {
            Some(m) => Held { matches: Some(Matches { complete: true, ..m }), ..self },
            None => self,
        }
    }
}

impl Session {
    /// The cursor no further than the last row on show.
    pub open spec fn held_back(self) -> Session {
        Session { cursor_row: least(self.cursor_row as int, self.last_row() as int) as usize, ..self }
    }

    /// A batch of rows that a scan found taken in.
    pub open spec fn filter_batch(self, batch: Seq<usize>) -> Session {
        match self.store {
            None => (Session { running: Running { filter: false, ..self.running }, ..self }).held_back(),
            Some(h) => (Session {
                store: Some(h.took(batch)),
                running: Running { filter: self.running.filter && h.wants_more(batch), ..self.running },
                stale: true,
                ..self
            }).held_back(),
        }
    }

    /// The scan has run out.
    pub open spec fn filter_over(self) -> Session {
        (Session {
            store: match self.store {
                Some(h) => Some(h.scanned()),
                None => None,
            },
            running: Running { filter: false, ..self.running },
            stale: true,
            ..self
        }).held_back()
    }

    /// A sort is done, and this is the source row at each position; or it came
    /// to nothing.
    pub open spec fn sort_over(self, rows: Option<Seq<usize>>) -> Session {
        let s = Session { running: Running { sort: false, ..self.running }, ..self };
        match (s.store, rows) {
            (Some(h), Some(rows)) => Session {
                store: Some(Held { sorted: Some(rows), ..h }),
                stale: true,
                ..s
            },
            _ => s,
        }
    }
}

impl App {
    fn hold_back(&mut self)
        requires
            old(self).wf(),
        ensures
            final(self).wf(),
            final(self)@ == old(self)@.held_back(),
    {
        let last = self.row_total().saturating_sub(1);
        let row: usize = if self.cursor_row < last { self.cursor_row } else { last };
        self.cursor_row = row;
    }

    /// Take a batch of rows that a scan found. Returns whether the scan is still
    /// wanted.
    pub fn filter_found(&mut self, batch: Vec<usize>) -> (wanted: bool)
        requires
            old(self).wf(),
        ensures
            final(self).wf(),
            final(self)@ == old(self)@.filter_batch(batch@),
            wanted == (old(self)@.store matches Some(h) && h.wants_more(batch@)),
    {
        if self.store.is_none() {
            self.running = Running { search: self.running.search, sort: self.running.sort, filter: false };
            self.hold_back();
            return false;
        }
        let wanted = self.take_batch(batch);
        self.hold_back();
        wanted
    }

    fn take_batch(&mut self, batch: Vec<usize>) -> (wanted: bool)
        requires
            old(self).wf(),
            old(self).store is Some,
        ensures
            final(self).wf(),
            ({
                let h = old(self)@.store->Some_0;
                &&& wanted == h.wants_more(batch@)
                &&& final(self)@ == (Session {
                    store: Some(h.took(batch@)),
                    running: Running { filter: old(self)@.running.filter && wanted, ..old(self)@.running },
                    stale: true,
                    ..old(self)@
                })
            }),
    {
        proof {
            reveal(sound);
        }
        let ghost h = self@.store->Some_0;
        let mut wanted = false;
        match &mut self.store {
            None => {},
            Some(store) => {
                if store.filter_follows(&batch) {
                    wanted = store.extend_filter(batch);
                }
                if !wanted {
                    store.finish_filter();
                }
                assert(store@ =~= h.took(batch@));
            },
        }
        let filter = self.running.filter && wanted;
        self.running = Running { search: self.running.search, sort: self.running.sort, filter };
        self.stale = true;
        wanted
    }

    /// A scan has run out.
    pub fn filter_finished(&mut self)
        requires
            old(self).wf(),
        ensures
            final(self).wf(),
            final(self)@ == old(self)@.filter_over(),
    {
        self.finish_scan();
        self.hold_back();
    }

    fn finish_scan(&mut self)
        requires
            old(self).wf(),
        ensures
            final(self).wf(),
            final(self)@ == (Session {
                store: match old(self)@.store {
                    Some(h) => Some(h.scanned()),
                    None => None,
                },
                running: Running { filter: false, ..old(self)@.running },
                stale: true,
                ..old(self)@
            }),
    {
        proof {
            reveal(sound);
        }
        match &mut self.store {
            None => {},
            Some(store) => {
                store.finish_filter();
                assert(store@ =~= old(self)@.store->Some_0.scanned());
            },
        }
        self.running = Running { search: self.running.search, sort: self.running.sort, filter: false };
        self.stale = true;
    }

    /// A sort is done, or came to nothing.
    pub fn sort_finished(&mut self, rows: Option<Vec<usize>>)
        requires
            old(self).wf(),
        ensures
            final(self).wf(),
            final(self)@ == old(self)@.sort_over(
                match rows {
                    Some(rows) => Some(rows@),
                    None => None,
                },
            ),
    {
        self.running = Running { search: self.running.search, sort: false, filter: self.running.filter };
        if let Some(rows) = rows {
            if self.store.is_some() {
                self.adopt_sorted(rows);
            }
        }
    }

    fn adopt_sorted(&mut self, rows: Vec<usize>)
        requires
            old(self).wf(),
            old(self).store is Some,
        ensures
            final(self).wf(),
            final(self)@ == (Session {
                store: Some(Held { sorted: Some(rows@), ..old(self)@.store->Some_0 }),
                stale: true,
                ..old(self)@
            }),
    {
        proof {
            reveal(sound);
        }
        match &mut self.store {
            None => {},
            Some(store) => {
                store.adopt_sorted(rows);
                assert(store@ =~= (Held { sorted: Some(rows@), ..old(self)@.store->Some_0 }));
            },
        }
        self.stale = true;
    }
}

} // verus!
