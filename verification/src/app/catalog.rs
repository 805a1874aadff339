//! Browsing a lake: its tables, their partitions, and its snapshots.
use vstd::prelude::*;
use crate::app::keys::Key;
use crate::app::session::{sound, App, Running, Screen, Session, Task};
use crate::data::lake_db::{upto, Partition, TableInfo};
use crate::data::store::{Held, Store};
use crate::lake::{Lake, Level, Scope};
use crate::text;
use crate::text::signed_text;

verus! {

/// Where the first table with a qualified name stands from an index on.
pub open spec fn table_at(tables: Seq<TableInfo>, name: Seq<char>, from: int) -> Option<int>
    decreases tables.len() - from,
{
    if from < 0 || from >= tables.len() {
        None
    } else if tables[from].qualified() == name {
        Some(from)
    } else {
        table_at(tables, name, from + 1)
    }
}

impl Lake {
    /// A table whose rows lie in partitions.
    pub open spec fn is_partitioned(self, table: usize) -> bool {
        table < self.tables@.len() && self.tables@[table as int].partition_cols@.len() > 0
    }

    /// The name of the table on show.
    pub open spec fn scope_table(self) -> Option<Seq<char>> {
        match self.scope {
            Some(scope) => if scope.table < self.tables@.len() {
                Some(self.tables@[scope.table as int].qualified())
            } else {
                None
            },
            None => None,
        }
    }

    /// How many rows a scope has, if there is such a scope.
    pub open spec fn scope_rows(self, scope: Scope) -> Option<u64> {
        if scope.table >= self.tables@.len() {
            None
        } else {
            match scope.partition {
                Some(i) => if i < self.partitions@.len() {
                    Some(self.partitions@[i as int].rows)
                } else {
                    None
                },
                None => Some(self.tables@[scope.table as int].rows),
            }
        }
    }
}

impl Session {
    pub open spec fn with_lake(self, lake: Lake) -> Session {
        Session { lake: Some(lake), ..self }
    }

    /// Out of a list of partitions or snapshots to the tables, and from there to
    /// the viewer, if it has anything to show.
    pub open spec fn backed_out(self, lake: Lake) -> Session {
        match lake.level {
            Level::Partitions { table } => self.with_lake(lake.listing(Level::Tables, table as int)),
            Level::Snapshots => self.with_lake(lake.listing(Level::Tables, 0)),
            Level::Tables => if self.store is Some {
                Session { screen: Screen::Viewer, ..self }
            } else {
                self
            },
        }
    }

    /// What a key in the browser changes.
    pub open spec fn browser_key(self, key: Key, ctrl: bool) -> Session {
        match self.lake {
            None => self,
            Some(lake) => {
                let half = self.last_vp as int / 2;
                match key {
                    Key::Down => self.with_lake(lake.at(lake.state.selected + 1)),
                    Key::Up => self.with_lake(lake.at(lake.state.selected - 1)),
                    Key::Home => self.with_lake(lake.at(0)),
                    Key::End => self.with_lake(lake.at(lake.entries() - 1)),
                    Key::Right => self.descended(lake),
                    Key::Left | Key::Esc => self.backed_out(lake),
                    Key::Char(c) => if c == 'q' || c == 'Q' {
                        Session { exit: true, ..self }
                    } else if c == 'j' {
                        self.with_lake(lake.at(lake.state.selected + 1))
                    } else if c == 'k' {
                        self.with_lake(lake.at(lake.state.selected - 1))
                    } else if c == 'd' && ctrl {
                        self.with_lake(lake.at(lake.state.selected + half))
                    } else if c == 'u' && ctrl {
                        self.with_lake(lake.at(lake.state.selected - half))
                    } else if c == 'g' {
                        self.with_lake(lake.at(0))
                    } else if c == 'G' {
                        self.with_lake(lake.at(lake.entries() - 1))
                    } else if c == 'l' || c == 'f' {
                        self.descended(lake)
                    } else if c == 'T' {
                        self.with_lake(lake.listing_snapshots())
                    } else if c == 'h' {
                        self.backed_out(lake)
                    } else {
                        self
                    },
                    _ => self,
                }
            },
        }
    }

    /// What going down to the partitions comes to by itself.
    pub open spec fn descended(self, lake: Lake) -> Session {
        if lake.level == Level::Tables && !lake.is_partitioned(lake.state.selected) {
            self.say("Table is not partitioned"@)
        } else {
            self
        }
    }

    /// What a key in the browser asks for.
    pub open spec fn browser_asks(self, task: Task, key: Key) -> bool {
        match self.lake {
            None => task is Nothing,
            Some(lake) => {
                let selected = lake.state.selected;
                match (key, lake.level) {
                    (Key::Char('l'), Level::Tables)
                    | (Key::Char('f'), Level::Tables)
                    | (Key::Right, Level::Tables) => if lake.is_partitioned(selected) {
                        task == Task::Partitions { table: selected, select: 0 }
                    } else {
                        task is Nothing
                    },
                    (Key::Char('a'), Level::Partitions { table }) => task == Task::Open(
                        Scope { table, partition: None },
                    ),
                    (Key::Enter, Level::Tables) => task == Task::Open(
                        Scope { table: selected, partition: None },
                    ),
                    (Key::Enter, Level::Partitions { table }) => task == Task::Open(
                        Scope { table, partition: Some(selected) },
                    ),
                    (Key::Enter, Level::Snapshots) => if selected < lake.snapshots@.len() {
                        let s = lake.snapshots@[selected as int];
                        task matches Task::Travel { snapshot, time } && snapshot == s.id && time@ == upto(
                            s.time@,
                            '.',
                        )
                    } else {
                        task is Nothing
                    },
                    _ => task is Nothing,
                }
            },
        }
    }

    /// The partitions of a table listed, or a word on why not.
    pub open spec fn partitions_shown(
        self,
        table: usize,
        select: usize,
        loaded: Result<Option<Vec<Partition>>, Seq<char>>,
    ) -> Session {
        match self.lake {
            None => self,
            Some(lake) => match loaded {
                Err(why) => self.say("Cannot list partitions: "@ + why),
                Ok(list) => {
                    let l = match list {
                        Some(partitions) => Lake { partitions, partitions_of: Some(table), ..lake },
                        None => lake,
                    };
                    Session {
                        screen: Screen::Browser,
                        ..self.with_lake(l.listing(Level::Partitions { table }, select as int))
                    }
                },
            },
        }
    }

    /// What belonged to another table gone.
    pub open spec fn view_reset(self) -> Session {
        Session {
            col_offset: 0,
            cursor_row: 0,
            cursor_col: 0,
            pending_num: Seq::empty(),
            hunt: None,
            running: Running { search: false, sort: false, filter: false },
            ..self
        }
    }

    /// A scope opened in the viewer, or a word on why not.
    pub open spec fn scope_opened(self, scope: Scope, opened: Result<Held, Seq<char>>) -> Session {
        match opened {
            Ok(h) => Session {
                lake: match self.lake {
                    Some(lake) => Some(Lake { scope: Some(scope), ..lake }),
                    None => None,
                },
                screen: Screen::Viewer,
                store: Some(h),
                stale: true,
                ..self.view_reset()
            },
            Err(why) => self.say("Cannot open: "@ + why),
        }
    }

    /// The catalog as of another snapshot, with nothing of the old one open.
    pub open spec fn traveled(self, snapshot: i64, reopened: Result<Lake, Seq<char>>) -> Session {
        match (self.lake, reopened) {
            (None, _) => self,
            (Some(_), Err(why)) => self.say(
                "Cannot read snapshot "@ + signed_text(snapshot as int) + ": "@ + why,
            ),
            (Some(_), Ok(lake)) => Session { store: None, lake: Some(lake), ..self.view_reset() },
        }
    }

    /// The table on show found again by name in another catalog, so that the
    /// same data can be compared across snapshots.
    pub open spec fn same_table(self, reopened: Result<Lake, Seq<char>>) -> Option<int> {
        match (self.lake, reopened) {
            (Some(lake), Ok(other)) => match lake.scope_table() {
                Some(name) => table_at(other.tables@, name, 0),
                None => None,
            },
            _ => None,
        }
    }

    /// Where the journey ended, in a word.
    pub open spec fn landed(self, table: Option<usize>, snapshot: i64, time: Seq<char>) -> Session {
        (match (table, self.lake) {
            (Some(table), Some(lake)) => self.with_lake(lake.at(table as int)),
            _ => self,
        }).say("Snapshot "@ + signed_text(snapshot as int) + " ("@ + time + ")"@)
    }
}

impl App {
    fn move_lake(&mut self, delta: isize)
        requires
            old(self).wf(),
            old(self).lake is Some,
        ensures
            final(self).wf(),
            final(self)@ == old(self)@.with_lake(
                old(self).lake->Some_0.at(old(self).lake->Some_0.state.selected + delta),
            ),
    {
        match &mut self.lake {
            Some(lake) => lake.move_by(delta),
            None => {},
        }
    }

    fn lake_to(&mut self, end: bool)
        requires
            old(self).wf(),
            old(self).lake is Some,
        ensures
            final(self).wf(),
            ({
                let lake = old(self).lake->Some_0;
                final(self)@ == old(self)@.with_lake(lake.at(if end { lake.entries() - 1 } else { 0 }))
            }),
    {
        match &mut self.lake {
            Some(lake) => {
                let n = lake.list_len();
                lake.go_to(if end { n.saturating_sub(1) } else { 0 });
            },
            None => {},
        }
    }

    /// Down into the partition list of the selected table.
    fn descend(&mut self) -> (task: Task)
        requires
            old(self).wf(),
            old(self).lake is Some,
        ensures
            final(self).wf(),
            final(self)@ == old(self)@.descended(old(self).lake->Some_0),
            old(self)@.browser_asks(task, Key::Right),
    {
        let (tables, selected, partitioned): (bool, usize, bool) = match &self.lake {
            None => (false, 0, false),
            Some(lake) => {
                let tables = match lake.level {
                    Level::Tables => true,
                    _ => false,
                };
                let selected = lake.state.selected;
                let partitioned = match lake.table(selected) {
                    Some(t) => !t.partition_cols.is_empty(),
                    None => false,
                };
                (tables, selected, partitioned)
            },
        };
        if tables {
            if partitioned {
                return Task::Partitions { table: selected, select: 0 };
            }
            self.say("Table is not partitioned");
        }
        Task::Nothing
    }

    /// Show the lake's snapshots.
    pub(crate) fn list_snapshots(&mut self)
        requires
            old(self).wf(),
            old(self).lake is Some,
        ensures
            final(self).wf(),
            final(self)@ == old(self)@.with_lake(old(self).lake->Some_0.listing_snapshots()),
    {
        match &mut self.lake {
            Some(lake) => lake.show_snapshots(),
            None => {},
        }
    }

    /// Out of a list to the one above it.
    fn back_out(&mut self)
        requires
            old(self).wf(),
            old(self).lake is Some,
        ensures
            final(self).wf(),
            final(self)@ == old(self)@.backed_out(old(self).lake->Some_0),
    {
        let open = self.store.is_some();
        let mut leave = false;
        match &mut self.lake {
            None => {},
            Some(lake) => match lake.level {
                Level::Partitions { table } => lake.show_list(Level::Tables, table),
                Level::Snapshots => lake.show_list(Level::Tables, 0),
                Level::Tables => {
                    leave = open;
                },
            },
        }
        if leave {
            self.screen = Screen::Viewer;
        }
    }

    /// What to open: the selected table, partition or snapshot.
    fn enter_lake(&self) -> (task: Task)
        requires
            self.lake is Some,
        ensures
            self@.browser_asks(task, Key::Enter),
    {
        match &self.lake {
            None => Task::Nothing,
            Some(lake) => match lake.level {
                Level::Tables => Task::Open(Scope { table: lake.state.selected, partition: None }),
                Level::Partitions { table } => Task::Open(
                    Scope { table, partition: Some(lake.state.selected) },
                ),
                Level::Snapshots => if lake.state.selected < lake.snapshots.len() {
                    let s = &lake.snapshots[lake.state.selected];
                    Task::Travel { snapshot: s.id, time: s.short_time() }
                } else {
                    Task::Nothing
                },
            },
        }
    }

    /// The whole table, while standing in its partition list.
    fn whole_table(&self) -> (task: Task)
        requires
            self.lake is Some,
        ensures
            self@.browser_asks(task, Key::Char('a')),
    {
        match &self.lake {
            None => Task::Nothing,
            Some(lake) => match lake.level {
                Level::Partitions { table } => Task::Open(Scope { table, partition: None }),
                _ => Task::Nothing,
            },
        }
    }

    fn browser_char(&mut self, c: char, ctrl: bool) -> (task: Task)
        requires
            old(self).wf(),
            old(self).lake is Some,
        ensures
            final(self).wf(),
            final(self)@ == old(self)@.browser_key(Key::Char(c), ctrl),
            old(self)@.browser_asks(task, Key::Char(c)),
    {
        let half: isize = (self.last_vp / 2) as isize;
        match c {
            'l' | 'f' => self.descend(),
            'a' => self.whole_table(),
            'q' | 'Q' => {
                self.exit = true;
                Task::Nothing
            },
            'j' => {
                self.move_lake(1);
                Task::Nothing
            },
            'k' => {
                self.move_lake(-1);
                Task::Nothing
            },
            'd' => {
                if ctrl {
                    self.move_lake(half);
                }
                Task::Nothing
            },
            'u' => {
                if ctrl {
                    self.move_lake(-half);
                }
                Task::Nothing
            },
            'g' => {
                self.lake_to(false);
                Task::Nothing
            },
            'G' => {
                self.lake_to(true);
                Task::Nothing
            },
            'T' => {
                self.list_snapshots();
                Task::Nothing
            },
            'h' => {
                self.back_out();
                Task::Nothing
            },
            _ => Task::Nothing,
        }
    }

    /// A key in the browser.
    pub fn handle_browser_key(&mut self, key: Key, ctrl: bool) -> (task: Task)
        requires
            old(self).wf(),
        ensures
            final(self).wf(),
            final(self)@ == old(self)@.browser_key(key, ctrl),
            old(self)@.browser_asks(task, key),
    {
        if self.lake.is_none() {
            return Task::Nothing;
        }
        match key {
            Key::Char(c) => self.browser_char(c, ctrl),
            Key::Right => self.descend(),
            Key::Enter => self.enter_lake(),
            Key::Down => {
                self.move_lake(1);
                Task::Nothing
            },
            Key::Up => {
                self.move_lake(-1);
                Task::Nothing
            },
            Key::Home => {
                self.lake_to(false);
                Task::Nothing
            },
            Key::End => {
                self.lake_to(true);
                Task::Nothing
            },
            Key::Left | Key::Esc => {
                self.back_out();
                Task::Nothing
            },
            _ => Task::Nothing,
        }
    }

    /// The partitions of a table have been listed, unless they were known, or
    /// could not be.
    pub fn show_partitions(
        &mut self,
        table: usize,
        select: usize,
        loaded: Result<Option<Vec<Partition>>, String>,
    )
        requires
            old(self).wf(),
        ensures
            final(self).wf(),
            final(self)@ == old(self)@.partitions_shown(
                table,
                select,
                match loaded {
                    Ok(list) => Ok(list),
                    Err(why) => Err(why@),
                },
            ),
    {
        if self.lake.is_none() {
            return;
        }
        let list = match loaded {
            Err(why) => {
                let text = text::joined("Cannot list partitions: ", why.as_str());
                self.message = Some(text);
                return;
            },
            Ok(list) => list,
        };
        match &mut self.lake {
            None => {},
            Some(lake) => {
                if let Some(partitions) = list {
                    lake.load_partitions(table, partitions);
                }
                lake.show_list(Level::Partitions { table }, select);
            },
        }
        self.screen = Screen::Browser;
    }

    /// Clear what belongs to the table on show, when another one is loaded.
    fn reset_view(&mut self)
        requires
            old(self).wf(),
        ensures
            final(self).wf(),
            final(self)@ == old(self)@.view_reset(),
    {
        self.col_offset = 0;
        self.cursor_row = 0;
        self.cursor_col = 0;
        self.uncount();
        self.search_state = None;
        self.running = Running { search: false, sort: false, filter: false };
    }

    /// How many rows a scope has, if there is such a scope.
    pub fn scope_rows(&self, scope: Scope) -> (rows: Option<u64>)
        ensures
            rows == match self.lake {
                Some(lake) => lake.scope_rows(scope),
                None => None,
            },
    {
        match &self.lake {
            None => None,
            Some(lake) => match lake.table(scope.table) {
                None => None,
                Some(t) => match scope.partition {
                    None => Some(t.rows),
                    Some(i) => if i < lake.partitions.len() {
                        Some(lake.partitions[i].rows)
                    } else {
                        None
                    },
                },
            },
        }
    }

    fn note_scope(&mut self, scope: Scope)
        requires
            old(self).wf(),
        ensures
            final(self).wf(),
            final(self)@ == (Session {
                lake: match old(self).lake {
                    Some(lake) => Some(Lake { scope: Some(scope), ..lake }),
                    None => None,
                },
                ..old(self)@
            }),
    {
        match &mut self.lake {
            Some(lake) => {
                lake.scope = Some(scope);
            },
            None => {},
        }
    }

    /// A scope has been opened, or could not be: then the browser stays, so
    /// another can be picked.
    pub fn open_scope(&mut self, scope: Scope, opened: Result<Store, String>)
        requires
            old(self).wf(),
            opened matches Ok(store) ==> store.wf(),
        ensures
            final(self).wf(),
            final(self)@ == old(self)@.scope_opened(
                scope,
                match opened {
                    Ok(store) => Ok(store@),
                    Err(why) => Err(why@),
                },
            ),
    {
        match opened {
            Ok(store) => {
                self.reset_view();
                self.note_scope(scope);
                self.screen = Screen::Viewer;
                self.stale = true;
                proof {
                    reveal(sound);
                }
                self.store = Some(store);
            },
            Err(why) => {
                let text = text::joined("Cannot open: ", why.as_str());
                self.message = Some(text);
            },
        }
    }

    /// The table on show, found again in another catalog.
    fn find_again(&self, other: &Lake) -> (at: Option<usize>)
        requires
            self.lake is Some,
        ensures
            match at {
                Some(i) => self@.same_table(Ok(*other)) == Some(i as int),
                None => self@.same_table(Ok(*other)) is None,
            },
    {
        let name: String = match &self.lake {
            None => {
                return None;
            },
            Some(lake) => match lake.scope {
                None => {
                    return None;
                },
                Some(scope) => match lake.table(scope.table) {
                    None => {
                        return None;
                    },
                    Some(t) => t.qualified_name(),
                },
            },
        };
        let mut i: usize = 0;
        while i < other.tables.len()
            invariant
                i <= other.tables@.len(),
                self.lake is Some,
                self.lake->Some_0.scope_table() == Some(name@),
                table_at(other.tables@, name@, 0) == table_at(other.tables@, name@, i as int),
            decreases other.tables@.len() - i,
        {
            if text::same(other.tables[i].qualified_name().as_str(), name.as_str()) {
                return Some(i);
            }
            i += 1;
        }
        None
    }

    /// The catalog has been read as of a snapshot, or could not be. Returns the
    /// table to open again: the one that was on show, where the snapshot has it.
    /// A partition is widened to its table, since partitions are not the same
    /// from one snapshot to the next.
    pub fn switch_snapshot(&mut self, snapshot: i64, reopened: Result<Lake, String>) -> (table: Option<usize>)
        requires
            old(self).wf(),
        ensures
            final(self).wf(),
            ({
                let outcome = match reopened {
                    Ok(lake) => Ok(lake),
                    Err(why) => Err(why@),
                };
                &&& final(self)@ == old(self)@.traveled(snapshot, outcome)
                &&& match table {
                    Some(i) => old(self)@.same_table(outcome) == Some(i as int),
                    None => old(self)@.same_table(outcome) is None,
                }
            }),
    {
        if self.lake.is_none() {
            return None;
        }
        match reopened {
            Err(why) => {
                let mut out = text::joined("Cannot read snapshot ", text::signed(snapshot).as_str());
                text::push_str(&mut out, ": ");
                text::push_str(&mut out, why.as_str());
                self.message = Some(out);
                None
            },
            Ok(lake) => {
                let table = self.find_again(&lake);
                proof {
                    reveal(sound);
                }
                self.store = None;
                self.reset_view();
                self.lake = Some(lake);
                table
            },
        }
    }

    /// Say where a journey to a snapshot ended. Whether or not the table was
    /// there again, this is the thing to report.
    pub fn land(&mut self, table: Option<usize>, snapshot: i64, time: &str)
        requires
            old(self).wf(),
        ensures
            final(self).wf(),
            final(self)@ == old(self)@.landed(table, snapshot, time@),
    {
        if let Some(table) = table {
            match &mut self.lake {
                Some(lake) => lake.go_to(table),
                None => {},
            }
        }
        let mut out = text::joined("Snapshot ", text::signed(snapshot).as_str());
        text::push_str(&mut out, " (");
        text::push_str(&mut out, time);
        text::push_str(&mut out, ")");
        self.message = Some(out);
    }
}

} // verus!
