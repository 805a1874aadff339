//! Changing what is on show: columns, conditions and order.
use vstd::prelude::*;
use crate::app::motion::least;
use crate::app::session::{sound, App, Limits, Running, Session, Task};
use crate::data::store::{toggled, Held, Source};
use crate::grammar;
use crate::grammar::{known, meaning, parsed};
use crate::text;
use crate::view::{Command, Shown, Slot};

verus! {

/// The rows on show have to be found again after this command. That is a
/// property of the command and not of the state it produces: choosing columns
/// leaves a filter's matches exactly as they were.
pub open spec fn refilters(command: Command) -> bool {
    match command {
        Command::Filter(_) => true,
        Command::Reset(None) => true,
        Command::Reset(Some(slot)) => slot == Slot::Filter,
        _ => false,
    }
}

impl Held {
    /// Why a command cannot be taken for want of memory, if it cannot.
    pub open spec fn sort_refusal(self, command: Command, limits: Limits) -> Option<Seq<char>> {
        match command {
            Command::Sort(keys) => if keys@.len() > 0 && self.source != Source::Lake && !self.fits(
                limits.cells,
            ) {
                Some(self.too_big())
            } else {
                None
            },
            _ => None,
        }
    }

    /// The view asks for an order, or for the rows of a filter, that nothing backs.
    pub open spec fn is_unbacked(self) -> bool {
        self.source != Source::Lake && if self.sort.len() > 0 {
            self.sorted is None
        } else {
            self.filter is Some && self.matches is None
        }
    }

    /// A command that is taken changes which rows are on show, or their order.
    pub open spec fn rearranged(self, command: Command) -> bool {
        match self.shows().after(command, self.names@.len()) {
            Some(view) => view.sort != self.sort || refilters(command),
            None => false,
        }
    }
}

impl Session {
    /// What backs the view built again. The two ways are never both running: a
    /// held sort has the whole table and applies the filter as part of building
    /// it; without a sort the scan is the cheaper answer.
    pub open spec fn rebuilt(self, limits: Limits) -> Session {
        match self.store {
            None => Session {
                running: Running { sort: false, filter: false, ..self.running },
                ..self
            },
            Some(h) => if h.sort.len() == 0 {
                Session {
                    store: Some(h.filtered_anew(limits.rows)),
                    running: Running {
                        sort: false,
                        filter: h.filter is Some && h.source != Source::Lake,
                        ..self.running
                    },
                    stale: true,
                    ..self
                }
            } else {
                Session {
                    store: Some(h.unsorted()),
                    running: Running { sort: true, filter: false, ..self.running },
                    stale: true,
                    ..self
                }
            },
        }
    }

    /// What backs the view built again where nothing does, the cursor left where
    /// it is as far as it can be.
    pub open spec fn backed(self, limits: Limits) -> Session {
        match self.store {
            Some(h) => if h.is_unbacked() {
                self.rebuilt(limits).cursor_to(self.cursor_row as int)
            } else {
                self
            },
            None => self,
        }
    }

    pub open spec fn backing_task(self) -> Task {
        match self.store {
            Some(h) => if !h.is_unbacked() {
                Task::Nothing
            } else if h.sort.len() > 0 {
                Task::Sort
            } else {
                Task::Filter
            },
            None => Task::Nothing,
        }
    }

    /// Cursor and scroll on columns that are on show, and no selection.
    pub open spec fn within_columns(self) -> Session {
        Session {
            cursor_col: least(self.cursor_col as int, self.last_column() as int) as usize,
            col_offset: least(self.col_offset as int, self.last_column() as int) as usize,
            visual_anchor: None,
            ..self
        }
    }

    /// The cursor inside a view that may have fewer columns, and whatever was
    /// keyed to the old numbering gone.
    pub open spec fn reshaped(self, rearranged: bool) -> Session {
        let s = self.within_columns().unsearched();
        if rearranged {
            s.cursor_to(0)
        } else {
            s
        }
    }

    /// A view command taken, or a word on why not.
    pub open spec fn viewed(self, command: Command, limits: Limits) -> Session {
        match self.store {
            None => self.say("no file open"@),
            Some(h) => match h.sort_refusal(command, limits) {
                Some(why) => self.say(why),
                None => match h.shows().after(command, h.names@.len()) {
                    None => self.say("that would hide every column"@),
                    Some(view) => {
                        let s = Session { store: Some(h.showing(view)), stale: true, ..self };
                        if h.rearranged(command) {
                            s.rebuilt(limits).reshaped(true)
                        } else {
                            s.reshaped(false)
                        }
                    },
                },
            },
        }
    }

    /// What has to be done outside once a view command is taken.
    pub open spec fn view_task(self, command: Command, limits: Limits) -> Task {
        match self.store {
            None => Task::Nothing,
            Some(h) => if h.sort_refusal(command, limits) is Some || !h.rearranged(command) {
                Task::Nothing
            } else {
                let view = h.shows().after(command, h.names@.len())->Some_0;
                if view.sort.len() > 0 {
                    Task::Sort
                } else if view.filter is Some && h.source != Source::Lake {
                    Task::Filter
                } else {
                    Task::Nothing
                }
            },
        }
    }

    /// A line of the view language taken, or a word on why not.
    pub open spec fn views(self, after: Session, task: Task, line: Seq<char>, limits: Limits) -> bool {
        match self.store {
            None => task is Nothing && after == self.say("no file open"@),
            Some(h) => match parsed(line, known(h.names@, h.types@)) {
                Err(why) => task is Nothing && after == self.say(why),
                Ok(m) => exists|command: Command| #[trigger]
                    meaning(command) == m && after == self.viewed(command, limits) && task
                        == self.view_task(command, limits),
            },
        }
    }

    /// The table sorted by the cursor's column: its direction turned round where
    /// it was a key already. The order is another, so a search's rows no longer
    /// stand.
    pub open spec fn sorted_here(self, limits: Limits) -> Session {
        let s = Session { visual_anchor: None, ..self };
        match self.store {
            None => s,
            Some(h) => if h.source != Source::Lake && !h.fits(limits.cells) {
                s.say(h.too_big())
            } else {
                let column = self.cursor_col < h.columns().len();
                (Session {
                    store: if column {
                        Some(
                            (Held {
                                sort: toggled(h.sort, h.columns()[self.cursor_col as int]),
                                ..h
                            }).unsorted(),
                        )
                    } else {
                        Some(h)
                    },
                    running: Running { sort: column, ..self.running },
                    stale: self.stale || column,
                    cursor_row: 0,
                    ..s
                }).unsearched()
            },
        }
    }

    pub open spec fn sort_task(self, limits: Limits) -> Task {
        match self.store {
            None => Task::Nothing,
            Some(h) => if (h.source == Source::Lake || h.fits(limits.cells)) && self.cursor_col
                < h.columns().len() {
                Task::Sort
            } else {
                Task::Nothing
            },
        }
    }

    /// Searches and sorts dropped. A filter stays, and a held sort had applied it,
    /// so its rows have to be looked for again.
    pub open spec fn escaped(self, limits: Limits) -> Session {
        let s = self.unsearched().uncounted();
        match s.store {
            Some(h) => if h.sort.len() > 0 {
                (Session {
                    store: Some(Held { sort: Seq::empty(), sorted: None, row_offset: 0, ..h }),
                    cursor_row: 0,
                    ..s
                }).rebuilt(limits)
            } else {
                s
            },
            None => s,
        }
    }

    /// What dropping searches and sorts asks for: the filter's rows.
    pub open spec fn escape_task(self) -> Task {
        match self.store {
            Some(h) => if h.sort.len() > 0 && h.filter is Some && h.source != Source::Lake {
                Task::Filter
            } else {
                Task::Nothing
            },
            None => Task::Nothing,
        }
    }

    /// The column under the cursor taken off the view, with a word on how to get
    /// it back: no key puts one column back, since naming it is the only way to
    /// say which.
    pub open spec fn hidden(self, limits: Limits) -> Session {
        match self.store {
            None => self,
            Some(h) => if self.cursor_col >= h.columns().len() {
                self
            } else {
                let source = h.columns()[self.cursor_col as int];
                match h.shows().after_hiding(source, h.names@.len()) {
                    None => self.say("that would hide every column"@),
                    Some(view) => {
                        let s = (Session { store: Some(h.showing(view)), stale: true, ..self }).reshaped(
                            false,
                        );
                        if s.message is None && source < h.names@.len() {
                            s.say(
                                "hid "@ + h.names@[source as int]@
                                    + " \u{2014} :reset select brings it back"@,
                            )
                        } else {
                            s
                        }
                    },
                }
            },
        }
    }
}

pub open spec fn other_than(column: usize) -> spec_fn(usize) -> bool {
    |c: usize| c != column
}

impl Shown {
    /// The view without one column, or nothing where it is the last.
    pub open spec fn after_hiding(self, column: usize, width: nat) -> Option<Shown> {
        let left = self.columns(width).filter(other_than(column));
        if left.len() == 0 {
            None
        } else {
            Some(Shown { select: Some(left), ..self })
        }
    }
}

fn is_refilter(command: &Command) -> (b: bool)
    ensures
        b == refilters(*command),
{
    match command {
        Command::Filter(_) => true,
        Command::Reset(None) => true,
        Command::Reset(Some(Slot::Filter)) => true,
        _ => false,
    }
}

fn same_keys(a: &Vec<(usize, bool)>, b: &Vec<(usize, bool)>) -> (r: bool)
    ensures
        r == (a@ == b@),
{
    if a.len() != b.len() {
        return false;
    }
    let mut i: usize = 0;
    while i < a.len()
        invariant
            i <= a.len() == b.len(),
            forall|k: int| 0 <= k < i ==> a@[k] == b@[k],
        decreases a.len() - i,
    {
        if a[i].0 != b[i].0 || a[i].1 != b[i].1 {
            return false;
        }
        i += 1;
    }
    assert(a@ =~= b@);
    true
}

fn copied_keys(keys: &Vec<(usize, bool)>) -> (out: Vec<(usize, bool)>)
    ensures
        out@ == keys@,
{
    let mut out: Vec<(usize, bool)> = Vec::new();
    let mut i: usize = 0;
    while i < keys.len()
        invariant
            i <= keys.len(),
            out@ == keys@.take(i as int),
        decreases keys.len() - i,
    {
        out.push(keys[i]);
        assert(out@ =~= keys@.take(i + 1));
        i += 1;
    }
    assert(keys@.take(i as int) =~= keys@);
    out
}

impl App {
    /// Build again what backs the view, after a sort or a filter changed.
    fn rebuild_view(&mut self, limits: Limits) -> (task: Task)
        requires
            old(self).wf(),
            old(self).store is Some,
        ensures
            final(self).wf(),
            final(self)@ == old(self)@.rebuilt(limits),
            ({
                let h = old(self)@.store->Some_0;
                task == if h.sort.len() > 0 {
                    Task::Sort
                } else if h.filter is Some && h.source != Source::Lake {
                    Task::Filter
                } else {
                    Task::Nothing
                }
            }),
    {
        proof {
            reveal(sound);
        }
        self.stale = true;
        let search = self.running.search;
        let ghost h = self@.store->Some_0;
        let mut sort = false;
        let mut filter = false;
        match &mut self.store {
            None => {},
            Some(store) => {
                if store.view.sort.is_empty() {
                    filter = store.begin_filter(limits.rows);
                    assert(store@ =~= h.filtered_anew(limits.rows));
                } else {
                    store.resort();
                    sort = true;
                    assert(store@ =~= h.unsorted());
                }
            },
        }
        self.running = Running { search, sort, filter };
        assert(self@ =~= old(self)@.rebuilt(limits));
        if sort {
            Task::Sort
        } else if filter {
            Task::Filter
        } else {
            Task::Nothing
        }
    }

    /// Build what backs the view where nothing does.
    pub(crate) fn back_view(&mut self, limits: Limits) -> (task: Task)
        requires
            old(self).wf(),
        ensures
            final(self).wf(),
            final(self)@ == old(self)@.backed(limits),
            task == old(self)@.backing_task(),
    {
        proof {
            reveal(sound);
        }
        let unbacked = match &self.store {
            None => false,
            Some(store) => {
                let lake = match store.source {
                    Source::Lake => true,
                    _ => false,
                };
                !lake && if store.view.sort.is_empty() {
                    store.view.filter.is_some() && store.filter_rows.is_none()
                } else {
                    store.sorted.is_none()
                }
            },
        };
        if !unbacked {
            return Task::Nothing;
        }
        let row = self.cursor_row;
        let task = self.rebuild_view(limits);
        self.cursor_to(row);
        task
    }

    /// Put the cursor back inside the view, and drop whatever was keyed to the
    /// old numbering.
    fn after_view_change(&mut self, rearranged: bool)
        requires
            old(self).wf(),
        ensures
            final(self).wf(),
            final(self)@ == old(self)@.reshaped(rearranged),
    {
        self.within_columns();
        self.unsearch();
        if rearranged {
            self.cursor_to(0);
        }
    }

    /// Cursor and scroll on columns that are on show, and no selection.
    fn within_columns(&mut self)
        requires
            old(self).wf(),
        ensures
            final(self).wf(),
            final(self)@ == old(self)@.within_columns(),
    {
        let last = self.last_column();
        let column: usize = if self.cursor_col < last { self.cursor_col } else { last };
        let offset: usize = if self.col_offset < last { self.col_offset } else { last };
        self.cursor_col = column;
        self.col_offset = offset;
        self.visual_anchor = None;
    }

    /// Why a view command cannot be taken for want of memory, if it cannot.
    fn too_big_for(&self, command: &Command, limits: Limits) -> (why: Option<String>)
        requires
            self.wf(),
            self.store is Some,
        ensures
            match why {
                Some(text) => self@.store->Some_0.sort_refusal(*command, limits) == Some(text@),
                None => self@.store->Some_0.sort_refusal(*command, limits) is None,
            },
    {
        proof {
            reveal(sound);
        }
        match command {
            Command::Sort(keys) => if keys.is_empty() {
                None
            } else {
                match &self.store {
                    Some(store) => store.sort_blocked_by(limits.cells),
                    None => None,
                }
            },
            _ => None,
        }
    }

    /// Let the store take a command. Returns whether it did and whether that
    /// rearranged the rows.
    fn reshape(&mut self, command: Command) -> (done: (bool, bool))
        requires
            old(self).wf(),
            old(self).store is Some,
        ensures
            final(self).wf(),
            ({
                let h = old(self)@.store->Some_0;
                match h.shows().after(command, h.names@.len()) {
                    Some(view) => done == (true, h.rearranged(command)) && final(self)@ == (Session {
                        store: Some(h.showing(view)),
                        stale: true,
                        ..old(self)@
                    }),
                    None => !done.0 && final(self)@ == old(self)@,
                }
            }),
    {
        proof {
            reveal(sound);
        }
        let refilter = is_refilter(&command);
        let mut done = false;
        let mut reordered = false;
        let ghost h = self@.store->Some_0;
        match &mut self.store {
            None => {},
            Some(store) => {
                let before = copied_keys(&store.view.sort);
                done = store.reshape(command);
                reordered = !same_keys(&store.view.sort, &before);
            },
        }
        if done {
            self.stale = true;
        }
        proof {
            match h.shows().after(command, h.names@.len()) {
                Some(view) => {
                    assert(self@ =~= (Session { store: Some(h.showing(view)), stale: true, ..old(self)@ }));
                },
                None => {
                    assert(self@ =~= old(self)@);
                },
            }
        }
        (done, reordered || refilter)
    }

    /// Adopt a view command, whether it was typed or came from a key.
    pub fn apply_view_command(&mut self, command: Command, limits: Limits) -> (task: Task)
        requires
            old(self).wf(),
        ensures
            final(self).wf(),
            final(self)@ == old(self)@.viewed(command, limits),
            task == old(self)@.view_task(command, limits),
    {
        if self.store.is_none() {
            self.say("no file open");
            return Task::Nothing;
        }
        // Asked before the key is recorded, so a refusal leaves the view as it
        // was rather than in an order nothing can produce.
        if let Some(why) = self.too_big_for(&command, limits) {
            self.message = Some(why);
            return Task::Nothing;
        }
        let (done, rearranged) = self.reshape(command);
        if !done {
            self.say("that would hide every column");
            return Task::Nothing;
        }
        let task = if rearranged {
            self.rebuild_view(limits)
        } else {
            Task::Nothing
        };
        self.after_view_change(rearranged);
        task
    }
}

proof fn lemma_hiding_one(view: Shown, column: usize, hide: Vec<usize>, width: nat)
    requires
        hide@ == seq![column],
    ensures
        view.after(Command::Hide(hide), width) == view.after_hiding(column, width),
{
    let one = other_than(column);
    let listed = |c: usize| !hide@.contains(c);
    assert forall|c: usize| #[trigger] listed(c) == one(c) by {
        if c == column {
            assert(hide@[0] == c);
        }
    }
    assert(listed =~= one);
}

impl App {
    /// Take the cursor column off the view: hiding it by name, without the name.
    ///
    /// The cursor is left where the column was, on whatever has moved into that
    /// position.
    pub fn hide_column(&mut self, limits: Limits)
        requires
            old(self).wf(),
        ensures
            final(self).wf(),
            final(self)@ == old(self)@.hidden(limits),
    {
        let (source, name): (usize, Option<String>) = match &self.store {
            None => {
                return;
            },
            Some(store) => match store.source_column(self.cursor_col) {
                None => {
                    return;
                },
                Some(c) => (
                    c,
                    if c < store.names.len() {
                        Some(store.names[c].clone())
                    } else {
                        None
                    },
                ),
            },
        };
        let hide = vec![source];
        proof {
            assert(hide@ =~= seq![source]);
            let h = self@.store->Some_0;
            lemma_hiding_one(h.shows(), source, hide, h.names@.len());
        }
        let _ = self.apply_view_command(Command::Hide(hide), limits);
        if let Some(name) = name {
            self.say_hidden(name.as_str());
        }
    }

    /// Say how to get a hidden column back, unless there is something else to
    /// say.
    fn say_hidden(&mut self, name: &str)
        requires
            old(self).wf(),
        ensures
            final(self).wf(),
            final(self)@ == if old(self)@.message is None {
                old(self)@.say("hid "@ + name@ + " \u{2014} :reset select brings it back"@)
            } else {
                old(self)@
            },
    {
        if self.message.is_none() {
            let mut out = text::joined("hid ", name);
            text::push_str(&mut out, " \u{2014} :reset select brings it back");
            self.message = Some(out);
        }
    }

    /// Sort by the cursor column, or turn its direction round.
    pub fn sort_here(&mut self, limits: Limits) -> (task: Task)
        requires
            old(self).wf(),
        ensures
            final(self).wf(),
            final(self)@ == old(self)@.sorted_here(limits),
            task == old(self)@.sort_task(limits),
    {
        self.visual_anchor = None;
        let ghost s = self@;
        assert(s =~= (Session { visual_anchor: None, ..old(self)@ }));
        proof {
            reveal(sound);
        }
        let blocked: Option<String> = match &self.store {
            None => {
                return Task::Nothing;
            },
            Some(store) => store.sort_blocked_by(limits.cells),
        };
        if let Some(why) = blocked {
            self.message = Some(why);
            return Task::Nothing;
        }
        let sorting = self.begin_sort();
        self.cursor_row = 0;
        self.unsearch();
        if sorting {
            Task::Sort
        } else {
            Task::Nothing
        }
    }

    /// Let the store sort by the cursor column.
    fn begin_sort(&mut self) -> (sorting: bool)
        requires
            old(self).wf(),
            old(self).store is Some,
        ensures
            final(self).wf(),
            ({
                let h = old(self)@.store->Some_0;
                &&& sorting == (old(self).cursor_col < h.columns().len())
                &&& final(self)@ == (Session {
                    store: if sorting {
                        Some(
                            (Held {
                                sort: toggled(h.sort, h.columns()[old(self).cursor_col as int]),
                                ..h
                            }).unsorted(),
                        )
                    } else {
                        Some(h)
                    },
                    running: Running { sort: sorting, ..old(self)@.running },
                    stale: old(self).stale || sorting,
                    ..old(self)@
                })
            }),
    {
        proof {
            reveal(sound);
        }
        let column = self.cursor_col;
        let ghost h = self@.store->Some_0;
        let mut sorting = false;
        match &mut self.store {
            None => {},
            Some(store) => {
                sorting = store.begin_sort(column);
                if sorting {
                    store.resort();
                    assert(store@ =~= (Held {
                        sort: toggled(h.sort, h.columns()[column as int]),
                        ..h
                    }).unsorted());
                } else {
                    assert(store@ =~= h);
                }
            },
        }
        self.running = Running { search: self.running.search, sort: sorting, filter: self.running.filter };
        self.stale = self.stale || sorting;
        sorting
    }

    /// Drop searches and sorts.
    pub fn escape(&mut self, limits: Limits) -> (task: Task)
        requires
            old(self).wf(),
        ensures
            final(self).wf(),
            final(self)@ == old(self)@.escaped(limits),
            task == old(self)@.escape_task(),
    {
        self.unsearch();
        self.uncount();
        let sorted = match &self.store {
            Some(store) => !store.view.sort.is_empty(),
            None => false,
        };
        if sorted {
            self.clear_sort();
            self.rebuild_view(limits)
        } else {
            Task::Nothing
        }
    }

    fn clear_sort(&mut self)
        requires
            old(self).wf(),
            old(self).store is Some,
        ensures
            final(self).wf(),
            final(self)@ == (Session {
                store: Some(
                    Held { sort: Seq::empty(), sorted: None, row_offset: 0, ..old(self)@.store->Some_0 },
                ),
                cursor_row: 0,
                ..old(self)@
            }),
    {
        proof {
            reveal(sound);
        }
        let ghost h = self@.store->Some_0;
        match &mut self.store {
            None => {},
            Some(store) => {
                store.clear_sort();
                assert(store@ =~= (Held { sort: Seq::empty(), sorted: None, row_offset: 0, ..h }));
            },
        }
        self.cursor_row = 0;
    }

    /// A line of the view language. Parsed and checked against the columns
    /// first; one that will not do is refused with a word on why.
    pub fn run_view_command(&mut self, line: &str, limits: Limits) -> (task: Task)
        requires
            old(self).wf(),
            line@.len() <= usize::MAX - 5,
        ensures
            final(self).wf(),
            old(self)@.views(final(self)@, task, line@, limits),
    {
        proof {
            reveal(sound);
        }
        let read = match &self.store {
            None => {
                self.say("no file open");
                return Task::Nothing;
            },
            Some(store) => grammar::parse(line, store.names.as_slice(), store.types.as_slice()),
        };
        match read {
            Err(why) => {
                self.message = Some(why);
                Task::Nothing
            },
            Ok(command) => {
                let ghost m = meaning(command);
                self.apply_view_command(command, limits)
            },
        }
    }
}

} // verus!
