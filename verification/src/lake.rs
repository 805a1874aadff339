//! Navigation state for browsing a lake: the table list, the per-table
//! partition list, the snapshot list, and which slice the viewer is currently
//! showing.
use vstd::prelude::*;
use crate::data::lake_db::{grouped, human_bytes, human_count, size_text, Partition, Snapshot, TableInfo, upto};
use crate::text;
use crate::text::{decimal_text, join_text, signed_text, texts};
use crate::ui::{held, BrowserState, Width};

verus! {

/// Which list the browser is currently showing.
#[derive(Clone, Copy, Debug, PartialEq, Eq, Structural)]
pub enum Level {
    Tables,
    Partitions { table: usize },
    Snapshots,
}

/// What the data viewer is currently scanning: a whole table, or one partition.
#[derive(Clone, Copy, Debug, PartialEq, Eq, Structural)]
pub struct Scope {
    pub table: usize,
    /// `None` for the whole table.
    pub partition: Option<usize>,
}

pub struct Lake {
    /// What the lake is called: the directory its catalog lies in.
    pub name: String,
    pub snapshot: i64,
    pub snapshots: Vec<Snapshot>,
    pub tables: Vec<TableInfo>,
    /// Partitions of the table currently being browsed. Loaded on demand,
    /// because each list costs a pass over the table.
    pub partitions: Vec<Partition>,
    pub partitions_of: Option<usize>,
    pub level: Level,
    pub state: BrowserState,
    pub scope: Option<Scope>,
}

/// Where the first snapshot with an id stands from an entry on, or 0.
pub open spec fn snapshot_at(snapshots: Seq<Snapshot>, id: i64, from: int) -> int
    decreases snapshots.len() - from,
{
    if from < 0 || from >= snapshots.len() {
        0
    } else if snapshots[from].id == id {
        from
    } else {
        snapshot_at(snapshots, id, from + 1)
    }
}

/// `1 table` and `2 tables`.
pub open spec fn plural_text(n: nat, noun: Seq<char>) -> Seq<char> {
    decimal_text(n) + " "@ + noun + (if n == 1 { ""@ } else { "s"@ })
}

/// A text, or a dash where there is none.
pub open spec fn or_dash(text: Seq<char>) -> Seq<char> {
    if text.len() == 0 {
        "\u{2014}"@
    } else {
        text
    }
}

pub open spec fn table_line(t: TableInfo) -> Seq<Seq<char>> {
    seq![
        t.qualified(),
        grouped(t.rows as nat),
        size_text(t.file_size as nat),
        decimal_text(t.file_count as nat),
        if t.partition_cols@.len() == 0 {
            "\u{2014}"@
        } else {
            join_text(texts(t.partition_cols@), ", "@)
        },
        if t.delete_file_count == 0 {
            "\u{2014}"@
        } else {
            decimal_text(t.delete_file_count as nat)
        },
    ]
}

pub open spec fn partition_line(p: Partition, share: Seq<char>) -> Seq<Seq<char>> {
    seq![p.label_text(), grouped(p.rows as nat), share]
}

pub open spec fn snapshot_line(s: Snapshot, current: i64) -> Seq<Seq<char>> {
    seq![
        if s.id == current { "\u{25b8}"@ } else { " "@ },
        signed_text(s.id as int),
        upto(s.time@, '.'),
        "v"@ + signed_text(s.schema_version as int),
        match s.commit_message {
            Some(message) => message@,
            None => or_dash(s.changes@),
        },
    ]
}

/// `1 table` and `2 tables`.
pub fn plural(n: usize, noun: &str) -> (out: String)
    ensures
        out@ == plural_text(n as nat, noun@),
{
    let mut out = text::decimal(n);
    text::push_str(&mut out, " ");
    text::push_str(&mut out, noun);
    text::push_str(&mut out, if n == 1 { "" } else { "s" });
    out
}

impl Lake {
    pub fn new(name: String, snapshot: i64, snapshots: Vec<Snapshot>, tables: Vec<TableInfo>) -> (l: Self)
        ensures
            l.name == name,
            l.snapshot == snapshot,
            l.snapshots == snapshots,
            l.tables == tables,
            l.partitions@.len() == 0,
            l.partitions_of is None,
            l.level == Level::Tables,
            l.state == (BrowserState { selected: 0, offset: 0 }),
            l.scope is None,
    {
        Lake {
            name,
            snapshot,
            snapshots,
            tables,
            partitions: Vec::new(),
            partitions_of: None,
            level: Level::Tables,
            state: BrowserState::new(),
            scope: None,
        }
    }

    pub fn table(&self, index: usize) -> (t: Option<&TableInfo>)
        ensures
            match t {
                Some(t) => index < self.tables@.len() && *t == self.tables@[index as int],
                None => index >= self.tables@.len(),
            },
    {
        if index < self.tables.len() {
            Some(&self.tables[index])
        } else {
            None
        }
    }

    /// Whether the partition list for `table` has to be asked for: there is
    /// such a table, and its list is not the one already loaded.
    pub fn wants_partitions(&self, table: usize) -> (b: bool)
        ensures
            b == (self.partitions_of != Some(table) && table < self.tables@.len()),
    {
        let loaded = match self.partitions_of {
            Some(of) => of == table,
            None => false,
        };
        !loaded && table < self.tables.len()
    }

    /// Take the partition list of `table`.
    pub fn load_partitions(&mut self, table: usize, partitions: Vec<Partition>)
        ensures
            *final(self) == (Lake { partitions, partitions_of: Some(table), ..*old(self) }),
    {
        self.partitions = partitions;
        self.partitions_of = Some(table);
    }

    /// Number of entries in the list currently being browsed.
    pub open spec fn entries(self) -> nat {
        match self.level {
            Level::Tables => self.tables@.len(),
            Level::Partitions { .. } => self.partitions@.len(),
            Level::Snapshots => self.snapshots@.len(),
        }
    }

    /// The cursor on an entry, or on the last one where there is no such.
    pub open spec fn at(self, entry: int) -> Lake {
        Lake {
            state: BrowserState { selected: held(entry, self.entries()) as usize, ..self.state },
            ..self
        }
    }

    /// Another list, with the cursor on an entry of it.
    pub open spec fn listing(self, level: Level, entry: int) -> Lake {
        (Lake { level, state: BrowserState { selected: 0, offset: 0 }, ..self }).at(entry)
    }

    /// The list of snapshots, with the cursor on the one that is loaded.
    pub open spec fn listing_snapshots(self) -> Lake {
        self.listing(Level::Snapshots, snapshot_at(self.snapshots@, self.snapshot, 0))
    }

    /// Number of entries in the list currently being browsed.
    pub fn list_len(&self) -> (n: usize)
        ensures
            n == self.entries(),
    {
        match self.level {
            Level::Tables => self.tables.len(),
            Level::Partitions { .. } => self.partitions.len(),
            Level::Snapshots => self.snapshots.len(),
        }
    }

    /// Put the cursor on an entry, or on the last one where there is no such.
    pub fn go_to(&mut self, entry: usize)
        ensures
            *final(self) == old(self).at(entry as int),
    {
        let n = self.list_len();
        self.state.go_to(entry, n);
    }

    /// Move the cursor, stopping at either end.
    pub fn move_by(&mut self, delta: isize)
        ensures
            *final(self) == old(self).at(old(self).state.selected + delta),
    {
        let n = self.list_len();
        self.state.move_by(delta, n);
    }

    /// Show another list, with the cursor on an entry of it.
    pub fn show_list(&mut self, level: Level, entry: usize)
        ensures
            *final(self) == old(self).listing(level, entry as int),
    {
        self.level = level;
        self.state = BrowserState::new();
        self.go_to(entry);
    }

    /// Show the list of snapshots, with the cursor on the one that is loaded.
    pub fn show_snapshots(&mut self)
        ensures
            *final(self) == old(self).listing_snapshots(),
    {
        let at = self.current_snapshot_index();
        self.show_list(Level::Snapshots, at);
    }

    /// Index of the currently loaded snapshot in the list: the first that has
    /// its id, or the first of all.
    pub fn current_snapshot_index(&self) -> (at: usize)
        ensures
            at == snapshot_at(self.snapshots@, self.snapshot, 0),
    {
        let mut i: usize = 0;
        while i < self.snapshots.len()
            invariant
                i <= self.snapshots.len(),
                snapshot_at(self.snapshots@, self.snapshot, 0) == snapshot_at(
                    self.snapshots@,
                    self.snapshot,
                    i as int,
                ),
            decreases self.snapshots.len() - i,
        {
            if self.snapshots[i].id == self.snapshot {
                return i;
            }
            i += 1;
        }
        0
    }

    pub open spec fn title_text(self) -> Seq<char> {
        match self.level {
            Level::Tables => " "@ + self.name@ + " \u{2014} "@ + plural_text(
                self.tables@.len(),
                "table"@,
            ) + " @ snapshot "@ + signed_text(self.snapshot as int) + " "@,
            Level::Partitions { table } => if table < self.tables@.len() {
                " "@ + self.tables@[table as int].qualified() + " \u{2014} "@ + plural_text(
                    self.partitions@.len(),
                    "partition"@,
                ) + ", "@ + grouped(self.tables@[table as int].rows as nat) + " rows "@
            } else {
                " "@ + self.name@ + " "@
            },
            Level::Snapshots => " "@ + self.name@ + " \u{2014} "@ + plural_text(
                self.snapshots@.len(),
                "snapshot"@,
            ) + ", currently at "@ + signed_text(self.snapshot as int) + " "@,
        }
    }

    pub fn title(&self) -> (out: String)
        ensures
            out@ == self.title_text(),
    {
        let mut out = " ".to_owned();
        match self.level {
            Level::Tables => {
                text::push_str(&mut out, self.name.as_str());
                text::push_str(&mut out, " \u{2014} ");
                text::push_str(&mut out, plural(self.tables.len(), "table").as_str());
                text::push_str(&mut out, " @ snapshot ");
                text::push_str(&mut out, text::signed(self.snapshot).as_str());
                text::push_str(&mut out, " ");
            },
            Level::Partitions { table } => match self.table(table) {
                Some(t) => {
                    text::push_str(&mut out, t.qualified_name().as_str());
                    text::push_str(&mut out, " \u{2014} ");
                    text::push_str(&mut out, plural(self.partitions.len(), "partition").as_str());
                    text::push_str(&mut out, ", ");
                    text::push_str(&mut out, human_count(t.rows).as_str());
                    text::push_str(&mut out, " rows ");
                },
                None => {
                    text::push_str(&mut out, self.name.as_str());
                    text::push_str(&mut out, " ");
                },
            },
            Level::Snapshots => {
                text::push_str(&mut out, self.name.as_str());
                text::push_str(&mut out, " \u{2014} ");
                text::push_str(&mut out, plural(self.snapshots.len(), "snapshot").as_str());
                text::push_str(&mut out, ", currently at ");
                text::push_str(&mut out, text::signed(self.snapshot).as_str());
                text::push_str(&mut out, " ");
            },
        }
        out
    }

    pub open spec fn headings(self) -> Seq<Seq<char>> {
        match self.level {
            Level::Tables => seq!["Table"@, "Rows"@, "Size"@, "Files"@, "Partitioned by"@, "Deletes"@],
            Level::Partitions { .. } => seq!["Partition"@, "Rows"@, "Share"@],
            Level::Snapshots => seq![""@, "Snapshot"@, "Time"@, "Schema"@, "Changes"@],
        }
    }

    pub open spec fn column_widths(self) -> Seq<Width> {
        match self.level {
            Level::Tables => seq![
                Width::Min(34),
                Width::Length(16),
                Width::Length(10),
                Width::Length(6),
                Width::Length(18),
                Width::Length(8),
            ],
            Level::Partitions { .. } => seq![Width::Min(30), Width::Length(16), Width::Length(7)],
            Level::Snapshots => seq![
                Width::Length(1),
                Width::Length(8),
                Width::Length(21),
                Width::Length(6),
                Width::Min(30),
            ],
        }
    }

    /// How wide the columns of the list are.
    pub fn widths(&self) -> (out: Vec<Width>)
        ensures
            out@ == self.column_widths(),
            out@.len() == self.headings().len(),
    {
        match self.level {
            Level::Tables => vec![
                Width::Min(34),
                Width::Length(16),
                Width::Length(10),
                Width::Length(6),
                Width::Length(18),
                Width::Length(8),
            ],
            Level::Partitions { .. } => vec![Width::Min(30), Width::Length(16), Width::Length(7)],
            Level::Snapshots => vec![
                Width::Length(1),
                Width::Length(8),
                Width::Length(21),
                Width::Length(6),
                Width::Min(30),
            ],
        }
    }

    pub fn headers(&self) -> (out: Vec<String>)
        ensures
            texts(out@) == self.headings(),
    {
        let mut out: Vec<String> = Vec::new();
        match self.level {
            Level::Tables => {
                out.push("Table".to_owned());
                out.push("Rows".to_owned());
                out.push("Size".to_owned());
                out.push("Files".to_owned());
                out.push("Partitioned by".to_owned());
                out.push("Deletes".to_owned());
            },
            Level::Partitions { .. } => {
                out.push("Partition".to_owned());
                out.push("Rows".to_owned());
                out.push("Share".to_owned());
            },
            Level::Snapshots => {
                out.push("".to_owned());
                out.push("Snapshot".to_owned());
                out.push("Time".to_owned());
                out.push("Schema".to_owned());
                out.push("Changes".to_owned());
            },
        }
        assert(texts(out@) =~= self.headings());
        out
    }

    pub open spec fn lines(self, shares: Seq<Seq<char>>) -> Seq<Seq<Seq<char>>> {
        match self.level {
            Level::Tables => self.tables@.map_values(|t: TableInfo| table_line(t)),
            Level::Partitions { .. } => Seq::new(
                self.partitions@.len(),
                |i: int| partition_line(self.partitions@[i], shares[i]),
            ),
            Level::Snapshots => self.snapshots@.map_values(
                |s: Snapshot| snapshot_line(s, self.snapshot),
            ),
        }
    }

    /// The entries of the list, a line each. `shares` is what part of its table
    /// each partition is, as it is to be shown.
    pub fn rows(&self, shares: &[String]) -> (out: Vec<Vec<String>>)
        requires
            self.level is Partitions ==> shares@.len() == self.partitions@.len(),
        ensures
            crate::text::table(out@) == self.lines(texts(shares@)),
    {
        let mut out: Vec<Vec<String>> = Vec::new();
        let ghost all = self.lines(texts(shares@));
        let n = self.list_len();
        let mut i: usize = 0;
        while i < n
            invariant
                i <= n == all.len(),
                all == self.lines(texts(shares@)),
                self.level is Tables ==> n == self.tables@.len(),
                self.level is Partitions ==> n == self.partitions@.len() == shares@.len(),
                self.level is Snapshots ==> n == self.snapshots@.len(),
                crate::text::table(out@) == all.take(i as int),
            decreases n - i,
        {
            let mut line: Vec<String> = Vec::new();
            match self.level {
                Level::Tables => {
                    let t = &self.tables[i];
                    line.push(t.qualified_name());
                    line.push(human_count(t.rows));
                    line.push(human_bytes(t.file_size));
                    line.push(text::decimal_u64(t.file_count));
                    if t.partition_cols.is_empty() {
                        line.push("\u{2014}".to_owned());
                    } else {
                        line.push(text::join(&t.partition_cols, ", "));
                    }
                    if t.delete_file_count == 0 {
                        line.push("\u{2014}".to_owned());
                    } else {
                        line.push(text::decimal_u64(t.delete_file_count));
                    }
                    assert(texts(line@) =~= table_line(*t));
                },
                Level::Partitions { .. } => {
                    let p = &self.partitions[i];
                    line.push(p.label());
                    line.push(human_count(p.rows));
                    line.push(shares[i].clone());
                    assert(texts(line@) =~= partition_line(*p, texts(shares@)[i as int]));
                },
                Level::Snapshots => {
                    let s = &self.snapshots[i];
                    line.push((if s.id == self.snapshot { "\u{25b8}" } else { " " }).to_owned());
                    line.push(text::signed(s.id));
                    line.push(s.short_time());
                    line.push(text::joined("v", text::signed(s.schema_version).as_str()));
                    match &s.commit_message {
                        Some(message) => line.push(message.clone()),
                        None => if s.changes.as_str().is_empty() {
                            line.push("\u{2014}".to_owned());
                        } else {
                            line.push(s.changes.clone());
                        },
                    }
                    assert(texts(line@) =~= snapshot_line(*s, self.snapshot));
                },
            }
            let ghost before = out@;
            out.push(line);
            assert(crate::text::table(out@) =~= crate::text::table(before).push(texts(line@)));
            assert(texts(line@) == all[i as int]);
            assert(crate::text::table(out@) =~= all.take(i + 1));
            i += 1;
        }
        assert(all.take(i as int) =~= all);
        out
    }

    pub open spec fn scope_text(self) -> Option<Seq<char>> {
        match self.scope {
            None => None,
            Some(scope) => if scope.table >= self.tables@.len() {
                None
            } else {
                let base = self.tables@[scope.table as int].qualified() + " @snap"@ + signed_text(
                    self.snapshot as int,
                );
                match scope.partition {
                    Some(i) => if i < self.partitions@.len() {
                        Some(base + " ["@ + self.partitions@[i as int].label_text() + "]"@)
                    } else {
                        Some(base)
                    },
                    None => Some(base),
                }
            },
        }
    }

    /// Label for the status bar describing what the viewer is scanning.
    pub fn scope_label(&self) -> (out: Option<String>)
        ensures
            match out {
                Some(text) => self.scope_text() == Some(text@),
                None => self.scope_text() is None,
            },
    {
        let scope = match self.scope {
            Some(scope) => scope,
            None => {
                return None;
            },
        };
        let mut out = match self.table(scope.table) {
            Some(t) => t.qualified_name(),
            None => {
                return None;
            },
        };
        text::push_str(&mut out, " @snap");
        text::push_str(&mut out, text::signed(self.snapshot).as_str());
        if let Some(i) = scope.partition {
            if i < self.partitions.len() {
                text::push_str(&mut out, " [");
                text::push_str(&mut out, self.partitions[i].label().as_str());
                text::push_str(&mut out, "]");
            }
        }
        Some(out)
    }
}

} // verus!
