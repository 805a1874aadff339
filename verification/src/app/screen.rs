//! What is written round the table: help, prompts and hints.
use vstd::prelude::*;
use crate::app::session::{sound, App, Screen, Session};
use crate::data::edit::at_most_max;
use crate::lake::Level;
use crate::text;
use crate::text::{decimal_text, split_text, texts};
use crate::ui::{abreast, cell_height, longest, on_screen, panel_height, rows_for, wrapped};

verus! {

/// A part of the help overlay.
#[derive(Clone, Copy, Debug, PartialEq, Eq, Structural)]
pub enum Section {
    Rows,
    Columns,
    Search,
    Edit,
    Visual,
    Views,
    General,
    Lake,
    Catalog,
    Picker,
}

/// Keys and what they do, as characters.
pub open spec fn bindings(keys: Seq<(&str, &str)>) -> Seq<(Seq<char>, Seq<char>)> {
    keys.map_values(|k: (&str, &str)| (k.0@, k.1@))
}

pub open spec fn rows_keys_text() -> Seq<(Seq<char>, Seq<char>)> {
    seq![
        ("j / \u{2193}"@, "Move down"@),
        ("k / \u{2191}"@, "Move up"@),
        ("Ctrl+d / Ctrl+u"@, "Half a screen down / up, view and cursor"@),
        ("Ctrl+f / Ctrl+b"@, "A whole screen down / up"@),
        ("gg / G"@, "First / last row"@),
        ("{n}gg / {n}G"@, "Jump to row n"@),
        ("zz / zt / zb"@, "Centre / top / bottom"@),
        ("z> / z<"@, "Widen / narrow the cursor column"@),
        ("z_"@, "Fit the column to what is on screen"@),
        ("z="@, "Put every column width back"@),
        ("K / zk"@, "Show the cursor cell in full"@),
        ("#"@, "Relative or absolute row numbers"@),
    ]
}

fn rows_keys() -> (keys: Vec<(&'static str, &'static str)>)
    ensures
        bindings(keys@) == rows_keys_text(),
{
    let keys = vec![
        ("j / \u{2193}", "Move down"),
        ("k / \u{2191}", "Move up"),
        ("Ctrl+d / Ctrl+u", "Half a screen down / up, view and cursor"),
        ("Ctrl+f / Ctrl+b", "A whole screen down / up"),
        ("gg / G", "First / last row"),
        ("{n}gg / {n}G", "Jump to row n"),
        ("zz / zt / zb", "Centre / top / bottom"),
        ("z> / z<", "Widen / narrow the cursor column"),
        ("z_", "Fit the column to what is on screen"),
        ("z=", "Put every column width back"),
        ("K / zk", "Show the cursor cell in full"),
        ("#", "Relative or absolute row numbers"),
    ];
    assert(bindings(keys@) =~= rows_keys_text());
    keys
}

pub open spec fn columns_keys_text() -> Seq<(Seq<char>, Seq<char>)> {
    seq![
        ("h / l"@, "Scroll columns left / right"@),
        ("{n}h / {n}l"@, "Jump n columns"@),
        ("H"@, "First column"@),
        ("0 / $"@, "Scroll to the first / last column"@),
        ("Tab"@, "Cycle row \u{2192} column \u{2192} cell"@),
        ("s"@, "Sort by cursor column"@),
        ("-"@, "Hide the cursor column (:reset select brings it back)"@),
        ("C"@, "The column picker: show, hide and pin from a list"@),
        ("zp"@, "Pin / unpin the cursor column at the left edge"@),
        ("z|"@, "Unpin every column"@),
    ]
}

fn columns_keys() -> (keys: Vec<(&'static str, &'static str)>)
    ensures
        bindings(keys@) == columns_keys_text(),
{
    let keys = vec![
        ("h / l", "Scroll columns left / right"),
        ("{n}h / {n}l", "Jump n columns"),
        ("H", "First column"),
        ("0 / $", "Scroll to the first / last column"),
        ("Tab", "Cycle row \u{2192} column \u{2192} cell"),
        ("s", "Sort by cursor column"),
        ("-", "Hide the cursor column (:reset select brings it back)"),
        ("C", "The column picker: show, hide and pin from a list"),
        ("zp", "Pin / unpin the cursor column at the left edge"),
        ("z|", "Unpin every column"),
    ];
    assert(bindings(keys@) =~= columns_keys_text());
    keys
}

pub open spec fn search_keys_text() -> Seq<(Seq<char>, Seq<char>)> {
    seq![
        ("/"@, "Search (regex)"@),
        ("n / N"@, "Next / previous match"@),
        ("Esc"@, "Clear search and sorts"@),
    ]
}

fn search_keys() -> (keys: Vec<(&'static str, &'static str)>)
    ensures
        bindings(keys@) == search_keys_text(),
{
    let keys = vec![
        ("/", "Search (regex)"),
        ("n / N", "Next / previous match"),
        ("Esc", "Clear search and sorts"),
    ];
    assert(bindings(keys@) =~= search_keys_text());
    keys
}

pub open spec fn edit_keys_text() -> Seq<(Seq<char>, Seq<char>)> {
    seq![
        ("i / a"@, "Edit cell, caret at start / end"@),
        ("c"@, "Replace cell"@),
        ("x"@, "Clear cell"@),
        ("dd / {n}dd"@, "Delete the row, or n rows"@),
        ("o / O"@, "Open a new row below / above"@),
        ("u / Ctrl+r"@, "Undo / redo"@),
        ("y / p"@, "Yank the cursor / paste at the cursor"@),
        ("Tab / Shift+Tab"@, "While editing: commit, next / previous cell"@),
        (":w   :w!   :w path"@, "Write (force / elsewhere)"@),
        (":q   :q!   :wq"@, "Quit (discarding / writing)"@),
    ]
}

fn edit_keys() -> (keys: Vec<(&'static str, &'static str)>)
    ensures
        bindings(keys@) == edit_keys_text(),
{
    let keys = vec![
        ("i / a", "Edit cell, caret at start / end"),
        ("c", "Replace cell"),
        ("x", "Clear cell"),
        ("dd / {n}dd", "Delete the row, or n rows"),
        ("o / O", "Open a new row below / above"),
        ("u / Ctrl+r", "Undo / redo"),
        ("y / p", "Yank the cursor / paste at the cursor"),
        ("Tab / Shift+Tab", "While editing: commit, next / previous cell"),
        (":w   :w!   :w path", "Write (force / elsewhere)"),
        (":q   :q!   :wq", "Quit (discarding / writing)"),
    ];
    assert(bindings(keys@) =~= edit_keys_text());
    keys
}

pub open spec fn visual_keys_text() -> Seq<(Seq<char>, Seq<char>)> {
    seq![
        ("v"@, "Start or cancel a selection"@),
        (""@, "Its shape follows the Tab mode"@),
        ("c"@, "Replace every cell with one value"@),
        ("i / a"@, "Prepend / append text to every cell"@),
        ("x"@, "Clear the selected cells"@),
        ("d"@, "Delete the selected rows"@),
        ("y"@, "Yank the selection"@),
    ]
}

fn visual_keys() -> (keys: Vec<(&'static str, &'static str)>)
    ensures
        bindings(keys@) == visual_keys_text(),
{
    let keys = vec![
        ("v", "Start or cancel a selection"),
        ("", "Its shape follows the Tab mode"),
        ("c", "Replace every cell with one value"),
        ("i / a", "Prepend / append text to every cell"),
        ("x", "Clear the selected cells"),
        ("d", "Delete the selected rows"),
        ("y", "Yank the selection"),
    ];
    assert(bindings(keys@) =~= visual_keys_text());
    keys
}

pub open spec fn views_keys_text() -> Seq<(Seq<char>, Seq<char>)> {
    seq![
        (":select a b"@, "Show only these columns"@),
        (":hide a b"@, "Drop these columns"@),
        (":filter c > 10"@, "Keep matching rows; `~` is a regex"@),
        (":filter a = x and b ~ y"@, "Conditions join with `and`"@),
        (":sort a b-"@, "Sort by columns, `-` for descending"@),
        (":select   :sort"@, "The verb alone puts it back"@),
        (":reset [slot]"@, "Clear select, filter, sort, or all"@),
        ("Tab / Shift+Tab"@, "Complete, then step through the candidates"@),
    ]
}

fn views_keys() -> (keys: Vec<(&'static str, &'static str)>)
    ensures
        bindings(keys@) == views_keys_text(),
{
    let keys = vec![
        (":select a b", "Show only these columns"),
        (":hide a b", "Drop these columns"),
        (":filter c > 10", "Keep matching rows; `~` is a regex"),
        (":filter a = x and b ~ y", "Conditions join with `and`"),
        (":sort a b-", "Sort by columns, `-` for descending"),
        (":select   :sort", "The verb alone puts it back"),
        (":reset [slot]", "Clear select, filter, sort, or all"),
        ("Tab / Shift+Tab", "Complete, then step through the candidates"),
    ];
    assert(bindings(keys@) =~= views_keys_text());
    keys
}

pub open spec fn general_keys_text() -> Seq<(Seq<char>, Seq<char>)> {
    seq![
        ("?"@, "This help"@),
        ("q"@, "Quit"@),
    ]
}

fn general_keys() -> (keys: Vec<(&'static str, &'static str)>)
    ensures
        bindings(keys@) == general_keys_text(),
{
    let keys = vec![
        ("?", "This help"),
        ("q", "Quit"),
    ];
    assert(bindings(keys@) =~= general_keys_text());
    keys
}

pub open spec fn lake_keys_text() -> Seq<(Seq<char>, Seq<char>)> {
    seq![
        ("f"@, "Partitions of this table"@),
        ("b"@, "Back to the catalog"@),
        ("T"@, "Snapshots (time travel)"@),
    ]
}

fn lake_keys() -> (keys: Vec<(&'static str, &'static str)>)
    ensures
        bindings(keys@) == lake_keys_text(),
{
    let keys = vec![
        ("f", "Partitions of this table"),
        ("b", "Back to the catalog"),
        ("T", "Snapshots (time travel)"),
    ];
    assert(bindings(keys@) =~= lake_keys_text());
    keys
}

pub open spec fn catalog_keys_text() -> Seq<(Seq<char>, Seq<char>)> {
    seq![
        ("j / k"@, "Move selection"@),
        ("g / G"@, "First / last entry"@),
        ("Ctrl+d / Ctrl+u"@, "Half page down / up"@),
        ("Enter"@, "Open the selection"@),
        ("l / f"@, "Partitions of this table"@),
        ("T"@, "Snapshots (time travel)"@),
        ("a"@, "Whole table (from partitions)"@),
        ("h / Esc"@, "Back"@),
    ]
}

fn catalog_keys() -> (keys: Vec<(&'static str, &'static str)>)
    ensures
        bindings(keys@) == catalog_keys_text(),
{
    let keys = vec![
        ("j / k", "Move selection"),
        ("g / G", "First / last entry"),
        ("Ctrl+d / Ctrl+u", "Half page down / up"),
        ("Enter", "Open the selection"),
        ("l / f", "Partitions of this table"),
        ("T", "Snapshots (time travel)"),
        ("a", "Whole table (from partitions)"),
        ("h / Esc", "Back"),
    ];
    assert(bindings(keys@) =~= catalog_keys_text());
    keys
}

pub open spec fn picker_keys_text() -> Seq<(Seq<char>, Seq<char>)> {
    seq![
        ("j / k"@, "Move down the list"@),
        ("g / G"@, "First / last column"@),
        ("Ctrl+d / Ctrl+u"@, "Half page down / up"@),
        ("-"@, "Show or hide this column"@),
        ("a / A"@, "Show every column / hide all but this one"@),
        ("p"@, "Pin or unpin this column"@),
        ("Enter"@, "Apply"@),
        ("Esc"@, "Cancel, changing nothing"@),
    ]
}

fn picker_keys() -> (keys: Vec<(&'static str, &'static str)>)
    ensures
        bindings(keys@) == picker_keys_text(),
{
    let keys = vec![
        ("j / k", "Move down the list"),
        ("g / G", "First / last column"),
        ("Ctrl+d / Ctrl+u", "Half page down / up"),
        ("-", "Show or hide this column"),
        ("a / A", "Show every column / hide all but this one"),
        ("p", "Pin or unpin this column"),
        ("Enter", "Apply"),
        ("Esc", "Cancel, changing nothing"),
    ];
    assert(bindings(keys@) =~= picker_keys_text());
    keys
}

impl Section {
    pub open spec fn title_text(self) -> Seq<char> {
        match self {
            Section::Rows => "Rows"@,
            Section::Columns => "Columns"@,
            Section::Search => "Search"@,
            Section::Edit => "Edit"@,
            Section::Visual => "Visual"@,
            Section::Views => "Views"@,
            Section::General => "General"@,
            Section::Lake => "Lake"@,
            Section::Catalog => "Catalog"@,
            Section::Picker => "Columns"@,
        }
    }

    pub open spec fn keys_text(self) -> Seq<(Seq<char>, Seq<char>)> {
        match self {
            Section::Rows => rows_keys_text(),
            Section::Columns => columns_keys_text(),
            Section::Search => search_keys_text(),
            Section::Edit => edit_keys_text(),
            Section::Visual => visual_keys_text(),
            Section::Views => views_keys_text(),
            Section::General => general_keys_text(),
            Section::Lake => lake_keys_text(),
            Section::Catalog => catalog_keys_text(),
            Section::Picker => picker_keys_text(),
        }
    }

    pub fn title(self) -> (out: &'static str)
        ensures
            out@ == self.title_text(),
    {
        match self {
            Section::Rows => "Rows",
            Section::Columns => "Columns",
            Section::Search => "Search",
            Section::Edit => "Edit",
            Section::Visual => "Visual",
            Section::Views => "Views",
            Section::General => "General",
            Section::Lake => "Lake",
            Section::Catalog => "Catalog",
            Section::Picker => "Columns",
        }
    }

    /// The keys it lists, and what they do.
    pub fn keys(self) -> (keys: Vec<(&'static str, &'static str)>)
        ensures
            bindings(keys@) == self.keys_text(),
    {
        match self {
            Section::Rows => rows_keys(),
            Section::Columns => columns_keys(),
            Section::Search => search_keys(),
            Section::Edit => edit_keys(),
            Section::Visual => visual_keys(),
            Section::Views => views_keys(),
            Section::General => general_keys(),
            Section::Lake => lake_keys(),
            Section::Catalog => catalog_keys(),
            Section::Picker => picker_keys(),
        }
    }
}

impl Session {
    /// The key bindings of whatever is in front. The picker has no general
    /// section: that one says what quits, and in the picker nothing does.
    pub open spec fn help(self) -> Seq<Section> {
        if self.picker is Some {
            seq![Section::Picker]
        } else if self.screen == Screen::Browser {
            seq![Section::Catalog, Section::General]
        } else if self.lake is Some {
            seq![
                Section::Rows,
                Section::Columns,
                Section::Search,
                Section::Lake,
                Section::General,
            ]
        } else if self.store matches Some(h) && h.edit is Some {
            seq![
                Section::Rows,
                Section::Columns,
                Section::Search,
                Section::Edit,
                Section::Visual,
                Section::Views,
                Section::General,
            ]
        } else {
            seq![Section::Rows, Section::Columns, Section::Search, Section::General]
        }
    }

    /// What stands in front of a value being typed: the column's name, or, over
    /// a block, how many cells it is for.
    pub open spec fn edit_label(self) -> Seq<char> {
        match self.edit_fill {
            Some(fill) => " "@ + fill.mode.verb_text() + " "@ + decimal_text(
                at_most_max(fill.block.area() as nat) as nat,
            ) + " cells: "@,
            None => match (self.edit_cell, self.store) {
                (Some(spot), Some(h)) => match h.column(spot.column) {
                    Some((name, _)) => " "@ + name + ": "@,
                    None => " "@,
                },
                _ => " "@,
            },
        }
    }

    /// The hint at the end of the status bar.
    pub open spec fn hint(self) -> Seq<char> {
        if self.picker is Some {
            " -:show  a/A:all/one  p:pin  \u{23ce}:apply  esc "@
        } else if self.lake is Some {
            " f:partitions  T:snapshots  b:back  ?:help "@
        } else {
            " j/k:\u{2195}  h/l:\u{2190}\u{2192}  /:search  ?:help  q:quit "@
        }
    }

    /// The line under a list in the browser.
    pub open spec fn browser_line(self) -> Option<Seq<char>> {
        match (self.message, self.lake) {
            (_, None) => None,
            (Some(text), Some(_)) => Some(" "@ + text),
            (None, Some(lake)) => Some(
                (match lake.level {
                    Level::Tables => " Enter:open  l:partitions  T:snapshots  ?:help  q:quit "@,
                    Level::Partitions { .. } => " Enter:open partition  a:whole table  h:back  ?:help "@,
                    Level::Snapshots => " Enter:travel to snapshot  h:back  ?:help "@,
                }) + "  ["@ + decimal_text(lake.state.selected as nat + 1) + "/"@ + decimal_text(
                    if lake.entries() == 0 {
                        1
                    } else {
                        lake.entries()
                    },
                ) + "]"@,
            ),
        }
    }

    /// The name and the full text of the cell under the cursor.
    pub open spec fn cursor_cell(self) -> Option<(Seq<char>, Seq<char>)> {
        match self.store {
            None => None,
            Some(h) => match (h.column(self.cursor_col), h.cell(self.cursor_row, self.cursor_col)) {
                (Some((name, _)), Some(text)) => Some((name, text)),
                _ => None,
            },
        }
    }
}

impl App {
    /// Key bindings for whatever is in front.
    pub fn help_sections(&self) -> (out: Vec<Section>)
        ensures
            out@ == self@.help(),
    {
        let browsing = match self.screen {
            Screen::Browser => true,
            Screen::Viewer => false,
        };
        let editable = match &self.store {
            Some(store) => store.is_editable(),
            None => false,
        };
        let out = if self.picker.is_some() {
            vec![Section::Picker]
        } else if browsing {
            vec![Section::Catalog, Section::General]
        } else if self.lake.is_some() {
            vec![
                Section::Rows,
                Section::Columns,
                Section::Search,
                Section::Lake,
                Section::General,
            ]
        } else if editable {
            vec![
                Section::Rows,
                Section::Columns,
                Section::Search,
                Section::Edit,
                Section::Visual,
                Section::Views,
                Section::General,
            ]
        } else {
            vec![Section::Rows, Section::Columns, Section::Search, Section::General]
        };
        assert(out@ =~= self@.help());
        out
    }

    /// What stands in front of a value being typed.
    pub fn edit_label(&self) -> (out: String)
        requires
            self.wf(),
        ensures
            out@ == self@.edit_label(),
    {
        proof {
            reveal(sound);
        }
        if let Some(fill) = self.edit_fill {
            let mut out = text::joined(" ", fill.mode.verb());
            text::push_str(&mut out, " ");
            text::push_str(&mut out, text::decimal(fill.block.size()).as_str());
            text::push_str(&mut out, " cells: ");
            return out;
        }
        let name: Option<String> = match (&self.edit_cell, &self.store) {
            (Some(spot), Some(store)) => match store.column_info(spot.column) {
                Some((name, _)) => Some(name),
                None => None,
            },
            _ => None,
        };
        match name {
            Some(name) => {
                let mut out = text::joined(" ", name.as_str());
                text::push_str(&mut out, ": ");
                out
            },
            None => " ".to_owned(),
        }
    }

    /// The hint at the end of the status bar.
    pub fn status_hint(&self) -> (out: &'static str)
        ensures
            out@ == self@.hint(),
    {
        if self.picker.is_some() {
            " -:show  a/A:all/one  p:pin  \u{23ce}:apply  esc "
        } else if self.lake.is_some() {
            " f:partitions  T:snapshots  b:back  ?:help "
        } else {
            " j/k:\u{2195}  h/l:\u{2190}\u{2192}  /:search  ?:help  q:quit "
        }
    }

    /// The line under a list in the browser: a message, or what the keys do and
    /// how far down the list the cursor is.
    pub fn browser_line(&self) -> (out: Option<String>)
        requires
            self.lake matches Some(lake) ==> lake.state.selected < usize::MAX,
        ensures
            match out {
                Some(text) => self@.browser_line() == Some(text@),
                None => self@.browser_line() is None,
            },
    {
        let lake = match &self.lake {
            None => {
                return None;
            },
            Some(lake) => lake,
        };
        if let Some(said) = &self.message {
            return Some(text::joined(" ", said.as_str()));
        }
        let help: &'static str = match lake.level {
            Level::Tables => " Enter:open  l:partitions  T:snapshots  ?:help  q:quit ",
            Level::Partitions { .. } => " Enter:open partition  a:whole table  h:back  ?:help ",
            Level::Snapshots => " Enter:travel to snapshot  h:back  ?:help ",
        };
        let n = lake.list_len();
        let mut out = text::joined(help, "  [");
        text::push_str(&mut out, text::decimal(lake.state.selected + 1).as_str());
        text::push_str(&mut out, "/");
        text::push_str(&mut out, text::decimal(if n == 0 { 1 } else { n }).as_str());
        text::push_str(&mut out, "]");
        Some(out)
    }

    /// The column name and full text of the cell under the cursor.
    pub fn cell_under_cursor(&self) -> (cell: Option<(String, String)>)
        requires
            self.wf(),
        ensures
            match cell {
                Some((name, text)) => self@.cursor_cell() == Some((name@, text@)),
                None => self@.cursor_cell() is None,
            },
    {
        proof {
            reveal(sound);
        }
        match &self.store {
            None => None,
            Some(store) => match (
                store.column_info(self.cursor_col),
                store.cell_text(self.cursor_row, self.cursor_col),
            ) {
                (Some((name, _)), Some(text)) => Some((name, text)),
                _ => None,
            },
        }
    }
}

impl Session {
    /// Rows that the panel above the status bar takes: the candidates of the
    /// command line, or else the cell shown in full, and that never more than
    /// half the screen.
    pub open spec fn panel(self, width: u16, height: u16) -> u16 {
        match self.completion {
            Some(offer) => on_screen(
                rows_for(offer.options.len(), abreast(longest(offer.options), width as nat)),
            ),
            None => if self.cell_view {
                match self.cursor_cell() {
                    Some((_, text)) => {
                        let half = height / 2;
                        let room = if half < 2 { 2 } else { half };
                        let full = 1 + wrapped(
                            split_text(text, '\n'),
                            if width == 0 { 1nat } else { width as nat },
                        );
                        if full > room { room } else { full as u16 }
                    },
                    None => 0,
                }
            } else {
                0
            },
        }
    }
}

impl App {
    /// Rows that the panel above the status bar takes.
    pub fn panel_height(&self, width: u16, height: u16) -> (rows: u16)
        requires
            self.wf(),
            self.completion matches Some(c) ==> longest(texts(c.options@)) <= usize::MAX - 2,
        ensures
            rows == self@.panel(width, height),
    {
        if let Some(c) = &self.completion {
            assert(texts(c.options@).len() == c.options@.len());
            return panel_height(&c.options, width);
        }
        if !self.cell_view {
            return 0;
        }
        let half: u16 = height / 2;
        let room: u16 = if half < 2 { 2 } else { half };
        match self.cell_under_cursor() {
            Some((_, text)) => cell_height(text.as_str(), width, room),
            None => 0,
        }
    }
}

} // verus!
