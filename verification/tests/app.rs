use plv::app::editing::{Reading, MAX_BLOCK};
use plv::app::keys::Key;
use plv::app::motion::viewport_rows;
use plv::app::session::{App, Drawn, Limits, Mode, SelectionMode, Task};
use plv::data::jsonl::ColumnType;
use plv::data::page::{assemble, block_text};
use plv::data::scan::kept;
use plv::data::store::{EditTarget, Source, Store, Written};
use plv::data::writer::{splice, Moment, Stamp};
use plv::search::{SearchQuery, SearchState};
use plv::ui::MIN_COLUMN;
use std::ops::{Deref, DerefMut};

/// A program with a file in memory, and a screen that draws every column in six
/// characters beside a gutter of eight.
struct Desk {
    app: App,
    name: String,
    contents: String,
    stamp: Stamp,
    sorting: bool,
    filtering: bool,
    last_frame_width: u16,
}

impl Deref for Desk {
    type Target = App;

    fn deref(&self) -> &App {
        &self.app
    }
}

impl DerefMut for Desk {
    fn deref_mut(&mut self) -> &mut App {
        &mut self.app
    }
}

/// The records of a comma-separated text, its header first.
fn records(text: &str) -> Vec<Vec<String>> {
    let mut rows = Vec::new();
    let mut row = Vec::new();
    let mut field = String::new();
    let mut quoted = false;
    for c in text.chars() {
        if c == '"' {
            quoted = !quoted;
        } else if c == ',' && !quoted {
            row.push(std::mem::take(&mut field));
        } else if c == '\n' && !quoted {
            row.push(std::mem::take(&mut field));
            rows.push(std::mem::take(&mut row));
        } else {
            field.push(c);
        }
    }
    if !field.is_empty() || !row.is_empty() {
        row.push(field);
        rows.push(row);
    }
    rows
}

/// What a column reads as.
fn kind(values: &[&String]) -> ColumnType {
    let full: Vec<&&String> = values.iter().filter(|v| !v.is_empty()).collect();
    if full.is_empty() {
        ColumnType::Text
    } else if full.iter().all(|v| v.parse::<i64>().is_ok()) {
        ColumnType::Int
    } else if full.iter().all(|v| v.parse::<f64>().is_ok()) {
        ColumnType::Float
    } else {
        ColumnType::Text
    }
}

fn columns_of(text: &str) -> (Vec<String>, Vec<ColumnType>, usize) {
    let all = records(text);
    let names = all[0].clone();
    let types = (0..names.len())
        .map(|c| {
            let values: Vec<&String> = all[1..].iter().map(|row| &row[c]).collect();
            kind(&values)
        })
        .collect();
    (names, types, all.len() - 1)
}

fn stamp_of(text: &str, written: u64) -> Stamp {
    Stamp {
        len: text.len() as u64,
        mtime: Some(Moment {
            seconds: written as i64,
            nanos: 0,
        }),
    }
}

impl Desk {
    fn file(&self) -> String {
        self.contents.clone()
    }

    /// Something else writes the file.
    fn rewrite(&mut self, text: &str) {
        self.contents = text.to_string();
        let seconds = self.stamp.mtime.unwrap().seconds as u64 + 1;
        self.stamp = stamp_of(text, seconds);
    }

    fn resize(&mut self, height: usize) {
        self.app.store.as_mut().unwrap().resize(height);
        self.refresh();
    }

    /// Rows of the file, read as a page.
    fn page(&self, offset: usize, height: usize) -> Vec<Vec<Option<String>>> {
        let store = self.app.store.as_ref().unwrap();
        let wanted = store.page_rows(offset, height);
        let plan = store.read_plan(&wanted);
        let all = records(&self.contents);
        let span: Vec<Vec<Option<String>>> = store
            .columns()
            .into_iter()
            .map(|c| {
                (plan.first..plan.first + plan.span)
                    .map(|row| {
                        let text = all[row + 1][c].clone();
                        if text.is_empty() {
                            None
                        } else {
                            Some(text)
                        }
                    })
                    .collect()
            })
            .collect();
        let page = assemble(&plan, &span);
        store.apply_overlay(page, offset, height)
    }

    fn refresh(&mut self) {
        let (offset, height) = match &self.app.store {
            Some(store) => (store.row_offset, store.viewport_rows),
            None => return,
        };
        let page = self.page(offset, height);
        self.app.page_ready(page);
    }

    /// How many columns there is room for.
    fn room(&self) -> usize {
        (self.last_frame_width as usize).saturating_sub(8) / 6
    }

    fn drawn_width(&self, _column: usize) -> usize {
        6
    }

    fn max_col_offset(&self) -> usize {
        let columns = self.app.store.as_ref().map_or(0, |s| s.column_count());
        columns.saturating_sub(self.room())
    }

    fn drawn(&self) -> Drawn {
        let widest = self.app.store.as_ref().and_then(|store| {
            store
                .page
                .get(self.app.cursor_col)
                .and_then(|column| column.iter().flatten().map(|v| v.chars().count()).max())
        });
        Drawn {
            max_col_offset: self.max_col_offset(),
            cursor_width: self.drawn_width(0),
            widest,
        }
    }

    fn event(&mut self, key: Key, ctrl: bool) {
        let limits = Limits {
            cells: 1_000_000,
            rows: 1_000_000,
        };
        let drawn = self.drawn();
        let task = self.app.handle_key_event(key, ctrl, drawn, limits);
        self.perform(task);
        if self.app.stale {
            self.refresh();
        }
        while self.app.pin_check.is_some() {
            let fit = self.app.display_pins().len() < self.room();
            self.app.check_pins(fit);
        }
    }

    fn block(&self, top: usize, bottom: usize, left: usize, right: usize) -> Vec<Vec<String>> {
        let height = bottom - top + 1;
        let page = self.page(top, height);
        let rows = page.first().map_or(0, |column| column.len());
        block_text(&page, left, right, rows)
    }

    fn perform(&mut self, task: Task) {
        match task {
            Task::Sort => self.sorting = true,
            Task::Filter => self.filtering = true,
            Task::Read(Reading::Yank(b)) => {
                let cells = self.block(b.top, b.bottom, b.left, b.right);
                self.app.finish_yank(b, cells);
            }
            Task::Read(Reading::Fill(fill, typed)) => {
                let b = fill.block;
                let cells = self.block(b.top, b.bottom, b.left, b.right);
                self.app.finish_fill(fill, &typed, &cells);
            }
            Task::Write { path, force, quit } => {
                let outcome = self.write(path, force);
                let limits = Limits {
                    cells: 1_000_000,
                    rows: 1_000_000,
                };
                let task = self.app.write_finished(outcome, quit, limits);
                self.perform(task);
            }
            _ => {}
        }
    }

    fn write(&mut self, path: Option<String>, force: bool) -> Result<String, String> {
        let name = self.name.clone();
        let store = self.app.store.as_mut().unwrap();
        if let Some(why) = store.save_blocked(Some(self.stamp), force, &name) {
            return Err(why);
        }
        let bytes = splice(self.contents.as_bytes(), b',', true, &store.overlay, store.total_rows)
            .map_err(|e| e.message())?;
        if path.is_some() {
            return Ok(path.unwrap());
        }
        self.contents = String::from_utf8(bytes).unwrap();
        let seconds = self.stamp.mtime.unwrap().seconds as u64 + 1;
        self.stamp = stamp_of(&self.contents, seconds);
        store.saved(true, self.stamp);
        let (names, types, rows) = columns_of(&self.contents);
        store.reopened(names, types, rows);
        self.app.stale = true;
        Ok(name)
    }

    /// The file's cells, a column at a time.
    fn cells(&self) -> Vec<Vec<Option<String>>> {
        let all = records(&self.contents);
        (0..all[0].len())
            .map(|c| {
                let full = |row: &Vec<String>| Some(row[c].clone()).filter(|text| !text.is_empty());
                all[1..].iter().map(full).collect()
            })
            .collect()
    }
}

/// The scan runs on its own; take in what it finds until it has finished.
fn settle(app: &mut Desk) {
    if !app.filtering {
        return;
    }
    app.filtering = false;
    let store = app.app.store.as_ref().unwrap();
    let tests = store.conditions().unwrap();
    let found = kept(&app.cells(), &store.names, &tests, 0).unwrap();
    for batch in found.chunks(2) {
        assert!(app.app.running.filter);
        app.app.filter_found(batch.to_vec());
    }
    app.app.filter_finished();
    assert!(!app.app.running.filter);
    app.refresh();
}

/// Sorting runs on its own; take in what it comes to.
fn settle_sort(app: &mut Desk) {
    if !app.sorting {
        return;
    }
    app.sorting = false;
    assert!(app.app.running.sort);
    let store = app.app.store.as_ref().unwrap();
    let rows = store.sort_job().run(&app.cells()).unwrap();
    app.app.sort_finished(Some(rows));
    assert!(!app.app.running.sort);
    app.refresh();
}

fn app_with(name: &str, contents: &str) -> Desk {
    let (names, types, rows) = columns_of(contents);
    let stamp = stamp_of(contents, 0);
    let target = EditTarget {
        written: Written::Delimited(b','),
        stamp,
    };
    let mut app = App::new();
    app.store = Some(Store::new(
        Source::Lazy,
        names,
        types,
        rows,
        10,
        Some(target),
    ));
    let mut desk = Desk {
        app,
        name: name.to_string(),
        contents: contents.to_string(),
        stamp,
        sorting: false,
        filtering: false,
        last_frame_width: 0,
    };
    desk.refresh();
    desk
}

fn app_sized(name: &str, contents: &str, width: u16) -> Desk {
    let mut app = app_with(name, contents);
    app.last_frame_width = width;
    app
}

/// 40 rows, so a 10-row viewport has plenty of room to move.
fn tall_app(name: &str) -> Desk {
    let mut rows = String::from("n\n");
    for i in 0..40 {
        rows.push_str(&format!("{i}\n"));
    }
    app_sized(name, &rows, 40)
}

fn key(app: &mut Desk, key: Key) {
    app.event(key, false);
}

fn ctrl(app: &mut Desk, c: char) {
    app.event(Key::Char(c), true);
}

fn shown(app: &Desk, col: usize, row: usize) -> Option<String> {
    app.store.as_ref()?.cell_text(row, col)
}

fn shown_columns(app: &Desk) -> Vec<String> {
    let store = app.store.as_ref().unwrap();
    store
        .columns()
        .into_iter()
        .map(|c| store.names[c].clone())
        .collect()
}

/// The selected block: its rows and its columns.
fn range(app: &Desk) -> Option<((usize, usize), (usize, usize))> {
    app.visual_range()
        .map(|b| ((b.top, b.bottom), (b.left, b.right)))
}

const SAMPLE: &str = "name,count\na,1\nb,2\nc,3\n";

fn press(app: &mut Desk, c: char) {
    key(app, Key::Char(c));
}

fn typed(app: &mut Desk, text: &str) {
    for c in text.chars() {
        press(app, c);
    }
}

/// Run an ex command the way a user would: `:`, the text, Enter.
fn command(app: &mut Desk, line: &str) {
    press(app, ':');
    typed(app, line);
    key(app, Key::Enter);
}

#[test]
fn typing_a_cell_and_writing_it_reaches_the_file() {
    let mut app = app_with("edit.csv", SAMPLE);

    press(&mut app, 'i');
    assert!(matches!(app.mode, Mode::Edit));
    // Row mode has no column cursor, so an edit adopts one.
    assert_eq!(app.selection_mode, SelectionMode::Cell);
    // `i` keeps the value it found.
    assert_eq!(app.edit_buf, "a");

    typed(&mut app, "bc");
    key(&mut app, Key::Enter);
    assert!(matches!(app.mode, Mode::Normal));
    // `i` inserts before the character the caret is on, as in vim.
    assert_eq!(shown(&app, 0, 0).as_deref(), Some("bca"));
    assert_eq!(app.store.as_ref().unwrap().dirty(), 1);
    // Nothing has touched the file yet.
    assert_eq!(app.file(), SAMPLE);

    command(&mut app, "w");
    assert_eq!(
        app.file(),
        "name,count\nbca,1\nb,2\nc,3\n"
    );
    assert_eq!(app.store.as_ref().unwrap().dirty(), 0);
}

#[test]
fn i_and_a_put_the_caret_at_opposite_ends() {
    let mut app = app_with("caret.csv", SAMPLE);

    press(&mut app, 'i');
    assert_eq!(app.edit_cursor, 0);
    typed(&mut app, "x");
    key(&mut app, Key::Enter);
    assert_eq!(shown(&app, 0, 0).as_deref(), Some("xa"));

    press(&mut app, 'a');
    assert_eq!(app.edit_buf, "xa");
    assert_eq!(app.edit_cursor, 2);
    typed(&mut app, "z");
    key(&mut app, Key::Enter);
    assert_eq!(shown(&app, 0, 0).as_deref(), Some("xaz"));
}

#[test]
fn c_replaces_the_value_and_escape_abandons_it() {
    let mut app = app_with("abandon.csv", SAMPLE);

    press(&mut app, 'c');
    assert_eq!(app.edit_buf, "", "c starts from an empty field");
    typed(&mut app, "gone");
    key(&mut app, Key::Esc);

    assert!(matches!(app.mode, Mode::Normal));
    assert_eq!(shown(&app, 0, 0).as_deref(), Some("a"));
    assert_eq!(app.store.as_ref().unwrap().dirty(), 0);
}

#[test]
fn x_clears_a_cell_and_u_takes_it_back() {
    let mut app = app_with("clear.csv", SAMPLE);

    press(&mut app, 'x');
    assert_eq!(shown(&app, 0, 0).as_deref(), Some(""));
    assert_eq!(app.store.as_ref().unwrap().dirty(), 1);

    press(&mut app, 'u');
    assert_eq!(shown(&app, 0, 0).as_deref(), Some("a"));
    assert_eq!(app.store.as_ref().unwrap().dirty(), 0);

    press(&mut app, 'u');
    assert_eq!(app.message.as_deref(), Some("nothing to undo"));
}

#[test]
fn retyping_the_same_value_is_not_an_edit() {
    let mut app = app_with("noop.csv", SAMPLE);

    press(&mut app, 'i');
    key(&mut app, Key::Enter);
    assert_eq!(
        app.store.as_ref().unwrap().dirty(),
        0,
        "an unchanged cell must not dirty the file"
    );
}

#[test]
fn a_value_that_breaks_the_column_type_warns_but_is_still_taken() {
    let mut app = app_with("warn.csv", SAMPLE);

    // Move to the numeric column, then replace its value with text.
    press(&mut app, 'i');
    key(&mut app, Key::Esc);
    press(&mut app, 'l');
    press(&mut app, 'c');
    typed(&mut app, "n/a");
    key(&mut app, Key::Enter);

    let message = app.message.clone().expect("a type mismatch should warn");
    assert!(message.contains("becomes text"), "{message}");
    assert_eq!(shown(&app, 1, 0).as_deref(), Some("n/a"));
}

#[test]
fn tab_commits_and_moves_along_the_row() {
    let mut app = app_with("tab.csv", SAMPLE);

    press(&mut app, 'c');
    typed(&mut app, "first");
    key(&mut app, Key::Tab);

    assert!(matches!(app.mode, Mode::Edit), "still editing");
    assert_eq!(app.cursor_col, 1);
    assert_eq!(app.edit_buf, "1", "the next cell's value is loaded");

    typed(&mut app, "0");
    key(&mut app, Key::Enter);
    assert_eq!(shown(&app, 0, 0).as_deref(), Some("first"));
    assert_eq!(shown(&app, 1, 0).as_deref(), Some("10"));
}

#[test]
fn tab_off_the_last_column_leaves_the_editor() {
    let mut app = app_with("tabend.csv", SAMPLE);

    press(&mut app, 'i');
    key(&mut app, Key::Esc);
    press(&mut app, 'l');
    press(&mut app, 'c');
    typed(&mut app, "9");
    key(&mut app, Key::Tab);

    assert!(matches!(app.mode, Mode::Normal));
    assert_eq!(shown(&app, 1, 0).as_deref(), Some("9"));
}

#[test]
fn quitting_refuses_while_edits_are_unwritten() {
    let mut app = app_with("quit.csv", SAMPLE);
    press(&mut app, 'x');

    press(&mut app, 'q');
    assert!(!app.exit);
    let message = app.message.clone().unwrap();
    assert!(message.contains("1 unsaved edit"), "{message}");

    command(&mut app, "q");
    assert!(!app.exit, ":q is guarded too");

    command(&mut app, "q!");
    assert!(app.exit);
}

#[test]
fn wq_writes_before_quitting_and_stays_put_when_the_write_fails() {
    let mut app = app_with("wq.csv", SAMPLE);
    press(&mut app, 'x');

    // Something else rewrites the file underneath the buffer.
    app.rewrite("name,count\nz,9\n");
    command(&mut app, "wq");
    assert!(!app.exit, "a refused write must not quit");
    assert!(app.message.clone().unwrap().contains("changed on disk"));

    // Putting the original bytes back does not restore the timestamp, so
    // the buffer is still looking at a file it no longer recognises.
    app.rewrite(SAMPLE);
    command(&mut app, "wq");
    assert!(!app.exit, "same bytes, new mtime — still guarded");

    command(&mut app, "wq!");
    assert!(app.exit);
    assert_eq!(
        app.file(),
        "name,count\n,1\nb,2\nc,3\n"
    );
}

/// Tab cycles Row → Column → Cell.
fn cell_mode(app: &mut Desk) {
    key(app, Key::Tab);
    key(app, Key::Tab);
    assert_eq!(app.selection_mode, SelectionMode::Cell);
}

/// Eight narrow columns: more than fit, so scrolling has somewhere to go.
const WIDE: &str = "a,b,c,d,e,f,g,h\n1,2,3,4,5,6,7,8\n";

#[test]
fn row_mode_stops_where_the_last_column_reaches_the_right_edge() {
    let mut app = app_sized("wide.csv", WIDE, 40);
    assert_eq!(app.selection_mode, SelectionMode::Row);

    for _ in 0..20 {
        press(&mut app, 'l');
    }
    let last = 7;
    assert_eq!(app.col_offset, app.max_col_offset());
    assert!(
        app.col_offset < last,
        "row mode padded the view with empty columns: offset {} of {last}",
        app.col_offset
    );
}

#[test]
fn dollar_and_zero_move_the_viewport_in_every_mode() {
    for enter_cell_mode in [false, true] {
        let mut app = app_sized("ends.csv", WIDE, 40);
        if enter_cell_mode {
            cell_mode(&mut app);
        }

        press(&mut app, '$');
        assert_eq!(
            app.col_offset,
            app.max_col_offset(),
            "cell={enter_cell_mode}"
        );
        assert_eq!(app.cursor_col, 7, "cell={enter_cell_mode}");

        press(&mut app, '0');
        assert_eq!(app.col_offset, 0, "cell={enter_cell_mode}");
        assert_eq!(app.cursor_col, 0, "cell={enter_cell_mode}");
    }
}

#[test]
fn zero_stays_a_digit_while_a_count_is_being_typed() {
    let mut rows = String::from("a,b\n");
    for i in 0..20 {
        rows.push_str(&format!("{i},{i}\n"));
    }
    let mut app = app_sized("count.csv", &rows, 40);
    cell_mode(&mut app);

    press(&mut app, '1');
    press(&mut app, '0');
    assert_eq!(app.pending_num, "10", "'0' continued the count");
    press(&mut app, 'j');
    assert_eq!(app.cursor_row, 10);

    // On its own it is still the jump to the first column.
    press(&mut app, 'l');
    press(&mut app, '0');
    assert_eq!(app.cursor_col, 0);
}

#[test]
fn h_and_l_take_a_count_like_j_and_k() {
    let mut app = app_sized("countcol.csv", WIDE, 40);
    cell_mode(&mut app);

    press(&mut app, '5');
    press(&mut app, 'l');
    assert_eq!(app.cursor_col, 5);
    assert!(app.pending_num.is_empty(), "the count is spent");

    press(&mut app, '3');
    press(&mut app, 'h');
    assert_eq!(app.cursor_col, 2);

    // Uncounted, they are still single steps.
    press(&mut app, 'l');
    assert_eq!(app.cursor_col, 3);
}

#[test]
fn a_counted_column_jump_stops_at_the_ends() {
    let mut app = app_sized("countclamp.csv", WIDE, 40);
    cell_mode(&mut app);

    press(&mut app, '9');
    press(&mut app, '9');
    press(&mut app, 'l');
    assert_eq!(app.cursor_col, 7, "eight columns, so the last is 7");

    press(&mut app, '9');
    press(&mut app, '9');
    press(&mut app, 'h');
    assert_eq!(app.cursor_col, 0);
}

#[test]
fn a_counted_jump_scrolls_row_mode_without_overshooting() {
    let mut app = app_sized("countrow.csv", WIDE, 40);
    assert_eq!(app.selection_mode, SelectionMode::Row);

    press(&mut app, '2');
    press(&mut app, 'l');
    assert_eq!(app.col_offset, 2);

    // Past the end it settles where the last column reaches the edge,
    // exactly where repeated single steps stop.
    press(&mut app, '9');
    press(&mut app, 'l');
    assert_eq!(app.col_offset, app.max_col_offset());
}

#[test]
fn the_column_readout_follows_whatever_is_moving() {
    let mut app = app_sized("readout.csv", WIDE, 40);

    // Row mode moves the viewport, so the readout tracks that.
    press(&mut app, 'l');
    assert_eq!(app.col_offset, 1);
    assert_eq!(app.col_position(), 1);

    // Cell mode moves a cursor, so it tracks that instead — it used to
    // sit still while the cursor walked across the screen.
    cell_mode(&mut app);
    let before = app.col_position();
    press(&mut app, 'l');
    assert_eq!(app.col_position(), app.cursor_col);
    assert_ne!(app.col_position(), before);
}

fn offset(app: &Desk) -> usize {
    app.store.as_ref().unwrap().row_offset
}

#[test]
fn it_takes_two_gs_to_reach_the_top() {
    let mut app = tall_app("gg.csv");
    app.cursor_to(20);
    app.refresh();

    press(&mut app, 'g');
    assert_eq!(app.cursor_row, 20, "one g is only half a motion");
    assert_eq!(app.pending_prefix, Some('g'));

    press(&mut app, 'g');
    assert_eq!(app.cursor_row, 0);
    assert_eq!(app.pending_prefix, None);
}

#[test]
fn a_count_survives_the_first_g() {
    let mut app = tall_app("countgg.csv");
    press(&mut app, '1');
    press(&mut app, '2');
    press(&mut app, 'g');
    assert_eq!(app.pending_num, "12", "the count outlives the prefix");
    press(&mut app, 'g');
    assert_eq!(app.cursor_row, 11, "12gg is the twelfth row, 1-based");
}

#[test]
fn an_unfinished_g_is_abandoned_rather_than_acted_on() {
    let mut app = tall_app("gcancel.csv");
    app.cursor_to(20);
    app.refresh();

    press(&mut app, 'g');
    press(&mut app, 'x'); // not a g-command
    assert_eq!(app.pending_prefix, None);
    assert_eq!(app.cursor_row, 20);
    assert_eq!(app.store.as_ref().unwrap().dirty(), 0, "and x did not fire");
}

#[test]
fn a_half_page_moves_the_view_even_when_the_cursor_has_room() {
    let mut app = tall_app("halfpage.csv");
    let viewport = app.store.as_ref().unwrap().viewport_rows;
    assert_eq!(viewport, 10);

    // Cursor at the very top of the window, with nine rows to spare.
    assert_eq!((app.cursor_row, offset(&app)), (0, 0));
    ctrl(&mut app, 'd');

    // vim scrolls the window and takes the cursor with it, keeping its
    // height in the window. Walking the cursor down alone would have left
    // the view untouched.
    assert_eq!(offset(&app), 5, "the view moved half a screen");
    assert_eq!(app.cursor_row, 5, "and the cursor kept its place in it");

    ctrl(&mut app, 'u');
    assert_eq!((app.cursor_row, offset(&app)), (0, 0));
}

#[test]
fn a_whole_page_moves_twice_as_far_as_half_of_one() {
    let mut app = tall_app("wholepage.csv");
    let viewport = app.store.as_ref().unwrap().viewport_rows;
    assert_eq!(viewport, 10);

    ctrl(&mut app, 'f');
    assert_eq!(offset(&app), viewport, "a whole screen");
    assert_eq!(app.cursor_row, viewport, "the cursor came with it");

    ctrl(&mut app, 'b');
    assert_eq!((offset(&app), app.cursor_row), (0, 0));

    // Page Up and Page Down say the same thing, as they do in csvlens.
    key(&mut app, Key::PageDown);
    assert_eq!(offset(&app), viewport);
    key(&mut app, Key::PageUp);
    assert_eq!(offset(&app), 0);
}

#[test]
fn at_the_end_of_the_file_the_cursor_carries_on_alone() {
    let mut app = tall_app("halfend.csv");
    press(&mut app, 'G');
    let settled = offset(&app);
    assert_eq!(app.cursor_row, 39);

    ctrl(&mut app, 'd');
    assert_eq!(offset(&app), settled, "the view has nowhere left to go");
    assert_eq!(app.cursor_row, 39, "and the cursor is already at the end");
}

#[test]
fn z_commands_place_the_cursor_row_in_the_viewport() {
    let mut app = tall_app("zcmd.csv");
    assert_eq!(app.store.as_ref().unwrap().viewport_rows, 10);
    app.cursor_to(20);
    app.refresh();

    press(&mut app, 'z');
    press(&mut app, 't');
    assert_eq!(offset(&app), 20, "zt puts the cursor at the top");

    press(&mut app, 'z');
    press(&mut app, 'z');
    assert_eq!(offset(&app), 15, "zz centres it");

    press(&mut app, 'z');
    press(&mut app, 'b');
    assert_eq!(offset(&app), 11, "zb puts it at the bottom");
    assert_eq!(app.cursor_row, 20, "and none of them move the cursor");
}

const FOURCOL: &str = "a,b,c,d\n1,2,3,4\n5,6,7,8\n";

#[test]
fn select_narrows_the_view_to_the_named_columns_in_order() {
    let mut app = app_sized("select.csv", FOURCOL, 60);
    command(&mut app, "select c a");
    assert_eq!(shown_columns(&app), ["c", "a"]);
    assert_eq!(app.store.as_ref().unwrap().column_count(), 2);

    // Each command replaces the slot rather than narrowing further.
    command(&mut app, "select b");
    assert_eq!(shown_columns(&app), ["b"]);

    command(&mut app, "reset");
    assert_eq!(shown_columns(&app), ["a", "b", "c", "d"]);
}

const CATS: &str = "id,cat\n0,a\n1,b\n2,a\n3,b\n4,a\n";

fn filter(app: &mut Desk, line: &str) {
    command(app, line);
    settle(app);
}

#[test]
fn a_filter_narrows_the_rows_on_show() {
    let mut app = app_sized("filter.csv", CATS, 60);
    filter(&mut app, "filter cat = a");

    let store = app.store.as_ref().unwrap();
    assert_eq!(store.row_count(), 3, "three rows say a");
    assert_eq!(store.total_rows, 5, "the file still has five");
    assert_eq!(shown(&app, 0, 0).as_deref(), Some("0"));
    assert_eq!(shown(&app, 0, 1).as_deref(), Some("2"));
    assert_eq!(shown(&app, 0, 2).as_deref(), Some("4"));
}

#[test]
fn a_bare_filter_puts_the_rows_back() {
    let mut app = app_sized("unfilter.csv", CATS, 60);
    filter(&mut app, "filter cat = a");
    assert_eq!(app.store.as_ref().unwrap().row_count(), 3);

    filter(&mut app, "filter");
    assert_eq!(app.store.as_ref().unwrap().row_count(), 5);
    assert_eq!(shown(&app, 0, 1).as_deref(), Some("1"));
}

/// The reason a filter is resolved to row indices rather than composed
/// into the frame: the edit buffer is keyed by source row, so a row picked
/// out of a filtered view has to know which line of the file it came from.
#[test]
fn editing_a_filtered_row_writes_the_right_line() {
    let mut app = app_with("filteredit.csv", CATS);
    app.last_frame_width = 60;
    filter(&mut app, "filter cat = a");

    // Display row 1 is the file's row 2.
    press(&mut app, 'j');
    cell_mode(&mut app);
    press(&mut app, 'c');
    typed(&mut app, "99");
    key(&mut app, Key::Enter);
    assert_eq!(shown(&app, 0, 1).as_deref(), Some("99"));

    command(&mut app, "w");
    assert_eq!(
        app.file(),
        "id,cat\n0,a\n1,b\n99,a\n3,b\n4,a\n",
        "the edit belongs to the third line, not the second"
    );
}

#[test]
fn a_filtered_view_can_still_be_edited() {
    let mut app = app_sized("filteditable.csv", CATS, 60);
    filter(&mut app, "filter cat = a");
    assert_eq!(
        app.store.as_ref().unwrap().edit_blocked(),
        None,
        "a filter keeps row identity, so it need not block edits"
    );
}

#[test]
fn a_filter_and_a_sort_hold_at_the_same_time() {
    let mut app = app_sized("filtersort.csv", CATS, 60);
    filter(&mut app, "filter cat = a");
    assert_eq!(app.store.as_ref().unwrap().row_count(), 3);

    // Sorting a filtered view keeps the filter, and the `s` key agrees.
    command(&mut app, "sort id-");
    settle_sort(&mut app);
    let store = app.store.as_ref().unwrap();
    assert_eq!(store.row_count(), 3, "still only the rows that matched");
    assert_eq!(store.view.sort, [(0, false)]);
    assert!(store.view.filter.is_some());

    // Descending by id: 4, 2, 0 — the matching rows, reversed.
    assert_eq!(shown(&app, 0, 0).as_deref(), Some("4"));
    assert_eq!(shown(&app, 0, 1).as_deref(), Some("2"));
    assert_eq!(shown(&app, 0, 2).as_deref(), Some("0"));
    assert_eq!(store.edit_blocked(), None, "and it is still editable");
}

/// Both narrowings at once, and an edit through them still has to reach
/// the right line of the file.
#[test]
fn editing_through_a_filtered_and_sorted_view_writes_the_right_line() {
    let mut app = app_with("filtersortedit.csv", CATS);
    app.last_frame_width = 60;
    filter(&mut app, "filter cat = a");
    command(&mut app, "sort id-");
    settle_sort(&mut app);

    // Display row 0 is id 4, the file's fifth row.
    cell_mode(&mut app);
    press(&mut app, 'c');
    typed(&mut app, "99");
    key(&mut app, Key::Enter);
    assert_eq!(shown(&app, 0, 0).as_deref(), Some("99"));

    command(&mut app, "w");
    assert_eq!(
        app.file(),
        "id,cat\n0,a\n1,b\n2,a\n3,b\n99,a\n"
    );
}

#[test]
fn clearing_one_of_them_leaves_the_other_working() {
    let mut app = app_sized("filtersortclear.csv", CATS, 60);
    filter(&mut app, "filter cat = a");
    command(&mut app, "sort id-");
    settle_sort(&mut app);

    // Dropping the sort falls back to the row-set scan, filter intact.
    command(&mut app, "sort");
    settle(&mut app);
    let store = app.store.as_ref().unwrap();
    assert_eq!(store.row_count(), 3);
    assert_eq!(shown(&app, 0, 0).as_deref(), Some("0"), "file order again");

    // Dropping the filter leaves the whole file.
    command(&mut app, "filter");
    settle(&mut app);
    assert_eq!(app.store.as_ref().unwrap().row_count(), 5);
}

#[test]
fn a_filter_that_matches_nothing_shows_nothing() {
    let mut app = app_sized("nomatch.csv", CATS, 60);
    filter(&mut app, "filter cat = zzz");
    let store = app.store.as_ref().unwrap();
    assert_eq!(store.row_count(), 0);
    assert_eq!(store.page[0].len(), 0);
    assert_eq!(
        store.page.len(),
        2,
        "still the right columns to draw a header from"
    );
}

#[test]
fn a_filter_composes_with_a_projection() {
    let mut app = app_sized("filterselect.csv", CATS, 60);
    filter(&mut app, "filter cat = a");
    command(&mut app, "select cat");
    assert_eq!(shown_columns(&app), ["cat"]);
    assert_eq!(app.store.as_ref().unwrap().row_count(), 3);
    assert_eq!(shown(&app, 0, 0).as_deref(), Some("a"));
}

fn tab(app: &mut Desk) {
    key(app, Key::Tab);
}

#[test]
fn tab_completes_a_verb_then_a_column() {
    let mut app = app_sized("tabcomplete.csv", FOURCOL, 60);
    press(&mut app, ':');
    typed(&mut app, "sel");
    tab(&mut app);
    assert_eq!(app.command_buf, "select ");
    assert!(app.completion.is_none(), "one candidate needs no panel");

    typed(&mut app, "c");
    tab(&mut app);
    assert_eq!(app.command_buf, "select c ");
}

#[test]
fn several_candidates_open_the_panel_and_tab_steps_through_them() {
    let mut app = app_sized("tabcycle.csv", "alpha,beta,gamma\n1,2,3\n", 60);
    press(&mut app, ':');
    typed(&mut app, "select ");

    tab(&mut app);
    let options = app.completion.as_ref().expect("a panel").options.clone();
    assert_eq!(options, ["alpha", "beta", "gamma"]);
    assert_eq!(app.panel_height(60, 24), 1, "the panel takes a row");

    // Nothing to extend — the three share no prefix — so Tab steps.
    assert_eq!(app.command_buf, "select ");
    tab(&mut app);
    assert_eq!(app.command_buf, "select alpha ");
    tab(&mut app);
    assert_eq!(app.command_buf, "select beta ");
    key(&mut app, Key::BackTab);
    assert_eq!(app.command_buf, "select alpha ");
}

#[test]
fn the_panel_takes_its_rows_from_the_table() {
    let mut app = app_sized("panelroom.csv", "alpha,beta,gamma\n1,2,3\n", 60);
    let before = viewport_rows(24, 0);
    press(&mut app, ':');
    typed(&mut app, "select ");
    tab(&mut app);
    let after = viewport_rows(24, app.panel_height(60, 24));
    assert_eq!(
        after,
        before - 1,
        "the table gives up exactly the panel's row"
    );
}

#[test]
fn typing_or_leaving_puts_the_panel_away() {
    let mut app = app_sized("panelgone.csv", "alpha,beta,gamma\n1,2,3\n", 60);
    press(&mut app, ':');
    typed(&mut app, "select ");
    tab(&mut app);
    assert!(app.completion.is_some());

    typed(&mut app, "a");
    assert!(app.completion.is_none(), "a keystroke changes the answer");

    tab(&mut app);
    assert_eq!(app.command_buf, "select alpha ");
    key(&mut app, Key::Esc);
    assert!(app.completion.is_none());
    assert_eq!(app.panel_height(60, 24), 0);
}

#[test]
fn a_completed_command_actually_runs() {
    let mut app = app_sized("tabrun.csv", FOURCOL, 60);
    press(&mut app, ':');
    typed(&mut app, "sel");
    tab(&mut app);
    typed(&mut app, "d");
    tab(&mut app);
    key(&mut app, Key::Enter);
    assert_eq!(shown_columns(&app), ["d"], "msg: {:?}", app.message);
}

#[test]
fn dd_takes_out_the_cursor_row_and_writes_it_out() {
    let mut app = app_with("dd.csv", SAMPLE);
    app.last_frame_width = 60;
    press(&mut app, 'j'); // on row 1, `b`

    press(&mut app, 'd');
    assert_eq!(app.pending_prefix, Some('d'), "one d is half a command");
    assert_eq!(shown(&app, 0, 1).as_deref(), Some("b"), "nothing yet");

    press(&mut app, 'd');
    assert_eq!(app.store.as_ref().unwrap().row_count(), 2);
    assert_eq!(shown(&app, 0, 0).as_deref(), Some("a"));
    assert_eq!(shown(&app, 0, 1).as_deref(), Some("c"), "c moved up");

    // Nothing has reached the file until :w.
    assert_eq!(app.file(), SAMPLE);
    command(&mut app, "w");
    assert_eq!(
        app.file(),
        "name,count\na,1\nc,3\n"
    );
}

#[test]
fn a_count_deletes_that_many_rows() {
    let mut app = app_with("countdd.csv", SAMPLE);
    app.last_frame_width = 60;
    press(&mut app, '2');
    press(&mut app, 'd');
    assert_eq!(app.pending_num, "2", "the count outlives the prefix");
    press(&mut app, 'd');

    assert_eq!(app.store.as_ref().unwrap().row_count(), 1);
    assert_eq!(shown(&app, 0, 0).as_deref(), Some("c"));
    command(&mut app, "w");
    assert_eq!(app.file(), "name,count\nc,3\n");
}

#[test]
fn deleting_is_one_undoable_step() {
    let mut app = app_with("undodd.csv", SAMPLE);
    app.last_frame_width = 60;
    press(&mut app, '2');
    press(&mut app, 'd');
    press(&mut app, 'd');
    assert_eq!(app.store.as_ref().unwrap().row_count(), 1);

    press(&mut app, 'u');
    assert_eq!(
        app.store.as_ref().unwrap().row_count(),
        3,
        "two rows, one undo"
    );
    assert_eq!(shown(&app, 0, 0).as_deref(), Some("a"));
    assert_eq!(app.store.as_ref().unwrap().dirty(), 0);
}

#[test]
fn a_visual_selection_deletes_its_rows() {
    let mut app = app_with("visualdd.csv", SAMPLE);
    app.last_frame_width = 60;
    press(&mut app, 'v');
    press(&mut app, 'j');
    press(&mut app, 'd');

    assert_eq!(app.store.as_ref().unwrap().row_count(), 1);
    assert!(app.visual_anchor.is_none(), "the selection is spent");
    command(&mut app, "w");
    assert_eq!(app.file(), "name,count\nc,3\n");
}

#[test]
fn deleting_past_the_end_takes_what_is_there_and_moves_the_cursor_back() {
    let mut app = app_with("ddend.csv", SAMPLE);
    app.last_frame_width = 60;
    press(&mut app, 'j');
    press(&mut app, '9');
    press(&mut app, 'd');
    press(&mut app, 'd');

    assert_eq!(app.store.as_ref().unwrap().row_count(), 1);
    assert_eq!(app.cursor_row, 0, "the cursor cannot sit past the end");
    assert!(app.message.clone().unwrap().contains("deleted 2 rows"));
}

#[test]
fn an_edited_cell_below_a_deleted_row_still_belongs_to_its_own_line() {
    // The edit is keyed to the file, the deletion shifts what is on
    // screen, and only the file can say whether they agree.
    let mut app = app_with("ddshift.csv", SAMPLE);
    app.last_frame_width = 60;
    cell_mode(&mut app);
    press(&mut app, 'd');
    press(&mut app, 'd'); // delete `a`, so `b` is now display row 0

    press(&mut app, 'c');
    typed(&mut app, "B");
    key(&mut app, Key::Enter);
    assert_eq!(shown(&app, 0, 0).as_deref(), Some("B"));

    command(&mut app, "w");
    assert_eq!(
        app.file(),
        "name,count\nB,2\nc,3\n",
        "the edit belongs to b's line, not a's"
    );
}

#[test]
fn a_sorted_or_filtered_view_says_why_it_will_not_delete() {
    let mut app = app_sized("ddblocked.csv", CATS, 60);
    filter(&mut app, "filter cat = a");
    press(&mut app, 'd');
    press(&mut app, 'd');
    let message = app.message.clone().unwrap();
    assert!(message.contains("filtered or sorted"), "{message}");
    assert_eq!(app.store.as_ref().unwrap().row_count(), 3, "untouched");
}

#[test]
fn o_opens_a_row_below_ready_to_type_into() {
    let mut app = app_with("open.csv", SAMPLE);
    app.last_frame_width = 60;
    press(&mut app, 'o');

    assert!(matches!(app.mode, Mode::Edit), "typing starts at once");
    assert_eq!(app.cursor_row, 1, "below the row it was on");
    assert_eq!(app.store.as_ref().unwrap().row_count(), 4);

    typed(&mut app, "new");
    key(&mut app, Key::Enter);
    assert_eq!(shown(&app, 0, 1).as_deref(), Some("new"));
    assert_eq!(shown(&app, 0, 2).as_deref(), Some("b"), "b moved down");

    command(&mut app, "w");
    assert_eq!(
        app.file(),
        "name,count\na,1\nnew,\nb,2\nc,3\n"
    );
}

#[test]
fn shift_o_opens_a_row_above() {
    let mut app = app_with("openabove.csv", SAMPLE);
    app.last_frame_width = 60;
    press(&mut app, 'j');
    press(&mut app, 'O');
    assert_eq!(app.cursor_row, 1, "where the old row 1 was");
    typed(&mut app, "mid");
    key(&mut app, Key::Enter);

    command(&mut app, "w");
    assert_eq!(
        app.file(),
        "name,count\na,1\nmid,\nb,2\nc,3\n"
    );
}

#[test]
fn a_row_opened_at_the_top_lands_above_everything() {
    let mut app = app_with("opentop.csv", SAMPLE);
    app.last_frame_width = 60;
    press(&mut app, 'O');
    typed(&mut app, "first");
    key(&mut app, Key::Enter);
    assert_eq!(shown(&app, 0, 0).as_deref(), Some("first"));

    command(&mut app, "w");
    assert_eq!(
        app.file(),
        "name,count\nfirst,\na,1\nb,2\nc,3\n",
        "under the header, above the first row"
    );
}

#[test]
fn a_row_opened_at_the_end_lands_after_everything() {
    let mut app = app_with("openend.csv", SAMPLE);
    app.last_frame_width = 60;
    press(&mut app, 'G');
    press(&mut app, 'o');
    typed(&mut app, "last");
    key(&mut app, Key::Enter);

    command(&mut app, "w");
    assert_eq!(
        app.file(),
        "name,count\na,1\nb,2\nc,3\nlast,\n"
    );
}

/// `o` twice running has to give two rows in the order they were opened,
/// which is the case that breaks if a new row is only ever appended to its
/// anchor rather than placed within it.
#[test]
fn opening_below_a_new_row_keeps_them_in_order() {
    let mut app = app_with("openorder.csv", SAMPLE);
    app.last_frame_width = 60;
    press(&mut app, 'o');
    typed(&mut app, "one");
    key(&mut app, Key::Enter);
    press(&mut app, 'o');
    typed(&mut app, "two");
    key(&mut app, Key::Enter);

    assert_eq!(shown(&app, 0, 1).as_deref(), Some("one"));
    assert_eq!(shown(&app, 0, 2).as_deref(), Some("two"));
    command(&mut app, "w");
    assert_eq!(
        app.file(),
        "name,count\na,1\none,\ntwo,\nb,2\nc,3\n"
    );
}

#[test]
fn opening_a_row_is_one_undoable_step() {
    let mut app = app_with("openundo.csv", SAMPLE);
    app.last_frame_width = 60;
    press(&mut app, 'o');
    key(&mut app, Key::Esc);
    assert_eq!(app.store.as_ref().unwrap().row_count(), 4);

    press(&mut app, 'u');
    assert_eq!(app.store.as_ref().unwrap().row_count(), 3);
    assert_eq!(app.store.as_ref().unwrap().dirty(), 0);
}

#[test]
fn a_new_row_can_be_deleted_again() {
    let mut app = app_with("openthendelete.csv", SAMPLE);
    app.last_frame_width = 60;
    press(&mut app, 'o');
    typed(&mut app, "gone");
    key(&mut app, Key::Enter);
    press(&mut app, 'd');
    press(&mut app, 'd');

    assert_eq!(app.store.as_ref().unwrap().row_count(), 3);
    command(&mut app, "w");
    // Asserted positively: an unchanged file is also what a *refused*
    // write leaves behind.
    assert_eq!(app.message.as_deref(), Some("wrote openthendelete.csv"));
    assert_eq!(app.store.as_ref().unwrap().dirty(), 0);
    assert_eq!(app.file(), SAMPLE, "as it was");
}

#[test]
fn a_bare_select_puts_the_columns_back() {
    let mut app = app_sized("bareselect.csv", FOURCOL, 60);
    command(&mut app, "select c");
    assert_eq!(shown_columns(&app), ["c"]);

    command(&mut app, "select");
    assert_eq!(shown_columns(&app), ["a", "b", "c", "d"]);
    assert!(app.message.is_none(), "no complaint: {:?}", app.message);

    command(&mut app, "hide a");
    command(&mut app, "select *");
    assert_eq!(shown_columns(&app), ["a", "b", "c", "d"]);
}

#[test]
fn hide_drops_columns_from_what_is_on_show() {
    let mut app = app_sized("hide.csv", FOURCOL, 60);
    command(&mut app, "hide b d");
    assert_eq!(shown_columns(&app), ["a", "c"]);
}

#[test]
fn a_bad_view_command_is_reported_and_changes_nothing() {
    let mut app = app_sized("badview.csv", FOURCOL, 60);
    command(&mut app, "select nope");
    assert!(app.message.clone().unwrap().contains("no column called"));
    assert_eq!(shown_columns(&app), ["a", "b", "c", "d"], "untouched");

    command(&mut app, "hide a b c d");
    assert!(app.message.clone().unwrap().contains("hide every column"));
    assert_eq!(shown_columns(&app), ["a", "b", "c", "d"]);
}

/// The overlay is keyed by source column, so an edit made through a
/// reordered view has to land on the right field of the file.
#[test]
fn editing_through_a_narrowed_view_writes_the_right_column() {
    let mut app = app_with("viewedit.csv", FOURCOL);
    app.last_frame_width = 60;
    command(&mut app, "select d a");
    cell_mode(&mut app);

    // Display column 0 is the file's column `d`.
    press(&mut app, 'c');
    typed(&mut app, "X");
    key(&mut app, Key::Enter);
    assert_eq!(shown_columns(&app), ["d", "a"]);
    assert_eq!(shown(&app, 0, 0).as_deref(), Some("X"));

    command(&mut app, "w");
    assert_eq!(
        app.file(),
        "a,b,c,d\n1,2,3,X\n5,6,7,8\n",
        "the edit belongs to column d, not to column a"
    );
}

#[test]
fn an_edit_hidden_by_a_view_is_still_pending_and_still_written() {
    let mut app = app_with("viewhidden.csv", FOURCOL);
    app.last_frame_width = 60;
    cell_mode(&mut app);
    press(&mut app, 'c');
    typed(&mut app, "Z");
    key(&mut app, Key::Enter);

    command(&mut app, "select c d");
    assert!(
        app.store.as_ref().unwrap().edited_cells(10).is_empty(),
        "nowhere on screen to mark it"
    );
    assert_eq!(app.store.as_ref().unwrap().dirty(), 1, "but still pending");

    command(&mut app, "w");
    assert_eq!(
        app.file(),
        "a,b,c,d\nZ,2,3,4\n5,6,7,8\n"
    );
}

#[test]
fn a_narrowing_view_brings_the_cursor_back_inside_it() {
    let mut app = app_sized("clampview.csv", FOURCOL, 60);
    cell_mode(&mut app);
    press(&mut app, '$');
    assert_eq!(app.cursor_col, 3);

    command(&mut app, "select a b");
    assert_eq!(app.cursor_col, 1, "the cursor cannot point past the view");
}

#[test]
fn sort_from_the_command_line_agrees_with_the_s_key() {
    let mut app = app_sized("viewsort.csv", FOURCOL, 60);
    command(&mut app, "sort b-");
    settle_sort(&mut app);
    let store = app.store.as_ref().unwrap();
    assert_eq!(store.view.sort, [(1, false)]);
    assert_eq!(store.sort_display(), [(1, false)]);
    assert_eq!(
        app.cursor_row, 0,
        "a reorder puts the cursor back at the top"
    );

    // `:sort` goes through the same rebuild the `s` key does, so the rows
    // stay identifiable and the view stays editable.
    assert_eq!(store.edit_blocked(), None);
}

#[test]
fn a_sort_key_on_a_hidden_column_keeps_working_but_is_not_drawn() {
    let mut app = app_sized("hiddensort.csv", FOURCOL, 60);
    command(&mut app, "sort d");
    command(&mut app, "select a b");
    let store = app.store.as_ref().unwrap();
    assert_eq!(store.view.sort, [(3, true)], "the sort still applies");
    assert!(store.sort_display().is_empty(), "but has no header to mark");
}

#[test]
fn a_selection_grows_with_the_motions() {
    let mut app = app_with("visual.csv", SAMPLE);
    cell_mode(&mut app);

    press(&mut app, 'v');
    assert_eq!(range(&app), Some(((0, 0), (0, 0))));

    press(&mut app, 'j');
    press(&mut app, 'l');
    assert_eq!(range(&app), Some(((0, 1), (0, 1))));

    // Counts work, because they are the ordinary motions.
    press(&mut app, 'v');
    assert_eq!(range(&app), None, "v again cancels");
}

#[test]
fn filling_a_selection_is_one_edit_and_one_undo() {
    let mut app = app_with("fill.csv", SAMPLE);
    cell_mode(&mut app);

    press(&mut app, 'v');
    press(&mut app, 'j');
    press(&mut app, 'l');
    press(&mut app, 'c');
    assert!(matches!(app.mode, Mode::Edit));
    typed(&mut app, "z");
    key(&mut app, Key::Enter);

    assert_eq!(app.store.as_ref().unwrap().dirty(), 4);
    assert!(app.visual_anchor.is_none(), "the selection is spent");
    for row in 0..2 {
        for col in 0..2 {
            assert_eq!(shown(&app, col, row).as_deref(), Some("z"), "{row},{col}");
        }
    }
    // Untouched by the block.
    assert_eq!(shown(&app, 0, 2).as_deref(), Some("c"));

    press(&mut app, 'u');
    assert_eq!(
        app.store.as_ref().unwrap().dirty(),
        0,
        "one fill, one undo — not four"
    );
}

#[test]
fn i_and_a_build_on_what_each_cell_already_holds() {
    let mut app = app_with("prepend.csv", SAMPLE);
    cell_mode(&mut app);

    // Prepend down the name column.
    press(&mut app, 'v');
    press(&mut app, 'j');
    press(&mut app, 'i');
    typed(&mut app, ">");
    key(&mut app, Key::Enter);
    assert_eq!(shown(&app, 0, 0).as_deref(), Some(">a"));
    assert_eq!(shown(&app, 0, 1).as_deref(), Some(">b"));
    assert_eq!(shown(&app, 0, 2).as_deref(), Some("c"), "outside the block");

    // Append over the same two cells — back to the top first, since the
    // cursor is left where the last selection ended.
    press(&mut app, 'g');
    press(&mut app, 'g');
    press(&mut app, 'v');
    press(&mut app, 'j');
    press(&mut app, 'a');
    typed(&mut app, "!");
    key(&mut app, Key::Enter);
    assert_eq!(shown(&app, 0, 0).as_deref(), Some(">a!"));
    assert_eq!(shown(&app, 0, 1).as_deref(), Some(">b!"));
}

#[test]
fn an_append_reads_rows_below_the_viewport() {
    // The page holds one row; the block covers all three. A prepend that
    // could only see the visible row would lose the other two values.
    let mut app = app_with("offpage.csv", SAMPLE);
    app.resize(1);
    key(&mut app, Key::Tab); // column mode: every row

    press(&mut app, 'v');
    press(&mut app, 'a');
    typed(&mut app, "_x");
    key(&mut app, Key::Enter);

    assert_eq!(app.store.as_ref().unwrap().dirty(), 3);
    command(&mut app, "w");
    assert_eq!(
        app.file(),
        "name,count\na_x,1\nb_x,2\nc_x,3\n"
    );
}

#[test]
fn a_fill_over_numbers_warns_from_the_value_it_will_write() {
    let mut app = app_with("fillwarn.csv", SAMPLE);
    key(&mut app, Key::Tab); // column mode
    press(&mut app, 'l'); // the numeric column
    press(&mut app, 'v');
    press(&mut app, 'a');
    typed(&mut app, "kg");
    key(&mut app, Key::Enter);

    // "1kg" is what lands in the cell, and that is what is warned about.
    let message = app.message.clone().expect("appending to a number warns");
    assert!(message.contains("becomes text"), "{message}");
    assert_eq!(shown(&app, 1, 0).as_deref(), Some("1kg"));
}

#[test]
fn a_row_selection_covers_every_column() {
    let mut app = app_with("rowsel.csv", SAMPLE);
    assert_eq!(app.selection_mode, SelectionMode::Row);

    press(&mut app, 'v');
    press(&mut app, 'j');
    assert_eq!(range(&app), Some(((0, 1), (0, 1))));

    press(&mut app, 'x');
    assert_eq!(app.store.as_ref().unwrap().dirty(), 4);
    // Row mode keeps its shape rather than being switched to cell mode.
    assert_eq!(app.selection_mode, SelectionMode::Row);
}

#[test]
fn a_column_selection_covers_every_row() {
    let mut app = app_with("colsel.csv", SAMPLE);
    key(&mut app, Key::Tab);
    assert_eq!(app.selection_mode, SelectionMode::Column);

    press(&mut app, 'v');
    assert_eq!(range(&app), Some(((0, 2), (0, 0))), "all three rows");

    press(&mut app, 'x');
    assert_eq!(app.store.as_ref().unwrap().dirty(), 3);
    for row in 0..3 {
        assert_eq!(shown(&app, 0, row).as_deref(), Some(""), "row {row}");
    }
}

#[test]
fn escape_gives_up_the_selection_before_the_search() {
    let mut app = app_with("esc.csv", SAMPLE);
    let query = SearchQuery::new("a".to_string()).unwrap();
    app.search_state = Some(SearchState::new(query, None));

    press(&mut app, 'v');
    key(&mut app, Key::Esc);
    assert!(app.visual_anchor.is_none());
    assert!(app.search_state.is_some(), "one Esc, one thing given up");

    key(&mut app, Key::Esc);
    assert!(app.search_state.is_none());
}

#[test]
fn tab_gives_up_the_selection_rather_than_reshaping_it() {
    let mut app = app_with("tabsel.csv", SAMPLE);
    press(&mut app, 'v');
    key(&mut app, Key::Tab);
    assert!(app.visual_anchor.is_none());
}

#[test]
fn a_yanked_block_pastes_at_the_cursor() {
    let mut app = app_with("yank.csv", SAMPLE);
    cell_mode(&mut app);

    // Yank the first two names.
    press(&mut app, 'v');
    press(&mut app, 'j');
    press(&mut app, 'y');
    assert_eq!(app.message.as_deref(), Some("yanked 2 cells"));
    assert!(app.visual_anchor.is_none());
    assert_eq!(app.store.as_ref().unwrap().dirty(), 0, "yanking reads only");

    // Paste them one row down.
    press(&mut app, 'j');
    press(&mut app, 'p');
    assert_eq!(shown(&app, 0, 1).as_deref(), Some("a"));
    assert_eq!(shown(&app, 0, 2).as_deref(), Some("b"));

    command(&mut app, "w");
    assert_eq!(
        app.file(),
        "name,count\na,1\na,2\nb,3\n"
    );
}

#[test]
fn a_visual_yank_leaves_the_cursor_where_the_selection_began() {
    let mut app = app_with("yankcursor.csv", SAMPLE);
    cell_mode(&mut app);
    press(&mut app, 'j'); // start from row 1

    press(&mut app, 'v');
    press(&mut app, 'j'); // extend down to row 2
    press(&mut app, 'y');
    assert_eq!(app.cursor_row, 1, "back to the anchor, not the far end");
}

#[test]
fn yanking_without_a_selection_follows_the_mode() {
    let mut app = app_with("yankmode.csv", SAMPLE);

    // Row mode: the whole row, every column.
    press(&mut app, 'y');
    assert_eq!(app.message.as_deref(), Some("yanked 2 cells"));

    cell_mode(&mut app);
    press(&mut app, 'y');
    assert_eq!(app.message.as_deref(), Some("yanked 1 cells"));
}

#[test]
fn a_paste_running_off_the_edge_is_clipped_and_says_so() {
    let mut app = app_with("clip.csv", SAMPLE);
    cell_mode(&mut app);

    press(&mut app, 'v');
    press(&mut app, 'j');
    press(&mut app, 'y');

    // Land it on the last row, so the second cell has nowhere to go.
    press(&mut app, 'G');
    press(&mut app, 'p');
    let message = app.message.clone().unwrap();
    assert_eq!(message, "pasted 1 cells, 1 past the edge");
    assert_eq!(shown(&app, 0, 2).as_deref(), Some("a"));
    assert_eq!(app.store.as_ref().unwrap().dirty(), 1);
}

#[test]
fn pasting_an_empty_register_says_so() {
    let mut app = app_with("noreg.csv", SAMPLE);
    press(&mut app, 'p');
    assert_eq!(app.message.as_deref(), Some("nothing to paste"));
    assert_eq!(app.store.as_ref().unwrap().dirty(), 0);
}

#[test]
fn the_register_holds_pending_edits_not_what_is_on_disk() {
    let mut app = app_with("regedit.csv", SAMPLE);
    cell_mode(&mut app);

    press(&mut app, 'c');
    typed(&mut app, "edited");
    key(&mut app, Key::Enter);
    press(&mut app, 'y');

    press(&mut app, 'j');
    press(&mut app, 'p');
    assert_eq!(shown(&app, 0, 1).as_deref(), Some("edited"));
}

#[test]
fn a_fill_larger_than_the_buffer_should_hold_is_refused() {
    // A column selection covers every row, so on a large file it is the
    // easy way to ask for millions of overlay entries by accident.
    let rows = MAX_BLOCK / 2 + 1000;
    let mut csv = String::from("name,count\n");
    for i in 0..rows {
        csv.push_str(&format!("r{i},{i}\n"));
    }
    let mut app = app_with("huge.csv", &csv);
    key(&mut app, Key::Tab); // column mode
    press(&mut app, 'v');
    press(&mut app, 'l'); // both columns, every row

    press(&mut app, 'c');
    assert!(matches!(app.mode, Mode::Normal), "no editor opens");
    assert_eq!(app.store.as_ref().unwrap().dirty(), 0);
    let message = app.message.clone().unwrap();
    assert!(message.contains("too many"), "{message}");
}

/// The picker holds a working copy, so leaving it costs nothing.
#[test]
fn escape_leaves_the_picker_changing_nothing() {
    let mut app = app_sized("pick.csv", FOURCOL, 60);
    press(&mut app, 'C');
    assert!(matches!(app.mode, Mode::Picker));

    press(&mut app, 'j');
    press(&mut app, '-'); // untick b
    press(&mut app, 'p'); // and pin it
    key(&mut app, Key::Esc);

    assert!(matches!(app.mode, Mode::Normal));
    assert!(app.picker.is_none());
    assert_eq!(shown_columns(&app), ["a", "b", "c", "d"], "untouched");
    assert!(app.pinned.is_empty(), "and the pin never happened");
}

/// Enter writes a `:select`, so the picker is a way of *typing* one rather
/// than a second thing that decides what shows.
#[test]
fn the_picker_applies_its_selection_as_a_select() {
    let mut app = app_sized("pickapply.csv", FOURCOL, 60);
    press(&mut app, 'C');
    press(&mut app, 'j');
    press(&mut app, '-'); // untick b
    key(&mut app, Key::Enter);

    assert!(matches!(app.mode, Mode::Normal));
    assert_eq!(shown_columns(&app), ["a", "c", "d"]);
    // It went through the view, so the view describes it and reset undoes it.
    command(&mut app, "reset select");
    assert_eq!(shown_columns(&app), ["a", "b", "c", "d"]);
}

/// A reordering `:select` has to survive a round trip: a picker that
/// quietly discards the order would be worse than no picker.
#[test]
fn opening_and_applying_the_picker_preserves_the_view_order() {
    let mut app = app_sized("pickorder.csv", FOURCOL, 60);
    command(&mut app, "select c a");
    assert_eq!(shown_columns(&app), ["c", "a"]);

    press(&mut app, 'C');
    key(&mut app, Key::Enter);
    assert_eq!(shown_columns(&app), ["c", "a"], "unchanged");
}

/// A column ticked back on lands where it is listed, which is where the
/// user was looking when they ticked it.
#[test]
fn a_column_ticked_back_on_lands_where_it_was_listed() {
    let mut app = app_sized("pickback.csv", FOURCOL, 60);
    command(&mut app, "select a c");
    press(&mut app, 'C');
    // Listed a c b d — the view's two, then the hidden ones.
    press(&mut app, 'j');
    press(&mut app, 'j'); // onto b
    press(&mut app, '-');
    key(&mut app, Key::Enter);
    assert_eq!(shown_columns(&app), ["a", "c", "b"]);
}

#[test]
fn the_picker_carries_pins_in_and_back_out() {
    let mut app = app_sized("pickpin.csv", FOURCOL, 60);
    key(&mut app, Key::Tab);
    press(&mut app, 'z');
    press(&mut app, 'p'); // pin a the ordinary way

    press(&mut app, 'C');
    press(&mut app, 'j');
    press(&mut app, 'p'); // and b from the list
    key(&mut app, Key::Enter);
    assert_eq!(app.pinned.iter().copied().collect::<Vec<_>>(), [0, 1]);

    // Unpinning from the list works the same way round.
    press(&mut app, 'C');
    press(&mut app, 'p');
    key(&mut app, Key::Enter);
    assert_eq!(app.pinned.iter().copied().collect::<Vec<_>>(), [1]);
}

/// The view change is what the user came for, so pins that do not fit are
/// trimmed and named rather than taking the whole apply down with them.
#[test]
fn pins_that_do_not_fit_are_trimmed_not_refused() {
    let mut app = app_sized("picktrim.csv", FOURCOL, 24);
    press(&mut app, 'C');
    press(&mut app, 'p'); // pin a
    press(&mut app, 'j');
    press(&mut app, 'p'); // and b
    press(&mut app, 'j');
    press(&mut app, '-'); // while also hiding c, so the view change is real
    key(&mut app, Key::Enter);

    assert_eq!(shown_columns(&app), ["a", "b", "d"], "the view still applied");
    assert!(
        app.pinned.len() < 2,
        "and the pins were trimmed to what fits: {:?}",
        app.pinned
    );
    let said = app.message.clone().unwrap();
    assert!(said.contains("no room for"), "{said}");
}

/// Unticking the last column is stopped where it is pressed, rather than
/// on Enter after a whole session of ticking.
#[test]
fn the_picker_refuses_to_untick_the_last_column() {
    let mut app = app_sized("picklast.csv", FOURCOL, 60);
    command(&mut app, "select a");
    press(&mut app, 'C');
    press(&mut app, '-');
    let refusal = app.message.clone().unwrap();
    assert!(refusal.contains("hide every column"), "{refusal}");

    key(&mut app, Key::Enter);
    assert_eq!(shown_columns(&app), ["a"]);
}

/// Unlike `-`, the picker is a list of every column rather than an
/// operation on the one under the cursor, so it needs no column cursor.
#[test]
fn the_picker_opens_in_row_mode() {
    let mut app = app_sized("pickrow.csv", FOURCOL, 60);
    assert_eq!(app.selection_mode, SelectionMode::Row);
    press(&mut app, 'C');
    assert!(matches!(app.mode, Mode::Picker));
    press(&mut app, 'j');
    press(&mut app, '-');
    key(&mut app, Key::Enter);
    assert_eq!(shown_columns(&app), ["a", "c", "d"]);
}

/// The workflow the keys exist for: start from none, tick the few wanted.
#[test]
fn a_and_shift_a_pick_a_handful_out_of_the_whole_list() {
    let mut app = app_sized("pickall.csv", FOURCOL, 60);
    press(&mut app, 'C');
    press(&mut app, 'j'); // onto b
    press(&mut app, 'A'); // and nothing else
    press(&mut app, 'j');
    press(&mut app, 'j'); // onto d
    press(&mut app, '-'); // tick it too
    key(&mut app, Key::Enter);
    assert_eq!(shown_columns(&app), ["b", "d"]);

    press(&mut app, 'C');
    press(&mut app, 'a');
    key(&mut app, Key::Enter);
    assert_eq!(shown_columns(&app), ["b", "d", "a", "c"], "all back, listed order");
}

/// `q` closes a window everywhere else in vim, and a window is a view —
/// closing one never destroys work. The picker holds changes that are not
/// applied yet, so it cannot close harmlessly, and it does not borrow the
/// letter for something that would throw them away.
#[test]
fn q_is_not_a_picker_key() {
    let mut app = app_sized("pickq.csv", FOURCOL, 60);
    press(&mut app, 'C');
    press(&mut app, 'j');
    press(&mut app, '-'); // untick b

    press(&mut app, 'q');
    assert!(matches!(app.mode, Mode::Picker), "still open");
    assert!(!app.exit, "and it is not the app's q either");

    key(&mut app, Key::Enter);
    assert_eq!(shown_columns(&app), ["a", "c", "d"], "the tick survived it");
}

/// The picker's keys are the least guessable here, and the status bar
/// drops its hints on a narrow terminal, so `?` has to reach them.
#[test]
fn the_help_overlay_follows_the_picker() {
    let mut app = app_sized("pickhelp.csv", FOURCOL, 60);
    press(&mut app, 'C');
    press(&mut app, '?');
    assert!(app.help_visible);
    let sections = app.help_sections();
    assert_eq!(sections.len(), 1, "just the picker's own keys");
    let keys: Vec<&str> = sections[0].keys().into_iter().map(|(key, _)| key).collect();
    assert!(keys.contains(&"-") && keys.contains(&"p"), "{keys:?}");
}

/// `-` is `:hide <name>` without the typing, so it goes through the same
/// slot and shows up in the same place.
#[test]
fn minus_hides_the_cursor_column() {
    let mut app = app_sized("hide.csv", FOURCOL, 60);
    key(&mut app, Key::Tab); // column mode
    press(&mut app, 'l'); // onto b

    press(&mut app, '-');
    assert_eq!(shown_columns(&app), ["a", "c", "d"]);
}

/// `:hide` reads the current list and filters it, so hiding twice narrows
/// twice — where a second `:select` would replace the first.
#[test]
fn hiding_accumulates_rather_than_replacing() {
    let mut app = app_sized("hidetwice.csv", FOURCOL, 60);
    key(&mut app, Key::Tab);
    press(&mut app, '-');
    press(&mut app, '-');
    assert_eq!(shown_columns(&app), ["c", "d"]);
}

/// The cursor stays where the column was, on whatever moved into that
/// position — as `dd` leaves it on the next row.
#[test]
fn the_cursor_stays_where_the_hidden_column_was() {
    let mut app = app_sized("hidecursor.csv", FOURCOL, 60);
    key(&mut app, Key::Tab);
    press(&mut app, 'l'); // onto b, position 1
    press(&mut app, '-');
    assert_eq!(app.cursor_col, 1, "still position 1");
    assert_eq!(shown_columns(&app)[app.cursor_col], "c", "now showing c");

    // At the right edge there is nothing to move up, so it steps back.
    press(&mut app, '$');
    let last = shown_columns(&app).len() - 1;
    assert_eq!(app.cursor_col, last);
    press(&mut app, '-');
    assert_eq!(app.cursor_col, shown_columns(&app).len() - 1);
}

/// Hiding everything would leave nothing to look at, and `view::apply`
/// already refuses it — the key must not find its own way round that.
#[test]
fn hiding_the_last_column_is_refused() {
    let mut app = app_sized("hideall.csv", FOURCOL, 60);
    key(&mut app, Key::Tab);
    for _ in 0..3 {
        press(&mut app, '-');
    }
    assert_eq!(shown_columns(&app).len(), 1);

    press(&mut app, '-');
    assert_eq!(shown_columns(&app).len(), 1, "the last one stays");
    let refusal = app.message.clone().unwrap();
    assert!(refusal.contains("hide every column"), "{refusal}");
}

/// There is no key that un-hides one column, so the way back has to be in
/// front of the user at the moment they might want it.
#[test]
fn hiding_says_how_to_get_the_column_back() {
    let mut app = app_sized("hideback.csv", FOURCOL, 60);
    key(&mut app, Key::Tab);
    press(&mut app, '-');
    let said = app.message.clone().unwrap();
    assert!(said.contains("hid a"), "{said}");
    assert!(said.contains("reset select"), "{said}");

    command(&mut app, "reset select");
    assert_eq!(shown_columns(&app), ["a", "b", "c", "d"]);
}

/// Row mode has no column cursor, so there is no column the key could
/// mean — the same gate `s` has.
#[test]
fn hiding_needs_a_column_cursor() {
    let mut app = app_sized("hiderow.csv", FOURCOL, 60);
    assert_eq!(app.selection_mode, SelectionMode::Row);
    press(&mut app, '-');
    assert_eq!(shown_columns(&app), ["a", "b", "c", "d"]);
}

/// The two column features compose: a pin on a hidden column waits, and
/// hiding around a pin leaves it drawn.
#[test]
fn a_hidden_column_keeps_its_pin_for_when_it_comes_back() {
    let mut app = app_sized("hidepin.csv", FOURCOL, 60);
    key(&mut app, Key::Tab);
    press(&mut app, 'z');
    press(&mut app, 'p'); // pin a
    press(&mut app, '-'); // and hide it

    assert_eq!(shown_columns(&app), ["b", "c", "d"]);
    assert!(app.display_pins().is_empty(), "nowhere to draw it");
    assert_eq!(app.pinned.iter().copied().collect::<Vec<_>>(), [0]);

    command(&mut app, "reset select");
    assert_eq!(app.display_pins().iter().copied().collect::<Vec<_>>(), [0]);
}

#[test]
fn zp_pins_the_cursor_column_and_pressing_it_again_lets_go() {
    let mut app = app_sized("pin.csv", FOURCOL, 60);
    key(&mut app, Key::Tab); // column mode, so there is a column cursor
    press(&mut app, 'l'); // onto b

    press(&mut app, 'z');
    press(&mut app, 'p');
    assert_eq!(app.pinned.iter().copied().collect::<Vec<_>>(), [1]);

    press(&mut app, 'z');
    press(&mut app, 'p');
    assert!(app.pinned.is_empty(), "the same key lets it go");
}

#[test]
fn z_bar_unpins_everything_at_once() {
    let mut app = app_sized("unpinall.csv", FOURCOL, 60);
    key(&mut app, Key::Tab);
    press(&mut app, 'z');
    press(&mut app, 'p');
    press(&mut app, 'l');
    press(&mut app, 'z');
    press(&mut app, 'p');
    assert_eq!(app.pinned.len(), 2);

    press(&mut app, 'z');
    press(&mut app, '|');
    assert!(app.pinned.is_empty());

    // `zP` is `zp`: the prefix lowercases its second key, so a stray shift
    // toggles the cursor column rather than clearing the lot.
    press(&mut app, 'z');
    press(&mut app, 'P');
    assert_eq!(app.pinned.len(), 1);
}

/// A pin is kept against the source column, like a width, so reordering
/// the view moves the pin with its column rather than leaving it on
/// whatever now happens to sit in that position.
#[test]
fn a_pin_follows_its_column_through_a_select() {
    let mut app = app_sized("pinselect.csv", FOURCOL, 60);
    key(&mut app, Key::Tab);
    press(&mut app, 'z');
    press(&mut app, 'p'); // pin `a`, source 0, display 0
    assert_eq!(app.display_pins().iter().copied().collect::<Vec<_>>(), [0]);

    command(&mut app, "select c a");
    assert_eq!(shown_columns(&app), ["c", "a"]);
    assert_eq!(
        app.pinned.iter().copied().collect::<Vec<_>>(),
        [0],
        "still `a`"
    );
    assert_eq!(
        app.display_pins().iter().copied().collect::<Vec<_>>(),
        [1],
        "which `select` has moved to the second position"
    );
}

/// A pin on a column the view hides is not forgotten — it has nowhere to
/// be drawn, and comes back when the column does.
#[test]
fn a_pin_on_a_hidden_column_waits_rather_than_being_dropped() {
    let mut app = app_sized("pinhide.csv", FOURCOL, 60);
    key(&mut app, Key::Tab);
    press(&mut app, 'z');
    press(&mut app, 'p');

    command(&mut app, "select b c");
    assert!(app.display_pins().is_empty(), "nowhere to draw it");
    assert_eq!(app.pinned.iter().copied().collect::<Vec<_>>(), [0]);

    command(&mut app, "reset select");
    assert_eq!(app.display_pins().iter().copied().collect::<Vec<_>>(), [0]);
}

/// Pinning the whole width would leave a table that cannot be moved
/// through and nothing on screen to say why, so the pin is refused and
/// says so — the call `sort_blocked` makes.
#[test]
fn a_pin_that_would_leave_nothing_to_scroll_in_is_refused() {
    let mut app = app_sized("pinfull.csv", FOURCOL, 24);
    key(&mut app, Key::Tab);

    let mut pinned = 0;
    for _ in 0..4 {
        press(&mut app, 'z');
        press(&mut app, 'p');
        if app.message.is_some() {
            break;
        }
        pinned += 1;
        press(&mut app, 'l');
    }
    assert!(pinned > 0, "some of them fit");
    assert!(pinned < 4, "not all of them");
    assert_eq!(app.pinned.len(), pinned, "the refused one is not kept");
    let refusal = app.message.clone().unwrap();
    assert!(refusal.contains("no room to pin"), "{refusal}");
}

/// A pinned column is on screen at every offset, so the cursor landing on
/// one must not drag the view back to where that column lives.
#[test]
fn the_cursor_on_a_pinned_column_does_not_scroll_the_view() {
    let mut app = app_sized("pinscroll.csv", WIDE, 40);
    key(&mut app, Key::Tab);
    press(&mut app, 'z');
    press(&mut app, 'p'); // pin the first column

    for _ in 0..5 {
        press(&mut app, 'l');
    }
    app.col_offset = 4;
    let before = app.col_offset;

    app.cursor_col = 0; // back onto the pin, which is drawn regardless
    app.column_left(0);
    assert_eq!(app.col_offset, before, "the view stays where it was");
}

#[test]
fn an_unknown_command_says_so() {
    let mut app = app_with("unknown.csv", SAMPLE);
    command(&mut app, "nope");
    assert_eq!(app.message.as_deref(), Some("not a command: :nope"));
    assert!(!app.exit);
}

#[test]
fn k_shows_the_cursor_cell_and_follows_it() {
    let long = "a,note\n1,\"a value far too long for any column to show\"\n2,short\n";
    let mut app = app_sized("cellview.csv", long, 40);
    assert_eq!(app.panel_height(40, 24), 0, "nothing showing yet");

    press(&mut app, 'K');
    assert!(app.cell_view);
    assert_eq!(
        app.selection_mode,
        SelectionMode::Cell,
        "a cell view needs a cell cursor, as an edit does"
    );
    let (name, value) = app.cell_under_cursor().unwrap();
    assert_eq!(name, "a");
    assert_eq!(value, "1");

    // It follows the cursor rather than freezing on one cell.
    press(&mut app, 'l');
    let (name, value) = app.cell_under_cursor().unwrap();
    assert_eq!(name, "note");
    assert!(value.starts_with("a value far too long"));
    assert!(app.panel_height(40, 24) > 1, "and takes room to show it");

    key(&mut app, Key::Esc);
    assert!(!app.cell_view);
    assert_eq!(app.panel_height(40, 24), 0);
}

#[test]
fn the_cell_view_gives_up_rows_to_show_itself() {
    let long = "a\n\"".to_string() + &"x".repeat(500) + "\"\n";
    let mut app = app_sized("cellroom.csv", &long, 40);
    let before = viewport_rows(24, 0);
    press(&mut app, 'K');
    let panel = app.panel_height(40, 24);
    assert!(panel > 0);
    assert_eq!(
        viewport_rows(24, panel),
        before - panel as usize,
        "the table gives up exactly what the panel takes"
    );
    assert!(panel <= 12, "and never more than half the screen");
}

#[test]
fn a_column_can_be_widened_narrowed_and_put_back() {
    let mut app = app_sized("widths.csv", FOURCOL, 60);
    cell_mode(&mut app);
    let start = app.drawn_width(0);

    press(&mut app, 'z');
    press(&mut app, '>');
    let wider = *app.widths.get(&0).expect("a width was set");
    assert!(wider > start, "{wider} should be wider than {start}");

    press(&mut app, 'z');
    press(&mut app, '<');
    assert_eq!(*app.widths.get(&0).unwrap(), start, "back where it began");

    press(&mut app, 'z');
    press(&mut app, '=');
    assert!(app.widths.is_empty(), "and z= clears the lot");
}

/// `<`, `>` and `_` all need shift, and the shift goes down before the
/// `z` does — so both keys arrive capitalised and neither half matched.
#[test]
fn shift_held_through_a_z_command_still_works() {
    let mut app = app_sized("shiftz.csv", FOURCOL, 60);
    cell_mode(&mut app);
    let start = app.drawn_width(0);

    // Shift held from before the prefix: `Z` then `>`.
    key(
        &mut app,
        Key::Char('Z'),
    );
    assert_eq!(app.pending_prefix, Some('z'), "`Z` opens the prefix too");
    key(
        &mut app,
        Key::Char('>'),
    );
    assert!(app.widths.get(&0).is_some_and(|&w| w > start));
}

#[test]
fn a_shifted_second_key_still_reaches_the_unshifted_command() {
    // A file with room to scroll: FOURCOL has two rows, so `zt` would
    // have nowhere to put anything.
    let mut app = tall_app("shiftzz.csv");
    app.cursor_to(20);
    app.refresh();
    // `ZT` should be `zt`, not nothing.
    key(
        &mut app,
        Key::Char('Z'),
    );
    key(
        &mut app,
        Key::Char('T'),
    );
    assert_eq!(
        app.store.as_ref().unwrap().row_offset,
        20,
        "zt put the cursor row at the top"
    );
}

#[test]
fn a_width_belongs_to_the_column_not_to_its_place_on_screen() {
    // `:select` renumbers the display positions; a width set before it
    // has to follow its own column.
    let mut app = app_sized("widthview.csv", FOURCOL, 60);
    cell_mode(&mut app);
    press(&mut app, 'l'); // display 1 is source column `b`
    press(&mut app, 'z');
    press(&mut app, '>');
    let set = *app.widths.get(&1).expect("keyed by source column");

    command(&mut app, "select d b");
    assert_eq!(
        app.widths.get(&1),
        Some(&set),
        "`b` keeps its width at its new position"
    );
}

#[test]
fn fitting_a_column_uses_the_widest_value_on_screen() {
    let mut app = app_sized("fit.csv", "a,b\nshort,x\nmuch longer value,y\n", 60);
    cell_mode(&mut app);
    press(&mut app, 'z');
    press(&mut app, '_');
    assert_eq!(
        app.widths.get(&0),
        Some(&"much longer value".len()),
        "the widest value on the page, not a guess"
    );
}

#[test]
fn a_column_cannot_be_narrowed_away_entirely() {
    let mut app = app_sized("narrow.csv", FOURCOL, 60);
    cell_mode(&mut app);
    for _ in 0..20 {
        press(&mut app, 'z');
        press(&mut app, '<');
    }
    assert_eq!(*app.widths.get(&0).unwrap(), MIN_COLUMN);
}

#[test]
fn hash_switches_between_relative_and_absolute_row_numbers() {
    let mut app = app_with("gutter.csv", SAMPLE);
    assert!(app.relative_rows, "counting from the cursor is the default");

    press(&mut app, '#');
    assert!(!app.relative_rows);
    press(&mut app, '#');
    assert!(app.relative_rows);
}

#[test]
fn a_question_mark_is_a_character_while_typing() {
    let mut app = app_with("help.csv", SAMPLE);

    press(&mut app, 'c');
    press(&mut app, '?');
    assert!(!app.help_visible, "'?' belongs to the cell being typed");
    assert_eq!(app.edit_buf, "?");

    key(&mut app, Key::Esc);
    press(&mut app, '?');
    assert!(app.help_visible, "and opens the overlay in normal mode");
}

#[test]
fn a_sorted_view_can_be_edited_once_the_sort_is_held() {
    let mut app = app_with("sorted.csv", SAMPLE);
    app.last_frame_width = 60;
    cell_mode(&mut app);
    press(&mut app, 's'); // by name, ascending
    settle_sort(&mut app);
    press(&mut app, 's'); // and again: descending, so `d` is on top
    settle_sort(&mut app);

    press(&mut app, 'l');
    press(&mut app, 'c');
    typed(&mut app, "99");
    key(&mut app, Key::Enter);
    assert_eq!(shown(&app, 1, 0).as_deref(), Some("99"));

    command(&mut app, "w");
    assert_eq!(
        app.file(),
        "name,count\na,1\nb,2\nc,99\n",
        "the top row of a descending sort is the file's last line"
    );
}

#[test]
fn editing_the_caret_inside_the_buffer() {
    let mut app = app_with("caretmove.csv", SAMPLE);

    press(&mut app, 'c');
    typed(&mut app, "abc");
    key(&mut app, Key::Left);
    typed(&mut app, "X");
    assert_eq!(app.edit_buf, "abXc");

    key(&mut app, Key::Home);
    key(&mut app, Key::Delete);
    assert_eq!(app.edit_buf, "bXc");

    key(&mut app, Key::End);
    key(&mut app, Key::Backspace);
    assert_eq!(app.edit_buf, "bX");
}

#[test]
fn the_first_matches_take_the_cursor_to_the_nearest() {
    let rows = |found: &[usize], cursor: usize| {
        let mut app = tall_app("near.csv");
        app.cursor_row = cursor;
        let query = SearchQuery::new("1".to_string()).unwrap();
        app.search_state = Some(SearchState::new(query, None));
        app.search_found(found.to_vec());
        app.search_jump();
        let state = app.search_state.as_ref().unwrap();
        (state.matching_rows.clone(), app.cursor_row)
    };
    assert_eq!(rows(&[0, 5], 0), (vec![0, 5], 0), "its own row is the nearest");
    assert_eq!(rows(&[4, 9], 5), (vec![4, 9], 4));
    assert_eq!(rows(&[4, 9], 7), (vec![4, 9], 9));
    assert_eq!(rows(&[4, 6], 5), (vec![4, 6], 6), "of two as near, the one further down");
    assert_eq!(rows(&[0, 8], 9), (vec![0, 8], 8));
}

#[test]
fn a_column_key_in_row_mode_takes_a_column_cursor() {
    let mut app = app_sized("takecol.csv", FOURCOL, 60);
    press(&mut app, '-');
    assert_eq!(app.selection_mode, SelectionMode::Cell);
    assert_eq!(app.cursor_col, 0);
    press(&mut app, '-');
    assert_eq!(shown_columns(&app), ["b", "c", "d"]);

    let mut app = app_sized("takesort.csv", FOURCOL, 60);
    press(&mut app, 's');
    assert_eq!(app.selection_mode, SelectionMode::Cell);
    assert_eq!(app.store.as_ref().unwrap().view.sort, [(0, true)]);
    settle_sort(&mut app);
    press(&mut app, 's');
    settle_sort(&mut app);
    assert_eq!(shown(&app, 0, 0).as_deref(), Some("5"));
}

#[test]
fn zk_shows_the_cursor_cell_and_hides_it_again() {
    let mut app = app_sized("zk.csv", FOURCOL, 60);
    typed(&mut app, "zk");
    assert!(app.cell_view);
    assert_eq!(app.panel_cell(), Some(("a".to_string(), "1".to_string())));
    typed(&mut app, "zk");
    assert!(!app.cell_view);
}

#[test]
fn the_status_bar_puts_the_view_in_words() {
    let mut app = app_sized("words.csv", FOURCOL, 60);
    assert_eq!(app.status().view, None);
    command(&mut app, "select c a");
    command(&mut app, "filter a > 2 and b ~ ^6");
    settle(&mut app);
    command(&mut app, "sort a b-");
    assert_eq!(
        app.status().view.as_deref(),
        Some("select c a  filter a > 2 and b ~ ^6  sort a b-")
    );
    command(&mut app, "reset");
    assert_eq!(app.status().view, None);
}

#[test]
fn matches_on_screen_light_up() {
    let mut app = app_sized("light.csv", FOURCOL, 60);
    assert!(app.highlights().is_empty());
    let query = SearchQuery::new("[2-5]".to_string()).unwrap();
    app.search_state = Some(SearchState::new(query, None));
    assert_eq!(app.highlights(), [(1, 0), (0, 1), (0, 2), (0, 3)]);
    let query = SearchQuery::new("[2-5]".to_string()).unwrap();
    app.search_state = Some(SearchState::new(query, Some(2)));
    assert_eq!(app.highlights(), [(0, 2)]);
}

#[test]
fn escape_drops_the_sort_and_keeps_the_filter() {
    let mut app = app_sized("escfilter.csv", "a,b\n3,x\n1,y\n2,x\n", 60);
    command(&mut app, "filter b = x");
    settle(&mut app);
    press(&mut app, 's');
    settle_sort(&mut app);
    assert_eq!(shown(&app, 0, 0).as_deref(), Some("2"));

    key(&mut app, Key::Esc);
    assert!(app.store.as_ref().unwrap().view.sort.is_empty());
    assert!(app.filtering, "the filter's rows are looked for again");
    settle(&mut app);
    assert_eq!(app.store.as_ref().unwrap().row_count(), 2);
    assert_eq!(shown(&app, 0, 0).as_deref(), Some("3"));
    assert_eq!(shown(&app, 0, 1).as_deref(), Some("2"));
}

#[test]
fn a_write_has_the_sort_done_again() {
    let mut app = app_sized("sortwrite.csv", "a,b\n3,x\n1,y\n2,x\n", 60);
    press(&mut app, 's');
    settle_sort(&mut app);
    press(&mut app, 'c');
    typed(&mut app, "9");
    key(&mut app, Key::Enter);
    command(&mut app, "w");
    assert!(app.sorting, "what was held describes the file before the write");
    settle_sort(&mut app);
    assert_eq!(app.file(), "a,b\n3,x\n9,y\n2,x\n");
    assert_eq!(shown(&app, 0, 0).as_deref(), Some("2"));
    assert_eq!(shown(&app, 0, 2).as_deref(), Some("9"));
}

#[test]
fn a_block_from_outside_leaves_the_register_alone() {
    let mut app = app_sized("outside.csv", FOURCOL, 60);
    key(&mut app, Key::Tab);
    key(&mut app, Key::Tab);
    press(&mut app, 'y');
    let register = app.register.clone();
    assert_eq!(register, [["1"]]);
    app.app.paste_block(vec![vec!["x".to_string(), "y".to_string()]]);
    app.refresh();
    assert_eq!(shown(&app, 0, 0).as_deref(), Some("x"));
    assert_eq!(shown(&app, 1, 0).as_deref(), Some("y"));
    assert_eq!(app.register, register);
    press(&mut app, 'l');
    press(&mut app, 'p');
    assert_eq!(shown(&app, 1, 0).as_deref(), Some("1"));
}
