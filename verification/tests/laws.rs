//! What holds of the library as a whole, on values.
use plv::app::keys::Key;
use plv::app::session::{App, Drawn, Limits, Mode, Task};
use plv::clipboard::{base64, copy, parse, sequence, tsv};
use plv::complete::complete;
use plv::data::documents::sample_under;
use plv::data::edit::Overlay;
use plv::data::index::RowIndex;
use plv::data::jsonl::{ColumnType, Scan};
use plv::data::lake_db::{quote_ident, sql_str};
use plv::data::lake_values::relocated;
use plv::data::natural::{key, worth_keying};
use plv::data::rows::RowSet;
use plv::data::store::{Source, Store};
use plv::layout::{col_offset_showing, column_width, pin_fits, room, shown_from};
use plv::picker::Picker;
use plv::search::{SearchQuery, SearchState};
use plv::ui::BrowserState;
use std::collections::BTreeSet;

fn texts(all: &[&str]) -> Vec<String> {
    all.iter().map(|text| text.to_string()).collect()
}

#[test]
fn undo_takes_back_and_redo_puts_back() {
    let mut overlay = Overlay::new();
    overlay.set(vec![((0, 0), "a".to_string()), ((0, 1), "b".to_string())]);
    overlay.strike(vec![3]);
    assert!(overlay.undo());
    assert!(!overlay.is_struck(3));
    assert!(overlay.undo());
    assert!(overlay.is_empty());
    assert!(!overlay.undo());
    assert!(overlay.redo());
    assert_eq!(overlay.get((0, 1)), Some("b"));
    // Another change leaves nothing to redo.
    overlay.set(vec![((5, 0), "c".to_string())]);
    assert!(!overlay.can_redo());
    assert!(!overlay.redo());
}

#[test]
fn chunks_cover_every_row_once() {
    let mut text = String::from("a\n");
    for row in 0..5000 {
        text.push_str(&format!("{row}\n"));
    }
    let index = RowIndex::build(text.as_bytes(), b',');
    for budget in [1, 4096, 1 << 30] {
        let chunks = index.chunks(budget);
        let mut next = 0;
        for &(start, end) in &chunks {
            assert_eq!(start, next);
            assert!(start < end);
            next = end;
        }
        assert_eq!(next, 5000);
    }
    assert_eq!(index.chunks(1 << 30), [(0, 5000)]);
    assert!(RowIndex::build(b"a\n", b',').chunks(10).is_empty());
}

#[test]
fn a_span_holds_the_row_that_was_asked_for() {
    let mut text = String::from("a\n");
    for row in 0..5000 {
        text.push_str(&format!("{row}\n"));
    }
    let index = RowIndex::build(text.as_bytes(), b',');
    let (first, from) = index.seek(3000);
    assert!(first <= 3000);
    let end = index.end_of(3001) as usize;
    let body = &text[from as usize..end];
    let rows: Vec<&str> = body.lines().collect();
    assert_eq!(rows[3000 - first], "3000");
    // The header goes back on in front of what a span holds.
    let framed = index.framed(body.as_bytes());
    assert!(framed.starts_with(b"a\n"));
}

#[test]
fn discovery_and_the_index_count_the_same_records() {
    let bytes = b"{\"a\":1}\r\n\n{\"b\":\"x\\ny\"}\n[3]\n{\"a\":null}";
    let mut scan = Scan::new();
    // However the bytes are cut up.
    scan.feed(&bytes[..9]);
    scan.feed(&bytes[9..]);
    let fields = scan.finish();
    // A blank line and a line that is no object are records too.
    assert_eq!(RowIndex::build_lines(bytes).rows(), 5);
    assert_eq!(
        fields.schema(),
        [("a".to_string(), ColumnType::Int), ("b".to_string(), ColumnType::Text)]
    );
}

#[test]
fn documents_in_a_column_are_sampled() {
    let bytes = b"{\"u\":{\"id\":1,\"n\":\"x\"}}\n{\"u\":null}\n{\"u\":{\"id\":2.5}}\n";
    let sample = sample_under(bytes, &texts(&["u"]));
    assert!(sample.complete);
    assert_eq!(
        sample.fields.schema(),
        [("id".to_string(), ColumnType::Float), ("n".to_string(), ColumnType::Text)]
    );
}

#[test]
fn a_moved_lake_is_looked_for_beside_its_catalog() {
    assert_eq!(relocated(true, Some("/b/data"), "/b"), None);
    assert_eq!(relocated(false, Some("/b/data"), "/b"), Some("/b/data/".to_string()));
    assert_eq!(relocated(false, None, "/b/"), Some("/b/".to_string()));
    assert_eq!(relocated(false, None, ""), Some("/".to_string()));
}

#[test]
fn quoting_for_a_database_doubles_the_quote() {
    assert_eq!(quote_ident("a\"b"), "\"a\"\"b\"");
    assert_eq!(sql_str("it's"), "'it''s'");
}

#[test]
fn keys_order_numbers_by_what_they_count() {
    let mut values = vec!["item10", "item9", "item1", "item100"];
    values.sort_by_key(|value| key(value));
    assert_eq!(values, ["item1", "item9", "item10", "item100"]);
    assert_eq!(key("no digits"), "no digits");
    assert_ne!(key("a1"), key("a01"));
    assert!(!worth_keying(&["a1", "a2"]));
    assert!(worth_keying(&["a1", "a10"]));
}

#[test]
fn a_block_survives_the_clipboard() {
    let block = vec![texts(&["a\tb", "line\nbreak"]), texts(&["say \"hi\"", ""])];
    assert_eq!(parse(&tsv(&block)), block);
    assert_eq!(base64(b"Man"), "TWFu");
    assert_eq!(base64(b"Ma"), "TWE=");
    assert_eq!(base64(b"M"), "TQ==");
    assert_eq!(sequence("Man"), "\u{1b}]52;c;TWFu\u{7}");
    assert_eq!(copy("Man", false), None);
    assert_eq!(copy("Man", true), Some(sequence("Man")));
}

#[test]
fn completion_goes_on_from_what_was_typed() {
    let names = texts(&["Alpha", "alpine", "beta"]);
    let offer = complete("select al", &names).unwrap();
    assert_eq!(offer.options, ["Alpha", "alpine"]);
    assert!(offer.extended().starts_with("select "));
    assert_eq!(offer.with(1), "select alpine ");
}

#[test]
fn a_full_set_is_partial_only_when_matches_were_dropped() {
    let mut full = RowSet::new(2);
    assert!(full.extend(vec![1]));
    // Full, so no more is wanted, but nothing was dropped.
    assert!(!full.extend(vec![4]));
    full.finish();
    assert!(!full.is_truncated());
    assert!(full.is_complete());
    let mut over = RowSet::new(2);
    assert!(!over.extend(vec![1, 4, 6]));
    assert!(over.is_truncated());
    assert_eq!(over.source(1), Some(4));
    assert_eq!(over.display(4), Some(1));
    assert_eq!(over.display(6), None);
}

#[test]
fn applying_the_picker_at_once_changes_nothing() {
    let mut picker = Picker::new(texts(&["a", "b", "c"]), vec![2, 0], BTreeSet::from([0]));
    assert_eq!(picker.selection(), [2, 0]);
    picker.toggle_shown().unwrap();
    picker.toggle_shown().unwrap();
    assert_eq!(picker.selection(), [2, 0]);
    picker.show_only_cursor();
    assert!(picker.toggle_shown().is_err());
    assert_eq!(picker.selection().len(), 1);
}

#[test]
fn stepping_back_undoes_stepping_on() {
    let query = SearchQuery::new("x".to_string()).unwrap();
    let mut state = SearchState::new(query, None);
    state.matching_rows = vec![2, 5, 9];
    assert_eq!(state.next_from(2), Some(5));
    assert_eq!(state.prev_from(5), Some(2));
    assert_eq!(state.next_from(9), Some(2));
    assert!(SearchQuery::new("(".to_string()).is_err());
}

#[test]
fn a_list_scrolls_no_further_than_it_must() {
    let mut state = BrowserState::new();
    state.go_to(12, 20);
    state.clamp_scroll(5);
    assert_eq!((state.selected, state.offset), (12, 8));
    state.move_by(-2, 20);
    state.clamp_scroll(5);
    assert_eq!((state.selected, state.offset), (10, 8));
    state.move_by(-100, 20);
    state.clamp_scroll(5);
    assert_eq!((state.selected, state.offset), (0, 0));
}

fn drawn() -> Drawn {
    Drawn {
        max_col_offset: 0,
        cursor_width: 6,
        widest: None,
    }
}

fn press(app: &mut App, key: Key) -> Task {
    let limits = Limits { cells: 1000, rows: 1000 };
    app.handle_key_event(key, false, drawn(), limits)
}

/// A program over a table of numbers that cannot be edited.
fn program() -> App {
    let mut app = App::new();
    let store = Store::new(
        Source::Lake,
        texts(&["n"]),
        vec![ColumnType::Int],
        50,
        10,
        None,
    );
    app.store = Some(store);
    app
}

#[test]
fn the_prompt_shows_the_line_being_typed() {
    let mut app = program();
    assert!(app.prompt().is_none());
    press(&mut app, Key::Char(':'));
    press(&mut app, Key::Char('s'));
    press(&mut app, Key::Char('?'));
    assert_eq!(app.mode, Mode::Command);
    let prompt = app.prompt().unwrap();
    assert_eq!((prompt.label.as_str(), prompt.text.as_str(), prompt.caret), (":", "s?", 2));
    press(&mut app, Key::Esc);
    press(&mut app, Key::Char('/'));
    press(&mut app, Key::Char('x'));
    let prompt = app.prompt().unwrap();
    assert_eq!((prompt.label.as_str(), prompt.text.as_str(), prompt.caret), ("/", "x", 1));
}

#[test]
fn the_status_follows_the_cursor() {
    let mut app = program();
    app.frame_sized(80, 24);
    assert_eq!(app.last_vp, 20);
    press(&mut app, Key::Char('3'));
    assert_eq!(app.status().count, "3");
    press(&mut app, Key::Char('j'));
    let status = app.status();
    assert_eq!((status.row, status.rows, status.columns), (3, 50, 1));
    assert_eq!((status.dirty, status.selection), (0, None));
    assert_eq!(status.count, "");
    press(&mut app, Key::Char('3'));
    press(&mut app, Key::Char('k'));
    assert_eq!(app.status().row, 0);
}

#[test]
fn an_edit_shows_in_the_column_it_was_made_in() {
    let mut store = Store::new(
        Source::Lake,
        texts(&["a", "b"]),
        vec![ColumnType::Int, ColumnType::Int],
        2,
        2,
        None,
    );
    store.edit(vec![((1, 0), "word".to_string())]);
    let page = vec![
        vec![Some("1".to_string()), Some("2".to_string())],
        vec![Some("3".to_string()), None],
    ];
    let shown = store.apply_overlay(page, 0, 2);
    assert_eq!(shown[0], [Some("1".to_string()), Some("word".to_string())]);
    assert_eq!(shown[1], [Some("3".to_string()), None]);
    store.show(shown);
    // A column with a word typed into it is no longer one of numbers.
    assert_eq!(store.shown_kind(0, 2), Some(ColumnType::Text));
    assert_eq!(store.shown_kind(1, 2), Some(ColumnType::Int));
    assert_eq!(store.shown_kind(2, 2), None);
    assert_eq!(store.edited_cells(2), [(1, 0)]);
}

#[test]
fn what_is_scrolled_to_is_drawn() {
    let widths = vec![5, 10, 7, 8, 20];
    let pins = BTreeSet::from([1]);
    let left = room(&widths, &pins, 40, 6);
    assert_eq!(left, 24);
    for last in [0, 2, 3, 4] {
        let first = col_offset_showing(&widths, &pins, left, last);
        assert!(shown_from(&widths, &pins, left, first).contains(&last));
    }
    assert_eq!(col_offset_showing(&widths, &pins, left, 3), 0);
    assert_eq!(col_offset_showing(&widths, &pins, left, 4), 4);
    assert_eq!(shown_from(&widths, &pins, left, 0), [0, 2, 3]);
    assert!(shown_from(&widths, &pins, left, 9).is_empty());
    // A column wider than the room stands at the edge by itself.
    assert_eq!(col_offset_showing(&widths, &pins, 3, 2), 2);
}

#[test]
fn pins_must_leave_room_to_scroll_in() {
    let widths = vec![10, 10];
    assert!(pin_fits(&widths, &BTreeSet::from([0]), 25, 10));
    assert!(!pin_fits(&widths, &BTreeSet::from([0]), 24, 10));
    assert!(!pin_fits(&widths, &BTreeSet::from([0, 1]), 25, 10));
}

#[test]
fn a_column_is_as_wide_as_it_is_set_or_asks_for() {
    assert_eq!(column_width(Some(2), 9, 9), 2);
    assert_eq!(column_width(None, 9, 12), 12);
    assert_eq!(column_width(None, 1, 0), 4);
    assert_eq!(column_width(None, 9, 300), 40);
}
