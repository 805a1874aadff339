use plv::data::budget;
use plv::data::edit::Overlay;
use plv::data::documents::sample_under;
use plv::data::index::{RowIndex, STRIDE};
use plv::data::json::fields_of;
use plv::data::jsonl::{ColumnType, Scan};
use plv::data::loader::{detect_format, separator};
use plv::data::page::assemble;
use plv::data::scan::kept;
use plv::data::span::Records;
use plv::data::store::{EditTarget, Source, Store, Written};
use plv::data::writer::{splice, Moment, Stamp};
use plv::grammar;
use plv::view::{Command, Filter, TableView};
use polars::prelude::{CsvReadOptions, DataType, SerReader};
use std::io::Cursor;
use std::ops::{Deref, DerefMut};

/// A store over a file in memory.
struct Open {
    store: Store,
    bytes: Vec<u8>,
    index: RowIndex,
    stamp: Stamp,
    notes: Option<String>,
    /// How many bytes of the file are read at a time.
    chunk: u64,
}

impl Deref for Open {
    type Target = Store;

    fn deref(&self) -> &Store {
        &self.store
    }
}

impl DerefMut for Open {
    fn deref_mut(&mut self) -> &mut Store {
        &mut self.store
    }
}

fn stamp_of(bytes: &[u8], written: i64) -> Stamp {
    Stamp {
        len: bytes.len() as u64,
        mtime: Some(Moment {
            seconds: written,
            nanos: 0,
        }),
    }
}

/// The columns of a delimited file, as Polars takes them to be.
fn csv_columns(bytes: &[u8]) -> (Vec<String>, Vec<ColumnType>) {
    let df = CsvReadOptions::default()
        .with_has_header(true)
        .into_reader_with_file_handle(Cursor::new(bytes.to_vec()))
        .finish()
        .unwrap();
    df.columns()
        .iter()
        .map(|column| {
            let kind = match column.dtype() {
                DataType::Int64 => ColumnType::Int,
                DataType::Float64 => ColumnType::Float,
                DataType::Boolean => ColumnType::Bool,
                _ => ColumnType::Text,
            };
            (column.name().to_string(), kind)
        })
        .unzip()
}

fn open_csv(contents: &str, height: usize) -> Open {
    let bytes = contents.as_bytes().to_vec();
    let (names, types) = csv_columns(&bytes);
    let index = RowIndex::build(&bytes, b',');
    let stamp = stamp_of(&bytes, 0);
    let target = EditTarget {
        written: Written::Delimited(b','),
        stamp,
    };
    let store = Store::new(Source::Lazy, names, types, index.rows(), height, Some(target));
    let mut open = Open {
        store,
        bytes,
        index,
        stamp,
        notes: None,
        chunk: 1 << 20,
    };
    open.refresh();
    open
}

fn open_jsonl(contents: &str, height: usize) -> Open {
    let bytes = contents.as_bytes().to_vec();
    let mut scan = Scan::new();
    scan.feed(&bytes);
    let fields = scan.finish();
    let (names, types) = fields.schema().into_iter().unzip();
    let index = RowIndex::build_lines(&bytes);
    let stamp = stamp_of(&bytes, 0);
    let target = EditTarget {
        written: Written::Json,
        stamp,
    };
    let mut store = Store::new(Source::Json, names, types, index.rows(), height, Some(target));
    store.view.select = fields.shown();
    let mut open = Open {
        store,
        bytes,
        index,
        stamp,
        notes: fields.notes(),
        chunk: 1 << 20,
    };
    open.refresh();
    open
}

impl Open {
    fn file(&self) -> String {
        String::from_utf8(self.bytes.clone()).unwrap()
    }

    fn records(&self) -> Records<'_> {
        match self.store.source {
            Source::Json => Records::Json {
                paths: &self.store.paths,
                kinds: &self.store.types,
            },
            _ => Records::Delimited {
                separator: b',',
                names: &self.store.names,
                kinds: &self.store.types,
            },
        }
    }

    /// Rows of the file, read from the offset the index points at.
    fn read(&self, first: usize, count: usize, wanted: &[usize]) -> Vec<Vec<Option<String>>> {
        let (start, from) = self.index.seek(first);
        let to = self.index.end_of(first + count);
        let span = self.index.framed(&self.bytes[from as usize..to as usize]);
        self.records()
            .parse(span, wanted, first - start, count)
            .unwrap()
    }

    fn refresh(&mut self) {
        let (offset, height) = (self.store.row_offset, self.store.viewport_rows);
        let rows = self.store.page_rows(offset, height);
        let plan = self.store.read_plan(&rows);
        let span = self.read(plan.first, plan.span, &self.store.columns());
        let page = assemble(&plan, &span);
        let page = self.store.apply_overlay(page, offset, height);
        self.store.show(page);
    }

    fn cell(&self, column: usize, row: usize) -> Option<String> {
        self.store.page[column][row].clone()
    }

    fn scroll(&mut self, offset: usize) {
        self.store.scroll_to_offset(offset);
        self.refresh();
    }

    fn type_in(&mut self, edits: &[((usize, usize), &str)]) {
        let edits = edits.iter().map(|(at, text)| (*at, text.to_string())).collect();
        self.store.edit(edits);
        self.refresh();
    }

    fn look(&mut self, view: TableView) {
        self.store.view = view;
        self.refresh();
    }

    fn filter(&self, line: &str) -> Filter {
        match grammar::parse(line, &self.store.names, &self.store.types).unwrap() {
            Command::Filter(filter) => filter,
            other => panic!("{other:?}"),
        }
    }

    /// The rows that meet every condition, a chunk of the file at a time.
    fn matching(&self) -> Vec<usize> {
        let tests = self.store.conditions().unwrap();
        let wanted: Vec<usize> = (0..self.store.names.len()).collect();
        let mut found = Vec::new();
        let mut start = 0;
        while start < self.store.total_rows {
            let end = self.index.chunk_end(start, self.chunk);
            let cells = self.read(start, end - start, &wanted);
            found.extend(kept(&cells, &self.store.names, &tests, start).unwrap());
            start = end;
        }
        found
    }

    fn filtered(&mut self, line: &str) {
        self.store.view.filter = Some(self.filter(line));
        assert!(self.store.begin_filter(1_000_000), "a scan was started");
        for batch in self.matching().chunks(1000) {
            if !self.store.extend_filter(batch.to_vec()) {
                break;
            }
        }
        self.store.finish_filter();
        self.refresh();
    }

    /// Sorting runs on its own; take the result.
    fn settle_sort(&mut self) {
        let wanted: Vec<usize> = (0..self.store.names.len()).collect();
        let mut cells: Vec<Vec<Option<String>>> = vec![Vec::new(); wanted.len()];
        let mut start = 0;
        while start < self.store.total_rows {
            let end = self.index.chunk_end(start, self.chunk);
            for (c, more) in self.read(start, end - start, &wanted).into_iter().enumerate() {
                cells[c].extend(more);
            }
            start = end;
        }
        let rows = self.store.sort_job().run(&cells).unwrap();
        self.store.adopt_sorted(rows);
        self.refresh();
    }

    fn sorted_by(&mut self, column: usize) {
        assert!(self.store.begin_sort(column));
        self.settle_sort();
    }

    fn expand(&mut self, column: usize) -> Result<String, String> {
        let sample = sample_under(&self.bytes, &self.store.paths[column]);
        let children = sample.fields.schema();
        let said = self.store.expand(column, &children, sample.complete)?;
        self.refresh();
        Ok(said)
    }

    /// Write to the file, or elsewhere: what was written.
    fn save(&mut self, in_place: bool, force: bool) -> Result<String, String> {
        if let Some(why) = self.store.save_blocked(Some(self.stamp), force, "the file") {
            return Err(why);
        }
        let bytes = self.store.rewrite(&self.bytes)?;
        let written = String::from_utf8(bytes.clone()).unwrap();
        if !in_place {
            self.store.saved(false, self.stamp);
            return Ok(written);
        }
        self.bytes = bytes;
        let seconds = self.stamp.mtime.unwrap().seconds + 1;
        self.stamp = stamp_of(&self.bytes, seconds);
        self.store.saved(true, self.stamp);
        match self.store.source {
            Source::Json => {
                let mut scan = Scan::new();
                scan.feed(&self.bytes);
                let found = scan.finish().schema();
                self.index = RowIndex::build_lines(&self.bytes);
                self.store.reload_json(&found, self.index.rows());
            }
            _ => {
                let (names, types) = csv_columns(&self.bytes);
                self.index = RowIndex::build(&self.bytes, b',');
                self.store.reopened(names, types, self.index.rows());
            }
        }
        self.refresh();
        Ok(written)
    }
}

const SAMPLE: &str = "name,count\na,1\nb,2\nc,3\nd,4\n";

/// A small log: every record has `ts`, `level` and `msg`, `err` is on the one
/// that failed, and `err` is a document rather than a value.
fn log_file() -> String {
    let mut text = String::new();
    for i in 0..8 {
        text.push_str(&format!(
            "{{\"ts\":\"10:00:0{i}\",\"level\":\"info\",\"msg\":\"tick\",\"n\":{i}}}\n"
        ));
    }
    text.push_str(
        "{\"ts\":\"10:00:08\",\"level\":\"error\",\"msg\":\"boom\",\"n\":8,\"err\":{\"code\":500}}\n",
    );
    text
}

#[test]
fn a_jsonl_file_opens_with_its_keys_as_columns() {
    let store = open_jsonl(&log_file(), 4);
    assert_eq!(store.total_rows, 9);
    assert_eq!(store.names, ["ts", "level", "msg", "n", "err"], "most common first");
    // `n` was whole numbers throughout, so it is a number and not text.
    assert_eq!(store.types[3], ColumnType::Int);

    // `err` is on one record in nine, which is under the share that gets
    // shown: it is a column, it is simply not on screen.
    assert_eq!(store.view.select, Some(vec![0, 1, 2, 3]));
    assert!(store.notes.as_ref().unwrap().contains("4 of 5 keys shown"));
    assert_eq!(store.page.len(), 4);
    assert_eq!(store.cell(2, 0).as_deref(), Some("tick"));
}

#[test]
fn a_jsonl_page_is_read_from_the_byte_offset_the_index_points_at() {
    let mut store = open_jsonl(&log_file(), 3);
    store.scroll(6);
    assert_eq!(store.cell(0, 0).as_deref(), Some("10:00:06"));
    assert_eq!(store.cell(3, 2).as_deref(), Some("8"));
}

/// The point of the whole exercise: a nested value reaches the cell as the
/// file's own bytes, so the cell window can open it as a document.
#[test]
fn a_nested_value_survives_to_the_cell_as_json() {
    let mut store = open_jsonl(&log_file(), 10);
    // Show every key, the way `:reset select` does.
    store.look(TableView::new());
    let err = store.names.len() - 1;
    let text = store.cell_text(8, err).unwrap();
    assert_eq!(text, "{\"code\":500}");
    assert!(fields_of(text.as_bytes()).is_some());
}

/// A JSONL file can be read no other way, so the indexed scan is the only scan,
/// and `:filter` has to reach it.
#[test]
fn a_jsonl_file_filters_through_the_indexed_scan() {
    let mut store = open_jsonl(&log_file(), 4);
    store.filtered("filter level = error");
    assert_eq!(store.row_count(), 1);
    assert_eq!(store.source_row(0), Some(8), "the row it came from");
    assert_eq!(store.cell(2, 0).as_deref(), Some("boom"));
}

/// A typed column is typed all the way to the view language: `n` was whole
/// numbers in every record, so it can be compared with `>`.
#[test]
fn a_number_key_can_be_filtered_as_a_number() {
    let store = open_jsonl(&log_file(), 4);
    assert!(
        grammar::parse("filter n > 6", &store.names, &store.types).is_ok(),
        "an int column takes an int literal"
    );
    assert!(
        grammar::parse("filter n > abc", &store.names, &store.types).is_err(),
        "and refuses one that is not"
    );
}

/// The interesting page is one found by seeking to a checkpoint rather than by
/// counting from the top, which needs a file bigger than one stride, and is
/// exactly where an off-by-one in the line scan would hide.
#[test]
fn a_jsonl_page_past_a_checkpoint_lands_on_the_right_rows() {
    let rows = STRIDE + 100;
    let mut text = String::with_capacity(rows * 24);
    for i in 0..rows {
        text.push_str(&format!("{{\"i\":{i},\"s\":\"r{i}\"}}\n"));
    }
    let mut store = open_jsonl(&text, 5);
    assert_eq!(store.total_rows, rows);

    let last = rows - 5;
    store.scroll(last);
    assert_eq!(store.cell(0, 0).as_deref(), Some(&*last.to_string()));
    assert_eq!(
        store.cell(1, 4).as_deref(),
        Some(&*format!("r{}", rows - 1)),
        "the last row of the file"
    );

    // And a page that straddles the checkpoint itself.
    store.scroll(STRIDE - 2);
    assert_eq!(store.cell(0, 3).as_deref(), Some(&*(STRIDE + 1).to_string()));
}

#[test]
fn expand_lifts_a_document_into_columns_where_its_parent_stood() {
    let mut store = open_jsonl(&log_file(), 10);
    // `err` is rare, so it opens hidden; show everything first.
    store.look(TableView::new());
    let err = store.names.len() - 1;

    let said = store.expand(err).unwrap();
    assert!(said.contains("err expanded into 1 column"), "{said}");

    assert_eq!(
        store.names,
        ["ts", "level", "msg", "n", "err", "err.code"],
        "appended, so every column index still means what it did"
    );
    assert_eq!(
        store.types[5],
        ColumnType::Int,
        "and typed by what was inside it"
    );

    // The child stands where its parent stood, and the parent is still a
    // column, just not on show.
    let shown: Vec<String> = store.columns().iter().map(|c| store.names[*c].clone()).collect();
    assert_eq!(shown, ["ts", "level", "msg", "n", "err.code"]);
    assert_eq!(store.cell(4, 8).as_deref(), Some("500"));
    assert!(store.names.contains(&"err".to_string()), "the document is still there");
}

#[test]
fn expand_refuses_what_holds_no_documents() {
    let mut store = open_jsonl(&log_file(), 10);
    let refusal = store.expand(2).unwrap_err(); // `msg`
    assert!(refusal.contains("no documents in msg"), "{refusal}");

    store.look(TableView::new());
    let err = store.names.len() - 1;
    store.expand(err).unwrap();
    let again = store.expand(err).unwrap_err();
    assert!(again.contains("already expanded"), "{again}");
}

#[test]
fn a_jsonl_file_can_be_edited_and_sorted() {
    let store = open_jsonl(&log_file(), 4);
    assert_eq!(store.edit_blocked(), None);
    assert!(store.sort_blocked().is_none());
}

/// An edit replaces the value's bytes and nothing else: key order, spacing and
/// every other record survive exactly.
#[test]
fn writing_a_jsonl_edit_touches_only_that_value() {
    let mut store = open_jsonl(
        "{\"ts\": \"10:00:00\", \"level\":\"info\",\"n\":1}\n{\"ts\": \"10:00:01\", \"level\":\"error\",\"n\":2}\n",
        10,
    );
    store.type_in(&[((1, 1), "warn")]);
    store.save(true, false).unwrap();

    assert_eq!(
        store.file(),
        "{\"ts\": \"10:00:00\", \"level\":\"info\",\"n\":1}\n{\"ts\": \"10:00:01\", \"level\":\"warn\",\"n\":2}\n",
        "the spacing of the untouched record is its own"
    );
    assert_eq!(store.dirty(), 0, "and the buffer is clean afterwards");
}

#[test]
fn a_number_is_written_as_a_number_and_anything_else_as_text() {
    let mut store = open_jsonl("{\"n\":1,\"b\":true}\n{\"n\":2,\"b\":false}\n", 10);
    store.type_in(&[((0, 0), "42")]);
    store.type_in(&[((1, 1), "true")]);
    store.save(true, false).unwrap();
    assert_eq!(store.file(), "{\"n\":42,\"b\":true}\n{\"n\":2,\"b\":true}\n");

    // A value the column cannot hold is written as text rather than refused,
    // and the column widens when the file is read again.
    let mut store = open_jsonl(&store.file(), 10);
    store.type_in(&[((0, 0), "n/a")]);
    store.save(true, false).unwrap();
    assert_eq!(store.file(), "{\"n\":\"n/a\",\"b\":true}\n{\"n\":2,\"b\":true}\n");
    assert_eq!(store.types[0], ColumnType::Text);
}

#[test]
fn a_key_the_record_lacks_is_added_and_an_empty_edit_is_null() {
    let mut store = open_jsonl("{\"a\":1,\"b\":2}\n{\"a\":3}\n", 10);
    store.type_in(&[((1, 1), "9")]); // `b`, which record 1 lacks
    store.type_in(&[((0, 1), "")]); // cleared
    store.save(true, false).unwrap();
    assert_eq!(store.file(), "{\"a\":1,\"b\":null}\n{\"a\":3,\"b\":9}\n");
}

/// Editing an `:expand`ed column writes into the document it came out of.
#[test]
fn an_expanded_column_writes_back_into_its_document() {
    let mut store = open_jsonl(
        "{\"err\":{\"code\":500,\"why\":\"boom\"}}\n{\"err\":{\"code\":502,\"why\":\"gone\"}}\n",
        10,
    );
    store.expand(0).unwrap();
    // An edit counts columns the way the screen does, and after an expand the
    // children stand where their parent stood.
    let at = store.names.iter().position(|n| n == "err.code").unwrap();
    let code = store.display_column(at).unwrap();
    store.type_in(&[((0, code), "503")]);
    store.save(true, false).unwrap();

    assert_eq!(
        store.file(),
        "{\"err\":{\"code\":503,\"why\":\"boom\"}}\n{\"err\":{\"code\":502,\"why\":\"gone\"}}\n",
        "only the number changed"
    );
    // The re-read keeps the expansion, or the edit would have written through
    // a column that then vanished.
    assert!(store.names.contains(&"err.code".to_string()), "{:?}", store.names);
}

/// Adding a key one level in would mean inventing the documents above it, which
/// is a bigger decision than an edit. Refused, and the file is left exactly as
/// it was.
#[test]
fn writing_refuses_to_invent_a_document_for_a_nested_key() {
    let original = "{\"err\":{\"code\":1}}\n{\"err\":{\"why\":\"x\"}}\n";
    let mut store = open_jsonl(original, 10);
    store.expand(0).unwrap();
    let at = store.names.iter().position(|n| n == "err.code").unwrap();
    let code = store.display_column(at).unwrap();

    store.type_in(&[((1, code), "7")]);
    let refusal = store.save(true, false).unwrap_err();
    assert!(refusal.contains("no key to land in"), "{refusal}");
    assert_eq!(store.file(), original, "and nothing was written");
    assert_eq!(store.dirty(), 1, "the edit is still pending");
}

#[test]
fn deleting_and_adding_records_reaches_the_file() {
    let mut store = open_jsonl("{\"a\":1}\n{\"a\":2}\n{\"a\":3}\n", 10);
    store.delete_rows(vec![1]);
    store.save(true, false).unwrap();
    assert_eq!(store.file(), "{\"a\":1}\n{\"a\":3}\n");
    assert_eq!(store.row_count(), 2, "and the view knows the file shrank");

    let added = store.add_row(0, true);
    store.type_in(&[((added, 0), "9")]);
    store.save(true, false).unwrap();
    assert_eq!(store.file(), "{\"a\":1}\n{\"a\":9}\n{\"a\":3}\n");
    assert_eq!(store.row_count(), 3);
}

/// A new record is built from the cells that were typed, nesting included.
#[test]
fn a_new_record_is_built_with_the_documents_it_needs() {
    let mut store = open_jsonl("{\"err\":{\"code\":1,\"why\":\"x\"}}", 10);
    store.expand(0).unwrap();
    let added = store.add_row(0, true);
    store.type_in(&[((added, 0), "7"), ((added, 1), "a \"b\"")]);
    store.save(true, false).unwrap();
    assert_eq!(
        store.file(),
        "{\"err\":{\"code\":1,\"why\":\"x\"}}\n{\"err\":{\"code\":7,\"why\":\"a \\\"b\\\"\"}}\n"
    );
}

/// Escapes are the file's own on the way in and the writer's on the way out,
/// and a value that came back unchanged has to land byte for byte.
#[test]
fn escapes_survive_a_round_trip() {
    let original = "{\"m\":\"a \\\"quote\\\" and a \\n\",\"n\":1}\n";
    let mut store = open_jsonl(original, 10);
    let read = store.cell_text(0, 0).unwrap();
    assert_eq!(read, "a \"quote\" and a \n");

    store.type_in(&[((0, 0), &read)]);
    store.save(true, false).unwrap();
    assert_eq!(store.file(), original);
}

#[test]
fn a_jsonl_file_sorts_by_holding_the_whole_table() {
    let mut store = open_jsonl(&log_file(), 10);
    store.sorted_by(1); // `level`

    assert_eq!(store.cell(1, 0).as_deref(), Some("error"));
    assert_eq!(
        store.source_row(0),
        Some(8),
        "and the sorted row still knows which line it came from"
    );
    assert_eq!(store.row_count(), 9, "every row is still there");

    // Descending on the second press, as it does everywhere else.
    store.sorted_by(1);
    assert_eq!(store.cell(1, 0).as_deref(), Some("info"));
}

/// A held sort carries the filter, rather than a row-set scan running beside it
/// over a file that is already in memory.
#[test]
fn a_jsonl_sort_and_filter_compose() {
    let mut store = open_jsonl(&log_file(), 10);
    store.view.filter = Some(store.filter("filter n > 6"));
    store.sorted_by(3); // `n`

    assert_eq!(store.row_count(), 2, "rows 7 and 8");
    assert_eq!(store.cell(3, 0).as_deref(), Some("7"));
    assert_eq!(store.source_row(1), Some(8));
}

/// The interesting sort is one whose read crosses a chunk seam, since that is
/// where the row numbering would go wrong.
#[test]
fn a_jsonl_sort_reads_the_whole_file_across_its_chunks() {
    let rows = 5_000;
    let mut text = String::new();
    for i in 0..rows {
        text.push_str(&format!(
            "{{\"i\":{},\"pad\":\"{}\"}}\n",
            rows - i,
            "x".repeat(40)
        ));
    }
    let mut store = open_jsonl(&text, 5);
    // Force several chunks out of a small fixture.
    store.chunk = 16 << 10;
    store.sorted_by(0); // `i`, which counts down the file

    assert_eq!(store.row_count(), rows);
    assert_eq!(store.cell(0, 0).as_deref(), Some("1"));
    assert_eq!(
        store.source_row(0),
        Some(rows - 1),
        "the last line of the file sorts first"
    );
}

/// The indexed scan reads spans of the file itself, so it has to find exactly
/// what a filter over the whole table would.
#[test]
fn an_indexed_scan_finds_the_same_rows_across_several_chunks() {
    // Wide enough that the fixture runs past one chunk's byte budget, or the
    // seams between chunks never get crossed.
    let rows = STRIDE * 3 + 500;
    let padding = "x".repeat(48);
    let mut csv = String::from("id,cat,filler\n");
    for i in 0..rows {
        csv.push_str(&format!(
            "{i},{},{padding}\n",
            if i % 3 == 0 { "a" } else { "b" }
        ));
    }
    let mut store = open_csv(&csv, 10);
    // Force several chunks out of a small fixture, so the row numbering across
    // the seams is what is being checked.
    store.chunk = 64 << 10;
    assert!(
        store.index.chunk_end(0, 64 << 10) < rows,
        "the budget was meant to force more than one chunk"
    );
    store.filtered("filter cat = a");

    let expected = rows.div_ceil(3);
    assert_eq!(store.row_count(), expected, "every third row matches");
    // And they are the right rows, in file order, across chunk seams.
    assert_eq!(store.source_row(0), Some(0));
    assert_eq!(store.source_row(1), Some(3));
    let last = store.row_count() - 1;
    assert_eq!(store.source_row(last), Some((expected - 1) * 3));
}

#[test]
fn an_indexed_page_reads_the_same_rows_the_slow_path_would() {
    let rows = STRIDE * 2 + 1_000;
    let mut csv = String::from("id,note\n");
    for i in 0..rows {
        // A quoted comma every so often, so the byte offsets cannot be
        // arrived at by assuming fixed-width records.
        if i % 7 == 0 {
            csv.push_str(&format!("{i},\"a,b\"\n"));
        } else {
            csv.push_str(&format!("{i},plain\n"));
        }
    }
    let mut store = open_csv(&csv, 10);
    assert_eq!(store.total_rows, rows);

    // Either side of both checkpoints, and the last page.
    for offset in [
        0,
        5,
        STRIDE - 3,
        STRIDE,
        STRIDE + 4,
        2 * STRIDE + 900,
        rows - 10,
    ] {
        store.scroll(offset);
        let landed = store.row_offset;
        let first = store.cell(0, 0).unwrap();
        assert_eq!(
            first,
            landed.to_string(),
            "page at {offset} began on the wrong row"
        );
        let note = store.cell(1, 0).unwrap();
        let expected = if landed % 7 == 0 { "a,b" } else { "plain" };
        assert_eq!(note, expected, "row {landed} came back with the wrong note");
    }
}

#[test]
fn an_edit_shows_in_the_page() {
    let mut store = open_csv(SAMPLE, 10);
    assert_eq!(store.cell(0, 1).as_deref(), Some("b"));

    store.type_in(&[((1, 0), "edited")]);
    assert_eq!(store.cell(0, 1).as_deref(), Some("edited"));
    assert_eq!(store.dirty(), 1);
    // Its neighbours are untouched.
    assert_eq!(store.cell(0, 0).as_deref(), Some("a"));
    assert_eq!(store.cell(1, 1).as_deref(), Some("2"));
}

#[test]
fn an_edit_is_keyed_to_the_file_and_not_the_viewport() {
    let mut store = open_csv(SAMPLE, 2);
    store.type_in(&[((3, 0), "far")]);

    // Row 3 is off the page, so nothing in view changed.
    assert_eq!(store.cell(0, 0).as_deref(), Some("a"));
    assert_eq!(store.cell(0, 1).as_deref(), Some("b"));

    // Scrolling to it finds the edit waiting.
    store.scroll(2);
    assert_eq!(store.cell(0, 0).as_deref(), Some("c"));
    assert_eq!(store.cell(0, 1).as_deref(), Some("far"));
}

#[test]
fn a_value_that_does_not_fit_the_column_type_is_still_shown_as_typed() {
    let mut store = open_csv(SAMPLE, 10);
    assert!(matches!(store.types[1], ColumnType::Int));

    store.type_in(&[((0, 1), "n/a")]);
    assert_eq!(store.cell(1, 0).as_deref(), Some("n/a"));
    // The rest of the column survives the switch to text.
    assert_eq!(store.cell(1, 1).as_deref(), Some("2"));
}

#[test]
fn an_edit_that_still_reads_as_a_number_keeps_the_column_numeric() {
    let mut store = open_csv(SAMPLE, 10);

    store.type_in(&[((1, 1), "42")]);
    assert_eq!(store.cell(1, 1).as_deref(), Some("42"));
    assert_eq!(
        store.shown_kind(1, 10),
        Some(ColumnType::Int),
        "one edit must not turn the whole column into text"
    );
}

#[test]
fn an_edit_that_does_not_read_as_a_number_leaves_the_column_as_text() {
    let mut store = open_csv(SAMPLE, 10);

    store.type_in(&[((1, 1), "n/a")]);
    assert_eq!(store.cell(1, 1).as_deref(), Some("n/a"));
    assert_eq!(
        store.shown_kind(1, 10),
        Some(ColumnType::Text),
        "the column really will read as text next time it is opened"
    );
}

#[test]
fn clearing_a_numeric_cell_leaves_a_null_rather_than_text() {
    let mut store = open_csv(SAMPLE, 10);

    store.type_in(&[((0, 1), "")]);
    assert_eq!(store.shown_kind(1, 10), Some(ColumnType::Int));
    assert!(
        store.cell(1, 0).is_none(),
        "an empty field is a null, as it is on the way back out"
    );
}

#[test]
fn untouched_values_in_an_edited_column_are_unchanged() {
    // The column goes through text to take the edit, so the values that were
    // not edited have to survive the round trip exactly.
    let mut store = open_csv("name,ratio\na,0.1\nb,3.14159265358979\nc,2.5\n", 10);
    let before: Vec<Option<String>> = (0..3).map(|r| store.cell(1, r)).collect();

    store.type_in(&[((0, 1), "9.5")]);
    assert_eq!(store.shown_kind(1, 10), Some(ColumnType::Float));
    assert_eq!(store.cell(1, 0).as_deref(), Some("9.5"));
    for row in 1..3 {
        assert_eq!(store.cell(1, row), before[row], "row {row}");
    }
}

#[test]
fn edited_cells_are_reported_relative_to_the_page() {
    let mut store = open_csv(SAMPLE, 2);
    store.type_in(&[((0, 0), "x"), ((3, 1), "9")]);

    // Only the edit on the current page is reported, positioned within it.
    assert_eq!(store.edited_cells(2), vec![(0, 0)]);

    store.scroll(2);
    assert_eq!(store.edited_cells(2), vec![(1, 1)]);
}

#[test]
fn undo_and_redo_move_the_page_with_them() {
    let mut store = open_csv(SAMPLE, 10);
    store.type_in(&[((0, 0), "x")]);

    assert!(store.undo());
    store.refresh();
    assert_eq!(store.cell(0, 0).as_deref(), Some("a"));
    assert_eq!(store.dirty(), 0);

    assert!(store.redo());
    store.refresh();
    assert_eq!(store.cell(0, 0).as_deref(), Some("x"));
    assert!(!store.redo());
}

fn table_of(rows: usize, columns: usize) -> Store {
    let names = (0..columns).map(|c| format!("c{c}")).collect();
    let types = vec![ColumnType::Int; columns];
    Store::new(Source::Lazy, names, types, rows, 10, None)
}

#[test]
fn a_table_too_big_to_hold_is_not_sorted_at_all() {
    // Sorting an 842M-row census lazily reached 12.5GB resident in 45s without
    // producing a page, so the answer past the cap is no rather than "slowly".
    let cap = budget::sort_cells();
    assert!(table_of(cap, 1).sort_fits(cap));
    assert!(!table_of(cap + 1, 1).sort_fits(cap));
    assert!(!table_of(842_209_475, 20).sort_fits(cap), "the census parquet");
    // Multiplying the shape must not wrap into a false yes.
    assert!(!table_of(usize::MAX, 20).sort_fits(cap));
    assert!(table_of(usize::MAX, 20).sort_blocked_by(cap).is_some());
}

#[test]
fn an_ordinary_file_is_sortable() {
    let store = open_csv(SAMPLE, 10);
    assert_eq!(store.sort_blocked(), None);
}

#[test]
fn a_held_sort_keeps_the_rows_identifiable_and_editable() {
    let mut store = open_csv(SAMPLE, 10);
    assert_eq!(store.edit_blocked(), None);

    store.begin_sort(0);
    // Until it lands there is no record of where the rows came from.
    assert_eq!(store.edit_blocked(), Some("still sorting"));
    store.settle_sort();

    // Held, so every displayed row knows its line in the file, which is what
    // editing a sorted view needs.
    assert_eq!(store.edit_blocked(), None);
    assert_eq!(store.row_count(), 4);
    for display in 0..4 {
        assert!(store.source_row(display).is_some(), "row {display}");
    }

    store.clear_sort();
    assert_eq!(store.edit_blocked(), None);
}

#[test]
fn a_descending_sort_reverses_the_page_and_remembers_the_file_order() {
    let mut store = open_csv(SAMPLE, 10);

    store.sorted_by(0); // ascending by name
    assert_eq!(store.cell(0, 0).as_deref(), Some("a"));
    assert_eq!(store.source_row(0), Some(0));

    store.sorted_by(0); // pressing again reverses it
    assert_eq!(store.cell(0, 0).as_deref(), Some("d"));
    assert_eq!(store.source_row(0), Some(3), "d is the file's fourth row");

    // The bookkeeping column is not something the viewer shows.
    assert_eq!(store.page.len(), 2);
}

#[test]
fn an_edit_through_a_sorted_view_lands_on_the_right_line() {
    let mut store = open_csv(SAMPLE, 10);
    store.sorted_by(0);
    store.sorted_by(0); // descending: d, c, b, a

    // Display row 0 is `d`, the file's fourth row.
    store.type_in(&[((0, 1), "99")]);
    assert_eq!(store.cell(1, 0).as_deref(), Some("99"));

    store.save(true, false).unwrap();
    assert_eq!(store.file(), "name,count\na,1\nb,2\nc,3\nd,99\n");
}

#[test]
fn a_store_without_a_file_behind_it_is_read_only() {
    let store = Store::new(
        Source::Lazy,
        vec!["name".to_string(), "count".to_string()],
        vec![ColumnType::Text, ColumnType::Int],
        4,
        10,
        None,
    );
    assert!(store.edit_blocked().is_some());
    assert_eq!(store.rewrite(SAMPLE.as_bytes()).unwrap_err(), "this view is read-only");
}

#[test]
fn saving_writes_the_file_and_empties_the_buffer() {
    let mut store = open_csv(SAMPLE, 10);
    store.type_in(&[((1, 1), "99")]);
    store.save(true, false).unwrap();

    assert_eq!(store.file(), "name,count\na,1\nb,99\nc,3\nd,4\n");
    assert_eq!(store.dirty(), 0);
    // The reopened file shows the written value, not a stale overlay.
    assert_eq!(store.cell(1, 1).as_deref(), Some("99"));
}

#[test]
fn a_second_save_is_not_refused_by_our_own_first_one() {
    let mut store = open_csv(SAMPLE, 10);
    store.type_in(&[((0, 0), "x")]);
    store.save(true, false).unwrap();

    store.type_in(&[((1, 0), "y")]);
    store
        .save(true, false)
        .expect("the stamp must follow the write");
    assert_eq!(store.file(), "name,count\nx,1\ny,2\nc,3\nd,4\n");
}

#[test]
fn a_file_changed_underneath_the_buffer_is_not_overwritten() {
    let mut store = open_csv(SAMPLE, 10);
    store.type_in(&[((0, 0), "x")]);

    store.bytes = b"name,count\nz,9\n".to_vec();
    store.stamp = stamp_of(&store.bytes, 1);
    let err = store.save(true, false).unwrap_err();
    assert!(err.contains("changed on disk"), "{err}");
    assert_eq!(store.file(), "name,count\nz,9\n");
    assert_eq!(store.dirty(), 1, "the edit is still pending");
}

#[test]
fn writing_elsewhere_leaves_the_buffer_dirty() {
    let mut store = open_csv(SAMPLE, 10);
    store.type_in(&[((0, 0), "x")]);
    let other = store.save(false, false).unwrap();

    assert_eq!(other, "name,count\nx,1\nb,2\nc,3\nd,4\n");
    assert_eq!(store.file(), SAMPLE);
    assert_eq!(store.dirty(), 1, ":w path does not save the source file");
}

#[test]
fn record_numbering_agrees_with_the_polars_reader() {
    // Blank lines, a quoted embedded newline and a quoted separator: every way
    // the two parsers could disagree about what a record is.
    let source = "name,note\nx,1\n\n\"a, b\",\"two\nlines\"\nz,3\n";
    let read = |text: &str| {
        CsvReadOptions::default()
            .with_has_header(true)
            .into_reader_with_file_handle(Cursor::new(text.as_bytes().to_vec()))
            .finish()
            .unwrap()
    };
    let rows = read(source).height();

    // Edit the last row, whichever index Polars gave it.
    let mut overlay = Overlay::new();
    overlay.set(vec![((rows - 1, 1), "edited".to_string())]);
    let delim = separator(detect_format(Some("csv")), source.as_bytes()).unwrap();
    let bytes = splice(source.as_bytes(), delim, true, &overlay, rows).unwrap();

    let after = read(&String::from_utf8(bytes).unwrap());
    assert_eq!(after.height(), rows, "the write changed the row count");
    let note = after.column("note").unwrap().str().unwrap();
    assert_eq!(note.get(rows - 1), Some("edited"));
    // The untouched rows came through unchanged.
    let name = after.column("name").unwrap().str().unwrap();
    assert_eq!(name.get(0), Some("x"));
    assert_eq!(name.get(rows - 1), Some("z"));
}

#[test]
fn a_refused_save_leaves_the_original_untouched() {
    let err = splice(b"a,b\n1,2\n", b',', true, &Overlay::new(), 7).unwrap_err();
    assert!(err.message().contains("changed on disk"));

    // And through a store: a file shorter than the view.
    let mut store = open_csv(SAMPLE, 10);
    store.type_in(&[((0, 0), "x")]);
    store.bytes = b"name,count\na,1\n".to_vec();
    let refusal = store.save(true, true).unwrap_err();
    assert!(refusal.contains("the file holds 1 data rows but the view has 4"), "{refusal}");
    assert_eq!(store.file(), "name,count\na,1\n");
}

#[test]
fn a_stamp_notices_a_file_changing_underneath_it() {
    let stamp = stamp_of(b"a,b\n1,2\n", 0);
    assert!(stamp.still_matches(Some(stamp)));
    assert!(!stamp.still_matches(Some(stamp_of(b"a,b\n1,2\n3,4\n", 0))));
    assert!(!stamp.still_matches(Some(stamp_of(b"a,b\n1,2\n", 1))));
    assert!(!stamp.still_matches(None), "a file that is gone is a changed one");
}

#[test]
fn a_search_reports_where_a_row_is_on_show() {
    let mut store = open_csv("n\n0\n1\n2\n", 10);
    store.store.overlay.strike(vec![0]);
    assert_eq!(store.search_row_to_display(0), None, "a struck row is nowhere");
    assert_eq!(store.search_row_to_display(2), Some(1));
    let id = store.store.overlay.add_row(2, 0, 3);
    assert_eq!(store.store.source_row(1), Some(id));
    assert_eq!(store.search_row_to_display(1), Some(0));
    assert_eq!(store.search_row_to_display(2), Some(2), "behind what is added before it");
    assert_eq!(store.search_row_to_display(3), None);
}

#[test]
fn a_view_is_put_back_by_name_after_a_write() {
    let mut store = open_jsonl("{\"a\":1,\"b\":2,\"c\":3}\n{\"a\":4,\"b\":5}\n{\"a\":6}\n", 10);
    store.view.select = Some(vec![2, 0]);
    store.view.sort = vec![(1, false), (2, true)];
    store.filtered("filter a > 0 and c = 3");
    let found = |names: &[&str]| -> Vec<(String, ColumnType)> {
        names.iter().map(|n| (n.to_string(), ColumnType::Int)).collect()
    };
    store.store.reload_json(&found(&["c", "a", "b"]), 3);
    let columns = |store: &Store| -> Vec<usize> {
        let filter = store.view.filter.as_ref().unwrap();
        filter.conditions.iter().map(|c| c.column).collect()
    };
    assert_eq!(store.view.select, Some(vec![0, 1]));
    assert_eq!(store.view.sort, [(2, false), (0, true)]);
    assert_eq!(columns(&store.store), [1, 0]);
    assert!(store.filter_rows.is_some(), "every condition still has its column");

    store.store.reload_json(&found(&["b", "a"]), 3);
    assert_eq!(store.view.select, Some(vec![1]));
    assert_eq!(store.view.sort, [(0, false)]);
    assert_eq!(columns(&store.store), [1]);
    assert!(store.filter_rows.is_none(), "the rows met a condition that is gone");

    store.store.reload_json(&found(&["b"]), 3);
    assert!(store.view.filter.is_none());
}
