//! What is written, and what a reader finds there afterwards.
use plv::data::edit::Overlay;
use plv::data::index::RowIndex;
use plv::data::json_path::find;
use plv::data::json_writer::{encode, put, quote, splice_json, Adding, JsonColumn};
use plv::data::jsonl::{text, unescape, ColumnType};
use plv::data::span::Records;
use plv::data::writer::{splice, SpliceError};

fn names(all: &[&str]) -> Vec<String> {
    all.iter().map(|name| name.to_string()).collect()
}

/// The columns of a comma-separated text, all of them as they are written.
fn read_csv(bytes: &[u8], header: &[&str]) -> Vec<Vec<Option<String>>> {
    let header = names(header);
    let kinds = vec![ColumnType::Text; header.len()];
    let wanted: Vec<usize> = (0..header.len()).collect();
    let records = Records::Delimited {
        separator: b',',
        names: &header,
        kinds: &kinds,
    };
    let rows = RowIndex::build(bytes, b',').rows();
    records.parse(bytes.to_vec(), &wanted, 0, rows).unwrap()
}

fn some(all: &[&str]) -> Vec<Option<String>> {
    all.iter().map(|value| Some(value.to_string())).collect()
}

fn overlay_of(edits: &[((usize, usize), &str)]) -> Overlay {
    let mut overlay = Overlay::new();
    for &(cell, value) in edits {
        overlay.set(vec![(cell, value.to_string())]);
    }
    overlay
}

#[test]
fn awkward_values_come_back_as_they_were_typed() {
    let src = b"a,b\n1,x\n2,y\n";
    let overlay = overlay_of(&[((0, 1), "one\ntwo, \"three\""), ((1, 0), " 7 ")]);
    let out = splice(src, b',', true, &overlay, 2).unwrap();
    assert_eq!(
        String::from_utf8(out.clone()).unwrap(),
        "a,b\n1,\"one\ntwo, \"\"three\"\"\"\n 7 ,y\n"
    );
    assert_eq!(RowIndex::build(&out, b',').rows(), 2);
    let read = read_csv(&out, &["a", "b"]);
    assert_eq!(read[0], some(&["1", " 7 "]));
    assert_eq!(read[1], some(&["one\ntwo, \"three\"", "y"]));
}

#[test]
fn struck_and_added_rows_come_back_in_order() {
    let src = b"a,b\n1,x\n2,y\n3,z\n";
    let mut overlay = Overlay::new();
    let id = overlay.add_row(1, 0, 3);
    overlay.set(vec![((id, 0), "new".to_string()), ((id, 1), "n,w".to_string())]);
    overlay.delete(vec![2], 3);
    let out = splice(src, b',', true, &overlay, 3).unwrap();
    assert_eq!(
        String::from_utf8(out.clone()).unwrap(),
        "a,b\n1,x\nnew,\"n,w\"\n2,y\n"
    );
    let read = read_csv(&out, &["a", "b"]);
    assert_eq!(read[0], some(&["1", "new", "2"]));
    assert_eq!(read[1], some(&["x", "n,w", "y"]));
}

#[test]
fn a_record_without_its_own_line_break_is_given_one() {
    // Nothing can be appended to a last record that has no line break, so the
    // break is written first.
    let mut overlay = Overlay::new();
    let id = overlay.add_row(2, 0, 2);
    overlay.set(vec![((id, 0), "3".to_string())]);
    let out = splice(b"a\n1\n2", b',', true, &overlay, 2).unwrap();
    let read = read_csv(&out, &["a"]);
    assert_eq!(read[0], some(&["1", "2", "3"]));
}

#[test]
fn every_refusal_says_what_is_wrong() {
    let src = b"a,b\n1,x\n2\n";
    let none = Overlay::new();
    let rows = splice(src, b',', true, &none, 5).unwrap_err();
    assert_eq!(rows, SpliceError::Rows { rows: 2, expected: 5 });
    assert_eq!(
        rows.message(),
        "refusing to write: the file holds 2 data rows but the view has 5 \
         \u{2014} it may have changed on disk"
    );

    let short = overlay_of(&[((1, 1), "y"), ((0, 0), "z")]);
    let edits = splice(src, b',', true, &short, 2).unwrap_err();
    assert_eq!(edits, SpliceError::Edits { missing: 1, total: 2 });
    assert_eq!(
        edits.message(),
        "refusing to write: 1 of 2 edits had no field to land in \
         (a row with fewer fields than the header)"
    );

    let mut far = Overlay::new();
    far.add_row(9, 0, 2);
    let added = splice(src, b',', true, &far, 2).unwrap_err();
    assert_eq!(added, SpliceError::Added { missing: 1, total: 1 });
    assert_eq!(
        added.message(),
        "refusing to write: 1 of 1 added rows had nowhere to go"
    );

    let mut gone = Overlay::new();
    gone.strike(vec![7]);
    let deleted = splice(src, b',', true, &gone, 2).unwrap_err();
    assert_eq!(deleted, SpliceError::Deleted { missing: 1, total: 1 });
    assert_eq!(
        deleted.message(),
        "refusing to write: 1 of 1 deleted rows were not found"
    );
}

#[test]
fn records_without_the_document_refuse_the_edit() {
    let path = names(&["user", "name"]);
    let columns = [JsonColumn { path: &path, kind: ColumnType::Text }];
    let overlay = overlay_of(&[((0, 0), "Ada")]);
    let refused = splice_json(b"{\"id\":1}\n", &columns, &overlay, 1).unwrap_err();
    assert_eq!(refused, SpliceError::Edits { missing: 1, total: 1 });
    assert_eq!(
        refused.json_message(),
        "refusing to write: 1 of 1 edits had no key to land in \
         (a record without the document around it)"
    );
    let rows = splice_json(b"{\"id\":1}\n", &columns, &Overlay::new(), 3).unwrap_err();
    assert_eq!(rows, SpliceError::Rows { rows: 1, expected: 3 });
    assert_eq!(rows.json_message(), rows.message());
}

#[test]
fn untouched_records_keep_every_byte() {
    let src = b"{ \"a\" : 1.50 }\r\n\n{\"b\":[1, 2]}";
    let path = names(&["a"]);
    let columns = [JsonColumn { path: &path, kind: ColumnType::Float }];
    let out = splice_json(src, &columns, &Overlay::new(), 2).unwrap();
    assert_eq!(out, src);
}

#[test]
fn one_value_changes_and_the_rest_stays() {
    let doc = b"{ \"a\" : 1 , \"b\":{\"c\": \"x\"}, \"d\":null}";
    let path = names(&["b", "c"]);
    let out = put(doc, &path, b"\"y\"", Adding::Nowhere).unwrap();
    assert_eq!(
        String::from_utf8(out.clone()).unwrap(),
        "{ \"a\" : 1 , \"b\":{\"c\": \"y\"}, \"d\":null}"
    );
    let (kind, raw) = find(&out, &path).unwrap();
    assert_eq!(text(kind, raw), Some("y".to_string()));
    let (_, raw) = find(&out, &names(&["a"])).unwrap();
    assert_eq!(raw, b"1");
}

#[test]
fn a_missing_key_goes_behind_the_others() {
    let doc = b"{\"a\":1}";
    let here = put(doc, &names(&["b"]), b"2", Adding::Here).unwrap();
    assert_eq!(String::from_utf8(here).unwrap(), "{\"a\":1,\"b\":2}");
    assert!(put(doc, &names(&["b"]), b"2", Adding::Nowhere).is_none());
    // A document on the way is only invented where that is asked for.
    let deep = names(&["b", "c"]);
    assert!(put(doc, &deep, b"2", Adding::Here).is_none());
    let out = put(doc, &deep, b"2", Adding::Anywhere).unwrap();
    let (_, raw) = find(&out, &deep).unwrap();
    assert_eq!(raw, b"2");
    let empty = put(b"{}", &names(&["a"]), b"1", Adding::Here).unwrap();
    assert_eq!(String::from_utf8(empty).unwrap(), "{\"a\":1}");
}

#[test]
fn quoted_text_reads_back() {
    for value in ["", "plain", "a\"b\\c", "tab\tline\nend\r", "\u{1}\u{8}\u{c}\u{1f}", "\u{e9}\u{1f600}"] {
        let written = quote(value);
        let inside = &written[1..written.len() - 1];
        assert_eq!(unescape(inside), value);
    }
    assert_eq!(quote("a\"b"), "\"a\\\"b\"");
    assert_eq!(quote("\u{1}"), "\"\\u0001\"");
}

#[test]
fn a_cell_is_written_as_its_column_reads() {
    assert_eq!(encode("7", ColumnType::Int), b"7");
    assert_eq!(encode("true", ColumnType::Bool), b"true");
    assert_eq!(encode("7", ColumnType::Text), b"\"7\"");
    assert_eq!(encode("", ColumnType::Int), b"null");
    let path = names(&["n"]);
    let columns = [JsonColumn { path: &path, kind: ColumnType::Int }];
    let overlay = overlay_of(&[((0, 0), "12")]);
    let out = splice_json(b"{\"n\":1}\n", &columns, &overlay, 1).unwrap();
    assert_eq!(out, b"{\"n\":12}\n");
    let paths = [path.clone()];
    let kinds = [ColumnType::Int];
    let read = Records::Json { paths: &paths, kinds: &kinds }.parse(out, &[0], 0, 1).unwrap();
    assert_eq!(read, vec![some(&["12"])]);
}

#[test]
fn several_edits_of_a_record_are_all_found() {
    let src = b"{\"a\": 1, \"u\": {\"id\": 7, \"n\": \"x\"}, \"z\": null}\r\n{\"a\": 2}\r\n";
    let (a, id, more) = (names(&["a"]), names(&["u", "id"]), names(&["new"]));
    let columns = [
        JsonColumn { path: &a, kind: ColumnType::Int },
        JsonColumn { path: &id, kind: ColumnType::Int },
        JsonColumn { path: &more, kind: ColumnType::Text },
    ];
    let overlay = overlay_of(&[((0, 0), "-5"), ((0, 1), "nine"), ((0, 2), "two\nlines")]);
    let out = splice_json(src, &columns, &overlay, 2).unwrap();
    assert_eq!(
        String::from_utf8(out.clone()).unwrap(),
        "{\"a\": -5, \"u\": {\"id\": \"nine\", \"n\": \"x\"}, \"z\": null,\"new\":\"two\\nlines\"}\r\n\
         {\"a\": 2}\r\n"
    );
    assert_eq!(RowIndex::build_lines(&out).rows(), 2);
    let paths = [a, id, more, names(&["u", "n"])];
    let kinds = [ColumnType::Int, ColumnType::Text, ColumnType::Text, ColumnType::Text];
    let records = Records::Json { paths: &paths, kinds: &kinds };
    let read = records.parse(out, &[0, 1, 2, 3], 0, 2).unwrap();
    assert_eq!(read[0], some(&["-5", "2"]));
    assert_eq!(read[1], [Some("nine".to_string()), None]);
    assert_eq!(read[2], [Some("two\nlines".to_string()), None]);
    assert_eq!(read[3], [Some("x".to_string()), None]);
}

#[test]
fn struck_and_added_records_come_back_in_order() {
    let src = b"{\"a\":1}\n{\"a\":2}\n{\"a\":3}";
    let path = names(&["a"]);
    let columns = [JsonColumn { path: &path, kind: ColumnType::Int }];
    let mut overlay = Overlay::new();
    overlay.delete(vec![0], 3);
    let first = overlay.add_row(1, 0, 3);
    let last = overlay.add_row(3, 0, 3);
    overlay.set(vec![((first, 0), "10".to_string()), ((last, 0), "30".to_string())]);
    let out = splice_json(src, &columns, &overlay, 3).unwrap();
    assert_eq!(
        String::from_utf8(out.clone()).unwrap(),
        "{\"a\":10}\n{\"a\":2}\n{\"a\":3}\n{\"a\":30}\n"
    );
    let rows = RowIndex::build_lines(&out).rows();
    assert_eq!(rows, 4);
    let paths = [path];
    let kinds = [ColumnType::Int];
    let records = Records::Json { paths: &paths, kinds: &kinds };
    let read = records.parse(out, &[0], 0, rows).unwrap();
    assert_eq!(read[0], some(&["10", "2", "3", "30"]));
}

#[test]
fn a_struck_last_row_leaves_no_blank_line_before_what_follows() {
    let mut overlay = Overlay::new();
    overlay.delete(vec![1], 2);
    let id = overlay.add_row(2, 0, 2);
    overlay.set(vec![((id, 0), "3".to_string())]);
    let out = splice(b"a\n1\n2", b',', true, &overlay, 2).unwrap();
    assert_eq!(String::from_utf8(out).unwrap(), "a\n1\n3\n");
    let path = names(&["a"]);
    let columns = [JsonColumn { path: &path, kind: ColumnType::Int }];
    let out = splice_json(b"{\"a\":1}\n{\"a\":2}", &columns, &overlay, 2).unwrap();
    assert_eq!(String::from_utf8(out).unwrap(), "{\"a\":1}\n{\"a\":3}\n");
}
