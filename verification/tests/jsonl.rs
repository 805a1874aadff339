use plv::data::json::{fields_of, number_end, Kind};
use plv::data::jsonl::{page, ColumnType, Fields, Scan};
use std::collections::HashMap;

fn scan(text: &str) -> Fields {
    let mut scan = Scan::new();
    for byte in text.bytes() {
        scan.byte(byte);
    }
    scan.finish()
}

fn names(fields: &Fields) -> Vec<&str> {
    fields
        .columns()
        .iter()
        .map(|field| field.name.as_str())
        .collect()
}

/// A page, each column under its name.
type Frame = Vec<(String, Vec<Option<String>>)>;

fn frame(text: &str, fields: &Fields, wanted: &[usize], skip: usize, take: usize) -> Frame {
    let (names, types): (Vec<String>, Vec<ColumnType>) = fields.schema().into_iter().unzip();
    let columns = page(text.as_bytes(), &names, &types, wanted, skip, take);
    wanted
        .iter()
        .map(|at| names[*at].clone())
        .zip(columns)
        .collect()
}

fn value(df: &Frame, column: &str, row: usize) -> Option<String> {
    df.iter()
        .find(|(name, _)| name == column)
        .and_then(|(_, values)| values[row].clone())
}

fn cell(df: &Frame, column: &str, row: usize) -> String {
    value(df, column, row).unwrap()
}

fn is_null(df: &Frame, column: &str, row: usize) -> bool {
    value(df, column, row).is_none()
}

fn height(df: &Frame) -> usize {
    df[0].1.len()
}

fn column_names(df: &Frame) -> Vec<&str> {
    df.iter().map(|(name, _)| name.as_str()).collect()
}

const LOG: &str = "{\"ts\":\"2026-09-07T10:00:00Z\",\"level\":\"info\",\"msg\":\"started\",\"port\":8080}\n{\"ts\":\"2026-09-07T10:00:01Z\",\"level\":\"error\",\"msg\":\"boom\",\"err\":{\"code\":500,\"why\":\"bad\"}}\n";

#[test]
fn the_keys_are_the_columns_most_common_first() {
    let fields = scan(LOG);
    assert_eq!(fields.rows, 2);
    assert_eq!(names(&fields), ["ts", "level", "msg", "port", "err"]);
}

#[test]
fn a_column_is_typed_by_everything_that_was_ever_in_it() {
    let fields = scan("{\"n\":1,\"f\":1,\"s\":1,\"b\":true,\"j\":{\"a\":1}}\n{\"n\":2,\"f\":1.5,\"s\":\"x\",\"b\":false,\"j\":[1]}\n");
    let by_name: HashMap<&str, ColumnType> = fields
        .columns()
        .iter()
        .map(|field| (field.name.as_str(), field.dtype()))
        .collect();
    assert_eq!(by_name["n"], ColumnType::Int, "whole numbers throughout");
    assert_eq!(by_name["f"], ColumnType::Float, "one of them was not");
    assert_eq!(by_name["s"], ColumnType::Text, "a number and a string");
    assert_eq!(by_name["b"], ColumnType::Bool);
    assert_eq!(
        by_name["j"],
        ColumnType::Text,
        "a document, kept as its own text"
    );
}

#[test]
fn a_nested_value_is_carried_through_as_the_files_own_bytes() {
    let fields = scan(LOG);
    let df = frame(LOG, &fields, &(0..names(&fields).len()).collect::<Vec<_>>(), 0, usize::MAX);
    assert_eq!(
        cell(&df, "err", 1),
        r#"{"code":500,"why":"bad"}"#,
        "byte for byte, so `K` can open it"
    );
    assert!(
        fields_of(cell(&df, "err", 1).as_bytes()).is_some(),
        "and it really is a document"
    );
}

#[test]
fn a_string_arrives_without_its_quotes_and_with_its_escapes_resolved() {
    let line = "{\"msg\":\"one\\ntwo \\\"quoted\\\" \\u00e9\"}\n";
    let fields = scan(line);
    let df = frame(line, &fields, &[0], 0, usize::MAX);
    assert_eq!(cell(&df, "msg", 0), "one\ntwo \"quoted\" é");
}

#[test]
fn a_missing_key_is_a_null_and_not_a_shifted_row() {
    let fields = scan(LOG);
    let df = frame(LOG, &fields, &(0..names(&fields).len()).collect::<Vec<_>>(), 0, usize::MAX);
    assert_eq!(height(&df), 2);
    assert_eq!(cell(&df, "port", 0), "8080");
    assert!(is_null(&df, "port", 1));
}

#[test]
fn a_line_that_is_not_a_record_is_still_a_row() {
    // Row numbers are the file's lines. Skipping one would put every row
    // after it out by one, and those numbers key the filter and the
    // overlay.
    let text = "{\"a\":1}\nnot json at all\n{\"a\":3}\n";
    let fields = scan(text);
    assert_eq!(fields.rows, 3);
    assert_eq!(fields.malformed, 1);

    let df = frame(text, &fields, &[0], 0, usize::MAX);
    assert_eq!(height(&df), 3);
    assert_eq!(cell(&df, "a", 0), "1");
    assert!(is_null(&df, "a", 1));
    assert_eq!(cell(&df, "a", 2), "3");
}

#[test]
fn a_brace_inside_a_string_does_not_end_the_record() {
    let text = "{\"msg\":\"a } and a { in prose\",\"n\":1}\n";
    let fields = scan(text);
    assert_eq!(names(&fields), ["msg", "n"]);
}

#[test]
fn the_rare_keys_are_available_but_not_shown() {
    // Nine records with `a`, one of which also has `rare`.
    let mut text = String::new();
    for i in 0..9 {
        text.push_str(&format!("{{\"a\":{i}}}\n"));
    }
    text.push_str("{\"a\":9,\"rare\":1}\n");
    let fields = scan(&text);
    assert_eq!(names(&fields), ["a", "rare"]);
    assert_eq!(
        fields.shown(),
        Some(vec![0]),
        "one in ten is below the share"
    );
}

#[test]
fn nothing_is_hidden_when_every_key_is_common() {
    let fields = scan("{\"a\":1,\"b\":2}\n{\"a\":3,\"b\":4}\n");
    assert_eq!(fields.shown(), None, "so the view is left alone");
}

#[test]
fn a_key_repeated_in_one_record_counts_once() {
    let fields = scan("{\"a\":1,\"a\":2}\n{\"b\":1}\n");
    let counts: HashMap<&str, usize> = fields
        .columns()
        .iter()
        .map(|field| (field.name.as_str(), field.rows))
        .collect();
    assert_eq!(counts["a"], 1);
}

#[test]
fn a_file_that_does_not_end_in_a_newline_still_ends_its_record() {
    let fields = scan(r#"{"a":1}"#);
    assert_eq!(fields.rows, 1);
    assert_eq!(names(&fields), ["a"]);
}

#[test]
fn numbers_are_read_in_the_shape_json_allows() {
    assert_eq!(number_end(b"01", 0), None, "no leading zero");
    assert_eq!(number_end(b"1.", 0), None, "no bare point");
    assert_eq!(number_end(b"1e3", 0), Some((Kind::Float, 3)));
    assert_eq!(number_end(b"-0.5,", 0), Some((Kind::Float, 4)));
    assert_eq!(number_end(b"42}", 0), Some((Kind::Int, 2)));
}

/// A span starts at the checkpoint before the page, which can be a whole
/// stride of records earlier. Only the window asked for is built.
#[test]
fn a_page_builds_only_the_window_it_was_asked_for() {
    let fields = scan(LOG);
    let df = frame(LOG, &fields, &[0], 1, 1);
    assert_eq!(height(&df), 1);
    assert_eq!(cell(&df, "ts", 0), "2026-09-07T10:00:01Z");
}

#[test]
fn a_page_only_builds_the_columns_it_was_asked_for() {
    let fields = scan(LOG);
    let df = frame(LOG, &fields, &[1], 0, usize::MAX);
    assert_eq!(column_names(&df), ["level"]);
    assert_eq!(cell(&df, "level", 1), "error");
}

#[test]
fn a_key_past_the_cap_counts_once_however_many_records_carry_it() {
    let keys: Vec<String> = (0..1024).map(|i| format!("\"k{i}\":{i}")).collect();
    let text = format!("{{{}}}\n{{\"z\":1}}\n{{\"z\":2}}\n", keys.join(","));
    let found = scan(&text);
    assert_eq!((found.rows, found.malformed, found.dropped), (3, 0, 1));
    let more = scan(&format!("{text}{{\"y\":1,\"z\":3,\"k3\":0}}\n"));
    assert_eq!((more.rows, more.dropped), (4, 2));
}

#[test]
fn a_file_without_an_object_is_refused() {
    assert_eq!(scan("1\n2\n").refusal("a.jsonl"), Some("no JSON objects in a.jsonl".to_string()));
    assert_eq!(scan("1\n{\"a\":2}\n").refusal("a.jsonl"), None);
}

#[test]
fn a_page_is_typed_as_its_columns_are() {
    let text = "{\"n\":1,\"f\":1,\"b\":true,\"s\":\"x\"}\n{\"n\":-0,\"f\":1.5,\"b\":false,\"s\":2}\n{\"n\":99999999999999999999,\"f\":1e3}\n";
    let fields = scan(text);
    let types: HashMap<String, ColumnType> = fields.schema().into_iter().collect();
    assert_eq!(types["n"], ColumnType::Int);
    assert_eq!(types["f"], ColumnType::Float);
    let df = frame(text, &fields, &[0, 1, 2, 3], 0, 3);
    assert_eq!(cell(&df, "n", 0), "1");
    assert_eq!(cell(&df, "n", 1), "0");
    assert!(is_null(&df, "n", 2), "past what 64 bits hold");
    assert_eq!(cell(&df, "f", 0), "1.0");
    assert_eq!(cell(&df, "f", 1), "1.5");
    assert_eq!(cell(&df, "f", 2), "1000.0");
    assert_eq!(cell(&df, "b", 0), "true");
    assert_eq!(cell(&df, "s", 1), "2");
}

#[test]
fn a_value_that_is_not_of_its_columns_type_is_nothing() {
    let names = ["n", "f", "b", "s"].map(|n| n.to_string());
    let types = [ColumnType::Int, ColumnType::Float, ColumnType::Bool, ColumnType::Text];
    let read = |text: &str| -> Vec<Option<String>> {
        page(text.as_bytes(), &names, &types, &[0, 1, 2, 3], 0, 1)
            .into_iter()
            .map(|mut column| column.remove(0))
            .collect()
    };
    assert_eq!(
        read("{\"n\":\"x\",\"f\":\"x\",\"b\":\"yes\",\"s\":\"x\"}"),
        [None, None, None, Some("x".to_string())]
    );
    assert_eq!(
        read("{\"n\":1.5,\"f\":\"-2\",\"b\":1,\"s\":1.50}"),
        [None, Some("-2.0".to_string()), None, Some("1.50".to_string())]
    );
    assert_eq!(
        read("{\"n\":\"+007\",\"f\":-0.0,\"b\":\"true\",\"s\":true}"),
        [Some("7"), Some("-0.0"), Some("true"), Some("true")].map(|t| t.map(str::to_string))
    );
}

#[test]
fn a_number_in_a_string_is_read_as_numbers_are() {
    let names = ["f".to_string()];
    let read = |text: &str| -> Option<String> {
        let line = format!("{{\"f\":\"{text}\"}}");
        page(line.as_bytes(), &names, &[ColumnType::Float], &[0], 0, 1)[0][0].clone()
    };
    assert_eq!(read("+.5").as_deref(), Some("0.5"));
    assert_eq!(read("5.").as_deref(), Some("5.0"));
    assert_eq!(read("-1E+2").as_deref(), Some("-100.0"));
    assert_eq!(read("nan").as_deref(), Some("NaN"));
    assert_eq!(read("-Infinity").as_deref(), Some("-inf"));
    assert_eq!(read(" 5"), None);
    assert_eq!(read(""), None);
    assert_eq!(read("1e"), None);
}
