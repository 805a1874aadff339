use plv::data::jsonl::ColumnType;
use plv::data::rows::{Predicate, Test};
use plv::data::scan::{kept, matching, scan_span, sorted_rows, taken, Quest};
use plv::data::span::Records;
use plv::view::{Op, Value};

type Cells = Vec<Vec<Option<String>>>;

fn column(cells: &[&str]) -> Vec<Option<String>> {
    cells
        .iter()
        .map(|text| Some(text.to_string()).filter(|text| !text.is_empty()))
        .collect()
}

fn names() -> Vec<String> {
    ["name", "count", "done"].iter().map(|n| n.to_string()).collect()
}

fn kinds() -> Vec<ColumnType> {
    vec![ColumnType::Text, ColumnType::Int, ColumnType::Bool]
}

fn table() -> Cells {
    vec![
        column(&["ada", "bob", "", "émile", "bob"]),
        column(&["10", "9", "100", "", "-1"]),
        column(&["true", "false", "true", "false", ""]),
    ]
}

fn test_on(column: &str, test: Test) -> Predicate {
    Predicate {
        column: column.to_string(),
        test,
    }
}

fn rows(tests: Vec<Predicate>) -> Vec<usize> {
    kept(&table(), &names(), &tests, 0).unwrap()
}

fn number(op: Op, n: &str) -> Vec<usize> {
    rows(vec![test_on("count", Test::Compare(op, Value::Number(n.to_string())))])
}

fn text(op: Op, s: &str) -> Vec<usize> {
    rows(vec![test_on("name", Test::Compare(op, Value::Text(s.to_string())))])
}

fn truth(op: Op, b: bool) -> Vec<usize> {
    rows(vec![test_on("done", Test::Compare(op, Value::Bool(b)))])
}

#[test]
fn numbers_compare_as_numbers() {
    assert_eq!(number(Op::Gt, "9"), [0, 2]);
    assert_eq!(number(Op::Ge, "9"), [0, 1, 2]);
    assert_eq!(number(Op::Lt, "9.5"), [1, 4]);
    assert_eq!(number(Op::Le, "10"), [0, 1, 4]);
    assert_eq!(number(Op::Eq, "10.0"), [0]);
    assert_eq!(number(Op::Ne, "10"), [1, 2, 4], "nothing is not unequal either");
}

#[test]
fn text_compares_character_by_character() {
    assert_eq!(text(Op::Eq, "bob"), [1, 4]);
    assert_eq!(text(Op::Ne, "bob"), [0, 3]);
    assert_eq!(text(Op::Lt, "bob"), [0]);
    assert_eq!(text(Op::Le, "bob"), [0, 1, 4]);
    assert_eq!(text(Op::Gt, "bo"), [1, 3, 4]);
    assert_eq!(text(Op::Ge, "zz"), [3]);
}

#[test]
fn truth_values_compare_false_first() {
    assert_eq!(truth(Op::Eq, true), [0, 2]);
    assert_eq!(truth(Op::Ne, true), [1, 3]);
    assert_eq!(truth(Op::Lt, true), [1, 3]);
    assert_eq!(truth(Op::Ge, false), [0, 1, 2, 3]);
    assert_eq!(rows(vec![test_on("done", Test::Itself)]), [0, 2]);
}

#[test]
fn cells_with_nothing_in_them_are_asked_for_by_name() {
    assert_eq!(rows(vec![test_on("name", Test::Null)]), [2]);
    assert_eq!(rows(vec![test_on("name", Test::NotNull)]), [0, 1, 3, 4]);
}

#[test]
fn patterns_read_any_column_as_text() {
    let matches = |c: &str, p: &str| rows(vec![test_on(c, Test::Matches(p.to_string()))]);
    let fails = |c: &str, p: &str| rows(vec![test_on(c, Test::NotMatches(p.to_string()))]);
    assert_eq!(matches("name", "^b"), [1, 4]);
    assert_eq!(fails("name", "^b"), [0, 3], "nothing neither matches nor fails to");
    assert_eq!(matches("count", "^1"), [0, 2]);
}

#[test]
fn every_condition_has_to_hold() {
    let both = || {
        vec![
            test_on("name", Test::Compare(Op::Eq, Value::Text("bob".to_string()))),
            test_on("count", Test::Compare(Op::Gt, Value::Number("0".to_string()))),
        ]
    };
    assert_eq!(rows(both()), [1]);
    assert_eq!(kept(&table(), &names(), &both(), 40), Some(vec![41]));
    assert_eq!(rows(Vec::new()), [0, 1, 2, 3, 4]);
}

#[test]
fn a_condition_that_cannot_be_asked_keeps_nothing_at_all() {
    let unknown = [test_on("nobody", Test::Null)];
    assert_eq!(kept(&table(), &names(), &unknown, 0), None);
    let broken = [test_on("name", Test::Matches("(".to_string()))];
    assert_eq!(kept(&table(), &names(), &broken, 0), None);
}

#[test]
fn a_search_goes_through_one_column_or_all() {
    let find = |column: Option<&str>, pattern: &str| matching(&table(), &names(), column, pattern, 100);
    assert_eq!(find(None, "b|1"), Some(vec![100, 101, 102, 104]));
    assert_eq!(find(Some("name"), "b"), Some(vec![101, 104]));
    assert_eq!(find(Some("done"), "b"), Some(vec![]));
    assert_eq!(find(Some("nobody"), "b"), None);
    assert_eq!(find(None, "("), None);
    assert_eq!(matching(&Vec::new(), &[], None, "b", 0), Some(vec![]));
}

fn sorted(keys: &[(&str, bool)], tests: Vec<Predicate>) -> Option<Vec<usize>> {
    let keys: Vec<(String, bool)> = keys.iter().map(|(n, a)| (n.to_string(), *a)).collect();
    sorted_rows(&table(), &names(), &kinds(), &tests, &keys)
}

#[test]
fn sorting_goes_by_what_a_column_holds() {
    assert_eq!(sorted(&[("count", true)], Vec::new()), Some(vec![3, 4, 1, 0, 2]));
    assert_eq!(sorted(&[("name", true)], Vec::new()), Some(vec![2, 0, 1, 4, 3]));
    assert_eq!(sorted(&[("done", true)], Vec::new()), Some(vec![4, 1, 3, 0, 2]));
    assert_eq!(
        sorted(&[("name", true), ("count", true)], Vec::new()),
        Some(vec![2, 0, 4, 1, 3])
    );
    assert_eq!(sorted(&[], Vec::new()), Some(vec![0, 1, 2, 3, 4]));
    assert_eq!(sorted(&[("nobody", true)], Vec::new()), None);
}

#[test]
fn a_sort_holds_each_kept_row_once() {
    let full = || vec![test_on("count", Test::NotNull)];
    assert_eq!(sorted(&[("count", false)], full()), Some(vec![2, 0, 1, 4]));
    let broken = vec![test_on("name", Test::Matches("(".to_string()))];
    assert_eq!(sorted(&[("count", false)], broken), None);
}

#[test]
fn text_sorts_in_its_natural_order() {
    let columns = vec![column(&["file10", "file2", "file1", "file02"])];
    let names = ["f".to_string()];
    let keys = [("f".to_string(), true)];
    let rows = sorted_rows(&columns, &names, &[ColumnType::Text], &[], &keys);
    assert_eq!(rows, Some(vec![2, 3, 1, 0]));
}

#[test]
fn a_span_of_delimited_text_is_looked_through() {
    let names: Vec<String> = ["a", "b"].iter().map(|n| n.to_string()).collect();
    let kinds = [ColumnType::Int, ColumnType::Text];
    let records = Records::Delimited {
        separator: b',',
        names: &names,
        kinds: &kinds,
    };
    let bytes = || b"a,b\n1,x\n20,\n3,yx\n".to_vec();
    let found = Quest::Found {
        column: None,
        pattern: "x",
    };
    assert_eq!(scan_span(&records, bytes(), &names, 0, 100, 7, &found), Some(vec![7, 9]));
    assert_eq!(scan_span(&records, bytes(), &names, 1, 100, 8, &found), Some(vec![9]));
    let tests = [test_on("a", Test::Compare(Op::Gt, Value::Number("2".to_string())))];
    let kept = Quest::Kept(&tests);
    assert_eq!(scan_span(&records, bytes(), &names, 0, 2, 7, &kept), Some(vec![8]));
}

#[test]
fn a_span_of_objects_is_looked_through() {
    let names = ["a".to_string()];
    let paths = vec![vec!["a".to_string()]];
    let kinds = [ColumnType::Text];
    let records = Records::Json {
        paths: &paths,
        kinds: &kinds,
    };
    let bytes = b"{\"a\":\"one\"}\n{\"b\":1}\n{\"a\":\"none\"}\n".to_vec();
    let found = Quest::Found {
        column: Some("a"),
        pattern: "ne$",
    };
    assert_eq!(scan_span(&records, bytes, &names, 0, 100, 0, &found), Some(vec![0, 2]));
}

fn read_as(kind: ColumnType, bytes: &[u8]) -> Option<Vec<Vec<Option<String>>>> {
    let names = ["a".to_string()];
    let kinds = [kind];
    let records = Records::Delimited {
        separator: b',',
        names: &names,
        kinds: &kinds,
    };
    records.parse(bytes.to_vec(), &[0], 0, 10)
}

#[test]
fn text_that_ends_in_a_quote_alone_is_not_read() {
    for kind in [ColumnType::Int, ColumnType::Float, ColumnType::Bool, ColumnType::Text] {
        for bytes in [&b"a\n\""[..], b"a\n\"\r", b"a\n1\n\""] {
            assert!(read_as(kind, bytes).is_none());
        }
    }
    let one = |text: &str| Some(vec![vec![Some(text.to_string())]]);
    assert_eq!(read_as(ColumnType::Text, b"a\n\"x,\""), one("x,"));
    assert_eq!(read_as(ColumnType::Int, b"a\n\"7\""), one("7"));
    // Nothing but a header: a quote there opens no field of a row.
    assert!(read_as(ColumnType::Int, b"\"").is_some());
}

#[test]
fn a_closing_quote_alone_on_its_line_is_read() {
    let rows = read_as(ColumnType::Text, b"h\na\"b\"c\n\"x\n\"").unwrap();
    let text = |t: &str| Some(t.to_string());
    assert_eq!(rows, [[text("a\"b\"c"), text("x\n")]]);
}

#[test]
fn scanning_in_parts_comes_to_the_same() {
    let tests = [test_on("count", Test::Compare(Op::Gt, Value::Number("0".to_string())))];
    let part = |from: usize, to: usize| -> Cells {
        table().into_iter().map(|column| column[from..to].to_vec()).collect()
    };
    let whole = kept(&table(), &names(), &tests, 0).unwrap();
    for middle in 0..=5 {
        let mut rows = kept(&part(0, middle), &names(), &tests, 0).unwrap();
        rows.extend(kept(&part(middle, 5), &names(), &tests, middle).unwrap());
        assert_eq!(rows, whole);
    }
}

#[test]
fn keys_are_taken_in_turn_and_ties_stay_as_they_were() {
    let columns = vec![
        column(&["b", "a", "b", "a", "b"]),
        column(&["2", "10", "10", "9", "2"]),
    ];
    let names = ["x".to_string(), "y".to_string()];
    let kinds = [ColumnType::Text, ColumnType::Int];
    let sort = |keys: &[(&str, bool)]| {
        let keys: Vec<(String, bool)> = keys.iter().map(|(n, a)| (n.to_string(), *a)).collect();
        sorted_rows(&columns, &names, &kinds, &[], &keys).unwrap()
    };
    assert_eq!(sort(&[("x", true), ("y", true)]), [3, 1, 0, 4, 2]);
    assert_eq!(sort(&[("x", false), ("y", false)]), [2, 0, 4, 1, 3]);
    assert_eq!(sort(&[("y", false), ("x", true)]), [1, 2, 3, 0, 4]);
    assert_eq!(sort(&[("x", false)]), [0, 2, 4, 1, 3]);
}

#[test]
fn what_holds_nothing_comes_first_either_way() {
    let columns = vec![column(&["2", "", "10", ""])];
    let names = ["n".to_string()];
    let sort = |kind: ColumnType, ascends: bool| {
        sorted_rows(&columns, &names, &[kind], &[], &[("n".to_string(), ascends)]).unwrap()
    };
    assert_eq!(sort(ColumnType::Int, true), [1, 3, 0, 2]);
    assert_eq!(sort(ColumnType::Int, false), [1, 3, 2, 0]);
    assert_eq!(sort(ColumnType::Float, false), [1, 3, 2, 0]);
    assert_eq!(sort(ColumnType::Text, false), [1, 3, 2, 0]);
    assert_eq!(sort(ColumnType::Bool, false), [1, 3, 0, 2], "as the text it is");
}

#[test]
fn rows_are_taken_in_the_order_they_are_named() {
    let out = taken(&table(), &vec![3, 0]);
    assert_eq!(out[0], column(&["émile", "ada"]));
    assert_eq!(out[1], column(&["", "10"]));
}
