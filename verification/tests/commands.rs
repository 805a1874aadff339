//! What a typed command comes to, and how a wrong one is refused.
use plv::data::jsonl::ColumnType;
use plv::grammar::parse;
use plv::view::{Command, Op, Value};

fn names() -> Vec<String> {
    ["age", "full name", "ok"].iter().map(|n| n.to_string()).collect()
}

fn read(line: &str) -> Result<Command, String> {
    let kinds = [ColumnType::Int, ColumnType::Text, ColumnType::Bool];
    parse(line, &names(), &kinds)
}

fn refused(line: &str) -> String {
    read(line).unwrap_err()
}

#[test]
fn every_mistake_is_named() {
    assert_eq!(refused(""), "not a command: :");
    assert_eq!(refused("frobnicate"), "not a command: :frobnicate");
    assert_eq!(refused("select nope"), "no column called nope");
    assert_eq!(refused("select \"full name"), "a quote is left open");
    assert_eq!(
        refused("filter age"),
        "a filter wants a column, an operator and a value"
    );
    assert_eq!(refused("filter age is 3"), "not an operator: is");
    assert_eq!(
        refused("filter age > 3 or ok = true"),
        "conditions join with and"
    );
    assert_eq!(
        refused("filter \"full name\" ~ ("),
        "not a regular expression: ("
    );
    assert_eq!(refused("reset everything"), "nothing to reset called everything");
    assert!(refused("filter age > old").starts_with("age is "));
}

#[test]
fn a_quoted_name_and_a_typed_value_are_read() {
    let Ok(Command::Select(columns)) = read("select \"full name\" age") else {
        panic!("not a selection");
    };
    assert_eq!(columns, [1, 0]);
    let Ok(Command::Filter(filter)) = read("filter ok = true and age >= 3") else {
        panic!("not a filter");
    };
    assert_eq!(filter.conditions.len(), 2);
    assert_eq!(filter.conditions[0].column, 2);
    assert!(matches!(filter.conditions[0].value, Value::Bool(true)));
    assert!(matches!(filter.conditions[1].op, Op::Ge));
    assert!(matches!(&filter.conditions[1].value, Value::Number(n) if n == "3"));
    let Ok(Command::Sort(keys)) = read("sort age-") else {
        panic!("not a sort");
    };
    assert_eq!(keys, [(0, false)]);
}
