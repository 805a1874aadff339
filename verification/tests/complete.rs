use plv::complete::{complete, Completion};
use plv::data::jsonl::ColumnType;
use plv::grammar;

const VIEW_VERBS: [&str; 5] = ["select", "hide", "filter", "sort", "reset"];
const OPERATORS: [&str; 8] = ["=", "!=", "<", "<=", ">", ">=", "~", "!~"];
const SLOTS: [&str; 3] = ["select", "filter", "sort"];

fn names() -> Vec<String> {
    ["name", "count", "category", "release date"]
        .iter()
        .map(|name| name.to_string())
        .collect()
}

fn options(line: &str) -> Vec<String> {
    complete(line, &names())
        .map(|c| c.options)
        .unwrap_or_default()
}

fn extended(line: &str) -> String {
    complete(line, &names())
        .map(|c| c.extended())
        .unwrap_or_else(|| line.to_string())
}

/// The list of verbs offered has to be the list the parser accepts, or
/// completion will happily type something that then fails.
#[test]
fn every_offered_view_verb_is_one_the_parser_knows() {
    let names = names();
    let types = [
        ColumnType::Text,
        ColumnType::Int,
        ColumnType::Text,
        ColumnType::Text,
    ];
    let offered = options("");
    assert_eq!(offered[..VIEW_VERBS.len()], VIEW_VERBS);
    for verb in VIEW_VERBS {
        assert!(
            grammar::parse(verb, &names, &types).is_ok(),
            "completion offers :{verb}, which the parser rejects"
        );
    }
    assert!(grammar::parse("frobnicate", &names, &types).is_err());
}

#[test]
fn the_first_word_completes_to_a_verb() {
    assert_eq!(extended("sel"), "select ");
    assert_eq!(options("s"), ["select", "sort"]);
    // Nothing typed yet offers everything there is.
    assert!(options("").len() > 5);
}

#[test]
fn a_column_argument_completes_to_a_column() {
    assert_eq!(extended("select na"), "select name ");
    assert_eq!(options("select c"), ["count", "category"]);
    assert_eq!(extended("hide co"), "hide count ");
}

#[test]
fn a_name_that_needs_quoting_arrives_quoted() {
    assert_eq!(extended("select rel"), "select \"release date\" ");
    // And it can be completed from inside the quote, too.
    assert_eq!(extended("select \"rel"), "select \"release date\" ");
}

#[test]
fn several_candidates_extend_only_as_far_as_they_agree() {
    // `count` and `category` share `c`, and the word is already `c`.
    assert_eq!(extended("select c"), "select c", "nothing to add yet");
    assert_eq!(extended("select ca"), "select category ");
}

#[test]
fn completion_never_shortens_what_was_typed() {
    // `rel` matches only a quoted candidate, whose common prefix does not
    // start with what was typed. The word must survive.
    let c = complete("select re", &names()).unwrap();
    assert!(
        c.extended().ends_with("\"release date\" "),
        "{}",
        c.extended()
    );

    let c = Completion {
        head: "select ".to_string(),
        word: "xyz".to_string(),
        options: vec!["abc".to_string(), "abd".to_string()],
    };
    assert_eq!(c.extended(), "select xyz", "left exactly as typed");
}

#[test]
fn a_filter_cycles_through_column_operator_value_and_and() {
    assert_eq!(options("filter co"), ["count"]);
    assert_eq!(options("filter count "), OPERATORS);
    assert!(options("filter count > ").is_empty(), "a value is data");
    assert_eq!(options("filter count > 10 "), ["and"]);
    assert_eq!(options("filter count > 10 and na"), ["name"]);
}

#[test]
fn reset_offers_the_slots() {
    assert_eq!(options("reset "), SLOTS);
    assert_eq!(extended("reset fi"), "reset filter ");
}

#[test]
fn an_unknown_verb_has_nothing_to_offer() {
    assert!(complete("w some", &names()).is_none());
    assert!(complete("select zzz", &names()).is_none());
}

#[test]
fn stepping_through_candidates_replaces_the_word() {
    let c = complete("select c", &names()).unwrap();
    assert_eq!(c.with(0), "select count ");
    assert_eq!(c.with(1), "select category ");
    assert_eq!(c.with(9), "select c", "out of range leaves it alone");
}

#[test]
fn expand_completes_and_takes_a_column() {
    assert_eq!(options("exp"), ["expand"]);
    assert_eq!(extended("exp"), "expand ");
    assert_eq!(extended("expand cat"), "expand category ");
}

#[test]
fn a_quoted_name_is_one_word_of_a_filter() {
    assert_eq!(options("filter \"release date\" "), OPERATORS);
    assert!(options("filter \"release date\" = ").is_empty());
    assert_eq!(options("filter \"release date\" = \"may 1\" "), ["and"]);
}
