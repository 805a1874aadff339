use plv::data::natural::{key, worth_keying};


/// What the keys say the order is, which is the only thing this module
/// claims. Sorting the keys and reading the values back is the same shape
/// the store uses them in.
fn ordered<'a>(values: &[&'a str]) -> Vec<&'a str> {
    let mut keyed: Vec<(String, &str)> = values.iter().map(|v| (key(v), *v)).collect();
    keyed.sort();
    keyed.into_iter().map(|(_, v)| v).collect()
}

#[test]
fn percentages_order_by_what_they_count() {
    assert_eq!(
        ordered(&["100%", "9%", "0%", "23%", "50%"]),
        ["0%", "9%", "23%", "50%", "100%"]
    );
}

#[test]
fn a_number_inside_a_name_counts_as_one() {
    assert_eq!(
        ordered(&["file10", "file2", "file1"]),
        ["file1", "file2", "file10"]
    );
}

#[test]
fn every_run_is_compared_in_turn() {
    assert_eq!(
        ordered(&["v1.10", "v1.9", "v1.2"]),
        ["v1.2", "v1.9", "v1.10"]
    );
}

/// The property the default rests on: where byte order was already right,
/// nothing moves. Equal-length runs are the whole of that case.
#[test]
fn equal_length_runs_keep_the_order_they_had() {
    let dates = ["2024-01-09", "2023-12-31", "2024-01-10"];
    let mut byte_order = dates;
    byte_order.sort();
    assert_eq!(ordered(&dates), byte_order);
}

#[test]
fn text_with_no_digits_keys_to_itself() {
    assert_eq!(key("close"), "close");
    assert_eq!(key(""), "");
}

/// A tie here would let two rows swap places between one sort and the
/// next, which reads as a bug whichever of them lands on top.
#[test]
fn leading_zeros_are_ordered_rather_than_tied() {
    assert_ne!(key("03"), key("3"));
    assert_eq!(ordered(&["3", "03"]), ["03", "3"]);
}

#[test]
fn a_run_of_zeros_is_a_number_like_any_other() {
    assert_eq!(ordered(&["000", "0", "1"]), ["0", "000", "1"]);
}

/// The marker is digits, and so is the value it precedes. They cannot be
/// confused, because a digit in the value is never emitted without one.
#[test]
fn a_marker_is_not_read_as_part_of_the_value() {
    assert_eq!(ordered(&["a1b", "a11"]), ["a1b", "a11"]);
    assert_eq!(ordered(&["1a", "11a", "2a"]), ["1a", "2a", "11a"]);
}

#[test]
fn multi_byte_characters_survive() {
    assert_eq!(key("café2"), "café2".replace('2', "0012"));
    assert_eq!(ordered(&["é10", "é9"]), ["é9", "é10"]);
}

#[test]
fn a_column_of_equal_length_runs_is_not_worth_keying() {
    assert!(!worth_keying(&["2024-01-09", "2023-12-31"]));
    assert!(!worth_keying(&["close", "open"]));
    assert!(!worth_keying(&[]));
    // Zero-padded: unequal as numbers, equal as written, and already in
    // the right order without a key.
    assert!(!worth_keying(&["01", "09", "12"]));
}

/// The property `worth_keying` is allowed to be cheap because of: where
/// it says no, the key would have produced the order the column already
/// had. A false yes only costs a column; a false no would be a wrong
/// answer on screen.
#[test]
fn saying_no_means_the_key_would_have_changed_nothing() {
    for column in [
        ["2024-01-09", "2023-12-31", "2024-12-01"],
        ["01", "09", "12"],
        ["b", "a", "c"],
        ["x1y", "x9y", "x5y"],
    ] {
        if worth_keying(&column) {
            continue;
        }
        let mut natural = column;
        natural.sort_by_key(|v| key(v));
        let mut bytes = column;
        bytes.sort();
        assert_eq!(natural, bytes, "{column:?}");
    }
}

/// A date holds runs of 4, 2 and 2, and is perfectly ordered by byte
/// comparison. Reading those three as "the lengths differ" would key
/// every date column in every file for nothing.
#[test]
fn runs_are_compared_by_position_and_not_against_each_other() {
    assert!(!worth_keying(&["2024-01-09"]));
    assert!(worth_keying(&["2024-01-09", "999-01-09"]));
}

#[test]
fn a_column_whose_runs_differ_in_length_is() {
    assert!(worth_keying(&["9%", "100%"]));
    assert!(worth_keying(&["file2", "file10"]));
}

#[test]
fn leading_zeros_count_for_nothing() {
    assert!(key("2") < key("03"));
    assert_eq!(
        ordered(&["4", "03", "2z", "003", "3", "010", "2", "9", "3a", "03a"]),
        ["2", "2z", "003", "03", "03a", "3", "3a", "4", "9", "010"]
    );
    assert_eq!(ordered(&["v1.10", "v1.009", "v1.9"]), ["v1.009", "v1.9", "v1.10"]);
    assert_eq!(ordered(&["0", "00", "01", "1"]), ["0", "00", "01", "1"]);
}

#[test]
fn runs_past_the_longest_are_kept_as_written() {
    let long = "1".repeat(1000);
    assert_eq!(key(&long), format!("999{long}"));
    assert_ne!(key(&long), key(&format!("0{long}")));
}

#[test]
fn numbers_without_leading_zeros_are_kept_as_written() {
    assert_eq!(key("9%"), "0019%");
    assert_eq!(key("v1.10"), "v0011.00210");
    assert_eq!(key("000"), "000000");
    assert_eq!(key("03"), "0012\u{10ffff}01");
    assert_eq!(key("0100x"), "003099\u{10ffff}01x");
}
