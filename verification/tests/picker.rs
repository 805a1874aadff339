use plv::picker::{tick, Picker};
use std::collections::BTreeSet;


fn names() -> Vec<String> {
    ["a", "b", "c", "d"].iter().map(|s| s.to_string()).collect()
}

/// The list opens in the view's order, not the file's, with whatever the
/// view hides appended — so a reordering `:select` survives being looked at.
#[test]
fn the_list_opens_in_view_order_with_the_hidden_ones_after() {
    let picker = Picker::new(names(), vec![2, 0], BTreeSet::new());
    let listed: Vec<String> = picker
        .rows()
        .into_iter()
        .map(|row| row[0].clone())
        .collect();
    assert_eq!(listed, ["c", "a", "b", "d"]);
    assert_eq!(picker.selection(), [2, 0], "and applying changes nothing");
}

#[test]
fn space_toggles_a_column_in_and_out_of_the_selection() {
    let mut picker = Picker::new(names(), vec![0, 1, 2, 3], BTreeSet::new());
    picker.state.go_to(1, 4); // onto b
    picker.toggle_shown().unwrap();
    assert_eq!(picker.selection(), [0, 2, 3]);

    picker.toggle_shown().unwrap();
    assert_eq!(picker.selection(), [0, 1, 2, 3], "and back again");
}

/// A column brought back goes to the position it is listed at, which is
/// where the user is looking when they tick it.
#[test]
fn a_column_comes_back_where_it_is_listed() {
    let mut picker = Picker::new(names(), vec![0, 2], BTreeSet::new());
    // Listed a c b d: the view's 0 and 2, then the hidden 1 and 3.
    picker.state.go_to(2, 4); // onto b, the first hidden one
    picker.toggle_shown().unwrap();
    assert_eq!(picker.selection(), [0, 2, 1], "in its listed position");
}

/// Picking four columns out of two hundred means starting from none.
#[test]
fn a_and_shift_a_work_over_the_whole_list() {
    let mut picker = Picker::new(names(), vec![0, 1, 2, 3], BTreeSet::new());
    picker.state.go_to(2, 4); // onto c

    picker.show_only_cursor();
    assert_eq!(picker.selection(), [2], "everything but the cursor column");

    // And then the handful is built up from there.
    picker.state.go_to(0, 4);
    picker.toggle_shown().unwrap();
    assert_eq!(picker.selection(), [0, 2], "in listed order");

    picker.show_all();
    assert_eq!(picker.selection(), [0, 1, 2, 3]);
}

/// Keeping the cursor column means showing it when it was hidden, which
/// is the same rule read the other way.
#[test]
fn shift_a_on_a_hidden_column_leaves_that_one_showing() {
    let mut picker = Picker::new(names(), vec![0, 1], BTreeSet::new());
    picker.state.go_to(3, 4); // onto d, which the view hides
    picker.show_only_cursor();
    assert_eq!(picker.selection(), [3]);
}

/// `A` lands on exactly one column, which is the fewest a view may have —
/// so it never produces a state `toggle_shown` would have refused.
#[test]
fn shift_a_leaves_a_view_that_is_still_legal() {
    let mut picker = Picker::new(names(), vec![0, 1, 2, 3], BTreeSet::new());
    picker.show_only_cursor();
    assert_eq!(picker.selection().len(), 1);
    assert!(picker.toggle_shown().is_err(), "and the last one still holds");
}

#[test]
fn unticking_the_last_column_is_refused() {
    let mut picker = Picker::new(names(), vec![0], BTreeSet::new());
    let refusal = picker.toggle_shown().unwrap_err();
    assert!(refusal.contains("hide every column"), "{refusal}");
    assert_eq!(picker.selection(), [0], "and it stays on show");
}

/// A pin on a hidden column is a statement about what it looks like when
/// it comes back, which is exactly how pins already behave.
#[test]
fn a_hidden_column_can_still_be_pinned() {
    let mut picker = Picker::new(names(), vec![0], BTreeSet::new());
    picker.state.go_to(1, 4); // onto b, hidden
    picker.toggle_pinned();
    assert_eq!(picker.pins().into_iter().collect::<Vec<_>>(), [1]);

    let marks = &picker.rows()[1];
    assert_eq!(marks[1], "", "not shown");
    assert_eq!(marks[2], tick(), "but pinned");
}

#[test]
fn pins_come_in_from_the_app_and_toggle_off_again() {
    let mut picker = Picker::new(names(), vec![0, 1], [0].into_iter().collect());
    assert_eq!(picker.rows()[0][2], tick(), "already pinned when it opens");
    picker.toggle_pinned();
    assert!(picker.pins().is_empty());
}
