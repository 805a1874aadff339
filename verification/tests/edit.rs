use plv::data::edit::{Cell, Overlay};


fn set1(overlay: &mut Overlay, cell: Cell, value: &str) {
    overlay.set(vec![(cell, value.to_string())]);
}

#[test]
fn set_and_get() {
    let mut o = Overlay::new();
    set1(&mut o, (3, 1), "hi");
    assert_eq!(o.get((3, 1)), Some("hi"));
    assert_eq!(o.get((3, 0)), None);
    assert_eq!(o.get((0, 1)), None);
    assert_eq!(o.len(), 1);
}

#[test]
fn overwriting_a_cell_does_not_double_count() {
    let mut o = Overlay::new();
    set1(&mut o, (0, 0), "a");
    set1(&mut o, (0, 0), "b");
    assert_eq!(o.get((0, 0)), Some("b"));
    assert_eq!(o.len(), 1);
}

#[test]
fn undo_restores_the_previous_value_then_removes_the_entry() {
    let mut o = Overlay::new();
    set1(&mut o, (0, 0), "a");
    set1(&mut o, (0, 0), "b");

    assert!(o.undo());
    assert_eq!(o.get((0, 0)), Some("a"));
    assert_eq!(o.len(), 1);

    assert!(o.undo());
    assert_eq!(o.get((0, 0)), None);
    assert!(o.is_empty());

    assert!(!o.undo());
}

#[test]
fn a_range_fill_undoes_as_one_step() {
    let mut o = Overlay::new();
    let fill = (0..5).map(|row| ((row, 2), "0".to_string()));
    o.set(fill.collect());
    assert_eq!(o.len(), 5);

    assert!(o.undo());
    assert!(o.is_empty(), "one fill, one undo");

    assert!(o.redo());
    assert_eq!(o.len(), 5);
    assert_eq!(o.get((4, 2)), Some("0"));
}

#[test]
fn a_new_edit_clears_the_redo_stack() {
    let mut o = Overlay::new();
    set1(&mut o, (0, 0), "a");
    o.undo();
    assert!(o.can_redo());

    set1(&mut o, (1, 1), "b");
    assert!(!o.can_redo());
    assert!(!o.redo());
}

#[test]
fn an_empty_batch_leaves_no_step() {
    let mut o = Overlay::new();
    o.set(vec![]);
    assert!(!o.can_undo());
}

#[test]
fn rows_are_visited_in_file_order() {
    let mut o = Overlay::new();
    set1(&mut o, (7, 0), "c");
    set1(&mut o, (2, 1), "b");
    set1(&mut o, (2, 0), "a");

    let seen: Vec<usize> = o.rows().into_iter().map(|(row, _)| row).collect();
    assert_eq!(seen, [2, 7]);
    assert_eq!(o.row(2).unwrap().len(), 2);
}

#[test]
fn striking_rows_is_one_undoable_step() {
    let mut o = Overlay::new();
    o.strike(vec![2, 5, 9]);
    assert_eq!(o.struck_count(), 3);
    assert!(o.is_struck(5));
    assert!(!o.is_struck(4));
    assert_eq!(o.struck(), [2, 5, 9], "in file order");

    assert!(o.undo());
    assert_eq!(o.struck_count(), 0, "one dd, one undo");
    assert!(o.redo());
    assert!(o.is_struck(9));
}

#[test]
fn striking_a_row_twice_does_not_double_count_or_undo_wrongly() {
    let mut o = Overlay::new();
    o.strike(vec![3]);
    o.strike(vec![3]);
    assert_eq!(o.struck_count(), 1);

    o.undo();
    assert!(o.is_struck(3), "the second strike was a no-op to take back");
    o.undo();
    assert!(!o.is_struck(3));
}

#[test]
fn struck_before_is_what_turns_a_position_back_into_a_row() {
    let mut o = Overlay::new();
    o.strike(vec![1, 4, 5]);
    assert_eq!(o.struck_before(0), 0);
    assert_eq!(o.struck_before(1), 0, "the row itself does not count");
    assert_eq!(o.struck_before(2), 1);
    assert_eq!(o.struck_before(5), 2);
    assert_eq!(o.struck_before(99), 3);
}

#[test]
fn struck_rows_and_edited_cells_share_the_history() {
    let mut o = Overlay::new();
    set1(&mut o, (0, 0), "x");
    o.strike(vec![7]);
    assert_eq!(o.pending(), 2, "one cell and one row");
    assert!(!o.is_empty());

    o.undo();
    assert!(!o.is_struck(7));
    assert_eq!(o.get((0, 0)), Some("x"), "the cell edit is untouched");
    o.undo();
    assert!(o.is_empty());
}

#[test]
fn clear_drops_history_too() {
    let mut o = Overlay::new();
    set1(&mut o, (0, 0), "a");
    o.clear();
    assert!(o.is_empty());
    assert!(!o.can_undo(), "undoing past a write would resurrect edits");
}

#[test]
fn one_change_that_sets_a_cell_twice_is_taken_back_whole() {
    let mut o = Overlay::new();
    o.set(vec![((0, 0), "a".to_string()), ((0, 0), "b".to_string())]);
    assert_eq!(o.get((0, 0)), Some("b"));
    assert!(o.undo());
    assert_eq!(o.get((0, 0)), None);
    assert_eq!(o.len(), 0);
    assert!(o.is_empty());
    assert!(o.redo());
    assert_eq!(o.get((0, 0)), Some("b"));
    assert!(o.undo());
    assert!(o.is_empty());
}

#[test]
fn nothing_is_pending_just_where_the_count_is_zero() {
    let mut o = Overlay::new();
    assert_eq!((o.pending(), o.is_empty()), (0, true));
    set1(&mut o, (0, 0), "a");
    assert_eq!((o.pending(), o.is_empty()), (1, false));
    o.undo();
    o.strike(vec![3]);
    assert_eq!((o.pending(), o.is_empty()), (1, false));
    o.undo();
    o.add_row(0, 0, 5);
    assert_eq!((o.pending(), o.is_empty()), (1, false));
    o.undo();
    assert_eq!((o.pending(), o.is_empty()), (0, true));
}

#[test]
fn rows_added_are_counted_up_to_a_row() {
    let mut o = Overlay::new();
    o.add_row(1, 0, 5);
    o.add_row(1, 1, 5);
    o.add_row(3, 0, 5);
    assert_eq!([0, 1, 2, 3, 4].map(|row| o.added_through(row)), [0, 2, 2, 3, 3]);
}
