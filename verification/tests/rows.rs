use plv::data::rows::RowSet;

fn set(rows: &[usize]) -> RowSet {
    let mut set = RowSet::new(usize::MAX);
    set.extend(rows.to_vec());
    set.finish();
    set
}

#[test]
fn a_row_set_maps_both_ways() {
    let set = set(&[3, 7, 11]);
    assert_eq!(set.source(0), Some(3));
    assert_eq!(set.source(2), Some(11));
    assert_eq!(set.source(3), None);

    assert_eq!(set.display(7), Some(1));
    assert_eq!(set.display(8), None, "row 8 did not survive the filter");
}

#[test]
fn a_page_is_clamped_to_what_has_arrived() {
    let set = set(&[1, 2, 3, 4, 5]);
    assert_eq!(set.page(0, 3), [1, 2, 3]);
    assert_eq!(set.page(3, 10), [4, 5], "past the end, not out of bounds");
    assert!(set.page(9, 3).is_empty());
}

#[test]
fn a_full_set_stops_the_scan_and_owns_up() {
    let mut set = RowSet::new(4);
    assert!(set.extend(vec![1, 2]), "room for more");
    assert!(
        !set.extend(vec![3, 4, 5, 6]),
        "the scan is no longer wanted"
    );

    assert_eq!(set.len(), 4, "kept what fits");
    assert!(
        set.is_truncated(),
        "and does not pretend that is all of them"
    );
    assert!(set.is_complete(), "nothing further is coming");
    assert_eq!(set.source(3), Some(4));
    assert_eq!(set.source(4), None);
}

#[test]
fn a_set_that_exactly_fills_its_limit_is_not_called_truncated() {
    let mut set = RowSet::new(3);
    assert!(!set.extend(vec![1, 2, 3]), "full, so stop asking");
    assert!(!set.is_truncated(), "every match fitted");
}

#[test]
fn batches_accumulate_until_the_scan_finishes() {
    let mut set = RowSet::new(usize::MAX);
    assert!(!set.is_complete());
    set.extend(vec![1, 4]);
    assert_eq!(set.len(), 2);
    set.extend(vec![9]);
    assert_eq!(set.len(), 3);
    assert_eq!(set.display(9), Some(2), "still sorted across batches");
    set.finish();
    assert!(set.is_complete());
}
