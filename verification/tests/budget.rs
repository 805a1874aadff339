use plv::data::budget::{
    filter_rows, plan_for, share, sort_cells, total_memory, BYTES_PER_CELL, BYTES_PER_ROW,
    FILTER_PART, SORT_PART,
};

#[test]
fn the_bounds_follow_the_machine_and_stay_sane() {
    let total = total_memory();
    assert!(total > 0, "some memory was reported");

    let sort = sort_cells();
    let filter = filter_rows();
    assert!(sort >= 1_000_000, "a small machine can still sort something");
    assert!(filter >= 1_000_000);

    // Neither may promise more than the machine has.
    assert!((sort as u64).saturating_mul(BYTES_PER_CELL) <= total);
    assert!((filter as u64).saturating_mul(8) <= total);
    assert!(sort > filter / 100, "the two are the same order of magnitude");
}

/// The numbers this is calibrated against, so a later change to
/// `BYTES_PER_CELL` has to argue with them.
#[test]
fn the_estimate_covers_what_was_measured() {
    // (cells, peak bytes) from sorting real files.
    let measured = [
        (10_000_000u64, 349_323_264u64), // all integers, 35 B/cell
        (10_000_000, 815_759_360),       // all strings,  82 B/cell
        (50_000_000, 2_321_088_512),     // census mix,   46 B/cell
    ];
    for (cells, peak) in measured {
        assert!(
            cells * BYTES_PER_CELL >= peak,
            "{cells} cells estimated at {} but cost {peak}",
            cells * BYTES_PER_CELL
        );
    }
}

#[test]
fn a_machine_that_will_not_say_is_a_small_one() {
    assert_eq!(plan_for(0), 4 << 30);
    assert_eq!(plan_for(17), 17);
}

#[test]
fn shares_are_a_quarter_and_a_twentieth() {
    let total: u64 = 64 << 30;
    assert_eq!(share(total, SORT_PART, BYTES_PER_CELL), (16 << 30) / 128);
    assert_eq!(share(total, FILTER_PART, BYTES_PER_ROW), ((64u64 << 30) / 20 / 8) as usize);
    assert_eq!(share(1, SORT_PART, BYTES_PER_CELL), 1_000_000);
}
