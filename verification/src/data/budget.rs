//! How much memory may be spent holding data.
//!
//! Two things scale with the file rather than with the screen: a held sort,
//! which is the whole table in memory, and a filter's row set, which is one
//! index per matching row. Both are bounded by what the machine has.
//!
//! Cells, not bytes on disk: a held sort was measured at 35 bytes per cell for
//! all-integer columns, 82 for all-string, and 46 for a mixed table, a narrower
//! spread than against the size of the file.
use vstd::prelude::*;

verus! {

/// What a cell of a held table costs, near enough. The worst shape measured was
/// 82 bytes; this leaves room for one worse.
pub const BYTES_PER_CELL: u64 = 128;

/// One part in so many of the machine may go to a held sort. It is a deliberate
/// keystroke on a tool whose job is the table, so this is generous.
pub const SORT_PART: u64 = 4;

/// One part in so many may go to a filter's row set. Smaller, because unlike a
/// sort it grows while you watch.
pub const FILTER_PART: u64 = 20;

/// What a row of a filter's set costs.
pub const BYTES_PER_ROW: u64 = 8;

/// A floor, so a small machine can still sort a small file.
pub const FLOOR: usize = 1000000;

/// Asks the machine for its physical memory in bytes, with
/// `sysinfo::System::total_memory`; zero where it will not say. Nothing is
/// claimed of the answer, which depends on the machine.
#[verifier::external_body]
fn physical_memory() -> u64 {
    let memory = sysinfo::MemoryRefreshKind::nothing().with_ram();
    let kind = sysinfo::RefreshKind::nothing().with_memory(memory);
    match sysinfo::System::new_with_specifics(kind) {
        Ok(system) => system.total_memory(),
        Err(_) => 0,
    }
}

/// The memory to plan for, given what the machine reports.
pub open spec fn planned(reported: u64) -> u64 {
    if reported == 0 {
        4294967296
    } else {
        reported
    }
}

/// The memory to plan for. A machine that will not say gets treated as a small
/// one.
pub fn plan_for(reported: u64) -> (total: u64)
    ensures
        total == planned(reported),
        total > 0,
{
    if reported == 0 {
        4294967296
    } else {
        reported
    }
}

pub fn total_memory() -> (total: u64)
    ensures
        total > 0,
{
    plan_for(physical_memory())
}

/// How many things of `each` bytes fit in one `part` of `total` bytes, and never
/// fewer than the floor.
pub open spec fn allowance(total: u64, part: u64, each: u64) -> int {
    let n = total as int / part as int / each as int;
    if n < FLOOR {
        FLOOR as int
    } else if n > usize::MAX {
        usize::MAX as int
    } else {
        n
    }
}

/// How many things of `each` bytes fit in one `part` of `total` bytes, and never
/// fewer than the floor.
pub fn share(total: u64, part: u64, each: u64) -> (n: usize)
    requires
        part > 0,
        each > 0,
    ensures
        n == allowance(total, part, each),
{
    let n: u64 = total / part / each;
    if n < FLOOR as u64 {
        FLOOR
    } else if n > usize::MAX as u64 {
        usize::MAX
    } else {
        n as usize
    }
}

/// Cells a held sort may cover.
pub fn sort_cells() -> (n: usize)
    ensures
        exists|total: u64| #![auto] n == allowance(total, SORT_PART, BYTES_PER_CELL) && total > 0,
{
    let total = total_memory();
    share(total, SORT_PART, BYTES_PER_CELL)
}

/// Rows a filter's set may hold, at one index each.
pub fn filter_rows() -> (n: usize)
    ensures
        exists|total: u64| #![auto] n == allowance(total, FILTER_PART, BYTES_PER_ROW) && total > 0,
{
    let total = total_memory();
    share(total, FILTER_PART, BYTES_PER_ROW)
}

/// Above the floor, an allowance never promises more than the machine has.
pub proof fn no_more_than_the_machine_has(total: u64, part: u64, each: u64)
    requires
        part > 0,
        each > 0,
        allowance(total, part, each) > FLOOR,
    ensures
        allowance(total, part, each) * each * part <= total,
{
    let bytes = total as int / part as int;
    let n = bytes / each as int;
    assert(n * each <= bytes) by (nonlinear_arith)
        requires
            n == bytes / each as int,
            each > 0,
    ;
    assert(bytes * part <= total) by (nonlinear_arith)
        requires
            bytes == total as int / part as int,
            part > 0,
    ;
    let a = allowance(total, part, each);
    assert(a <= n);
    assert(a * each <= n * each) by (nonlinear_arith)
        requires
            a <= n,
            each > 0,
    ;
    assert(a * each * part <= bytes * part) by (nonlinear_arith)
        requires
            a * each <= bytes,
            part > 0,
    ;
}

} // verus!
