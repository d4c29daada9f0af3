//! When the reference table is given up on.
use timberborn_autosplitter::table::{ReferenceTable, MISSES_BEFORE_REFINDING};

fn table() -> ReferenceTable {
    ReferenceTable { base: 0x1000, seen: 0x200000, misses: 0 }
}

#[test]
fn a_fresh_table_is_not_stale() {
    assert!(!table().is_stale());
}

#[test]
fn one_miss_is_not_enough() {
    let mut table = table();
    table.was_missing();
    assert!(
        !table.is_stale(),
        "a single miss is ordinary -- an object not registered yet, or one of the live-but-unheld ones a capture showed"
    );
}

#[test]
fn a_run_of_misses_is() {
    let mut table = table();
    for _ in 0..MISSES_BEFORE_REFINDING {
        table.was_missing();
    }
    assert!(table.is_stale());
}

#[test]
fn answering_clears_the_count() {
    let mut table = table();
    for _ in 0..MISSES_BEFORE_REFINDING - 1 {
        table.was_missing();
    }
    table.answered();
    for _ in 0..MISSES_BEFORE_REFINDING - 1 {
        table.was_missing();
    }
    assert!(
        !table.is_stale(),
        "misses have to be consecutive: a table that keeps answering is the right table, whatever it missed in between"
    );
}
