use gem_downloads::rank::rank;
use gem_downloads::rank::SnapshotEntry;

fn entry(name: &str, total: i64) -> SnapshotEntry {
    SnapshotEntry {
        name: name.to_string(),
        total,
    }
}

#[test]
fn ranking_example_top_two() {
    let start = vec![entry("a", 100), entry("b", 50)];
    let end = vec![entry("a", 150), entry("b", 40), entry("c", 10)];
    let top = rank(&start, &end, 2, false);
    assert_eq!(top.len(), 2);
    assert_eq!(top[0].name, "a");
    assert_eq!(top[0].start_total, 100);
    assert_eq!(top[0].end_total, 150);
    assert_eq!(top[0].diff, 50);
    assert_eq!(top[1].name, "c");
    assert_eq!(top[1].start_total, 0);
    assert_eq!(top[1].end_total, 10);
    assert_eq!(top[1].diff, 10);
}

#[test]
fn only_new_keeps_gems_unseen_at_start() {
    let start = vec![entry("a", 100), entry("b", 50)];
    let end = vec![entry("a", 150), entry("b", 40), entry("c", 10)];
    let top = rank(&start, &end, 2, true);
    assert_eq!(top.len(), 1);
    assert_eq!(top[0].name, "c");
    assert_eq!(top[0].start_total, 0);
    assert_eq!(top[0].diff, 10);
}

#[test]
fn gem_absent_at_end_is_never_reported() {
    let start = vec![entry("gone", 1000), entry("a", 1)];
    let end = vec![entry("a", 5)];
    let top = rank(&start, &end, 10, false);
    assert_eq!(top.len(), 1);
    assert_eq!(top[0].name, "a");
    assert_eq!(top[0].diff, 4);
}

#[test]
fn negative_growth_still_ranks() {
    let start = vec![entry("a", 10), entry("b", 10)];
    let end = vec![entry("a", 5), entry("b", 2)];
    let top = rank(&start, &end, 2, false);
    assert_eq!(top.len(), 2);
    assert_eq!(top[0].name, "a");
    assert_eq!(top[0].diff, -5);
    assert_eq!(top[1].name, "b");
    assert_eq!(top[1].diff, -8);
}

#[test]
fn ties_keep_end_snapshot_order() {
    // x and y both grow by 7; x stands first in the end snapshot
    let start = vec![entry("x", 1), entry("y", 2)];
    let end = vec![entry("x", 8), entry("y", 9), entry("z", 3)];
    let top = rank(&start, &end, 3, false);
    assert_eq!(top.len(), 3);
    assert_eq!(top[0].name, "x");
    assert_eq!(top[1].name, "y");
    assert_eq!(top[2].name, "z");
}

#[test]
fn count_larger_than_candidates_returns_all() {
    let start = vec![];
    let end = vec![entry("a", 1)];
    let top = rank(&start, &end, 100, false);
    assert_eq!(top.len(), 1);
    assert_eq!(top[0].start_total, 0);
    assert_eq!(top[0].diff, 1);
}

#[test]
fn only_new_filters_before_the_cutoff() {
    // both old gems grow more than the new one: with the filter applied
    // before the cutoff, the new gem must still be reported
    let start = vec![entry("a", 1), entry("b", 1)];
    let end = vec![entry("a", 100), entry("b", 200), entry("n", 5)];
    let top = rank(&start, &end, 1, true);
    assert_eq!(top.len(), 1);
    assert_eq!(top[0].name, "n");
    assert_eq!(top[0].diff, 5);
}
