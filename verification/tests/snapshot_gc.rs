// Snapshot garbage collection.

use lsmdb::snapshot_gc::{filter_versions, SnapshotRegistry};

fn entry(key: &str, seq: u64, val: &str) -> (Vec<u8>, u64, Option<Vec<u8>>) {
    (key.as_bytes().to_vec(), seq, Some(val.as_bytes().to_vec()))
}

fn tombstone(key: &str, seq: u64) -> (Vec<u8>, u64, Option<Vec<u8>>) {
    (key.as_bytes().to_vec(), seq, None)
}

// ---- live snapshots ------------------------------------------------------------

#[test]
fn safe_horizon_is_max_u64_with_no_snapshots() {
    let reg = SnapshotRegistry::new();
    assert_eq!(reg.safe_horizon(), u64::MAX);
}

#[test]
fn safe_horizon_is_min_seq_minus_one() {
    let mut reg = SnapshotRegistry::new();
    let _g1 = reg.register(10);
    let _g2 = reg.register(20);
    assert_eq!(reg.safe_horizon(), 9);
}

#[test]
fn safe_horizon_updates_after_guard_dropped() {
    let mut reg = SnapshotRegistry::new();
    let g1 = reg.register(5);
    let _g2 = reg.register(15);
    assert_eq!(reg.safe_horizon(), 4);
    reg.release(g1);
    assert_eq!(reg.safe_horizon(), 14);
}

#[test]
fn active_count_tracks_live_snapshots() {
    let mut reg = SnapshotRegistry::new();
    assert_eq!(reg.active_count(), 0);
    let g1 = reg.register(1);
    let g2 = reg.register(2);
    assert_eq!(reg.active_count(), 2);
    reg.release(g1);
    assert_eq!(reg.active_count(), 1);
    reg.release(g2);
    assert_eq!(reg.active_count(), 0);
}

#[test]
fn horizon_is_zero_when_snapshot_at_seq_one() {
    let mut reg = SnapshotRegistry::new();
    let _g = reg.register(1);
    assert_eq!(reg.safe_horizon(), 0);
}

// ---- old versions --------------------------------------------------------------

#[test]
fn keeps_latest_version_always() {
    let entries = vec![entry("k", 100, "latest")];
    let out = filter_versions(entries, 200, false);
    assert_eq!(out.len(), 1);
    assert_eq!(out[0].2.as_deref(), Some(b"latest".as_ref()));
}

#[test]
fn drops_old_version_below_safe_horizon() {
    let entries = vec![entry("k", 5, "old"), entry("k", 15, "new")];
    let out = filter_versions(entries, 10, false);
    assert_eq!(out.len(), 1);
    assert_eq!(out[0].1, 15);
    assert_eq!(out[0].2.as_deref(), Some(b"new".as_ref()));
}

#[test]
fn keeps_old_version_above_safe_horizon() {
    let entries = vec![entry("k", 15, "old"), entry("k", 25, "new")];
    let out = filter_versions(entries, 10, false);
    assert_eq!(out.len(), 2);
}

#[test]
fn tombstone_kept_at_non_deepest_level() {
    let entries = vec![tombstone("k", 5)];
    let out = filter_versions(entries, 100, false);
    assert_eq!(out.len(), 1);
    assert!(out[0].2.is_none());
}

#[test]
fn tombstone_dropped_at_deepest_level_below_horizon() {
    let entries = vec![tombstone("k", 5)];
    let out = filter_versions(entries, 10, true);
    assert!(out.is_empty());
}

#[test]
fn tombstone_kept_at_deepest_level_above_horizon() {
    let entries = vec![tombstone("k", 15)];
    let out = filter_versions(entries, 10, true);
    assert_eq!(out.len(), 1);
}

#[test]
fn multiple_keys_handled_independently() {
    let entries = vec![entry("a", 3, "old_a"), entry("a", 10, "new_a"), entry("b", 5, "only_b")];
    let out = filter_versions(entries, 7, false);
    let a_versions: Vec<_> = out.iter().filter(|(k, _, _)| k == b"a").collect();
    let b_versions: Vec<_> = out.iter().filter(|(k, _, _)| k == b"b").collect();
    assert_eq!(a_versions.len(), 1, "only new_a should remain");
    assert_eq!(b_versions.len(), 1, "b has only one version, must be kept");
}

#[test]
fn output_is_sorted_by_key() {
    let entries = vec![entry("z", 1, "last"), entry("a", 1, "first"), entry("m", 1, "mid")];
    let out = filter_versions(entries, u64::MAX, false);
    let keys: Vec<&[u8]> = out.iter().map(|(k, _, _)| k.as_slice()).collect();
    assert_eq!(keys, [b"a".as_ref(), b"m".as_ref(), b"z".as_ref()]);
}

// ---- further cases -------------------------------------------------------------

#[test]
fn newer_versions_of_a_key_stand_first() {
    let entries = vec![
        entry("b", 4, "b4"),
        entry("a", 11, "a11"),
        entry("a", 13, "a13"),
        entry("a", 12, "a12"),
    ];
    let out = filter_versions(entries, 10, false);
    assert_eq!(
        out,
        vec![entry("a", 13, "a13"), entry("a", 12, "a12"), entry("a", 11, "a11"), entry("b", 4, "b4")]
    );
}

#[test]
fn a_dropped_tombstone_takes_all_versions_along() {
    let entries = vec![entry("k", 3, "v"), tombstone("k", 7), entry("l", 1, "w")];
    assert_eq!(filter_versions(entries, 7, true), vec![entry("l", 1, "w")]);
    // one that is kept takes none but those at or below the horizon
    let entries = vec![entry("k", 3, "v"), tombstone("k", 7)];
    assert_eq!(filter_versions(entries, 6, true), vec![tombstone("k", 7)]);
}

#[test]
fn two_snapshots_at_one_number_are_two() {
    let mut reg = SnapshotRegistry::default();
    let g1 = reg.register(8);
    let g2 = reg.register(8);
    assert_eq!(g1.seq(), 8);
    assert_eq!(reg.active_count(), 2);
    reg.release(g1);
    assert_eq!(reg.active_count(), 1);
    assert_eq!(reg.safe_horizon(), 7);
    reg.release(g2);
    assert_eq!(reg.safe_horizon(), u64::MAX);
}

#[test]
fn horizon_does_not_go_below_zero() {
    let mut reg = SnapshotRegistry::new();
    let _g = reg.register(0);
    assert_eq!(reg.safe_horizon(), 0);
}

#[test]
fn filtering_again_changes_nothing() {
    let entries = vec![
        entry("b", 4, "x"),
        entry("a", 3, "old"),
        tombstone("c", 2),
        entry("a", 9, "new"),
        entry("a", 9, "tie"),
        entry("c", 1, "gone"),
        tombstone("d", 8),
        entry("a", 7, "kept"),
    ];
    for deepest in [false, true] {
        let once = filter_versions(entries.clone(), 5, deepest);
        assert_eq!(filter_versions(once.clone(), 5, deepest), once);
        assert_eq!(once.len(), if deepest { 5 } else { 6 });
    }
}
