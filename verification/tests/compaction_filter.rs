// Compaction filters.

use lsmdb::compaction_filter::{
    apply_filter, CompactionFilter, ExpiryPrefixFilter, FilterDecision, FnFilter, PrefixDropFilter,
};
use std::time::{SystemTime, UNIX_EPOCH};

fn entry(key: &str, seq: u64, val: &str) -> (Vec<u8>, u64, Option<Vec<u8>>) {
    (key.as_bytes().to_vec(), seq, Some(val.as_bytes().to_vec()))
}

fn tombstone(key: &str, seq: u64) -> (Vec<u8>, u64, Option<Vec<u8>>) {
    (key.as_bytes().to_vec(), seq, None)
}

#[test]
fn fn_filter_removes_matching_entries() {
    let entries = vec![entry("keep:a", 1, "v"), entry("drop:b", 2, "v"), entry("keep:c", 3, "v")];
    let filter = FnFilter::new("drop_prefix", |key: &[u8], _: &[u8]| {
        if key.starts_with(b"drop:") {
            FilterDecision::Remove
        } else {
            FilterDecision::Keep
        }
    });
    let out = apply_filter(entries, &filter);
    assert_eq!(out.len(), 2);
    assert!(out.iter().all(|(k, _, _)| k.starts_with(b"keep:")));
}

#[test]
fn fn_filter_replaces_value() {
    let entries = vec![entry("k", 1, "old")];
    let filter = FnFilter::new("replace", |_: &[u8], _: &[u8]| {
        FilterDecision::Replace(b"new".to_vec())
    });
    let out = apply_filter(entries, &filter);
    assert_eq!(out[0].2.as_deref(), Some(b"new".as_ref()));
}

#[test]
fn tombstones_pass_through_unchanged() {
    let entries = vec![tombstone("dead", 1), entry("live", 2, "v")];
    let filter = FnFilter::new("keep_all", |_: &[u8], _: &[u8]| FilterDecision::Keep);
    let out = apply_filter(entries, &filter);
    assert_eq!(out.len(), 2);
    assert!(out[0].2.is_none());
}

#[test]
fn prefix_drop_filter_removes_by_prefix() {
    let entries = vec![entry("temp:x", 1, "v"), entry("perm:y", 2, "v"), entry("temp:z", 3, "v")];
    let filter = PrefixDropFilter::new(b"temp:".to_vec());
    let out = apply_filter(entries, &filter);
    assert_eq!(out.len(), 1);
    assert_eq!(out[0].0, b"perm:y");
}

#[test]
fn expiry_prefix_filter_drops_expired_entries() {
    let now_ms = SystemTime::now().duration_since(UNIX_EPOCH).unwrap().as_millis() as u64;

    let expired_ts = (now_ms - 1000).to_be_bytes().to_vec();
    let future_ts = (now_ms + 60_000).to_be_bytes().to_vec();
    let no_expiry = 0u64.to_be_bytes().to_vec();

    let entries = vec![
        (b"expired".to_vec(), 1u64, Some(expired_ts)),
        (b"future".to_vec(), 2u64, Some(future_ts)),
        (b"permanent".to_vec(), 3u64, Some(no_expiry)),
    ];
    let filter = ExpiryPrefixFilter;
    let out = apply_filter(entries, &filter);
    assert_eq!(out.len(), 2);
    assert!(out.iter().any(|(k, _, _)| k == b"future"));
    assert!(out.iter().any(|(k, _, _)| k == b"permanent"));
    assert!(!out.iter().any(|(k, _, _)| k == b"expired"));
}

#[test]
fn empty_input_returns_empty() {
    let filter = FnFilter::new("noop", |_: &[u8], _: &[u8]| FilterDecision::Keep);
    let out = apply_filter(vec![], &filter);
    assert!(out.is_empty());
}

#[test]
fn filter_name_is_accessible() {
    let f = FnFilter::new("my_filter", |_: &[u8], _: &[u8]| FilterDecision::Keep);
    assert_eq!(CompactionFilter::name(&f), "my_filter");
}

// ---- further cases -------------------------------------------------------------

#[test]
fn expiry_is_decided_by_the_clock_that_is_given() {
    let f = ExpiryPrefixFilter;
    let value = 1_000u64.to_be_bytes().to_vec();
    assert!(matches!(f.filter_at(&value, 1_000), FilterDecision::Keep));
    assert!(matches!(f.filter_at(&value, 1_001), FilterDecision::Remove));
    // a time of 0 is never past, and seven bytes are no time
    assert!(matches!(f.filter_at(&[0; 8], u64::MAX), FilterDecision::Keep));
    assert!(matches!(f.filter_at(&[0, 0, 0, 0, 0, 0, 1], u64::MAX), FilterDecision::Keep));
    // what follows the time does not matter
    let mut longer = value;
    longer.extend_from_slice(b"payload");
    assert!(matches!(f.filter_at(&longer, 2_000), FilterDecision::Remove));
}

#[test]
fn nobody_is_asked_about_a_tombstone() {
    let filter = FnFilter::new("drop_all", |_: &[u8], _: &[u8]| FilterDecision::Remove);
    let out = apply_filter(vec![tombstone("a", 7), entry("b", 8, "v"), tombstone("c", 9)], &filter);
    assert_eq!(out, vec![tombstone("a", 7), tombstone("c", 9)]);
}

#[test]
fn built_in_filters_have_names() {
    assert_eq!(ExpiryPrefixFilter.name(), "expiry_prefix_filter");
    assert_eq!(PrefixDropFilter::new(vec![]).name(), "prefix_drop_filter");
}

#[test]
fn a_filter_keeps_keys_numbers_and_order() {
    let filter = FnFilter::new("shorten", |key: &[u8], value: &[u8]| match key[0] {
        b'r' => FilterDecision::Replace(value[..1].to_vec()),
        b'd' => FilterDecision::Remove,
        _ => FilterDecision::Keep,
    });
    let entries = vec![
        entry("r1", 9, "long"),
        tombstone("d0", 8),
        entry("d1", 7, "x"),
        entry("k1", 6, "same"),
    ];
    assert_eq!(
        apply_filter(entries, &filter),
        vec![entry("r1", 9, "l"), tombstone("d0", 8), entry("k1", 6, "same")]
    );
}
