// Metrics.

use lsmdb::metrics::{bucket, ReadTimer, WriteTimer};
use lsmdb::Metrics;

#[test]
fn counters_start_at_zero() {
    let m = Metrics::new();
    assert_eq!(m.write_count, 0);
    assert_eq!(m.read_count, 0);
    assert_eq!(m.read_hits, 0);
    assert_eq!(m.compaction_count, 0);
    assert_eq!(m.bloom_hits, 0);
    assert_eq!(m.bloom_misses, 0);
}

#[test]
fn record_write_increments_count_and_bytes() {
    let mut m = Metrics::new();
    m.record_write(100, 5_000);
    m.record_write(200, 3_000);
    assert_eq!(m.write_count, 2);
    assert_eq!(m.write_bytes, 300);
}

#[test]
fn record_read_hit_increments_hits_and_bytes() {
    let mut m = Metrics::new();
    m.record_read(true, 64, 1_000);
    assert_eq!(m.read_count, 1);
    assert_eq!(m.read_hits, 1);
    assert_eq!(m.read_bytes, 64);
}

#[test]
fn record_read_miss_does_not_increment_hits_or_bytes() {
    let mut m = Metrics::new();
    m.record_read(false, 0, 800);
    assert_eq!(m.read_count, 1);
    assert_eq!(m.read_hits, 0);
    assert_eq!(m.read_bytes, 0);
}

#[test]
fn record_compaction_increments_count() {
    let mut m = Metrics::new();
    m.record_compaction(1_000_000);
    m.record_compaction(2_000_000);
    assert_eq!(m.compaction_count, 2);
}

#[test]
fn record_bloom_increments_hit_or_miss() {
    let mut m = Metrics::new();
    m.record_bloom(true);
    m.record_bloom(true);
    m.record_bloom(false);
    assert_eq!(m.bloom_hits, 2);
    assert_eq!(m.bloom_misses, 1);
}

#[test]
fn prometheus_output_contains_all_metric_names() {
    let mut m = Metrics::new();
    m.record_write(10, 500);
    m.record_read(true, 8, 200);
    m.record_compaction(50_000);
    m.record_bloom(true);

    let output = m.prometheus();
    let required = [
        "lsmdb_writes_total",
        "lsmdb_reads_total",
        "lsmdb_read_hits_total",
        "lsmdb_compactions_total",
        "lsmdb_bloom_hits_total",
        "lsmdb_bloom_misses_total",
        "lsmdb_write_bytes_total",
        "lsmdb_read_bytes_total",
        "lsmdb_write_latency_ns",
        "lsmdb_read_latency_ns",
        "lsmdb_compact_latency_ns",
    ];
    for name in required {
        assert!(output.contains(name), "missing metric: {name}");
    }
}

#[test]
fn prometheus_output_contains_help_and_type_lines() {
    let m = Metrics::new();
    let output = m.prometheus();
    let help_lines = output.lines().filter(|l| l.starts_with("# HELP")).count();
    let type_lines = output.lines().filter(|l| l.starts_with("# TYPE")).count();
    assert!(help_lines >= 8, "expected at least 8 HELP lines, got {help_lines}");
    assert!(type_lines >= 8, "expected at least 8 TYPE lines, got {type_lines}");
}

#[test]
fn write_latency_bucket_incremented() {
    let mut m = Metrics::new();
    m.record_write(0, 1_024);
    let total: u64 = m.write_latency_ns.iter().sum();
    assert_eq!(total, 1);
}

#[test]
fn metrics_is_send_and_sync() {
    fn assert_send_sync<T: Send + Sync>() {}
    assert_send_sync::<Metrics>();
}

// ---- further cases -------------------------------------------------------------

#[test]
fn buckets_are_powers_of_two() {
    assert_eq!(bucket(0), 0);
    assert_eq!(bucket(1), 0);
    assert_eq!(bucket(2), 1);
    assert_eq!(bucket(3), 1);
    assert_eq!(bucket(1_023), 9);
    assert_eq!(bucket(1_024), 10);
    assert_eq!(bucket(u64::MAX), 63);
    for i in 1..64 {
        assert_eq!(bucket(1 << i), i);
        assert_eq!(bucket((1 << i) - 1), i - 1);
    }
}

#[test]
fn text_of_counters_and_buckets() {
    let mut m = Metrics::new();
    m.record_write(10, 500);
    m.record_write(20, 3);
    let text = m.prometheus();
    assert!(text.starts_with(
        "# HELP lsmdb_writes_total Total write operations\n\
         # TYPE lsmdb_writes_total counter\n\
         lsmdb_writes_total 2\n\
         # HELP lsmdb_reads_total Total read operations\n"
    ));
    assert!(text.contains("\nlsmdb_write_bytes_total 30\n"));
    assert!(text.contains(
        "# HELP lsmdb_write_latency_ns Latency histogram (ns)\n\
         # TYPE lsmdb_write_latency_ns histogram\n\
         lsmdb_write_latency_ns_bucket{le=\"1\"} 0\n\
         lsmdb_write_latency_ns_bucket{le=\"2\"} 1\n"
    ));
    assert!(text.contains("\nlsmdb_write_latency_ns_bucket{le=\"128\"} 1\n"));
    assert!(text.contains("\nlsmdb_write_latency_ns_bucket{le=\"256\"} 2\n"));
    assert!(text.contains("\nlsmdb_write_latency_ns_bucket{le=\"4611686018427387904\"} 2\n"));
    assert!(text.ends_with("lsmdb_compact_latency_ns_bucket{le=\"+Inf\"} 0\n"));
    // three lines for each of eight counters, and two and 64 for each of three histograms
    assert_eq!(text.lines().count(), 8 * 3 + 3 * 66);
}

#[test]
fn counters_wrap_around() {
    let mut m = Metrics::new();
    m.record_write(u64::MAX, 1);
    m.record_write(3, 1);
    assert_eq!(m.write_bytes, 2);
}

#[test]
fn timers_count_what_they_timed() {
    let mut m = Metrics::new();
    WriteTimer::start(1_000, 7).finish(&mut m, 3_050);
    assert_eq!((m.write_count, m.write_bytes), (1, 7));
    assert_eq!(m.write_latency_ns[11], 1);
    assert_eq!(ReadTimer::start(10).hit(&mut m, 14, 5), 5);
    ReadTimer::start(20).miss(&mut m, 10);
    assert_eq!((m.read_count, m.read_hits, m.read_bytes), (2, 1, 5));
    assert_eq!((m.read_latency_ns[2], m.read_latency_ns[0]), (1, 1));
}

#[test]
fn the_last_bucket_is_the_counter() {
    let mut m = Metrics::new();
    for i in 0..64 {
        m.record_write(1, 1 << i);
        m.record_read(i % 2 == 0, 1, (1 << i) - 1);
    }
    m.record_compaction(u64::MAX);
    let text = m.prometheus();
    assert!(text.contains("\nlsmdb_writes_total 64\n"));
    assert!(text.contains("\nlsmdb_write_latency_ns_bucket{le=\"+Inf\"} 64\n"));
    assert!(text.contains("\nlsmdb_read_latency_ns_bucket{le=\"+Inf\"} 64\n"));
    assert!(text.contains("\nlsmdb_compact_latency_ns_bucket{le=\"+Inf\"} 1\n"));
}
