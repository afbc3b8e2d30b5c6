//! Counters and latency histograms, and their text for a metrics scraper.

use crate::text::{decimal, push_decimal};
use vstd::arithmetic::power2::{lemma2_to64, lemma2_to64_rest, lemma_pow2_unfold, pow2};
use vstd::prelude::*;
use vstd::string::*;

verus! {

/// Counters of operations and bytes, and histograms of latencies in nanoseconds.
/// Counters wrap around.
pub struct Metrics {
    pub write_count: u64,
    pub read_count: u64,
    pub read_hits: u64,
    pub compaction_count: u64,
    pub bloom_hits: u64,
    pub bloom_misses: u64,
    pub write_bytes: u64,
    pub read_bytes: u64,
    /// Bucket `i` counts the samples from 2^i up to 2^(i+1) nanoseconds; the first
    /// one those of 0 too.
    pub write_latency_ns: [u64; 64],
    pub read_latency_ns: [u64; 64],
    pub compact_latency_ns: [u64; 64],
}

/// The bucket of a sample.
pub open spec fn is_bucket(ns: u64, b: nat) -> bool {
    &&& b < 64
    &&& ns == 0 ==> b == 0
    &&& ns > 0 ==> pow2(b) <= ns < pow2(b + 1)
}

/// One more, around the end of the counter.
pub open spec fn plus(a: u64, b: u64) -> u64 {
    ((a + b) % 0x1_0000_0000_0000_0000) as u64
}

/// A histogram with one more sample.
pub open spec fn sampled(before: Seq<u64>, after: Seq<u64>, ns: u64) -> bool {
    exists|b: nat| #[trigger]
        is_bucket(ns, b) && after == before.update(b as int, plus(before[b as int], 1))
}

/// The bucket of a sample.
pub fn bucket(ns: u64) -> (b: usize)
    ensures
        is_bucket(ns, b as nat),
{
    proof {
        lemma2_to64();
    }
    if ns == 0 {
        return 0;
    }
    let mut b: usize = 0;
    let mut p: u64 = 1;
    while b < 63 && p <= ns / 2
        invariant
            b <= 63,
            p == pow2(b as nat),
            1 <= p <= ns,
        decreases 63 - b,
    {
        proof {
            lemma_pow2_unfold((b + 1) as nat);
        }
        p = p * 2;
        b = b + 1;
    }
    proof {
        lemma_pow2_unfold((b + 1) as nat);
        lemma2_to64_rest();
        if b == 63 {
            assert(pow2(64) == 0x1_0000_0000_0000_0000);
        }
    }
    b
}

/// A bucket is the only one of its sample.
pub proof fn law_bucket_is_unique(ns: u64, a: nat, b: nat)
    requires
        is_bucket(ns, a),
        is_bucket(ns, b),
    ensures
        a == b,
{
    if ns > 0 {
        if a < b {
            lemma_pow2_monotone(a + 1, b);
        } else if b < a {
            lemma_pow2_monotone(b + 1, a);
        }
    }
}

proof fn lemma_pow2_monotone(a: nat, b: nat)
    requires
        a <= b,
    ensures
        pow2(a) <= pow2(b),
    decreases b - a,
{
    if a < b {
        lemma_pow2_monotone(a, (b - 1) as nat);
        lemma_pow2_unfold(b);
    }
}

// ---- text ----------------------------------------------------------------------

/// The lines of a counter.
pub open spec fn counter_text(name: Seq<char>, help: Seq<char>, value: u64) -> Seq<char> {
    "# HELP "@ + name + " "@ + help + "\n# TYPE "@ + name + " counter\n"@ + name + " "@ + decimal(
        value as nat,
    ) + "\n"@
}

/// How many samples are in the first `n` buckets.
pub open spec fn cumulative(buckets: Seq<u64>, n: nat) -> u64
    decreases n,
{
    if n == 0 {
        0
    } else {
        plus(cumulative(buckets, (n - 1) as nat), buckets[n - 1])
    }
}

proof fn lemma_no_samples(buckets: Seq<u64>, n: nat)
    requires
        n <= buckets.len(),
        forall|i: int| 0 <= i < n ==> #[trigger] buckets[i] == 0,
    ensures
        cumulative(buckets, n) == 0,
    decreases n,
{
    if n > 0 {
        lemma_no_samples(buckets, (n - 1) as nat);
        assert(buckets[n - 1] == 0);
    }
}

proof fn lemma_one_more_sample(buckets: Seq<u64>, b: int, n: nat)
    requires
        0 <= b < buckets.len(),
        n <= buckets.len(),
    ensures
        cumulative(buckets.update(b, plus(buckets[b], 1)), n) == (if b < n {
            plus(cumulative(buckets, n), 1)
        } else {
            cumulative(buckets, n)
        }),
    decreases n,
{
    if n > 0 {
        lemma_one_more_sample(buckets, b, (n - 1) as nat);
    }
}

/// One more sample counts once in the last bucket that is printed.
pub proof fn law_last_bucket_counts_samples(before: Seq<u64>, after: Seq<u64>, ns: u64)
    requires
        before.len() == 64,
        sampled(before, after, ns),
    ensures
        cumulative(after, 64) == plus(cumulative(before, 64), 1),
{
    let b = choose|b: nat| #[trigger]
        is_bucket(ns, b) && after == before.update(b as int, plus(before[b as int], 1));
    lemma_one_more_sample(before, b as int, 64);
}

/// The label of a bucket.
pub open spec fn bucket_label(i: nat) -> Seq<char> {
    if i == 63 {
        "+Inf"@
    } else {
        decimal(pow2(i))
    }
}

/// The lines of the first `n` buckets of a histogram.
pub open spec fn bucket_lines(prefix: Seq<char>, buckets: Seq<u64>, n: nat) -> Seq<char>
    decreases n,
{
    if n == 0 {
        Seq::empty()
    } else {
        bucket_lines(prefix, buckets, (n - 1) as nat) + bucket_line(
            prefix,
            (n - 1) as nat,
            cumulative(buckets, n),
        )
    }
}

/// The line of a bucket.
pub open spec fn bucket_line(prefix: Seq<char>, i: nat, count: u64) -> Seq<char> {
    prefix + "_bucket{le=\""@ + bucket_label(i) + "\"} "@ + decimal(count as nat) + "\n"@
}

/// The lines of a histogram.
pub open spec fn histogram_text(prefix: Seq<char>, buckets: Seq<u64>) -> Seq<char> {
    "# HELP "@ + prefix + " Latency histogram (ns)\n# TYPE "@ + prefix + " histogram\n"@
        + bucket_lines(prefix, buckets, 64)
}

fn push_counter(out: &mut String, name: &str, help: &str, value: u64)
    ensures
        final(out)@ == old(out)@ + counter_text(name@, help@, value),
{
    let ghost start = out@;
    out.append("# HELP ");
    out.append(name);
    out.append(" ");
    out.append(help);
    out.append("\n# TYPE ");
    out.append(name);
    out.append(" counter\n");
    out.append(name);
    out.append(" ");
    push_decimal(out, value);
    out.append("\n");
    assert(out@ =~= start + counter_text(name@, help@, value));
}

fn push_bucket(out: &mut String, prefix: &str, i: usize, bound: u64, count: u64)
    requires
        i < 64,
        i < 63 ==> bound == pow2(i as nat),
    ensures
        final(out)@ == old(out)@ + bucket_line(prefix@, i as nat, count),
{
    let ghost start = out@;
    out.append(prefix);
    out.append("_bucket{le=\"");
    if i == 63 {
        out.append("+Inf");
    } else {
        push_decimal(out, bound);
    }
    out.append("\"} ");
    push_decimal(out, count);
    out.append("\n");
    assert(out@ =~= start + bucket_line(prefix@, i as nat, count));
}

fn push_histogram(out: &mut String, prefix: &str, buckets: &[u64; 64])
    ensures
        final(out)@ == old(out)@ + histogram_text(prefix@, buckets@),
{
    let ghost start = out@;
    out.append("# HELP ");
    out.append(prefix);
    out.append(" Latency histogram (ns)\n# TYPE ");
    out.append(prefix);
    out.append(" histogram\n");
    let ghost head = out@;
    let mut sum: u64 = 0;
    let mut bound: u64 = 1;
    let mut i: usize = 0;
    proof {
        lemma2_to64();
        assert(head + bucket_lines(prefix@, buckets@, 0) =~= head);
    }
    while i < 64
        invariant
            i <= 64,
            i < 64 ==> bound == pow2(i as nat),
            sum == cumulative(buckets@, i as nat),
            out@ == head + bucket_lines(prefix@, buckets@, i as nat),
        decreases 64 - i,
    {
        let ghost before = out@;
        sum = sum.wrapping_add(buckets[i]);
        push_bucket(out, prefix, i, bound, sum);
        proof {
            lemma_pow2_unfold((i + 1) as nat);
            lemma2_to64_rest();
            if i < 63 {
                lemma_pow2_monotone((i + 1) as nat, 63);
            }
            assert(out@ =~= head + bucket_lines(prefix@, buckets@, (i + 1) as nat));
        }
        if i < 63 {
            bound = bound * 2;
        }
        i = i + 1;
    }
    assert(out@ =~= start + histogram_text(prefix@, buckets@));
}

impl Metrics {
    /// All counters at 0.
    pub fn new() -> (r: Metrics)
        ensures
            r.is_zero(),
            r.buckets_agree(),
    {
        let r: Metrics = Metrics {
            write_count: 0,
            read_count: 0,
            read_hits: 0,
            compaction_count: 0,
            bloom_hits: 0,
            bloom_misses: 0,
            write_bytes: 0,
            read_bytes: 0,
            write_latency_ns: [0;64],
            read_latency_ns: [0;64],
            compact_latency_ns: [0;64],
        };
        proof {
            lemma_no_samples(r.write_latency_ns@, 64);
            lemma_no_samples(r.read_latency_ns@, 64);
            lemma_no_samples(r.compact_latency_ns@, 64);
        }
        r
    }

    /// Nothing was counted.
    pub open spec fn is_zero(&self) -> bool {
        &&& self.write_count == 0
        &&& self.read_count == 0
        &&& self.read_hits == 0
        &&& self.compaction_count == 0
        &&& self.bloom_hits == 0
        &&& self.bloom_misses == 0
        &&& self.write_bytes == 0
        &&& self.read_bytes == 0
        &&& forall|i: int| 0 <= i < 64 ==> #[trigger] self.write_latency_ns@[i] == 0
        &&& forall|i: int| 0 <= i < 64 ==> #[trigger] self.read_latency_ns@[i] == 0
        &&& forall|i: int| 0 <= i < 64 ==> #[trigger] self.compact_latency_ns@[i] == 0
    }

    /// The last bucket that is printed of each histogram is the count of its operations.
    pub open spec fn buckets_agree(&self) -> bool {
        &&& cumulative(self.write_latency_ns@, 64) == self.write_count
        &&& cumulative(self.read_latency_ns@, 64) == self.read_count
        &&& cumulative(self.compact_latency_ns@, 64) == self.compaction_count
    }

    /// Count a write of so many bytes that took so long.
    pub fn record_write(&mut self, bytes: u64, duration_ns: u64)
        ensures
            sampled(old(self).write_latency_ns@, final(self).write_latency_ns@, duration_ns),
            old(self).buckets_agree() ==> final(self).buckets_agree(),
            *final(self) == (Metrics {
                write_count: plus(old(self).write_count, 1),
                write_bytes: plus(old(self).write_bytes, bytes),
                write_latency_ns: final(self).write_latency_ns,
                ..*old(self)
            }),
    {
        self.write_count = self.write_count.wrapping_add(1);
        self.write_bytes = self.write_bytes.wrapping_add(bytes);
        let b: usize = bucket(duration_ns);
        let n: u64 = self.write_latency_ns[b];
        self.write_latency_ns[b] = n.wrapping_add(1);
        assert(is_bucket(duration_ns, b as nat));
        proof {
            lemma_one_more_sample(old(self).write_latency_ns@, b as int, 64);
        }
    }

    /// Count a read that took so long, and whether it found a value of so many bytes.
    pub fn record_read(&mut self, hit: bool, bytes: u64, duration_ns: u64)
        ensures
            sampled(old(self).read_latency_ns@, final(self).read_latency_ns@, duration_ns),
            old(self).buckets_agree() ==> final(self).buckets_agree(),
            *final(self) == (Metrics {
                read_count: plus(old(self).read_count, 1),
                read_hits: if hit {
                    plus(old(self).read_hits, 1)
                } else {
                    old(self).read_hits
                },
                read_bytes: if hit {
                    plus(old(self).read_bytes, bytes)
                } else {
                    old(self).read_bytes
                },
                read_latency_ns: final(self).read_latency_ns,
                ..*old(self)
            }),
    {
        self.read_count = self.read_count.wrapping_add(1);
        if hit {
            self.read_hits = self.read_hits.wrapping_add(1);
            self.read_bytes = self.read_bytes.wrapping_add(bytes);
        }
        let b: usize = bucket(duration_ns);
        let n: u64 = self.read_latency_ns[b];
        self.read_latency_ns[b] = n.wrapping_add(1);
        assert(is_bucket(duration_ns, b as nat));
        proof {
            lemma_one_more_sample(old(self).read_latency_ns@, b as int, 64);
        }
    }

    /// Count a compaction that took so long.
    pub fn record_compaction(&mut self, duration_ns: u64)
        ensures
            sampled(old(self).compact_latency_ns@, final(self).compact_latency_ns@, duration_ns),
            old(self).buckets_agree() ==> final(self).buckets_agree(),
            *final(self) == (Metrics {
                compaction_count: plus(old(self).compaction_count, 1),
                compact_latency_ns: final(self).compact_latency_ns,
                ..*old(self)
            }),
    {
        self.compaction_count = self.compaction_count.wrapping_add(1);
        let b: usize = bucket(duration_ns);
        let n: u64 = self.compact_latency_ns[b];
        self.compact_latency_ns[b] = n.wrapping_add(1);
        assert(is_bucket(duration_ns, b as nat));
        proof {
            lemma_one_more_sample(old(self).compact_latency_ns@, b as int, 64);
        }
    }

    /// Count what a filter said of a key.
    pub fn record_bloom(&mut self, hit: bool)
        ensures
            old(self).buckets_agree() ==> final(self).buckets_agree(),
            *final(self) == (if hit {
                Metrics { bloom_hits: plus(old(self).bloom_hits, 1), ..*old(self) }
            } else {
                Metrics { bloom_misses: plus(old(self).bloom_misses, 1), ..*old(self) }
            }),
    {
        if hit {
            self.bloom_hits = self.bloom_hits.wrapping_add(1);
        } else {
            self.bloom_misses = self.bloom_misses.wrapping_add(1);
        }
    }

    /// The text of all counters and histograms.
    pub open spec fn text(&self) -> Seq<char> {
        counter_text("lsmdb_writes_total"@, "Total write operations"@, self.write_count)
            + counter_text("lsmdb_reads_total"@, "Total read operations"@, self.read_count)
            + counter_text(
            "lsmdb_read_hits_total"@,
            "Read operations that found a key"@,
            self.read_hits,
        ) + counter_text(
            "lsmdb_compactions_total"@,
            "Total compaction jobs completed"@,
            self.compaction_count,
        ) + counter_text(
            "lsmdb_bloom_hits_total"@,
            "Bloom filter true positives"@,
            self.bloom_hits,
        ) + counter_text(
            "lsmdb_bloom_misses_total"@,
            "Bloom filter true negatives"@,
            self.bloom_misses,
        ) + counter_text(
            "lsmdb_write_bytes_total"@,
            "Bytes written (key+value)"@,
            self.write_bytes,
        ) + counter_text("lsmdb_read_bytes_total"@, "Bytes read (value only)"@, self.read_bytes)
            + histogram_text("lsmdb_write_latency_ns"@, self.write_latency_ns@)
            + histogram_text("lsmdb_read_latency_ns"@, self.read_latency_ns@) + histogram_text(
            "lsmdb_compact_latency_ns"@,
            self.compact_latency_ns@,
        )
    }

    /// The text of all counters and histograms.
    pub fn prometheus(&self) -> (r: String)
        ensures
            r@ == self.text(),
    {
        let mut out: String = String::new();
        push_counter(
            &mut out,
            "lsmdb_writes_total",
            "Total write operations",
            self.write_count,
        );
        push_counter(&mut out, "lsmdb_reads_total", "Total read operations", self.read_count);
        push_counter(
            &mut out,
            "lsmdb_read_hits_total",
            "Read operations that found a key",
            self.read_hits,
        );
        push_counter(
            &mut out,
            "lsmdb_compactions_total",
            "Total compaction jobs completed",
            self.compaction_count,
        );
        push_counter(
            &mut out,
            "lsmdb_bloom_hits_total",
            "Bloom filter true positives",
            self.bloom_hits,
        );
        push_counter(
            &mut out,
            "lsmdb_bloom_misses_total",
            "Bloom filter true negatives",
            self.bloom_misses,
        );
        push_counter(
            &mut out,
            "lsmdb_write_bytes_total",
            "Bytes written (key+value)",
            self.write_bytes,
        );
        push_counter(
            &mut out,
            "lsmdb_read_bytes_total",
            "Bytes read (value only)",
            self.read_bytes,
        );
        push_histogram(&mut out, "lsmdb_write_latency_ns", &self.write_latency_ns);
        push_histogram(&mut out, "lsmdb_read_latency_ns", &self.read_latency_ns);
        push_histogram(&mut out, "lsmdb_compact_latency_ns", &self.compact_latency_ns);
        assert(out@ =~= self.text());
        out
    }
}

impl Default for Metrics {
    fn default() -> (r: Metrics)
        ensures
            r.is_zero(),
            r.buckets_agree(),
    {
        Metrics::new()
    }
}

// ---- timers --------------------------------------------------------------------

/// The time between two readings of a clock.
pub open spec fn elapsed(start_ns: u64, end_ns: u64) -> u64 {
    if end_ns < start_ns {
        0
    } else {
        (end_ns - start_ns) as u64
    }
}

/// A write that is being timed.
pub struct WriteTimer {
    pub start_ns: u64,
    pub bytes: u64,
}

impl WriteTimer {
    /// Start to time a write of so many bytes.
    pub fn start(start_ns: u64, bytes: u64) -> (r: WriteTimer)
        ensures
            r.start_ns == start_ns,
            r.bytes == bytes,
    {
        WriteTimer { start_ns, bytes }
    }

    /// Count the write when it is done.
    pub fn finish(self, metrics: &mut Metrics, end_ns: u64)
        ensures
            old(metrics).buckets_agree() ==> final(metrics).buckets_agree(),
            sampled(
                old(metrics).write_latency_ns@,
                final(metrics).write_latency_ns@,
                elapsed(self.start_ns, end_ns),
            ),
            *final(metrics) == (Metrics {
                write_count: plus(old(metrics).write_count, 1),
                write_bytes: plus(old(metrics).write_bytes, self.bytes),
                write_latency_ns: final(metrics).write_latency_ns,
                ..*old(metrics)
            }),
    {
        metrics.record_write(self.bytes, end_ns.saturating_sub(self.start_ns));
    }
}

/// A read that is being timed.
pub struct ReadTimer {
    pub start_ns: u64,
}

impl ReadTimer {
    /// Start to time a read.
    pub fn start(start_ns: u64) -> (r: ReadTimer)
        ensures
            r.start_ns == start_ns,
    {
        ReadTimer { start_ns }
    }

    /// Count the read when it has found a value of so many bytes.
    pub fn hit(self, metrics: &mut Metrics, end_ns: u64, bytes: u64) -> (r: u64)
        ensures
            old(metrics).buckets_agree() ==> final(metrics).buckets_agree(),
            r == bytes,
            sampled(
                old(metrics).read_latency_ns@,
                final(metrics).read_latency_ns@,
                elapsed(self.start_ns, end_ns),
            ),
            *final(metrics) == (Metrics {
                read_count: plus(old(metrics).read_count, 1),
                read_hits: plus(old(metrics).read_hits, 1),
                read_bytes: plus(old(metrics).read_bytes, bytes),
                read_latency_ns: final(metrics).read_latency_ns,
                ..*old(metrics)
            }),
    {
        metrics.record_read(true, bytes, end_ns.saturating_sub(self.start_ns));
        bytes
    }

    /// Count the read when it has found nothing.
    pub fn miss(self, metrics: &mut Metrics, end_ns: u64)
        ensures
            old(metrics).buckets_agree() ==> final(metrics).buckets_agree(),
            sampled(
                old(metrics).read_latency_ns@,
                final(metrics).read_latency_ns@,
                elapsed(self.start_ns, end_ns),
            ),
            *final(metrics) == (Metrics {
                read_count: plus(old(metrics).read_count, 1),
                read_latency_ns: final(metrics).read_latency_ns,
                ..*old(metrics)
            }),
    {
        metrics.record_read(false, 0, end_ns.saturating_sub(self.start_ns));
    }
}

// ---- laws ----------------------------------------------------------------------

/// Counters add up, and begin again at 0 behind the largest number.
pub proof fn law_counters_add_up(a: u64, b: u64)
    ensures
        a + b <= u64::MAX ==> plus(a, b) == a + b,
        a + b > u64::MAX ==> plus(a, b) == a + b - 0x1_0000_0000_0000_0000,
{
}

/// A sample counts once, in the bucket between whose powers of two it is, and in no other
/// bucket.
pub proof fn law_sample_counts_in_its_bucket(
    before: Seq<u64>,
    after: Seq<u64>,
    ns: u64,
    i: int,
)
    requires
        before.len() == 64,
        0 <= i < 64,
        sampled(before, after, ns),
    ensures
        after.len() == 64,
        (ns == 0 && i == 0) || (pow2(i as nat) <= ns < pow2((i + 1) as nat)) ==> after[i] == (
        before[i] + 1) % 0x1_0000_0000_0000_0000,
        !(ns == 0 && i == 0) && !(pow2(i as nat) <= ns < pow2((i + 1) as nat)) ==> after[i]
            == before[i],
{
    let b = choose|b: nat| #[trigger]
        is_bucket(ns, b) && after == before.update(b as int, plus(before[b as int], 1));
    lemma2_to64();
    if ns > 0 && pow2(i as nat) <= ns < pow2((i + 1) as nat) {
        law_bucket_is_unique(ns, b, i as nat);
    }
    if ns == 0 {
        lemma_pow2_monotone(0, i as nat);
    }
}

/// A bucket that is printed counts all samples of the buckets up to it.
pub proof fn law_buckets_are_cumulative(buckets: Seq<u64>, n: nat)
    requires
        n <= buckets.len(),
    ensures
        cumulative(buckets, n) as int == buckets.take(n as int).fold_left(
            0int,
            |sum: int, x: u64| sum + x,
        ) % 0x1_0000_0000_0000_0000,
    decreases n,
{
    let add_up = |sum: int, x: u64| sum + x;
    let t = buckets.take(n as int);
    if n > 0 {
        law_buckets_are_cumulative(buckets, (n - 1) as nat);
        assert(t.drop_last() =~= buckets.take(n - 1));
        let s = t.drop_last().fold_left(0int, add_up);
        assert(t.fold_left(0int, add_up) == s + t.last());
        vstd::arithmetic::div_mod::lemma_add_mod_noop(
            s,
            t.last() as int,
            0x1_0000_0000_0000_0000,
        );
    }
}

/// The lines of a counter: its help, its type, and its name and value.
pub proof fn law_counter_lines(name: Seq<char>, help: Seq<char>, value: u64)
    ensures
        counter_text(name, help, value) == "# HELP "@ + name + " "@ + help + "\n"@ + "# TYPE "@
            + name + " counter\n"@ + name + " "@ + decimal(value as nat) + "\n"@,
{
    reveal_strlit("\n");
    reveal_strlit("# TYPE ");
    reveal_strlit("\n# TYPE ");
    assert("\n"@ + "# TYPE "@ =~= "\n# TYPE "@);
    let a = "# HELP "@ + name + " "@ + help;
    assert(a + "\n"@ + "# TYPE "@ =~= a + "\n# TYPE "@);
}

/// The lines of a histogram: its help, its type, and a line for each bucket in order, with
/// the power of two that it begins at, or `+Inf` for the last, and how many samples there are
/// up to it.
pub proof fn law_histogram_lines(prefix: Seq<char>, buckets: Seq<u64>, n: nat)
    requires
        n < 64,
    ensures
        histogram_text(prefix, buckets) == "# HELP "@ + prefix
            + " Latency histogram (ns)\n# TYPE "@ + prefix + " histogram\n"@ + bucket_lines(
            prefix,
            buckets,
            64,
        ),
        bucket_lines(prefix, buckets, 0) == Seq::<char>::empty(),
        bucket_lines(prefix, buckets, n + 1) == bucket_lines(prefix, buckets, n) + prefix
            + "_bucket{le=\""@ + (if n == 63 {
            "+Inf"@
        } else {
            decimal(pow2(n))
        }) + "\"} "@ + decimal(cumulative(buckets, n + 1) as nat) + "\n"@,
{
    assert(bucket_lines(prefix, buckets, n + 1) =~= bucket_lines(prefix, buckets, n) + prefix
        + "_bucket{le=\""@ + (if n == 63 {
        "+Inf"@
    } else {
        decimal(pow2(n))
    }) + "\"} "@ + decimal(cumulative(buckets, n + 1) as nat) + "\n"@);
}

/// What is printed: the eight counters with their values, and the three histograms.
pub proof fn law_all_metrics_are_printed(m: &Metrics, r: String)
    requires
        call_ensures(Metrics::prometheus, (m,), r),
    ensures
        r@ == counter_text("lsmdb_writes_total"@, "Total write operations"@, m.write_count)
            + counter_text("lsmdb_reads_total"@, "Total read operations"@, m.read_count)
            + counter_text(
            "lsmdb_read_hits_total"@,
            "Read operations that found a key"@,
            m.read_hits,
        ) + counter_text(
            "lsmdb_compactions_total"@,
            "Total compaction jobs completed"@,
            m.compaction_count,
        ) + counter_text("lsmdb_bloom_hits_total"@, "Bloom filter true positives"@, m.bloom_hits)
            + counter_text(
            "lsmdb_bloom_misses_total"@,
            "Bloom filter true negatives"@,
            m.bloom_misses,
        ) + counter_text("lsmdb_write_bytes_total"@, "Bytes written (key+value)"@, m.write_bytes)
            + counter_text("lsmdb_read_bytes_total"@, "Bytes read (value only)"@, m.read_bytes)
            + histogram_text("lsmdb_write_latency_ns"@, m.write_latency_ns@)
            + histogram_text("lsmdb_read_latency_ns"@, m.read_latency_ns@) + histogram_text(
            "lsmdb_compact_latency_ns"@,
            m.compact_latency_ns@,
        ),
{
}

/// Nothing is counted at first.
pub proof fn law_metrics_begin_at_zero(m: Metrics, i: int)
    requires
        call_ensures(Metrics::new, (), m),
        0 <= i < 64,
    ensures
        m.write_count == 0 && m.read_count == 0 && m.read_hits == 0 && m.compaction_count == 0,
        m.bloom_hits == 0 && m.bloom_misses == 0 && m.write_bytes == 0 && m.read_bytes == 0,
        m.write_latency_ns@[i] == 0 && m.read_latency_ns@[i] == 0 && m.compact_latency_ns@[i] == 0,
{
}

/// The time between two readings of a clock is their difference; 0 if the clock ran back.
pub proof fn law_elapsed_is_the_difference(start_ns: u64, end_ns: u64)
    ensures
        start_ns <= end_ns ==> start_ns + elapsed(start_ns, end_ns) == end_ns,
        start_ns > end_ns ==> elapsed(start_ns, end_ns) == 0,
{
}

} // verus!
