//! Reading the engine through a cache of blocks.

use crate::block_cache::{BlockCache, CachedBlock};
use crate::bytes::Model;
use crate::cached::{cached_right, family_cached, family_searched, is_path_in, is_plain, kept_elsewhere,
    law_search_caches_own_tables, lemma_path_splits, table_path, tables_differ};
use crate::clock::{is_reading, now_ms};
use crate::compact_step::{lemma_valid_distinct, lemma_valid_listed, levels_compacted};
use crate::engine::{is_job_for, level_to_compact, string_views, CompactionResult, LsmEngine};
use crate::engine::open::is_new;
use crate::engine::read::seen;
use crate::engine::write::{compacts_first, flush_due, logged, logs_all, requeued, settled, settles_all,
    wrote, wrote_all};
use crate::error::EngineError;
use crate::family::CfState;
use crate::manifest::{files_of, recovered_edits};
use crate::recovery::{family_ok, level_files, lists, valid_tables};
use crate::snapshot::{batch_record, BatchEntry};
use crate::sstable::SSTable;
use crate::text::{law_table_name_keeps_seq, seq_in_name, table_name};
use crate::wal::Record;
use vstd::prelude::*;

verus! {

impl LsmEngine {
    /// The tables of a family have different names.
    proof fn lemma_tables_differ(&self, i: int)
        requires
            self.wf(),
            0 <= i < self.families@.len(),
        ensures
            tables_differ(self.families@[i].levels@),
    {
        let cf = self.families@[i];
        let d = self.disk();
        let files = files_of(recovered_edits(self.manifest@), cf.name@);
        assert(family_ok(cf, d, files, self.write_seq, self.next_file));
        assert forall|l: int, k: int, m: int, n: int|
            #![trigger cf.levels@[l]@[k], cf.levels@[m]@[n]]
            0 <= l < cf.levels@.len() && 0 <= k < cf.levels@[l]@.len() && 0 <= m
                < cf.levels@.len() && 0 <= n < cf.levels@[m]@.len() && (l != m || k != n) implies
            cf.levels@[l]@[k].name() != cf.levels@[m]@[n].name() by {
            let a = level_files(cf.levels@[l]@);
            let b = level_files(cf.levels@[m]@);
            assert(a == valid_tables(d, cf.name@, files, l));
            assert(b == valid_tables(d, cf.name@, files, m));
            assert(a[k].0 == cf.levels@[l]@[k].name());
            assert(b[n].0 == cf.levels@[m]@[n].name());
            if l == m {
                if k < n {
                    lemma_valid_distinct(d, cf.name@, files, l, k, n);
                } else {
                    lemma_valid_distinct(d, cf.name@, files, l, n, k);
                }
            } else {
                let x = lemma_valid_listed(d, cf.name@, files, l, k);
                let y = lemma_valid_listed(d, cf.name@, files, m, n);
                if x < y {
                    assert(files[x].1 != files[y].1);
                } else if y < x {
                    assert(files[y].1 != files[x].1);
                }
            }
        }
    }

    /// What is last written to `key` of the column family `cf`, as a reader sees it whose
    /// clock shows `now`, with the tables searched through a cache.
    pub fn get_cf_cached_at(
        &self,
        cf: &str,
        key: &[u8],
        now: u64,
        cache: &mut BlockCache,
    ) -> (r: Result<Option<Vec<u8>>, EngineError>)
        requires
            self.wf(),
            old(cache).wf(),
            self.has_cf(cf@) ==> family_cached(&self.family(cf@), old(cache)@),
        ensures
            match r {
                Ok(v) => {
                    &&& self.has_cf(cf@)
                    &&& !self.hides(cf@, key@)
                    &&& v.model() == seen(self.contents(cf@), key@, now)
                    &&& final(cache)@ == family_searched(
                        &self.family(cf@),
                        key@,
                        old(cache)@,
                        old(cache).capacity(),
                    )
                },
                Err(e) => {
                    &&& self.fails_with(e, cf@, self.hides(cf@, key@))
                    &&& final(cache)@ == (if self.has_cf(cf@) {
                        family_searched(
                            &self.family(cf@),
                            key@,
                            old(cache)@,
                            old(cache).capacity(),
                        )
                    } else {
                        old(cache)@
                    })
                },
            },
            self.has_cf(cf@) ==> family_cached(&self.family(cf@), final(cache)@) && kept_elsewhere(
                &self.family(cf@),
                old(cache)@,
                final(cache)@,
            ),
            final(cache).wf(),
            final(cache).capacity() == old(cache).capacity(),
    {
        match self.find(cf) {
            Some(i) => {
                proof {
                    self.lemma_family(i as int);
                    self.lemma_at(i as int);
                    self.lemma_tables_differ(i as int);
                }
                match self.families[i].lookup_cached(key, cache) {
                    Ok(Some(e)) => Ok(e.value_at(now)),
                    Ok(None) => Ok(None),
                    Err(e) => Err(e),
                }
            },
            None => Err(EngineError::NotFound),
        }
    }

    /// What is last written to `key` of the column family `cf`, unless it has expired by
    /// now, with the tables searched through a cache.
    pub fn get_cf_cached(&self, cf: &str, key: &[u8], cache: &mut BlockCache) -> (r: Result<
        Option<Vec<u8>>,
        EngineError,
    >)
        requires
            self.wf(),
            old(cache).wf(),
            self.has_cf(cf@) ==> family_cached(&self.family(cf@), old(cache)@),
        ensures
            match r {
                Ok(v) => {
                    &&& self.has_cf(cf@)
                    &&& !self.hides(cf@, key@)
                    &&& exists|now: u64|
                        is_reading(now) && v.model() == #[trigger] seen(self.contents(cf@), key@, now)
                    &&& final(cache)@ == family_searched(
                        &self.family(cf@),
                        key@,
                        old(cache)@,
                        old(cache).capacity(),
                    )
                },
                Err(e) => {
                    &&& self.fails_with(e, cf@, self.hides(cf@, key@))
                    &&& final(cache)@ == (if self.has_cf(cf@) {
                        family_searched(
                            &self.family(cf@),
                            key@,
                            old(cache)@,
                            old(cache).capacity(),
                        )
                    } else {
                        old(cache)@
                    })
                },
            },
            self.has_cf(cf@) ==> family_cached(&self.family(cf@), final(cache)@) && kept_elsewhere(
                &self.family(cf@),
                old(cache)@,
                final(cache)@,
            ),
            final(cache).wf(),
            final(cache).capacity() == old(cache).capacity(),
    {
        self.get_cf_cached_at(cf, key, now_ms(), cache)
    }
}

/// Nothing is cached under a path.
pub open spec fn unknown_path(s: Seq<CachedBlock>, path: Seq<char>) -> bool {
    forall|i: int| 0 <= i < s.len() ==> (#[trigger] s[i]).0 != path
}

/// Nothing is cached under the name that a table with the number `n` would get.
pub open spec fn unknown_table(s: Seq<CachedBlock>, cf: Seq<char>, level: nat, n: u64) -> bool {
    unknown_path(s, table_path(cf, table_name(level, n as nat)))
}

/// The column families have names without slashes, so that the paths of their tables
/// differ.
pub open spec fn plain_families(e: &LsmEngine) -> bool {
    forall|cf: Seq<char>| #[trigger] e.has_cf(cf) ==> is_plain(cf)
}

/// A cache is right for an engine: what is cached of its tables are blocks of them, and
/// nothing is cached under a number that no table has got yet, nor under the name of
/// the table that the job under way will make.
pub open spec fn cache_fits(e: &LsmEngine, s: Seq<CachedBlock>) -> bool {
    &&& forall|cf: Seq<char>| e.has_cf(cf) ==> family_cached(&(#[trigger] e.family(cf)), s)
    &&& forall|cf: Seq<char>, level: nat, n: u64|
        is_plain(cf) && n >= e.file_number() ==> #[trigger] unknown_table(s, cf, level, n)
    &&& e.job() matches Some(job) ==> unknown_table(
        s,
        job.cf_name@,
        (job.level + 1) as nat,
        job.seq,
    )
}

/// An empty cache is right for every engine.
pub proof fn law_empty_cache_fits(e: &LsmEngine)
    ensures
        cache_fits(e, Seq::<CachedBlock>::empty()),
{
}

impl LsmEngine {
    /// The tables of a family have numbers that were given out, and are not the one that
    /// the job under way will make.
    proof fn lemma_numbers_given(&self, cf: Seq<char>, l: int, k: int)
        requires
            self.wf(),
            self.has_cf(cf),
            0 <= l < self.family(cf).levels@.len(),
            0 <= k < self.family(cf).levels@[l]@.len(),
        ensures
            ({
                let name = self.family(cf).levels@[l]@[k].name();
                &&& seq_in_name(name) matches Some(n) ==> n < self.file_number()
                &&& self.job() matches Some(job) ==> job.cf_name@ != cf || name != table_name(
                    (job.level + 1) as nat,
                    job.seq as nat,
                )
            }),
    {
        let x = choose|x: int| 0 <= x < self.families().len() && self.families()[x] == cf;
        self.lemma_at(x);
        let fam = self.families@[x];
        let files = files_of(recovered_edits(self.manifest@), cf);
        assert(family_ok(fam, self.disk(), files, self.write_seq, self.next_file));
        let v = level_files(fam.levels@[l]@);
        assert(v == valid_tables(self.disk(), cf, files, l));
        assert(v[k].0 == fam.levels@[l]@[k].name());
        let j = lemma_valid_listed(self.disk(), cf, files, l, k);
        assert(files[j].1 == v[k].0);
        assert(lists(files, v[k].0));
    }

    /// A cache that was right for the engine is right for it after a read through it.
    pub proof fn law_cache_fits_after_read(
        &self,
        cf: Seq<char>,
        key: Seq<u8>,
        s: Seq<CachedBlock>,
        cap: nat,
    )
        requires
            self.wf(),
            plain_families(self),
            cache_fits(self, s),
            self.has_cf(cf),
            family_cached(&self.family(cf), family_searched(&self.family(cf), key, s, cap)),
            kept_elsewhere(
                &self.family(cf),
                s,
                family_searched(&self.family(cf), key, s, cap),
            ),
        ensures
            cache_fits(self, family_searched(&self.family(cf), key, s, cap)),
    {
        let fam = self.family(cf);
        let after = family_searched(&fam, key, s, cap);
        self.lemma_family_name(cf);
        assert forall|x: Seq<char>| self.has_cf(x) implies family_cached(
            &(#[trigger] self.family(x)),
            after,
        ) by {
            if x != cf {
                let other = self.family(x);
                self.lemma_family_name(x);
                assert(family_cached(&other, s));
                assert forall|l: int, k: int|
                    0 <= l < other.levels@.len() && 0 <= k < other.levels@[l]@.len() implies
                    cached_right(
                    after,
                    table_path(other.name@, (#[trigger] other.levels@[l]@[k]).name()),
                    &other.levels@[l]@[k],
                ) by {
                    let t = other.levels@[l]@[k];
                    let p = table_path(x, t.name());
                    if is_path_in(&fam, p) {
                        let (m, n) = choose|m: int, n: int|
                            0 <= m < fam.levels@.len() && 0 <= n < fam.levels@[m]@.len() && p
                                == table_path(fam.name@, (#[trigger] fam.levels@[m]@[n]).name());
                        lemma_path_splits(x, t.name(), cf, fam.levels@[m]@[n].name());
                    }
                    assert(cached_right(s, p, &t));
                }
            }
        }
        assert forall|x: Seq<char>, level: nat, n: u64|
            is_plain(x) && n >= self.file_number() implies #[trigger] unknown_table(
            after,
            x,
            level,
            n,
        ) by {
            assert(unknown_table(s, x, level, n));
            law_table_name_keeps_seq(level, n);
            self.lemma_still_unknown(cf, key, s, cap, x, table_name(level, n as nat));
        }
        if self.job() is Some {
            let job = self.job()->0;
            let name = table_name((job.level + 1) as nat, job.seq as nat);
            let x = self.lemma_job_family();
            assert(self.families()[x] == job.cf_name@);
            assert(self.has_cf(job.cf_name@));
            self.lemma_still_unknown(cf, key, s, cap, job.cf_name@, name);
        }
    }

    /// A read caches nothing under a name that no table of its family has.
    proof fn lemma_still_unknown(
        &self,
        cf: Seq<char>,
        key: Seq<u8>,
        s: Seq<CachedBlock>,
        cap: nat,
        x: Seq<char>,
        name: Seq<char>,
    )
        requires
            self.wf(),
            self.has_cf(cf),
            is_plain(cf),
            is_plain(x),
            unknown_path(s, table_path(x, name)),
            (seq_in_name(name) matches Some(n) && n >= self.file_number()) || (
            self.job() matches Some(job) && job.cf_name@ == x && name == table_name(
                (job.level + 1) as nat,
                job.seq as nat,
            )),
        ensures
            unknown_path(
                family_searched(&self.family(cf), key, s, cap),
                table_path(x, name),
            ),
    {
        let fam = self.family(cf);
        let after = family_searched(&fam, key, s, cap);
        let path = table_path(x, name);
        self.lemma_family_name(cf);
        assert forall|i: int| 0 <= i < after.len() implies (#[trigger] after[i]).0 != path by {
            law_search_caches_own_tables(&fam, key, s, cap, i);
            if s.contains(after[i]) {
                let j = choose|j: int| 0 <= j < s.len() && s[j] == after[i];
                assert(s[j].0 != path);
            } else if after[i].0 == path {
                let (m, n) = choose|m: int, n: int|
                    0 <= m < fam.levels@.len() && 0 <= n < fam.levels@[m]@.len() && path
                        == table_path(fam.name@, (#[trigger] fam.levels@[m]@[n]).name());
                lemma_path_splits(x, name, cf, fam.levels@[m]@[n].name());
                self.lemma_numbers_given(cf, m, n);
            }
        }
    }

    /// A cache that was right for the engine is right for it after a compaction.
    pub proof fn law_cache_fits_after_compaction(
        &self,
        after: &LsmEngine,
        r: CompactionResult,
        s: Seq<CachedBlock>,
    )
        requires
            self.wf(),
            self.expects(r),
            cache_fits(self, s),
            after.families() == self.families(),
            after.file_number() == self.file_number(),
            !after.is_compacting(),
            levels_compacted(
                self.family(r.cf_name@).levels@,
                after.family(r.cf_name@).levels@,
                r.target_level - 1,
                r.merged_sources@.len() as int,
                r.new_sst,
            ),
            forall|cf: Seq<char>|
                self.has_cf(cf) && cf != r.cf_name@ ==> #[trigger] after.family(cf) == self.family(
                    cf,
                ),
        ensures
            cache_fits(after, s),
    {
        let x = self.lemma_job_family();
        let job = self.job()->0;
        let cf = r.cf_name@;
        assert(self.families()[x] == cf);
        assert(self.has_cf(cf));
        self.lemma_family_name(cf);
        after.lemma_family_name(cf);
        assert(string_views(r.merged_sources@).len() == string_views(job.sources@).len());
        let a = self.family(cf);
        let b = after.family(cf);
        assert forall|y: Seq<char>| after.has_cf(y) implies family_cached(
            &(#[trigger] after.family(y)),
            s,
        ) by {
            assert(self.has_cf(y));
            assert(family_cached(&self.family(y), s));
            if y == cf {
                lemma_compacted_cached(
                    &a,
                    &b,
                    job.level as int,
                    job.sources@.len() as int,
                    r.new_sst,
                    s,
                );
            }
        }
    }
}

/// A cache that is right for a family is right for it after its tables were compacted.
proof fn lemma_compacted_cached(
    a: &CfState,
    b: &CfState,
    level: int,
    n: int,
    t: Option<SSTable>,
    s: Seq<CachedBlock>,
)
    requires
        b.name@ == a.name@,
        0 <= level,
        level + 1 < a.levels@.len(),
        0 <= n <= a.levels@[level]@.len(),
        levels_compacted(a.levels@, b.levels@, level, n, t),
        family_cached(a, s),
        t matches Some(new) ==> unknown_path(s, table_path(a.name@, new.name())),
    ensures
        family_cached(b, s),
{
    assert forall|l: int, k: int|
        0 <= l < b.levels@.len() && 0 <= k < b.levels@[l]@.len() implies cached_right(
        s,
        table_path(b.name@, (#[trigger] b.levels@[l]@[k]).name()),
        &b.levels@[l]@[k],
    ) by {
        let u = b.levels@[l]@[k];
        if l == level {
            assert(u == a.levels@[l]@[k + n]);
        } else if l == level + 1 {
            assert(u == t->0);
        } else {
            assert(u == a.levels@[l]@[k]);
        }
    }
}

/// Logging a record changes no table.
proof fn lemma_fits_logged(
    before: &LsmEngine,
    after: &LsmEngine,
    cf: Seq<char>,
    r: Record,
    s: Seq<CachedBlock>,
)
    requires
        before.has_cf(cf),
        logged(before, after, cf, r),
        cache_fits(before, s),
    ensures
        cache_fits(after, s),
{
    assert forall|x: Seq<char>| after.has_cf(x) implies family_cached(
        &(#[trigger] after.family(x)),
        s,
    ) by {
        assert(before.has_cf(x));
        assert(family_cached(&before.family(x), s));
        before.lemma_family_name(x);
        after.lemma_family_name(x);
        if x != cf {
            assert(after.family(x) == before.family(x));
        }
    }
}

/// What follows a write makes at most one table, under a number that was not given out.
proof fn lemma_fits_settled(before: &LsmEngine, after: &LsmEngine, cf: Seq<char>, s: Seq<CachedBlock>)
    requires
        before.has_cf(cf),
        plain_families(before),
        settled(before, after, cf),
        cache_fits(before, s),
    ensures
        cache_fits(after, s),
{
    assert forall|x: Seq<char>| after.has_cf(x) implies family_cached(
        &(#[trigger] after.family(x)),
        s,
    ) by {
        assert(before.has_cf(x));
        let a = before.family(x);
        let b = after.family(x);
        assert(family_cached(&a, s));
        before.lemma_family_name(x);
        after.lemma_family_name(x);
        if x != cf {
            assert(b == a);
        } else if flush_due(before, cf) {
            let n = before.file_number();
            assert(unknown_table(s, cf, 0, n));
            assert forall|l: int, k: int|
                0 <= l < b.levels@.len() && 0 <= k < b.levels@[l]@.len() implies cached_right(
                s,
                table_path(b.name@, (#[trigger] b.levels@[l]@[k]).name()),
                &b.levels@[l]@[k],
            ) by {
                let t = b.levels@[l]@[k];
                if l == 0 && k == a.levels@[0]@.len() {
                    assert(t.name() == table_name(0, n as nat));
                } else {
                    assert(t == a.levels@[l]@[k]);
                }
            }
        }
    }
    if after.job() is Some && after.job() != before.job() {
        let job = after.job()->0;
        let number = before.file_number() + (if flush_due(before, cf) {
            1int
        } else {
            0int
        });
        let i = choose|i: int| #[trigger]
            compacts_first(after, i) && job.seq == number && is_job_for(
                job,
                after.family(after.families()[i]),
                level_to_compact(after.family(after.families()[i]))->0,
                job.seq,
            );
        let name = after.families()[i];
        assert(after.has_cf(name));
        after.lemma_family_name(name);
        assert(before.has_cf(name));
        assert(unknown_table(s, name, (job.level + 1) as nat, job.seq));
    }
}

/// A cache that was right for an engine is right for it after a write.
pub proof fn law_cache_fits_after_write(
    before: &LsmEngine,
    after: &LsmEngine,
    cf: Seq<char>,
    r: Record,
    s: Seq<CachedBlock>,
)
    requires
        before.has_cf(cf),
        plain_families(before),
        wrote(before, after, cf, r),
        cache_fits(before, s),
    ensures
        plain_families(after),
        cache_fits(after, s),
{
    let mid = choose|mid: LsmEngine| #[trigger]
        logged(before, &mid, cf, r) && settled(&mid, after, cf);
    assert(logged(before, &mid, cf, r) && settled(&mid, after, cf));
    assert forall|x: Seq<char>| #[trigger] mid.has_cf(x) implies is_plain(x) by {
        assert(before.has_cf(x));
    }
    assert forall|x: Seq<char>| #[trigger] after.has_cf(x) implies is_plain(x) by {
        assert(before.has_cf(x));
    }
    lemma_fits_logged(before, &mid, cf, r, s);
    lemma_fits_settled(&mid, after, cf, s);
}

proof fn lemma_fits_logs(
    before: &LsmEngine,
    states: Seq<LsmEngine>,
    es: Seq<BatchEntry>,
    seq: u64,
    n: int,
    s: Seq<CachedBlock>,
)
    requires
        logs_all(before, states, es, seq),
        0 <= n < states.len(),
        forall|i: int| 0 <= i < es.len() ==> before.has_cf((#[trigger] es[i]).0),
        cache_fits(before, s),
    ensures
        states[n].families() == before.families(),
        cache_fits(&states[n], s),
    decreases n,
{
    if n > 0 {
        lemma_fits_logs(before, states, es, seq, n - 1, s);
        assert(before.has_cf(es[n - 1].0));
        assert(logged(&states[n - 1], &states[n], es[n - 1].0, batch_record(es[n - 1], seq)));
        assert(states[n - 1].has_cf(es[n - 1].0));
        lemma_fits_logged(
            &states[n - 1],
            &states[n],
            es[n - 1].0,
            batch_record(es[n - 1], seq),
            s,
        );
    }
}

proof fn lemma_fits_settles(
    before: &LsmEngine,
    states: Seq<LsmEngine>,
    names: Seq<Seq<char>>,
    n: int,
    s: Seq<CachedBlock>,
)
    requires
        settles_all(before, states, names),
        0 <= n < states.len(),
        names == before.families(),
        plain_families(before),
        cache_fits(before, s),
    ensures
        states[n].families() == before.families(),
        cache_fits(&states[n], s),
    decreases n,
{
    if n > 0 {
        lemma_fits_settles(before, states, names, n - 1, s);
        let a = states[n - 1];
        assert(settled(&states[n - 1], &states[n], names[n - 1]));
        assert(a.families()[n - 1] == names[n - 1]);
        assert(a.has_cf(names[n - 1]));
        assert forall|x: Seq<char>| #[trigger] a.has_cf(x) implies is_plain(x) by {
            assert(before.has_cf(x));
        }
        lemma_fits_settled(&states[n - 1], &states[n], names[n - 1], s);
    }
}

/// A cache that was right for an engine is right for it after a batch.
pub proof fn law_cache_fits_after_batch(
    before: &LsmEngine,
    after: &LsmEngine,
    es: Seq<BatchEntry>,
    s: Seq<CachedBlock>,
)
    requires
        forall|i: int| 0 <= i < es.len() ==> before.has_cf((#[trigger] es[i]).0),
        plain_families(before),
        wrote_all(before, after, es),
        cache_fits(before, s),
    ensures
        plain_families(after),
        cache_fits(after, s),
{
    assert forall|x: Seq<char>| #[trigger] after.has_cf(x) implies is_plain(x) by {
        assert(before.has_cf(x));
    }
    if es.len() > 0 {
        let (logs, mid, rest) = choose|
            logs: Seq<LsmEngine>,
            mid: LsmEngine,
            rest: Seq<LsmEngine>,
        | #[trigger]
            logs_all(before, logs, es, before.next_seq()) && #[trigger] requeued(
                &logs.last(),
                &mid,
            ) && #[trigger] settles_all(&mid, rest, before.families()) && rest.last() == *after;
        lemma_fits_logs(before, logs, es, before.next_seq(), es.len() as int, s);
        let last = logs.last();
        assert(cache_fits(&mid, s)) by {
            assert forall|x: Seq<char>| mid.has_cf(x) implies family_cached(
                &(#[trigger] mid.family(x)),
                s,
            ) by {
                assert(last.has_cf(x));
                assert(mid.family(x) == last.family(x));
            }
        }
        assert forall|x: Seq<char>| #[trigger] mid.has_cf(x) implies is_plain(x) by {
            assert(before.has_cf(x));
        }
        lemma_fits_settles(&mid, rest, before.families(), rest.len() - 1, s);
    }
}

/// A cache that was right for an engine is right for it after its operations or its task
/// were taken, or a column family was created: the families that there were are the
/// same, the others have no tables, and no number was given out.
pub proof fn law_cache_fits_after_upkeep(before: &LsmEngine, after: &LsmEngine, s: Seq<CachedBlock>)
    requires
        cache_fits(before, s),
        after.file_number() == before.file_number(),
        after.job() == before.job(),
        forall|cf: Seq<char>|
            after.has_cf(cf) ==> (if before.has_cf(cf) {
                #[trigger] after.family(cf) == before.family(cf)
            } else {
                is_new(after.family(cf), cf)
            }),
    ensures
        cache_fits(after, s),
{
    assert forall|x: Seq<char>| after.has_cf(x) implies family_cached(
        &(#[trigger] after.family(x)),
        s,
    ) by {
        if before.has_cf(x) {
            assert(family_cached(&before.family(x), s));
        }
    }
}

} // verus!
