//! When tables are written and which of them are merged.

use crate::bytes::lex_lt;
use crate::compaction::L1_BASE_BYTES;
use crate::engine::{first_over_budget, is_job_for, level_budget, level_bytes, level_to_compact,
    string_views, table_names, CompactionJob, LsmEngine, Stats};
use crate::engine::read::{count_sum, names_ascend, names_hold};
use crate::engine::write::{logged, settled, wrote};
use crate::family::CfState;
use crate::sstable::SSTable;
use crate::wal::Record;
use vstd::arithmetic::power::{lemma_pow0, pow};
use vstd::prelude::*;
use vstd::utf8::encode_utf8;

verus! {

/// A level may have one mebibyte if it is the first behind level 0, and ten times as much as
/// the one above it if it is another.
pub proof fn law_level_budget(level: nat)
    requires
        level >= 1,
    ensures
        level_budget(level) == 1_048_576 * pow(10, (level - 1) as nat),
    decreases level,
{
    if level == 1 {
        lemma_pow0(10);
        assert(L1_BASE_BYTES == 1_048_576);
    } else {
        law_level_budget((level - 1) as nat);
        assert(pow(10, (level - 1) as nat) == 10 * pow(10, (level - 2) as nat)) by {
            reveal(pow);
        }
    }
}

/// The bytes of a level are those of its tables together.
pub proof fn law_level_bytes(files: Seq<SSTable>, t: SSTable)
    ensures
        level_bytes(Seq::empty()) == 0,
        level_bytes(files.push(t)) == level_bytes(files) + t.bytes().len(),
{
    assert(files.push(t).drop_last() =~= files);
}

/// Level 0 is to be compacted once it has four tables. Else it is the first of the levels
/// with a level below them, of seven, that has more bytes than it may have; and none if
/// there is no such level.
pub proof fn law_level_to_compact(cf: CfState, l: int)
    requires
        cf.levels@.len() == 7,
    ensures
        cf.levels@[0]@.len() >= 4 ==> level_to_compact(cf) == Some(0int),
        cf.levels@[0]@.len() < 4 ==> {
            &&& 1 <= l < 6 && level_bytes(cf.levels@[l]@) > level_budget(l as nat) && (forall|m: int|
                1 <= m < l ==> level_bytes((#[trigger] cf.levels@[m])@) <= level_budget(m as nat))
                ==> level_to_compact(cf) == Some(l)
            &&& (forall|m: int|
                1 <= m < 6 ==> level_bytes((#[trigger] cf.levels@[m])@) <= level_budget(m as nat))
                ==> level_to_compact(cf) is None
        },
{
    if cf.levels@[0]@.len() < 4 {
        if 1 <= l < 6 && level_bytes(cf.levels@[l]@) > level_budget(l as nat) && (forall|m: int|
            1 <= m < l ==> level_bytes((#[trigger] cf.levels@[m])@) <= level_budget(m as nat)) {
            lemma_first_over(cf, 1, l);
        }
        if forall|m: int|
            1 <= m < 6 ==> level_bytes((#[trigger] cf.levels@[m])@) <= level_budget(m as nat) {
            lemma_none_over(cf, 1);
        }
    }
}

proof fn lemma_first_over(cf: CfState, from: int, l: int)
    requires
        cf.levels@.len() == 7,
        1 <= from <= l < 6,
        level_bytes(cf.levels@[l]@) > level_budget(l as nat),
        forall|m: int|
            from <= m < l ==> level_bytes((#[trigger] cf.levels@[m])@) <= level_budget(m as nat),
    ensures
        first_over_budget(cf, from) == Some(l),
    decreases l - from,
{
    if from < l {
        assert(level_bytes(cf.levels@[from]@) <= level_budget(from as nat));
        lemma_first_over(cf, from + 1, l);
    }
}

proof fn lemma_none_over(cf: CfState, from: int)
    requires
        cf.levels@.len() == 7,
        1 <= from <= 6,
        forall|m: int|
            from <= m < 6 ==> level_bytes((#[trigger] cf.levels@[m])@) <= level_budget(m as nat),
    ensures
        first_over_budget(cf, from) is None,
    decreases 6 - from,
{
    if from < 6 {
        assert(level_bytes(cf.levels@[from]@) <= level_budget(from as nat));
        lemma_none_over(cf, from + 1);
    }
}

/// A job merges all tables of level 0, or the oldest table of another level, with all tables
/// of the next level. Tombstones are dropped only where no level lies below: from level 0 if
/// all levels below the next are empty, from another if the next is the last.
pub proof fn law_what_a_job_merges(job: CompactionJob, cf: CfState, level: int, seq: u64, i: int)
    requires
        cf.levels@.len() == 7,
        0 <= level < 6,
        is_job_for(job, cf, level, seq),
    ensures
        job.cf_name@ == cf.name@,
        job.level == level,
        job.seq == seq,
        level == 0 ==> job.sources@.len() == cf.levels@[0]@.len(),
        level > 0 ==> job.sources@.len() == 1,
        0 <= i < job.sources@.len() <= cf.levels@[level]@.len() ==> job.sources@[i]@
            == cf.levels@[level]@[i].name(),
        job.targets@.len() == cf.levels@[level + 1]@.len(),
        0 <= i < job.targets@.len() ==> job.targets@[i]@ == cf.levels@[level + 1]@[i].name(),
        level > 0 ==> job.drop_tombstones == (level == 5),
        level == 0 ==> job.drop_tombstones == (forall|l: int|
            2 <= l < 7 ==> (#[trigger] cf.levels@[l])@.len() == 0),
{
    let n = job.sources@.len() as int;
    assert(string_views(job.targets@).len() == job.targets@.len());
    assert(table_names(cf.levels@[level + 1]@).len() == cf.levels@[level + 1]@.len());
    if 0 <= i < job.targets@.len() {
        assert(string_views(job.targets@)[i] == job.targets@[i]@);
        assert(table_names(cf.levels@[level + 1]@)[i] == cf.levels@[level + 1]@[i].name());
    }
    if 0 <= i < n <= cf.levels@[level]@.len() {
        assert(string_views(job.sources@)[i] == job.sources@[i]@);
        assert(table_names(cf.levels@[level]@.take(n))[i] == cf.levels@[level]@[i].name());
    }
}

/// A put adds its key, its value and eight bytes to what waits in memory. Where that makes
/// 256 kibibytes, and there is a number for the file, all of it becomes one more table of
/// level 0; else the tables stay as they are.
pub proof fn law_when_memory_is_flushed(
    before: &LsmEngine,
    after: &LsmEngine,
    cf: Seq<char>,
    key: Seq<u8>,
    seq: u64,
    value: Seq<u8>,
)
    requires
        wrote(before, after, cf, Record::Put { key, seq, value }),
        before.mem_bytes(cf) + key.len() + value.len() + 8 <= usize::MAX,
        before.file_number() < u64::MAX,
    ensures
        before.mem_bytes(cf) + key.len() + value.len() + 8 < 262_144 ==> {
            &&& after.mem_bytes(cf) == before.mem_bytes(cf) + key.len() + value.len() + 8
            &&& after.family(cf).levels@ == before.family(cf).levels@
        },
        before.mem_bytes(cf) + key.len() + value.len() + 8 >= 262_144 ==> {
            &&& after.mem_bytes(cf) == 0
            &&& after.family(cf).levels@[0]@.len() == before.family(cf).levels@[0]@.len() + 1
            &&& after.family(cf).wal@.len() == 0
        },
{
    let r = Record::Put { key, seq, value };
    let mid = choose|mid: LsmEngine| #[trigger]
        logged(before, &mid, cf, r) && settled(&mid, after, cf);
    assert(logged(before, &mid, cf, r) && settled(&mid, after, cf));
}

/// Counts of a family: the bytes that wait, the tables of each level and all of them, and the
/// names of all families in ascending order.
pub proof fn law_stats_count(e: &LsmEngine, cf: &str, s: Stats, l: int, name: Seq<char>)
    requires
        call_ensures(LsmEngine::stats_cf, (e, cf), Some(s)),
        0 <= l < e.family(cf@).levels@.len(),
    ensures
        s.mem_table_size_bytes == e.mem_bytes(cf@),
        s.immutable_count == 0,
        s.level_file_counts@.len() == e.family(cf@).levels@.len(),
        s.level_file_counts@[l] == e.family(cf@).levels@[l]@.len(),
        ({
            let sum = s.level_file_counts@.fold_left(0int, |sum: int, n: usize| sum + n);
            sum <= usize::MAX ==> s.total_ss_table_files == sum
        }),
        (exists|i: int|
            0 <= i < s.column_families@.len() && (#[trigger] s.column_families@[i])@ == name)
            == e.has_cf(name),
        forall|i: int, j: int|
            0 <= i < j < s.column_families@.len() ==> lex_lt(
                encode_utf8((#[trigger] s.column_families@[i])@),
                encode_utf8((#[trigger] s.column_families@[j])@),
            ),
{
    let counts = s.level_file_counts@;
    let views = counts.map_values(|n: usize| n as nat);
    assert(views == e.level_counts(cf@));
    assert(views.len() == counts.len());
    assert(views[l] == counts[l]);
    assert(e.level_counts(cf@)[l] == e.family(cf@).levels@[l]@.len());
    lemma_count_sum(counts);
    assert(names_hold(s.column_families@, name) == e.has_cf(name));
    assert(names_ascend(s.column_families@));
}

proof fn lemma_count_sum(v: Seq<usize>)
    ensures
        ({
            let sum = v.fold_left(0int, |sum: int, n: usize| sum + n);
            &&& 0 <= sum
            &&& sum <= usize::MAX ==> count_sum(v) == sum
        }),
    decreases v.len(),
{
    if v.len() > 0 {
        lemma_count_sum(v.drop_last());
    }
}

/// A list of the families has each of them once, in ascending order of their bytes.
pub proof fn law_families_are_listed(e: &LsmEngine, list: Vec<String>, name: Seq<char>)
    requires
        call_ensures(LsmEngine::list_cfs, (e,), list),
    ensures
        (exists|i: int| 0 <= i < list@.len() && (#[trigger] list@[i])@ == name) == e.has_cf(name),
        forall|i: int, j: int|
            0 <= i < j < list@.len() ==> lex_lt(
                encode_utf8((#[trigger] list@[i])@),
                encode_utf8((#[trigger] list@[j])@),
            ),
{
    assert(names_hold(list@, name) == e.has_cf(name));
    assert(names_ascend(list@));
}

} // verus!
