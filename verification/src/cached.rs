//! Looking up keys of tables through a cache of blocks.

use crate::block_cache::{block_at, caches, is_block, law_blocks_are_found_by_place, put_in, touched, BlockCache, CachedBlock};
use crate::bytes::Model;
use crate::error::EngineError;
use crate::memtable::MemEntry;
use crate::family::{lemma_contents, level_hides, level_layer, levels_hide, levels_layer,
    table_layers, CfState};
use crate::layers::stack;
use crate::sstable::{find_in, read_body, SSTable};
use crate::storage::{file_path, FileId, FileName};
use crate::table_format::leads_to;
use std::sync::Arc;
use vstd::prelude::*;

verus! {

/// The cached block `b` is one of the blocks of the table `t`.
pub open spec fn is_block_of(b: CachedBlock, t: &SSTable) -> bool {
    exists|j: int|
        0 <= j < t.index().len() && b.1 == (#[trigger] t.index()[j]).1
            && b.2 == t.block(j) && t.part(j) is Some
}

/// Everything that is cached under `path` is a block of `t`.
pub open spec fn cached_right(s: Seq<CachedBlock>, path: Seq<char>, t: &SSTable) -> bool {
    forall|i: int| 0 <= i < s.len() && (#[trigger] s[i]).0 == path ==> is_block_of(s[i], t)
}

/// The cached blocks after one was asked for: it was used last, and was put in if it
/// was not there.
pub open spec fn asked_for(
    s: Seq<CachedBlock>,
    cap: nat,
    path: Seq<char>,
    offset: u64,
    data: Seq<u8>,
) -> Seq<CachedBlock> {
    if caches(s, path, offset) {
        touched(s, block_at(s, path, offset))
    } else {
        put_in(s, cap, path, offset, data)
    }
}

/// The cached blocks after a table at `path` was searched for `key`: the block in which
/// the key can stand was asked for, unless the filter says that it is not there or the
/// block is damaged.
pub open spec fn searched(
    t: &SSTable,
    path: Seq<char>,
    key: Seq<u8>,
    s: Seq<CachedBlock>,
    cap: nat,
) -> Seq<CachedBlock> {
    if t.bloom().covers(key) && !t.hides(key) && (exists|j: int| leads_to(t.index(), key, j)) {
        let j = choose|j: int| leads_to(t.index(), key, j);
        asked_for(s, cap, path, t.index()[j].1, t.block(j))
    } else {
        s
    }
}

/// What is cached after a block was asked for was cached before, or is that block.
proof fn lemma_asked_for(
    s: Seq<CachedBlock>,
    cap: nat,
    path: Seq<char>,
    offset: u64,
    data: Seq<u8>,
    i: int,
)
    requires
        0 <= i < asked_for(s, cap, path, offset, data).len(),
    ensures
        s.contains(asked_for(s, cap, path, offset, data)[i]) || asked_for(
            s,
            cap,
            path,
            offset,
            data,
        )[i] == (path, offset, data),
{
    let t = asked_for(s, cap, path, offset, data);
    if caches(s, path, offset) {
        let k = block_at(s, path, offset);
        assert(is_block(s, path, offset, k));
        if i < s.len() - 1 {
            let x = if i < k {
                i
            } else {
                i + 1
            };
            assert(t[i] == s[x]);
        } else {
            assert(t[i] == s[k]);
        }
    } else if s.len() >= cap && s.len() > 0 {
        if i < s.len() - 1 {
            assert(t[i] == s[i + 1]);
        }
    } else if i < s.len() {
        assert(t[i] == s[i]);
    }
}

/// The cache stays right for a table of which a block was asked for.
pub proof fn law_cache_stays_right(
    s: Seq<CachedBlock>,
    cap: nat,
    path: Seq<char>,
    t: &SSTable,
    j: int,
)
    requires
        cached_right(s, path, t),
        0 <= j < t.index().len(),
        t.part(j) is Some,
    ensures
        cached_right(
            asked_for(s, cap, path, t.index()[j].1, t.block(j)),
            path,
            t,
        ),
{
    let offset = t.index()[j].1;
    let after = asked_for(s, cap, path, offset, t.block(j));
    assert forall|i: int| 0 <= i < after.len() && (#[trigger] after[i]).0 == path implies is_block_of(
        after[i],
        t,
    ) by {
        lemma_asked_for(s, cap, path, offset, t.block(j), i);
        if s.contains(after[i]) {
            let k = choose|k: int| 0 <= k < s.len() && s[k] == after[i];
            assert(is_block_of(s[k], t));
        }
    }
}

/// The cache stays right for the tables at other paths.
pub proof fn law_cache_stays_right_elsewhere(
    s: Seq<CachedBlock>,
    cap: nat,
    path: Seq<char>,
    offset: u64,
    data: Seq<u8>,
    other: Seq<char>,
    t: &SSTable,
)
    requires
        cached_right(s, other, t),
        other != path,
    ensures
        cached_right(asked_for(s, cap, path, offset, data), other, t),
{
    let after = asked_for(s, cap, path, offset, data);
    assert forall|i: int|
        0 <= i < after.len() && (#[trigger] after[i]).0 == other implies is_block_of(after[i], t) by {
        lemma_asked_for(s, cap, path, offset, data, i);
        if s.contains(after[i]) {
            let k = choose|k: int| 0 <= k < s.len() && s[k] == after[i];
            assert(is_block_of(s[k], t));
        }
    }
}

/// Two blocks of a table at one offset are the same.
proof fn lemma_same_block(t: &SSTable, i: int, j: int)
    requires
        t.wf(),
        0 <= i < t.index().len(),
        0 <= j < t.index().len(),
        t.index()[i].1 == t.index()[j].1,
    ensures
        i == j,
{
    t.lemma_offsets_differ(i, j);
}

impl SSTable {
    /// The bytes of block `j`, from the cache if they are there; `InvalidData` where the
    /// block is damaged.
    fn cached_block(&self, path: &String, j: usize, cache: &mut BlockCache) -> (r: Result<
        Arc<Vec<u8>>,
        EngineError,
    >)
        requires
            self.wf(),
            j < self.index().len(),
            old(cache).wf(),
            cached_right(old(cache)@, path@, self),
        ensures
            final(cache).wf(),
            final(cache).capacity() == old(cache).capacity(),
            match r {
                Ok(data) => {
                    &&& self.part(j as int) is Some
                    &&& data@ == self.block(j as int)
                    &&& final(cache)@ == asked_for(
                        old(cache)@,
                        old(cache).capacity(),
                        path@,
                        self.index()[j as int].1,
                        self.block(j as int),
                    )
                },
                Err(e) => {
                    &&& e == EngineError::InvalidData
                    &&& self.part(j as int) is None
                    &&& final(cache)@ == old(cache)@
                },
            },
    {
        let offset: u64 = self.block_offset(j);
        let ghost s = cache@;
        match cache.get(&(path.clone(), offset)) {
            Some(data) => {
                proof {
                    let i = block_at(s, path@, offset);
                    assert(is_block(s, path@, offset, i));
                    assert(is_block_of(s[i], self));
                    let k = choose|k: int|
                        0 <= k < self.index().len() && s[i].1 == (#[trigger] self.index()[k]).1
                            && s[i].2 == self.block(k) && self.part(k) is Some;
                    lemma_same_block(self, k, j as int);
                }
                Ok(data)
            },
            None => {
                match self.block_data(j) {
                    Ok(block) => {
                        let data: Arc<Vec<u8>> = Arc::new(block);
                        cache.insert((path.clone(), offset), data.clone());
                        Ok(data)
                    },
                    Err(e) => Err(e),
                }
            },
        }
    }

    /// Look up what was last written to `key`, in a table at `path`, through a cache:
    /// the result is that of a search of the file.
    pub fn entry_cached(&self, path: &String, key: &[u8], cache: &mut BlockCache) -> (r: Result<
        Option<MemEntry>,
        EngineError,
    >)
        requires
            self.wf(),
            old(cache).wf(),
            cached_right(old(cache)@, path@, self),
        ensures
            match r {
                Ok(Some(e)) => self@.contains_key(key@) && e.model() == self@[key@]
                    && !self.hides(key@),
                Ok(None) => !self@.contains_key(key@) && !self.hides(key@),
                Err(e) => e == EngineError::InvalidData && self.hides(key@)
                    && !self@.contains_key(key@),
            },
            final(cache).wf(),
            final(cache).capacity() == old(cache).capacity(),
            cached_right(final(cache)@, path@, self),
            final(cache)@ == searched(
                self,
                path@,
                key@,
                old(cache)@,
                old(cache).capacity(),
            ),
    {
        if !self.may_hold(key) {
            return Ok(None);
        }
        let j: usize = match self.block_of(key) {
            Some(j) => j,
            None => {
                proof {
                    self.lemma_leads_nowhere(key@);
                }
                return Ok(None);
            },
        };
        let ghost s = cache@;
        let ghost cap = cache.capacity();
        proof {
            self.lemma_block(j as int);
            self.lemma_leads_to(key@, j as int);
            self.lemma_hides(key@, j as int);
            assert(leads_to(self.index(), key@, j as int));
            let k = choose|k: int| leads_to(self.index(), key@, k);
            self.lemma_leads_once(key@, j as int, k);
        }
        let block: Arc<Vec<u8>> = match self.cached_block(path, j, cache) {
            Ok(block) => block,
            Err(e) => {
                return Err(e);
            },
        };
        proof {
            law_cache_stays_right(s, cap, path@, self, j as int);
        }
        let found: Vec<(Vec<u8>, MemEntry)> = match read_body(block.as_slice()) {
            Some(v) => v,
            None => {
                assert(false);
                Vec::new()
            },
        };
        Ok(find_in(&found, key))
    }

    /// Look up a key through a cache: its value, `Some(None)` for a tombstone, or `None`.
    pub fn get_cached(&self, path: &String, key: &[u8], cache: &mut BlockCache) -> (r: Result<
        Option<Option<Vec<u8>>>,
        EngineError,
    >)
        requires
            self.wf(),
            old(cache).wf(),
            cached_right(old(cache)@, path@, self),
        ensures
            match r {
                Ok(Some(v)) => self@.contains_key(key@) && v.model() == self@[key@].value
                    && !self.hides(key@),
                Ok(None) => !self@.contains_key(key@) && !self.hides(key@),
                Err(e) => e == EngineError::InvalidData && self.hides(key@)
                    && !self@.contains_key(key@),
            },
            final(cache).wf(),
            final(cache).capacity() == old(cache).capacity(),
            cached_right(final(cache)@, path@, self),
            final(cache)@ == searched(
                self,
                path@,
                key@,
                old(cache)@,
                old(cache).capacity(),
            ),
    {
        match self.entry_cached(path, key, cache) {
            Ok(Some(e)) => Ok(Some(e.value)),
            Ok(None) => Ok(None),
            Err(e) => Err(e),
        }
    }
}

// ---- families --------------------------------------------------------------------

/// The path of a table of a column family.
pub open spec fn table_path(cf: Seq<char>, name: Seq<char>) -> Seq<char> {
    file_path(FileId::Table(cf, name))
}

/// No two tables of a family have the same name.
pub open spec fn tables_differ(levels: Seq<Vec<SSTable>>) -> bool {
    forall|l: int, k: int, m: int, n: int|
        #![trigger levels[l]@[k], levels[m]@[n]]
        0 <= l < levels.len() && 0 <= k < levels[l]@.len() && 0 <= m < levels.len() && 0 <= n
            < levels[m]@.len() && (l != m || k != n) ==> levels[l]@[k].name()
            != levels[m]@[n].name()
}

/// What is cached under the paths of the tables of a family are blocks of them.
pub open spec fn family_cached(cf: &CfState, s: Seq<CachedBlock>) -> bool {
    forall|l: int, k: int|
        0 <= l < cf.levels@.len() && 0 <= k < cf.levels@[l]@.len() ==> cached_right(
            s,
            table_path(cf.name@, (#[trigger] cf.levels@[l]@[k]).name()),
            &cf.levels@[l]@[k],
        )
}

/// `p` is the path of a table of a family.
pub open spec fn is_path_in(cf: &CfState, p: Seq<char>) -> bool {
    exists|l: int, k: int|
        0 <= l < cf.levels@.len() && 0 <= k < cf.levels@[l]@.len() && p == table_path(
            cf.name@,
            (#[trigger] cf.levels@[l]@[k]).name(),
        )
}

/// The cache is as right as it was for tables that are not of this family.
pub open spec fn kept_elsewhere(
    cf: &CfState,
    s: Seq<CachedBlock>,
    after: Seq<CachedBlock>,
) -> bool {
    forall|p: Seq<char>, t: SSTable|
        cached_right(s, p, &t) && !is_path_in(cf, p) ==> #[trigger] cached_right(after, p, &t)
}

/// The cached blocks after the first `n` tables of a level were searched, the newest
/// first, until one has the key or its block is damaged.
pub open spec fn level_searched(
    files: Seq<SSTable>,
    cf: Seq<char>,
    key: Seq<u8>,
    s: Seq<CachedBlock>,
    cap: nat,
    n: int,
) -> Seq<CachedBlock>
    decreases n,
{
    if n <= 0 {
        s
    } else {
        let t = files[n - 1];
        let after = searched(&t, table_path(cf, t.name()), key, s, cap);
        if t@.contains_key(key) || t.hides(key) {
            after
        } else {
            level_searched(files, cf, key, after, cap, n - 1)
        }
    }
}

/// The cached blocks after the levels from `l` on were searched, until one has the key.
pub open spec fn levels_searched(
    levels: Seq<Vec<SSTable>>,
    cf: Seq<char>,
    key: Seq<u8>,
    s: Seq<CachedBlock>,
    cap: nat,
    l: int,
) -> Seq<CachedBlock>
    decreases levels.len() - l,
{
    if l < 0 || l >= levels.len() {
        s
    } else {
        let n = levels[l]@.len() as int;
        let after = level_searched(levels[l]@, cf, key, s, cap, n);
        if level_layer(levels[l]@).contains_key(key) || level_hides(levels[l]@, key, n) {
            after
        } else {
            levels_searched(levels, cf, key, after, cap, l + 1)
        }
    }
}

/// The cached blocks after a family was searched: its tables are, if nothing waits in
/// memory for the key.
pub open spec fn family_searched(
    cf: &CfState,
    key: Seq<u8>,
    s: Seq<CachedBlock>,
    cap: nat,
) -> Seq<CachedBlock> {
    if cf.mem@.contains_key(key) {
        s
    } else {
        levels_searched(cf.levels@, cf.name@, key, s, cap, 0)
    }
}

/// Tables of a family stand at different paths.
proof fn lemma_paths_differ(cf: Seq<char>, a: Seq<char>, b: Seq<char>)
    requires
        a != b,
    ensures
        table_path(cf, a) != table_path(cf, b),
{
    let p = cf.push('/');
    if p + a == p + b {
        assert((p + a).skip(p.len() as int) =~= a);
        assert((p + b).skip(p.len() as int) =~= b);
    }
}

/// What is cached after a table was searched was cached before, or is of that table.
proof fn lemma_searched_adds(
    t: &SSTable,
    path: Seq<char>,
    key: Seq<u8>,
    s: Seq<CachedBlock>,
    cap: nat,
    i: int,
)
    requires
        0 <= i < searched(t, path, key, s, cap).len(),
    ensures
        s.contains(searched(t, path, key, s, cap)[i]) || searched(t, path, key, s, cap)[i].0
            == path,
{
    if t.bloom().covers(key) && !t.hides(key) && (exists|j: int| leads_to(t.index(), key, j)) {
        let j = choose|j: int| leads_to(t.index(), key, j);
        lemma_asked_for(s, cap, path, t.index()[j].1, t.block(j), i);
    } else {
        assert(s[i] == searched(t, path, key, s, cap)[i]);
    }
}

proof fn lemma_level_adds(
    cf: &CfState,
    l: int,
    key: Seq<u8>,
    s: Seq<CachedBlock>,
    cap: nat,
    n: int,
    i: int,
)
    requires
        0 <= l < cf.levels@.len(),
        n <= cf.levels@[l]@.len(),
        0 <= i < level_searched(cf.levels@[l]@, cf.name@, key, s, cap, n).len(),
    ensures
        ({
            let b = level_searched(cf.levels@[l]@, cf.name@, key, s, cap, n)[i];
            s.contains(b) || is_path_in(cf, b.0)
        }),
    decreases n,
{
    let b = level_searched(cf.levels@[l]@, cf.name@, key, s, cap, n)[i];
    if n <= 0 {
        assert(s[i] == b);
    } else {
        let t = cf.levels@[l]@[n - 1];
        let path = table_path(cf.name@, t.name());
        let mid = searched(&t, path, key, s, cap);
        if t@.contains_key(key) || t.hides(key) {
            assert(mid[i] == b);
        } else {
            lemma_level_adds(cf, l, key, mid, cap, n - 1, i);
        }
        if mid.contains(b) {
            let j = choose|j: int| 0 <= j < mid.len() && mid[j] == b;
            lemma_searched_adds(&t, path, key, s, cap, j);
            if !s.contains(b) {
                assert(b.0 == table_path(cf.name@, cf.levels@[l]@[n - 1].name()));
            }
        }
    }
}

proof fn lemma_levels_add(
    cf: &CfState,
    key: Seq<u8>,
    s: Seq<CachedBlock>,
    cap: nat,
    l: int,
    i: int,
)
    requires
        0 <= l,
        0 <= i < levels_searched(cf.levels@, cf.name@, key, s, cap, l).len(),
    ensures
        ({
            let b = levels_searched(cf.levels@, cf.name@, key, s, cap, l)[i];
            s.contains(b) || is_path_in(cf, b.0)
        }),
    decreases cf.levels@.len() - l,
{
    let b = levels_searched(cf.levels@, cf.name@, key, s, cap, l)[i];
    if l >= cf.levels@.len() {
        assert(s[i] == b);
    } else {
        let n = cf.levels@[l]@.len() as int;
        let mid = level_searched(cf.levels@[l]@, cf.name@, key, s, cap, n);
        if level_layer(cf.levels@[l]@).contains_key(key) || level_hides(
            cf.levels@[l]@,
            key,
            n,
        ) {
            assert(mid[i] == b);
        } else {
            lemma_levels_add(cf, key, mid, cap, l + 1, i);
        }
        if mid.contains(b) {
            let j = choose|j: int| 0 <= j < mid.len() && mid[j] == b;
            lemma_level_adds(cf, l, key, s, cap, n, j);
        }
    }
}

/// What is cached after a family was searched was cached before, or is of a table of it.
pub proof fn law_search_caches_own_tables(
    cf: &CfState,
    key: Seq<u8>,
    s: Seq<CachedBlock>,
    cap: nat,
    i: int,
)
    requires
        0 <= i < family_searched(cf, key, s, cap).len(),
    ensures
        s.contains(family_searched(cf, key, s, cap)[i]) || is_path_in(
            cf,
            family_searched(cf, key, s, cap)[i].0,
        ),
{
    if cf.mem@.contains_key(key) {
        assert(s[i] == family_searched(cf, key, s, cap)[i]);
    } else {
        lemma_levels_add(cf, key, s, cap, 0, i);
    }
}

/// A name without a slash in it.
pub open spec fn is_plain(name: Seq<char>) -> bool {
    !name.contains('/')
}

/// A path of a family with a plain name is that of no other table.
pub proof fn lemma_path_splits(a: Seq<char>, x: Seq<char>, b: Seq<char>, y: Seq<char>)
    requires
        is_plain(a),
        is_plain(b),
        table_path(a, x) == table_path(b, y),
    ensures
        a == b,
        x == y,
{
    let p = table_path(a, x);
    let q = table_path(b, y);
    if a.len() < b.len() {
        assert(p[a.len() as int] == '/');
        assert(q[a.len() as int] == b[a.len() as int]);
    } else if b.len() < a.len() {
        assert(q[b.len() as int] == '/');
        assert(p[b.len() as int] == a[b.len() as int]);
    } else {
        assert(a =~= p.take(a.len() as int));
        assert(b =~= q.take(b.len() as int));
        assert(x =~= p.skip(a.len() as int + 1));
        assert(y =~= q.skip(b.len() as int + 1));
    }
}

/// A search of one table keeps the cache right for the whole family and for all others.
proof fn lemma_search_step(
    cf: &CfState,
    start: Seq<CachedBlock>,
    s: Seq<CachedBlock>,
    cap: nat,
    key: Seq<u8>,
    l: int,
    k: int,
)
    requires
        tables_differ(cf.levels@),
        family_cached(cf, s),
        kept_elsewhere(cf, start, s),
        0 <= l < cf.levels@.len(),
        0 <= k < cf.levels@[l]@.len(),
        cf.levels@[l]@[k].wf(),
    ensures
        ({
            let t = cf.levels@[l]@[k];
            let after = searched(&t, table_path(cf.name@, t.name()), key, s, cap);
            family_cached(cf, after) && kept_elsewhere(cf, start, after)
        }),
{
    let t = cf.levels@[l]@[k];
    let path = table_path(cf.name@, t.name());
    let after = searched(&t, path, key, s, cap);
    if t.bloom().covers(key) && !t.hides(key) && (exists|j: int| leads_to(t.index(), key, j)) {
        let j = choose|j: int| leads_to(t.index(), key, j);
        let offset = t.index()[j].1;
        t.lemma_hides(key, j);
        assert forall|m: int, n: int|
            0 <= m < cf.levels@.len() && 0 <= n < cf.levels@[m]@.len() implies cached_right(
            after,
            table_path(cf.name@, (#[trigger] cf.levels@[m]@[n]).name()),
            &cf.levels@[m]@[n],
        ) by {
            let u = cf.levels@[m]@[n];
            assert(cached_right(s, table_path(cf.name@, u.name()), &u));
            if m == l && n == k {
                law_cache_stays_right(s, cap, path, &t, j);
            } else {
                assert(cf.levels@[l]@[k].name() != cf.levels@[m]@[n].name());
                lemma_paths_differ(cf.name@, t.name(), u.name());
                law_cache_stays_right_elsewhere(
                    s,
                    cap,
                    path,
                    offset,
                    t.block(j),
                    table_path(cf.name@, u.name()),
                    &u,
                );
            }
        }
        assert forall|p: Seq<char>, u: SSTable|
            cached_right(start, p, &u) && !is_path_in(cf, p) implies #[trigger] cached_right(
            after,
            p,
            &u,
        ) by {
            assert(cached_right(s, p, &u));
            assert(p != path) by {
                if p == path {
                    assert(is_path_in(cf, p));
                }
            }
            law_cache_stays_right_elsewhere(s, cap, path, offset, t.block(j), p, &u);
        }
    }
}

/// The path of a table of a column family.
fn path_of(cf: &String, name: &String) -> (r: String)
    ensures
        r@ == table_path(cf@, name@),
{
    FileName::Table { cf: cf.clone(), name: name.clone() }.path()
}

impl CfState {
    /// Search level `l` for `key`, the newest table first.
    fn level_cached(&self, l: usize, key: &[u8], cache: &mut BlockCache, Ghost(start): Ghost<
        Seq<CachedBlock>,
    >) -> (r: Result<Option<MemEntry>, EngineError>)
        requires
            self.wf(),
            l < self.levels@.len(),
            old(cache).wf(),
            tables_differ(self.levels@),
            family_cached(self, old(cache)@),
            kept_elsewhere(self, start, old(cache)@),
        ensures
            match r {
                Ok(Some(e)) => {
                    &&& !level_hides(
                        self.levels@[l as int]@,
                        key@,
                        self.levels@[l as int]@.len() as int,
                    )
                    &&& level_layer(self.levels@[l as int]@).contains_key(key@)
                    &&& e.model() == level_layer(self.levels@[l as int]@)[key@]
                },
                Ok(None) => {
                    &&& !level_hides(
                        self.levels@[l as int]@,
                        key@,
                        self.levels@[l as int]@.len() as int,
                    )
                    &&& !level_layer(self.levels@[l as int]@).contains_key(key@)
                },
                Err(e) => e == EngineError::InvalidData && level_hides(
                    self.levels@[l as int]@,
                    key@,
                    self.levels@[l as int]@.len() as int,
                ),
            },
            final(cache).wf(),
            final(cache).capacity() == old(cache).capacity(),
            family_cached(self, final(cache)@),
            kept_elsewhere(self, start, final(cache)@),
            final(cache)@ == level_searched(
                self.levels@[l as int]@,
                self.name@,
                key@,
                old(cache)@,
                old(cache).capacity(),
                self.levels@[l as int]@.len() as int,
            ),
    {
        let files: &Vec<SSTable> = &self.levels[l];
        let ghost layers = table_layers(files@);
        let ghost cap = cache.capacity();
        let ghost whole = level_searched(
            files@,
            self.name@,
            key@,
            cache@,
            cap,
            files@.len() as int,
        );
        let mut i: usize = files.len();
        assert(layers.take(layers.len() as int) =~= layers);
        while i > 0
            invariant
                self.wf(),
                l < self.levels@.len(),
                files@ == self.levels@[l as int]@,
                i <= files@.len(),
                layers == table_layers(files@),
                level_hides(files@, key@, files@.len() as int) == level_hides(
                    files@,
                    key@,
                    i as int,
                ),
                level_layer(files@).contains_key(key@) == stack(
                    layers.take(i as int),
                ).contains_key(key@),
                level_layer(files@).contains_key(key@) ==> level_layer(files@)[key@] == stack(
                    layers.take(i as int),
                )[key@],
                tables_differ(self.levels@),
                cache.wf(),
                cache.capacity() == cap,
                family_cached(self, cache@),
                kept_elsewhere(self, start, cache@),
                cap == old(cache).capacity(),
                whole == level_searched(
                    files@,
                    self.name@,
                    key@,
                    old(cache)@,
                    cap,
                    files@.len() as int,
                ),
                level_searched(files@, self.name@, key@, cache@, cap, i as int) == whole,
            decreases i,
        {
            i = i - 1;
            proof {
                let t = layers.take(i + 1);
                assert(t.drop_last() =~= layers.take(i as int));
                assert(t.last() == files@[i as int]@);
                assert(self.levels@[l as int]@[i as int].wf());
                lemma_search_step(self, start, cache@, cap, key@, l as int, i as int);
            }
            let path: String = path_of(&self.name, files[i].file_name());
            match files[i].entry_cached(&path, key, cache) {
                Ok(Some(e)) => {
                    return Ok(Some(e));
                },
                Ok(None) => {},
                Err(e) => {
                    return Err(e);
                },
            }
        }
        Ok(None)
    }

    /// What was last written to `key`, with the tables searched through a cache.
    pub fn lookup_cached(&self, key: &[u8], cache: &mut BlockCache) -> (r: Result<
        Option<MemEntry>,
        EngineError,
    >)
        requires
            self.wf(),
            old(cache).wf(),
            tables_differ(self.levels@),
            family_cached(self, old(cache)@),
        ensures
            match r {
                Ok(Some(e)) => !self.hides(key@) && self.contents().contains_key(key@)
                    && e.model() == self.contents()[key@],
                Ok(None) => !self.hides(key@) && !self.contents().contains_key(key@),
                Err(e) => e == EngineError::InvalidData && self.hides(key@),
            },
            final(cache).wf(),
            final(cache).capacity() == old(cache).capacity(),
            family_cached(self, final(cache)@),
            kept_elsewhere(self, old(cache)@, final(cache)@),
            final(cache)@ == family_searched(
                self,
                key@,
                old(cache)@,
                old(cache).capacity(),
            ),
    {
        proof {
            lemma_contents(self);
        }
        match self.mem.entry(key) {
            Some(e) => {
                return Ok(Some(e.copy()));
            },
            None => {},
        }
        let ghost start = cache@;
        let ghost cap = cache.capacity();
        let mut l: usize = 0;
        while l < self.levels.len()
            invariant
                self.wf(),
                l <= self.levels@.len(),
                !self.mem@.contains_key(key@),
                self.hides(key@) == levels_hide(self.levels@, key@, l as int),
                self.contents().contains_key(key@) == levels_layer(
                    self.levels@,
                    l as int,
                ).contains_key(key@),
                self.contents().contains_key(key@) ==> self.contents()[key@] == levels_layer(
                    self.levels@,
                    l as int,
                )[key@],
                tables_differ(self.levels@),
                cache.wf(),
                cache.capacity() == cap,
                family_cached(self, cache@),
                kept_elsewhere(self, start, cache@),
                cap == old(cache).capacity(),
                start == old(cache)@,
                levels_searched(self.levels@, self.name@, key@, cache@, cap, l as int)
                    == family_searched(self, key@, start, cap),
            decreases self.levels@.len() - l,
        {
            match self.level_cached(l, key, cache, Ghost(start)) {
                Ok(Some(e)) => {
                    return Ok(Some(e));
                },
                Ok(None) => {},
                Err(e) => {
                    return Err(e);
                },
            }
            l = l + 1;
        }
        Ok(None)
    }
}

/// A search of a table that looks at a block makes it the most recently used one; what is
/// cached of it is what was cached, or else its body.
pub proof fn law_searched_block_is_cached(
    t: &SSTable,
    path: Seq<char>,
    key: Seq<u8>,
    s: Seq<CachedBlock>,
    cap: nat,
    j: int,
)
    requires
        t.wf(),
        leads_to(t.index(), key, j),
        t.part(j) is Some,
        t.bloom().covers(key),
        forall|a: int, b: int|
            0 <= a < b < s.len() ==> (#[trigger] s[a]).0 != (#[trigger] s[b]).0 || s[a].1
                != s[b].1,
    ensures
        ({
            let after = searched(t, path, key, s, cap);
            &&& after.len() > 0
            &&& after.last().0 == path
            &&& after.last().1 == t.index()[j].1
            &&& (forall|i: int|
                0 <= i < s.len() ==> (#[trigger] s[i]).0 != path || s[i].1 != t.index()[j].1)
                ==> after.last().2 == t.block(j)
            &&& forall|i: int|
                0 <= i < s.len() && (#[trigger] s[i]).0 == path && s[i].1 == t.index()[j].1
                    ==> after.last() == s[i]
        }),
{
    let k = choose|k: int| leads_to(t.index(), key, k);
    t.lemma_leads_once(key, j, k);
    if t.hides(key) {
        let m = choose|m: int| #[trigger] leads_to(t.index(), key, m) && t.part(m) is None;
        t.lemma_leads_once(key, j, m);
    }
    let offset = t.index()[j].1;
    assert forall|i: int| 0 <= i < s.len() && (#[trigger] s[i]).0 == path && s[i].1 == offset implies
        searched(t, path, key, s, cap).last() == s[i] by {
        law_blocks_are_found_by_place(s, path, offset, i);
    }
    if caches(s, path, offset) {
        let i = choose|i: int| is_block(s, path, offset, i);
        assert(s[i].0 == path);
        law_blocks_are_found_by_place(s, path, offset, i);
    }
}

} // verus!
