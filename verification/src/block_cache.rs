//! A cache of table blocks that forgets the least recently used one.

use std::sync::Arc;
use vstd::prelude::*;

verus! {

/// A block: the path of its file and its offset there.
pub type BlockKey = (String, u64);

/// What is cached of a block.
pub type CachedBlock = (Seq<char>, u64, Seq<u8>);

/// The cached blocks, the least recently used first.
pub struct BlockCache {
    entries: Vec<(String, u64, Arc<Vec<u8>>)>,
    cap: usize,
}

/// Cached blocks as mathematical values.
pub open spec fn block_views(v: Seq<(String, u64, Arc<Vec<u8>>)>) -> Seq<CachedBlock> {
    v.map_values(|e: (String, u64, Arc<Vec<u8>>)| (e.0@, e.1, e.2@))
}

/// Position `i` holds the block.
pub open spec fn is_block(s: Seq<CachedBlock>, path: Seq<char>, offset: u64, i: int) -> bool {
    0 <= i < s.len() && s[i].0 == path && s[i].1 == offset
}

/// The block is cached.
pub open spec fn caches(s: Seq<CachedBlock>, path: Seq<char>, offset: u64) -> bool {
    exists|i: int| is_block(s, path, offset, i)
}

/// Where the block is cached.
pub open spec fn block_at(s: Seq<CachedBlock>, path: Seq<char>, offset: u64) -> int {
    choose|i: int| is_block(s, path, offset, i)
}

/// The block moved to the end, as the most recently used one.
pub open spec fn touched(s: Seq<CachedBlock>, i: int) -> Seq<CachedBlock> {
    s.remove(i).push(s[i])
}

/// The cached blocks after one was put in: in place of what was cached of it, or in
/// place of the least recently used one if there are as many as there may be.
pub open spec fn put_in(
    s: Seq<CachedBlock>,
    cap: nat,
    path: Seq<char>,
    offset: u64,
    data: Seq<u8>,
) -> Seq<CachedBlock> {
    let rest = if caches(s, path, offset) {
        s.remove(block_at(s, path, offset))
    } else if s.len() >= cap && s.len() > 0 {
        s.remove(0)
    } else {
        s
    };
    rest.push((path, offset, data))
}

impl View for BlockCache {
    type V = Seq<CachedBlock>;

    closed spec fn view(&self) -> Seq<CachedBlock> {
        block_views(self.entries@)
    }
}

impl BlockCache {
    /// How many blocks there may be.
    pub closed spec fn capacity(&self) -> nat {
        self.cap as nat
    }

    /// No block is cached twice.
    pub open spec fn wf(&self) -> bool {
        forall|i: int, j: int|
            0 <= i < j < self@.len() ==> (#[trigger] self@[i]).0 != (#[trigger] self@[j]).0
                || self@[i].1 != self@[j].1
    }

    /// An empty cache for `capacity` blocks.
    pub fn new(capacity: usize) -> (r: BlockCache)
        ensures
            r.wf(),
            r@ == Seq::<CachedBlock>::empty(),
            r.capacity() == capacity,
    {
        let r: BlockCache = BlockCache { entries: Vec::new(), cap: capacity };
        assert(r@ =~= Seq::<CachedBlock>::empty());
        r
    }

    /// Where the block is cached.
    fn find(&self, path: &String, offset: u64) -> (r: Option<usize>)
        requires
            self.wf(),
        ensures
            match r {
                Some(i) => is_block(self@, path@, offset, i as int) && block_at(
                    self@,
                    path@,
                    offset,
                ) == i,
                None => !caches(self@, path@, offset),
            },
    {
        let mut i: usize = 0;
        while i < self.entries.len()
            invariant
                self.wf(),
                i <= self.entries@.len(),
                forall|j: int| 0 <= j < i ==> !#[trigger] is_block(self@, path@, offset, j),
            decreases self.entries@.len() - i,
        {
            if self.entries[i].0 == *path && self.entries[i].1 == offset {
                proof {
                    assert(is_block(self@, path@, offset, i as int));
                    let b = block_at(self@, path@, offset);
                    assert(is_block(self@, path@, offset, b));
                    assert(self@[b].0 == self@[i as int].0);
                }
                return Some(i);
            }
            i = i + 1;
        }
        None
    }

    /// What is cached of a block, which becomes the most recently used one.
    pub fn get(&mut self, key: &BlockKey) -> (r: Option<Arc<Vec<u8>>>)
        requires
            old(self).wf(),
        ensures
            final(self).wf(),
            final(self).capacity() == old(self).capacity(),
            match r {
                Some(data) => {
                    let i = block_at(old(self)@, key.0@, key.1);
                    &&& is_block(old(self)@, key.0@, key.1, i)
                    &&& data@ == old(self)@[i].2
                    &&& final(self)@ == touched(old(self)@, i)
                },
                None => !caches(old(self)@, key.0@, key.1) && final(self)@ == old(self)@,
            },
    {
        let ghost before = self@;
        match self.find(&key.0, key.1) {
            Some(i) => {
                let e: (String, u64, Arc<Vec<u8>>) = self.entries.remove(i);
                let data: Arc<Vec<u8>> = e.2.clone();
                self.entries.push(e);
                proof {
                    assert(self@ =~= touched(before, i as int));
                    lemma_moved(before, i as int, self@);
                }
                Some(data)
            },
            None => None,
        }
    }

    /// Cache a block as the most recently used one.
    pub fn insert(&mut self, key: BlockKey, data: Arc<Vec<u8>>)
        requires
            old(self).wf(),
        ensures
            final(self).wf(),
            final(self).capacity() == old(self).capacity(),
            final(self)@ == put_in(
                old(self)@,
                old(self).capacity(),
                key.0@,
                key.1,
                data@,
            ),
    {
        let ghost before = self@;
        let ghost b = (key.0@, key.1, data@);
        let at: Option<usize> = self.find(&key.0, key.1);
        match at {
            Some(i) => {
                let _ = self.entries.remove(i);
                assert(self@ =~= before.remove(i as int));
            },
            None => {
                if self.entries.len() >= self.cap && self.entries.len() > 0 {
                    let _ = self.entries.remove(0);
                    assert(self@ =~= before.remove(0));
                }
            },
        }
        let ghost rest = self@;
        self.entries.push((key.0, key.1, data));
        proof {
            assert(self@ =~= rest.push(b));
            assert forall|i: int, j: int| 0 <= i < j < self@.len() implies (#[trigger] self@[i]).0
                != (#[trigger] self@[j]).0 || self@[i].1 != self@[j].1 by {
                lemma_rest(before, at, rest, b.0, b.1, i, j);
            }
        }
    }
}

proof fn lemma_moved(s: Seq<CachedBlock>, i: int, t: Seq<CachedBlock>)
    requires
        0 <= i < s.len(),
        t == touched(s, i),
        forall|a: int, b: int|
            0 <= a < b < s.len() ==> (#[trigger] s[a]).0 != (#[trigger] s[b]).0 || s[a].1
                != s[b].1,
    ensures
        forall|a: int, b: int|
            0 <= a < b < t.len() ==> (#[trigger] t[a]).0 != (#[trigger] t[b]).0 || t[a].1
                != t[b].1,
{
    assert forall|a: int, b: int| 0 <= a < b < t.len() implies (#[trigger] t[a]).0 != (
    #[trigger] t[b]).0 || t[a].1 != t[b].1 by {
        let x = if a < i {
            a
        } else {
            a + 1
        };
        let y = if b == t.len() - 1 {
            i
        } else if b < i {
            b
        } else {
            b + 1
        };
        assert(t[a] == s[x] && t[b] == s[y]);
    }
}

proof fn lemma_rest(
    s: Seq<CachedBlock>,
    at: Option<usize>,
    rest: Seq<CachedBlock>,
    path: Seq<char>,
    offset: u64,
    i: int,
    j: int,
)
    requires
        forall|a: int, b: int|
            0 <= a < b < s.len() ==> (#[trigger] s[a]).0 != (#[trigger] s[b]).0 || s[a].1
                != s[b].1,
        match at {
            Some(k) => is_block(s, path, offset, k as int) && rest == s.remove(k as int),
            None => !caches(s, path, offset) && (rest == s || (s.len() > 0 && rest == s.remove(
                0,
            ))),
        },
        0 <= i < j <= rest.len(),
    ensures
        j < rest.len() ==> rest[i].0 != rest[j].0 || rest[i].1 != rest[j].1,
        j == rest.len() ==> rest[i].0 != path || rest[i].1 != offset,
{
    let k: int = match at {
        Some(k) => k as int,
        None => if rest == s {
            s.len() as int
        } else {
            0
        },
    };
    let x = if i < k {
        i
    } else {
        i + 1
    };
    let y = if j < k {
        j
    } else {
        j + 1
    };
    assert(rest[i] == s[x]);
    if j < rest.len() {
        assert(rest[j] == s[y]);
    } else if rest[i].0 == path && rest[i].1 == offset {
        assert(is_block(s, path, offset, x));
        if at is Some {
            assert(s[x].0 == s[k].0 && s[x].1 == s[k].1);
        }
    }
}

/// There are never more blocks than there may be, but for one where there may be
/// none.
pub proof fn law_cache_is_bounded(
    s: Seq<CachedBlock>,
    cap: nat,
    path: Seq<char>,
    offset: u64,
    data: Seq<u8>,
)
    requires
        s.len() <= cap || s.len() <= 1,
    ensures
        ({
            let t = put_in(s, cap, path, offset, data);
            t.len() <= cap || t.len() <= 1
        }),
{
    if caches(s, path, offset) {
        assert(is_block(s, path, offset, block_at(s, path, offset)));
    }
}

/// What was put in is cached, and was used last.
pub proof fn law_insert_then_get(
    s: Seq<CachedBlock>,
    cap: nat,
    path: Seq<char>,
    offset: u64,
    data: Seq<u8>,
)
    ensures
        ({
            let t = put_in(s, cap, path, offset, data);
            &&& caches(t, path, offset)
            &&& t.last() == (path, offset, data)
        }),
{
    let t = put_in(s, cap, path, offset, data);
    assert(is_block(t, path, offset, t.len() - 1));
}

/// A block is cached if and only if some entry has its path and its offset, and where there
/// is one such entry, that is the one that is found.
pub proof fn law_blocks_are_found_by_place(
    s: Seq<CachedBlock>,
    path: Seq<char>,
    offset: u64,
    i: int,
)
    requires
        0 <= i < s.len(),
        forall|a: int, b: int|
            0 <= a < b < s.len() ==> (#[trigger] s[a]).0 != (#[trigger] s[b]).0 || s[a].1
                != s[b].1,
    ensures
        s[i].0 == path && s[i].1 == offset ==> caches(s, path, offset) && block_at(
            s,
            path,
            offset,
        ) == i,
        caches(s, path, offset) ==> exists|j: int|
            0 <= j < s.len() && (#[trigger] s[j]).0 == path && s[j].1 == offset,
{
    if s[i].0 == path && s[i].1 == offset {
        assert(is_block(s, path, offset, i));
        let b = block_at(s, path, offset);
        assert(is_block(s, path, offset, b));
        assert(s[b].0 == s[i].0);
    }
    if caches(s, path, offset) {
        let j = choose|j: int| is_block(s, path, offset, j);
        assert(s[j].0 == path);
    }
}

/// Using a block makes it the last to be forgotten, and keeps all blocks and the order of
/// the others.
pub proof fn law_use_moves_to_the_end(s: Seq<CachedBlock>, i: int)
    requires
        0 <= i < s.len(),
    ensures
        touched(s, i) == s.take(i) + s.skip(i + 1) + seq![s[i]],
{
    assert(touched(s, i) =~= s.take(i) + s.skip(i + 1) + seq![s[i]]);
}

/// Putting in a block forgets nothing but what was cached of it; or, if that is nothing and
/// the cache is full, the block that was used the longest ago. The others stay, in their
/// order, with the new one behind them.
pub proof fn law_insert_forgets_the_oldest(
    s: Seq<CachedBlock>,
    cap: nat,
    path: Seq<char>,
    offset: u64,
    data: Seq<u8>,
    i: int,
)
    requires
        forall|a: int, b: int|
            0 <= a < b < s.len() ==> (#[trigger] s[a]).0 != (#[trigger] s[b]).0 || s[a].1
                != s[b].1,
        0 <= i <= s.len(),
        i < s.len() ==> s[i].0 == path && s[i].1 == offset,
        i == s.len() ==> forall|j: int|
            0 <= j < s.len() ==> (#[trigger] s[j]).0 != path || s[j].1 != offset,
    ensures
        i < s.len() ==> put_in(s, cap, path, offset, data) == s.take(i) + s.skip(i + 1) + seq![
            (path, offset, data),
        ],
        i == s.len() && s.len() < cap ==> put_in(s, cap, path, offset, data) == s.push(
            (path, offset, data),
        ),
        i == s.len() && 0 < s.len() && cap <= s.len() ==> put_in(s, cap, path, offset, data)
            == s.skip(1).push((path, offset, data)),
        s.len() == 0 ==> put_in(s, cap, path, offset, data) == seq![(path, offset, data)],
{
    if i < s.len() {
        law_blocks_are_found_by_place(s, path, offset, i);
        assert(put_in(s, cap, path, offset, data) =~= s.take(i) + s.skip(i + 1) + seq![
            (path, offset, data),
        ]);
    } else {
        assert(!caches(s, path, offset));
        if s.len() > 0 {
            assert(s.remove(0) =~= s.skip(1));
        } else {
            assert(put_in(s, cap, path, offset, data) =~= seq![(path, offset, data)]);
        }
    }
}

} // verus!
