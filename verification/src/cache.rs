//! In-memory block caches: a least-recently-used cache of blocks with hit
//! and miss counts, and a two-tier cache that moves blocks between a hot and
//! a warm tier.
use vstd::prelude::*;
use crate::cid::{Block, Cid};

verus! {

#[verifier::external_type_specification]
#[verifier::external_body]
#[verifier::reject_recursive_types(K)]
#[verifier::reject_recursive_types(V)]
#[verifier::reject_recursive_types(S)]
pub struct ExLruCache<K, V, S>(lru::LruCache<K, V, S>);

#[verifier::external_type_specification]
#[verifier::external_body]
pub struct ExLruHasher(lru::DefaultHasher);

/// The entries of an LRU cache of blocks keyed by CID bytes, most recently
/// used first: each key with the block's view.
pub uninterp spec fn lru_entries(c: lru::LruCache<Vec<u8>, Block>) -> Seq<(Seq<u8>, (Seq<u8>, Seq<u8>))>;

/// The capacity an LRU cache was made with.
pub uninterp spec fn lru_capacity(c: lru::LruCache<Vec<u8>, Block>) -> nat;

/// Index of the entry with key `k`, or -1.
pub open spec fn entry_pos(e: Seq<(Seq<u8>, (Seq<u8>, Seq<u8>))>, k: Seq<u8>) -> int
    decreases e.len(),
{
    if e.len() == 0 {
        -1
    } else if entry_pos(e.drop_last(), k) >= 0 {
        entry_pos(e.drop_last(), k)
    } else if e.last().0 == k {
        e.len() - 1
    } else {
        -1
    }
}

/// No key occurs twice and there are at most `cap` entries.
pub open spec fn lru_ok(e: Seq<(Seq<u8>, (Seq<u8>, Seq<u8>))>, cap: nat) -> bool {
    &&& e.len() <= cap
    &&& forall|i: int, j: int| 0 <= i < j < e.len() ==> #[trigger] e[i].0 != #[trigger] e[j].0
}

/// The entries after a lookup of `k`: a found entry moves to the front.
pub open spec fn touched(e: Seq<(Seq<u8>, (Seq<u8>, Seq<u8>))>, k: Seq<u8>) -> Seq<(Seq<u8>, (Seq<u8>, Seq<u8>))> {
    let i = entry_pos(e, k);
    if i >= 0 { seq![e[i]] + e.remove(i) } else { e }
}

/// The value stored under `k`.
pub open spec fn entry_value(e: Seq<(Seq<u8>, (Seq<u8>, Seq<u8>))>, k: Seq<u8>) -> Option<(Seq<u8>, Seq<u8>)> {
    let i = entry_pos(e, k);
    if i >= 0 { Some(e[i].1) } else { None }
}

/// The entries after storing `v` under `k` in a cache of capacity `cap`: an
/// entry with that key is replaced and moved to the front; else, when the
/// cache is full, the least recently used entry (the last) leaves, and the
/// new entry goes to the front.
pub open spec fn stored(e: Seq<(Seq<u8>, (Seq<u8>, Seq<u8>))>, cap: nat, k: Seq<u8>, v: (Seq<u8>, Seq<u8>)) -> Seq<(Seq<u8>, (Seq<u8>, Seq<u8>))> {
    let i = entry_pos(e, k);
    if i >= 0 {
        seq![(k, v)] + e.remove(i)
    } else if e.len() == cap {
        seq![(k, v)] + e.drop_last()
    } else {
        seq![(k, v)] + e
    }
}

/// The entries without the one under `k`.
pub open spec fn removed(e: Seq<(Seq<u8>, (Seq<u8>, Seq<u8>))>, k: Seq<u8>) -> Seq<(Seq<u8>, (Seq<u8>, Seq<u8>))> {
    let i = entry_pos(e, k);
    if i >= 0 { e.remove(i) } else { e }
}

/// `LruCache::new` with capacity `cap` (which must not be zero): an empty cache.
#[verifier::external_body]
fn lru_new(cap: usize) -> (r: lru::LruCache<Vec<u8>, Block>)
    requires cap > 0,
    ensures lru_entries(r).len() == 0, lru_capacity(r) == cap,
{
    lru::LruCache::new(std::num::NonZeroUsize::new(cap).unwrap())
}

/// `LruCache::get` followed by a clone of the value: the block stored under
/// `k`, if any, which becomes the most recently used entry.
#[verifier::external_body]
fn lru_get(c: &mut lru::LruCache<Vec<u8>, Block>, k: &Vec<u8>) -> (r: Option<Block>)
    ensures
        lru_capacity(*final(c)) == lru_capacity(*old(c)),
        lru_entries(*final(c)) == touched(lru_entries(*old(c)), k@),
        match r {
            Some(b) => entry_value(lru_entries(*old(c)), k@) == Some(b@),
            None => entry_value(lru_entries(*old(c)), k@) is None,
        },
{
    c.get(k).cloned()
}

/// `LruCache::peek` followed by a clone of the value: the block stored
/// under `k`, if any, without changing which entry was used last.
#[verifier::external_body]
fn lru_peek(c: &lru::LruCache<Vec<u8>, Block>, k: &Vec<u8>) -> (r: Option<Block>)
    ensures
        match r {
            Some(b) => entry_value(lru_entries(*c), k@) == Some(b@),
            None => entry_value(lru_entries(*c), k@) is None,
        },
{
    c.peek(k).cloned()
}

/// `LruCache::contains`: whether an entry has key `k` (recency unchanged).
#[verifier::external_body]
fn lru_contains(c: &lru::LruCache<Vec<u8>, Block>, k: &Vec<u8>) -> (r: bool)
    ensures r == (entry_pos(lru_entries(*c), k@) >= 0),
{
    c.contains(k)
}

/// `LruCache::put`: store `v` under `k` as the most recently used entry,
/// replacing an entry with that key or, when full, the least recently used one.
#[verifier::external_body]
fn lru_put(c: &mut lru::LruCache<Vec<u8>, Block>, k: Vec<u8>, v: Block)
    ensures
        lru_capacity(*final(c)) == lru_capacity(*old(c)),
        lru_entries(*final(c)) == stored(lru_entries(*old(c)), lru_capacity(*old(c)), k@, v@),
{
    c.put(k, v);
}

/// `LruCache::push`: as `put`, and returns the entry that was replaced: the
/// given key with the old value when the key was present, else the least
/// recently used entry when the cache was full.
#[verifier::external_body]
fn lru_push(c: &mut lru::LruCache<Vec<u8>, Block>, k: Vec<u8>, v: Block) -> (r: Option<(Vec<u8>, Block)>)
    ensures
        lru_capacity(*final(c)) == lru_capacity(*old(c)),
        lru_entries(*final(c)) == stored(lru_entries(*old(c)), lru_capacity(*old(c)), k@, v@),
        ({
            let e = lru_entries(*old(c));
            let i = entry_pos(e, k@);
            match r {
                Some((rk, rv)) => if i >= 0 {
                    rk@ == k@ && rv@ == e[i].1
                } else {
                    e.len() == lru_capacity(*old(c)) && e.len() > 0 && rk@ == e.last().0 && rv@ == e.last().1
                },
                None => i < 0 && e.len() < lru_capacity(*old(c)),
            }
        }),
{
    c.push(k, v)
}

/// `LruCache::pop`: remove the entry under `k`.
#[verifier::external_body]
fn lru_pop(c: &mut lru::LruCache<Vec<u8>, Block>, k: &Vec<u8>)
    ensures
        lru_capacity(*final(c)) == lru_capacity(*old(c)),
        lru_entries(*final(c)) == removed(lru_entries(*old(c)), k@),
{
    c.pop(k);
}

/// `LruCache::clear`: remove every entry.
#[verifier::external_body]
fn lru_clear(c: &mut lru::LruCache<Vec<u8>, Block>)
    ensures lru_capacity(*final(c)) == lru_capacity(*old(c)), lru_entries(*final(c)).len() == 0,
{
    c.clear();
}

/// `LruCache::len`: the number of entries.
#[verifier::external_body]
fn lru_len(c: &lru::LruCache<Vec<u8>, Block>) -> (r: usize)
    ensures r == lru_entries(*c).len(),
{
    c.len()
}

proof fn lemma_entry_pos(e: Seq<(Seq<u8>, (Seq<u8>, Seq<u8>))>, k: Seq<u8>)
    ensures
        -1 <= entry_pos(e, k) < e.len(),
        entry_pos(e, k) >= 0 ==> e[entry_pos(e, k)].0 == k,
        entry_pos(e, k) < 0 ==> forall|j: int| 0 <= j < e.len() ==> e[j].0 != k,
    decreases e.len(),
{
    if e.len() > 0 {
        lemma_entry_pos(e.drop_last(), k);
        if entry_pos(e, k) < 0 {
            assert forall|j: int| 0 <= j < e.len() implies e[j].0 != k by {
                if j < e.len() - 1 {
                    assert(e.drop_last()[j] == e[j]);
                }
            }
        }
    }
}

proof fn lemma_entry_pos_at(e: Seq<(Seq<u8>, (Seq<u8>, Seq<u8>))>, k: Seq<u8>, i: int)
    requires 0 <= i < e.len(), e[i].0 == k, forall|j: int| 0 <= j < i ==> e[j].0 != k,
    ensures entry_pos(e, k) == i,
    decreases e.len(),
{
    if i < e.len() - 1 {
        lemma_entry_pos_at(e.drop_last(), k, i);
    } else {
        lemma_entry_pos(e.drop_last(), k);
        if entry_pos(e.drop_last(), k) >= 0 {
            let p = entry_pos(e.drop_last(), k);
            assert(e[p].0 == k);
        }
    }
}

/// Lookups, stores and removals keep keys distinct and within capacity.
proof fn lemma_lru_ok_kept(e: Seq<(Seq<u8>, (Seq<u8>, Seq<u8>))>, cap: nat, k: Seq<u8>, v: (Seq<u8>, Seq<u8>))
    requires lru_ok(e, cap), cap > 0,
    ensures
        lru_ok(touched(e, k), cap),
        lru_ok(stored(e, cap, k, v), cap),
        lru_ok(removed(e, k), cap),
{
    lemma_entry_pos(e, k);
    let i = entry_pos(e, k);
    if i >= 0 {
        let t = seq![e[i]] + e.remove(i);
        assert forall|a: int, b: int| 0 <= a < b < t.len() implies #[trigger] t[a].0 != #[trigger] t[b].0 by {
            if a == 0 {
                if b - 1 < i { assert(t[b] == e[b - 1]); } else { assert(t[b] == e[b]); }
            } else {
                let ea = if a - 1 < i { a - 1 } else { a };
                let eb = if b - 1 < i { b - 1 } else { b };
                assert(t[a] == e[ea] && t[b] == e[eb]);
            }
        }
        let s2 = seq![(k, v)] + e.remove(i);
        assert forall|a: int, b: int| 0 <= a < b < s2.len() implies #[trigger] s2[a].0 != #[trigger] s2[b].0 by {
            if a == 0 {
                if b - 1 < i { assert(s2[b] == e[b - 1]); } else { assert(s2[b] == e[b]); }
            } else {
                let ea = if a - 1 < i { a - 1 } else { a };
                let eb = if b - 1 < i { b - 1 } else { b };
                assert(s2[a] == e[ea] && s2[b] == e[eb]);
            }
        }
        let r = e.remove(i);
        assert forall|a: int, b: int| 0 <= a < b < r.len() implies #[trigger] r[a].0 != #[trigger] r[b].0 by {
            let ea = if a < i { a } else { a + 1 };
            let eb = if b < i { b } else { b + 1 };
            assert(r[a] == e[ea] && r[b] == e[eb]);
        }
    } else {
        let s2 = if e.len() == cap { seq![(k, v)] + e.drop_last() } else { seq![(k, v)] + e };
        assert forall|a: int, b: int| 0 <= a < b < s2.len() implies #[trigger] s2[a].0 != #[trigger] s2[b].0 by {
            if a == 0 {
                assert(s2[b] == e[b - 1]);
            } else {
                assert(s2[a] == e[a - 1] && s2[b] == e[b - 1]);
            }
        }
        assert(touched(e, k) == e);
        assert(removed(e, k) == e);
    }
}

/// Cache statistics.
#[derive(Debug, Clone, Copy)]
pub struct CacheStats {
    /// Number of cache hits
    pub hits: u64,
    /// Number of cache misses
    pub misses: u64,
    /// Current number of items in cache
    pub size: usize,
    /// Cache capacity
    pub capacity: usize,
}

/// In-memory LRU cache for blocks, keyed by CID, counting hits and misses.
pub struct BlockCache {
    cache: lru::LruCache<Vec<u8>, Block>,
    capacity: usize,
    hits: u64,
    misses: u64,
}

/// The state of a block cache: its entries (most recently used first), the
/// capacity it enforces, the capacity it reports, and its hit and miss counts.
pub struct CacheState {
    pub entries: Seq<(Seq<u8>, (Seq<u8>, Seq<u8>))>,
    pub limit: nat,
    pub capacity: usize,
    pub hits: u64,
    pub misses: u64,
}

impl View for BlockCache {
    type V = CacheState;

    closed spec fn view(&self) -> CacheState {
        CacheState {
            entries: lru_entries(self.cache),
            limit: lru_capacity(self.cache),
            capacity: self.capacity,
            hits: self.hits,
            misses: self.misses,
        }
    }
}

/// The capacity a cache enforces when asked for `capacity` blocks: 1000 for zero.
pub open spec fn effective_capacity(capacity: usize) -> nat {
    if capacity == 0 { 1000 } else { capacity as nat }
}

impl BlockCache {
    /// Keys are distinct and within the enforced capacity, which is positive.
    pub open spec fn wf(&self) -> bool {
        self@.limit > 0 && lru_ok(self@.entries, self@.limit)
    }

    /// Create a new LRU cache holding at most `capacity` blocks (1000 when zero).
    pub fn new(capacity: usize) -> (r: Self)
        ensures
            r.wf(), r@.entries.len() == 0, r@.limit == effective_capacity(capacity), r@.capacity == capacity,
            r@.hits == 0, r@.misses == 0,
    {
        let cap = if capacity == 0 { 1000 } else { capacity };
        BlockCache { cache: lru_new(cap), capacity, hits: 0, misses: 0 }
    }

    /// Get a block from cache: a hit makes it the most recently used; hits
    /// and misses are counted (wrapping).
    pub fn get(&mut self, cid: &Cid) -> (r: Option<Block>)
        requires old(self).wf(),
        ensures
            final(self).wf(),
            final(self)@.entries == touched(old(self)@.entries, cid@),
            final(self)@.limit == old(self)@.limit, final(self)@.capacity == old(self)@.capacity,
            match r {
                Some(b) => entry_value(old(self)@.entries, cid@) == Some(b@)
                    && final(self)@.hits == old(self)@.hits.wrapping_add(1) && final(self)@.misses == old(self)@.misses,
                None => entry_value(old(self)@.entries, cid@) is None
                    && final(self)@.misses == old(self)@.misses.wrapping_add(1) && final(self)@.hits == old(self)@.hits,
            },
    {
        proof { lemma_lru_ok_kept(self@.entries, self@.limit, cid@, (Seq::empty(), Seq::empty())); }
        let result = lru_get(&mut self.cache, &cid.bytes);
        if result.is_some() {
            self.hits = self.hits.wrapping_add(1);
        } else {
            self.misses = self.misses.wrapping_add(1);
        }
        result
    }

    /// The cached block for `cid`, if any, leaving recency and counts alone.
    pub fn peek(&self, cid: &Cid) -> (r: Option<Block>)
        ensures
            match r {
                Some(b) => entry_value(self@.entries, cid@) == Some(b@),
                None => entry_value(self@.entries, cid@) is None,
            },
    {
        lru_peek(&self.cache, &cid.bytes)
    }

    /// Whether a block for `cid` is cached, leaving recency and counts alone.
    pub fn contains(&self, cid: &Cid) -> (r: bool)
        ensures r == (entry_value(self@.entries, cid@) is Some),
    {
        lru_contains(&self.cache, &cid.bytes)
    }

    /// Put a block into cache as the most recently used, under its CID.
    pub fn put(&mut self, block: Block)
        requires old(self).wf(),
        ensures
            final(self).wf(),
            final(self)@ == (CacheState { entries: stored(old(self)@.entries, old(self)@.limit, block.cid@, block@), ..old(self)@ }),
    {
        proof { lemma_lru_ok_kept(self@.entries, self@.limit, block.cid@, block@); }
        let key = block.cid.bytes.clone();
        lru_put(&mut self.cache, key, block);
    }

    /// Remove a block from cache.
    pub fn remove(&mut self, cid: &Cid)
        requires old(self).wf(),
        ensures
            final(self).wf(),
            final(self)@ == (CacheState { entries: removed(old(self)@.entries, cid@), ..old(self)@ }),
    {
        proof { lemma_lru_ok_kept(self@.entries, self@.limit, cid@, (Seq::empty(), Seq::empty())); }
        lru_pop(&mut self.cache, &cid.bytes);
    }

    /// Clear the cache and its counts.
    pub fn clear(&mut self)
        requires old(self).wf(),
        ensures
            final(self).wf(),
            final(self)@ == (CacheState { entries: Seq::empty(), hits: 0, misses: 0, ..old(self)@ }),
    {
        lru_clear(&mut self.cache);
        assert(lru_entries(self.cache) =~= Seq::empty());
        self.hits = 0;
        self.misses = 0;
    }

    /// Get cache statistics.
    pub fn stats(&self) -> (r: CacheStats)
        ensures r.hits == self@.hits, r.misses == self@.misses, r.size == self@.entries.len(), r.capacity == self@.capacity,
    {
        CacheStats { hits: self.hits, misses: self.misses, size: lru_len(&self.cache), capacity: self.capacity }
    }

    /// Number of cached blocks.
    pub fn len(&self) -> (r: usize)
        ensures r == self@.entries.len(),
    {
        lru_len(&self.cache)
    }

    /// Whether no block is cached.
    pub fn is_empty(&self) -> (r: bool)
        ensures r == (self@.entries.len() == 0),
    {
        lru_len(&self.cache) == 0
    }
}

/// A block just stored is found by its CID, as stored.
pub proof fn lemma_put_then_get(e: Seq<(Seq<u8>, (Seq<u8>, Seq<u8>))>, cap: nat, k: Seq<u8>, v: (Seq<u8>, Seq<u8>))
    requires lru_ok(e, cap), cap > 0,
    ensures
        entry_value(stored(e, cap, k, v), k) == Some(v),
        touched(stored(e, cap, k, v), k) == stored(e, cap, k, v),
{
    let s = stored(e, cap, k, v);
    lemma_entry_pos_at(s, k, 0);
    lemma_entry_pos(e, k);
    let i = entry_pos(e, k);
    assert(s[0] == (k, v));
    assert(seq![s[0]] + s.remove(0) =~= s);
}

/// A removed block is no longer found.
pub proof fn lemma_remove_then_miss(e: Seq<(Seq<u8>, (Seq<u8>, Seq<u8>))>, cap: nat, k: Seq<u8>)
    requires lru_ok(e, cap), cap > 0,
    ensures entry_value(removed(e, k), k) is None,
{
    lemma_entry_pos(e, k);
    lemma_lru_ok_kept(e, cap, k, (Seq::empty(), Seq::empty()));
    let r = removed(e, k);
    let i = entry_pos(e, k);
    lemma_entry_pos(r, k);
    if entry_pos(r, k) >= 0 {
        let p = entry_pos(r, k);
        if i >= 0 {
            let ep = if p < i { p } else { p + 1 };
            assert(r[p] == e[ep]);
        } else {
            assert(r[p] == e[p]);
        }
    }
}

/// Statistics for the tiered cache.
#[derive(Debug, Clone, Copy)]
pub struct TieredCacheStats {
    /// Current L1 cache size
    pub l1_size: usize,
    /// L1 cache capacity
    pub l1_capacity: usize,
    /// Current L2 cache size
    pub l2_size: usize,
    /// L2 cache capacity
    pub l2_capacity: usize,
    /// L1 cache hits
    pub l1_hits: u64,
    /// L2 cache hits
    pub l2_hits: u64,
    /// Total misses
    pub misses: u64,
}

/// Multi-level cache with a hot (L1) and a warm (L2) tier: reads try L1,
/// then L2 (promoting a hit to L1); writes go to L1, and what L1 gives up
/// moves to L2.
pub struct TieredBlockCache {
    l1_cache: lru::LruCache<Vec<u8>, Block>,
    l2_cache: lru::LruCache<Vec<u8>, Block>,
    l1_capacity: usize,
    l2_capacity: usize,
    l1_hits: u64,
    l2_hits: u64,
    misses: u64,
}

/// The state of a tiered cache.
pub struct TieredState {
    pub l1: Seq<(Seq<u8>, (Seq<u8>, Seq<u8>))>,
    pub l2: Seq<(Seq<u8>, (Seq<u8>, Seq<u8>))>,
    pub l1_limit: nat,
    pub l2_limit: nat,
    pub l1_capacity: usize,
    pub l2_capacity: usize,
    pub l1_hits: u64,
    pub l2_hits: u64,
    pub misses: u64,
}

impl View for TieredBlockCache {
    type V = TieredState;

    closed spec fn view(&self) -> TieredState {
        TieredState {
            l1: lru_entries(self.l1_cache),
            l2: lru_entries(self.l2_cache),
            l1_limit: lru_capacity(self.l1_cache),
            l2_limit: lru_capacity(self.l2_cache),
            l1_capacity: self.l1_capacity,
            l2_capacity: self.l2_capacity,
            l1_hits: self.l1_hits,
            l2_hits: self.l2_hits,
            misses: self.misses,
        }
    }
}

/// What L2 holds after `v` is written under `k` to a tiered cache with hot
/// entries `l1` (limit `cap1`) and warm entries `l2` (limit `cap2`): the
/// entry L1 gives up, if any, stored in L2. That is the old value of `k`
/// when L1 held it, else L1's least recently used entry when L1 was full.
pub open spec fn demoted(l1: Seq<(Seq<u8>, (Seq<u8>, Seq<u8>))>, cap1: nat, l2: Seq<(Seq<u8>, (Seq<u8>, Seq<u8>))>, cap2: nat, k: Seq<u8>) -> Seq<(Seq<u8>, (Seq<u8>, Seq<u8>))> {
    let i = entry_pos(l1, k);
    if i >= 0 {
        stored(l2, cap2, k, l1[i].1)
    } else if l1.len() == cap1 && l1.len() > 0 {
        stored(l2, cap2, l1.last().0, l1.last().1)
    } else {
        l2
    }
}

impl TieredBlockCache {
    /// Both tiers keep keys distinct and within their positive limits.
    pub open spec fn wf(&self) -> bool {
        &&& self@.l1_limit > 0 && lru_ok(self@.l1, self@.l1_limit)
        &&& self@.l2_limit > 0 && lru_ok(self@.l2, self@.l2_limit)
    }

    /// Create a new tiered cache holding `l1_capacity` hot blocks (100 when
    /// zero) and `l2_capacity` warm blocks (1000 when zero).
    pub fn new(l1_capacity: usize, l2_capacity: usize) -> (r: Self)
        ensures
            r.wf(), r@.l1.len() == 0, r@.l2.len() == 0,
            r@.l1_limit == (if l1_capacity == 0 { 100 } else { l1_capacity as nat }),
            r@.l2_limit == (if l2_capacity == 0 { 1000 } else { l2_capacity as nat }),
            r@.l1_capacity == l1_capacity, r@.l2_capacity == l2_capacity,
            r@.l1_hits == 0, r@.l2_hits == 0, r@.misses == 0,
    {
        let c1 = if l1_capacity == 0 { 100 } else { l1_capacity };
        let c2 = if l2_capacity == 0 { 1000 } else { l2_capacity };
        TieredBlockCache {
            l1_cache: lru_new(c1),
            l2_cache: lru_new(c2),
            l1_capacity,
            l2_capacity,
            l1_hits: 0,
            l2_hits: 0,
            misses: 0,
        }
    }

    /// Get a block: from L1 (an L1 hit), else from L2 (an L2 hit, and the
    /// block is copied into L1), else a miss. Counts wrap.
    pub fn get(&mut self, cid: &Cid) -> (r: Option<Block>)
        requires old(self).wf(),
        ensures
            final(self).wf(),
            final(self)@.l1_limit == old(self)@.l1_limit, final(self)@.l2_limit == old(self)@.l2_limit,
            final(self)@.l1_capacity == old(self)@.l1_capacity, final(self)@.l2_capacity == old(self)@.l2_capacity,
            match entry_value(old(self)@.l1, cid@) {
                Some(v) => r matches Some(b) && b@ == v
                    && final(self)@.l1 == touched(old(self)@.l1, cid@) && final(self)@.l2 == old(self)@.l2
                    && final(self)@.l1_hits == old(self)@.l1_hits.wrapping_add(1)
                    && final(self)@.l2_hits == old(self)@.l2_hits && final(self)@.misses == old(self)@.misses,
                None => match entry_value(old(self)@.l2, cid@) {
                    Some(v) => r matches Some(b) && b@ == v
                        && final(self)@.l2 == touched(old(self)@.l2, cid@)
                        && final(self)@.l1 == stored(old(self)@.l1, old(self)@.l1_limit, cid@, v)
                        && final(self)@.l2_hits == old(self)@.l2_hits.wrapping_add(1)
                        && final(self)@.l1_hits == old(self)@.l1_hits && final(self)@.misses == old(self)@.misses,
                    None => r is None && final(self)@.l1 == old(self)@.l1 && final(self)@.l2 == old(self)@.l2
                        && final(self)@.misses == old(self)@.misses.wrapping_add(1)
                        && final(self)@.l1_hits == old(self)@.l1_hits && final(self)@.l2_hits == old(self)@.l2_hits,
                },
            },
    {
        let ghost e1 = self@.l1;
        let ghost e2 = self@.l2;
        proof {
            lemma_entry_pos(e1, cid@);
            lemma_entry_pos(e2, cid@);
            lemma_lru_ok_kept(e1, self@.l1_limit, cid@, (Seq::empty(), Seq::empty()));
            lemma_lru_ok_kept(e2, self@.l2_limit, cid@, (Seq::empty(), Seq::empty()));
        }
        if let Some(block) = lru_get(&mut self.l1_cache, &cid.bytes) {
            self.l1_hits = self.l1_hits.wrapping_add(1);
            return Some(block);
        }
        if let Some(block) = lru_get(&mut self.l2_cache, &cid.bytes) {
            self.l2_hits = self.l2_hits.wrapping_add(1);
            proof { lemma_lru_ok_kept(e1, self@.l1_limit, cid@, block@); }
            let copy = block.clone();
            lru_put(&mut self.l1_cache, cid.bytes.clone(), copy);
            return Some(block);
        }
        self.misses = self.misses.wrapping_add(1);
        None
    }

    /// Put a block into L1; the entry L1 gives up (the block's old value, or
    /// L1's least recently used entry when full) moves to L2.
    pub fn put(&mut self, block: Block)
        requires old(self).wf(),
        ensures
            final(self).wf(),
            final(self)@ == (TieredState {
                l1: stored(old(self)@.l1, old(self)@.l1_limit, block.cid@, block@),
                l2: demoted(old(self)@.l1, old(self)@.l1_limit, old(self)@.l2, old(self)@.l2_limit, block.cid@),
                ..old(self)@
            }),
    {
        let ghost e1 = self@.l1;
        let ghost e2 = self@.l2;
        let ghost k = block.cid@;
        proof {
            lemma_entry_pos(e1, k);
            lemma_lru_ok_kept(e1, self@.l1_limit, k, block@);
        }
        let key = block.cid.bytes.clone();
        match lru_push(&mut self.l1_cache, key, block) {
            Some((ek, eb)) => {
                proof { lemma_lru_ok_kept(e2, self@.l2_limit, ek@, eb@); }
                lru_put(&mut self.l2_cache, ek, eb);
            },
            None => {},
        }
    }

    /// Remove a block from both tiers.
    pub fn remove(&mut self, cid: &Cid)
        requires old(self).wf(),
        ensures
            final(self).wf(),
            final(self)@ == (TieredState { l1: removed(old(self)@.l1, cid@), l2: removed(old(self)@.l2, cid@), ..old(self)@ }),
    {
        proof {
            lemma_lru_ok_kept(self@.l1, self@.l1_limit, cid@, (Seq::empty(), Seq::empty()));
            lemma_lru_ok_kept(self@.l2, self@.l2_limit, cid@, (Seq::empty(), Seq::empty()));
        }
        lru_pop(&mut self.l1_cache, &cid.bytes);
        lru_pop(&mut self.l2_cache, &cid.bytes);
    }

    /// Clear both tiers and the counts.
    pub fn clear(&mut self)
        requires old(self).wf(),
        ensures
            final(self).wf(),
            final(self)@ == (TieredState { l1: Seq::empty(), l2: Seq::empty(), l1_hits: 0, l2_hits: 0, misses: 0, ..old(self)@ }),
    {
        lru_clear(&mut self.l1_cache);
        lru_clear(&mut self.l2_cache);
        assert(lru_entries(self.l1_cache) =~= Seq::empty());
        assert(lru_entries(self.l2_cache) =~= Seq::empty());
        self.l1_hits = 0;
        self.l2_hits = 0;
        self.misses = 0;
    }

    /// Get cache statistics.
    pub fn stats(&self) -> (r: TieredCacheStats)
        ensures
            r.l1_size == self@.l1.len(), r.l1_capacity == self@.l1_capacity,
            r.l2_size == self@.l2.len(), r.l2_capacity == self@.l2_capacity,
            r.l1_hits == self@.l1_hits, r.l2_hits == self@.l2_hits, r.misses == self@.misses,
    {
        TieredCacheStats {
            l1_size: lru_len(&self.l1_cache),
            l1_capacity: self.l1_capacity,
            l2_size: lru_len(&self.l2_cache),
            l2_capacity: self.l2_capacity,
            l1_hits: self.l1_hits,
            l2_hits: self.l2_hits,
            misses: self.misses,
        }
    }
}

/// In the tiered cache, the entry the hot tier gives up on a write is then
/// found in the warm tier.
pub proof fn lemma_demoted_kept(l1: Seq<(Seq<u8>, (Seq<u8>, Seq<u8>))>, cap1: nat, l2: Seq<(Seq<u8>, (Seq<u8>, Seq<u8>))>, cap2: nat, k: Seq<u8>)
    requires lru_ok(l1, cap1), lru_ok(l2, cap2), cap1 > 0, cap2 > 0,
    ensures
        entry_pos(l1, k) >= 0 ==> entry_value(demoted(l1, cap1, l2, cap2, k), k) == entry_value(l1, k),
        entry_pos(l1, k) < 0 && l1.len() == cap1 ==>
            entry_value(demoted(l1, cap1, l2, cap2, k), l1.last().0) == Some(l1.last().1),
{
    lemma_entry_pos(l1, k);
    let i = entry_pos(l1, k);
    if i >= 0 {
        lemma_put_then_get(l2, cap2, k, l1[i].1);
    } else if l1.len() == cap1 {
        lemma_put_then_get(l2, cap2, l1.last().0, l1.last().1);
    }
}

} // verus!
