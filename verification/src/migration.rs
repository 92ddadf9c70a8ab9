//! Storage migration between block stores: the batching, the choice of
//! blocks to copy and the accounting are decided here; the caller performs
//! the store operations in between.
use vstd::prelude::*;
use crate::cid::{Block, Cid};
use core::time::Duration;

verus! {

/// Migration configuration.
#[derive(Debug, Clone, Copy)]
pub struct MigrationConfig {
    /// Batch size for bulk operations
    pub batch_size: usize,
    /// Whether to skip blocks that already exist in destination
    pub skip_existing: bool,
    /// Whether to verify each block after migration
    pub verify: bool,
    /// Maximum number of concurrent operations
    pub concurrency: usize,
}

impl Default for MigrationConfig {
    fn default() -> (r: Self)
        ensures r.batch_size == 100, r.skip_existing, !r.verify, r.concurrency == 4,
    {
        MigrationConfig { batch_size: 100, skip_existing: true, verify: false, concurrency: 4 }
    }
}

/// Storage migrator from a source store to a destination store, with a
/// configuration and an optional progress callback of type `P` (called with
/// the blocks migrated so far and the total).
pub struct StorageMigrator<S, D, P> {
    source: std::sync::Arc<S>,
    destination: std::sync::Arc<D>,
    config: MigrationConfig,
    progress_callback: Option<P>,
}

impl<S, D, P> StorageMigrator<S, D, P> {
    /// The configuration.
    pub closed spec fn config_spec(&self) -> MigrationConfig {
        self.config
    }

    /// Whether a progress callback is set.
    pub closed spec fn has_callback(&self) -> bool {
        self.progress_callback is Some
    }

    /// The source and destination stores.
    pub closed spec fn stores(&self) -> (std::sync::Arc<S>, std::sync::Arc<D>) {
        (self.source, self.destination)
    }

    /// Create a new migrator with the default configuration and no callback.
    pub fn new(source: std::sync::Arc<S>, destination: std::sync::Arc<D>) -> (r: Self)
        ensures
            r.config_spec().batch_size == 100, r.config_spec().skip_existing, !r.config_spec().verify,
            r.config_spec().concurrency == 4, !r.has_callback(), r.stores() == (source, destination),
    {
        StorageMigrator { source, destination, config: MigrationConfig::default(), progress_callback: None }
    }

    /// Create with custom configuration and no callback.
    pub fn with_config(source: std::sync::Arc<S>, destination: std::sync::Arc<D>, config: MigrationConfig) -> (r: Self)
        ensures r.config_spec() == config, !r.has_callback(), r.stores() == (source, destination),
    {
        StorageMigrator { source, destination, config, progress_callback: None }
    }

    /// Set progress callback.
    pub fn with_progress_callback<F>(self, callback: F) -> (r: StorageMigrator<S, D, F>)
        ensures r.config_spec() == self.config_spec(), r.has_callback(), r.stores() == self.stores(),
    {
        StorageMigrator { source: self.source, destination: self.destination, config: self.config, progress_callback: Some(callback) }
    }

    /// The source store.
    pub fn source(&self) -> (r: &std::sync::Arc<S>)
        ensures *r == self.stores().0,
    {
        &self.source
    }

    /// The destination store.
    pub fn destination(&self) -> (r: &std::sync::Arc<D>)
        ensures *r == self.stores().1,
    {
        &self.destination
    }

    /// The configuration.
    pub fn config(&self) -> (r: MigrationConfig)
        ensures r == self.config_spec(),
    {
        self.config
    }

    /// The progress callback, if any.
    pub fn progress_callback(&self) -> (r: &Option<P>)
        ensures r is Some <==> self.has_callback(),
    {
        &self.progress_callback
    }
}

/// `s` cut into consecutive pieces of `b` elements, the last one possibly shorter.
pub open spec fn chunks<A>(s: Seq<A>, b: nat) -> Seq<Seq<A>>
    decreases s.len(),
{
    if b == 0 || s.len() == 0 {
        Seq::empty()
    } else if s.len() <= b {
        seq![s]
    } else {
        seq![s.subrange(0, b as int)] + chunks(s.subrange(b as int, s.len() as int), b)
    }
}

/// The binary forms of a list of CIDs.
pub open spec fn cids_view(s: Seq<Cid>) -> Seq<Seq<u8>> {
    s.map_values(|c: Cid| c@)
}

pub open spec fn batches_view(s: Seq<Vec<Cid>>) -> Seq<Seq<Seq<u8>>> {
    s.map_values(|v: Vec<Cid>| cids_view(v@))
}

/// Copies `cids[from..to]`.
fn copy_range(cids: &Vec<Cid>, from: usize, to: usize) -> (r: Vec<Cid>)
    requires from <= to <= cids@.len(),
    ensures cids_view(r@) == cids_view(cids@).subrange(from as int, to as int),
{
    let mut r: Vec<Cid> = Vec::new();
    let mut i = from;
    while i < to
        invariant from <= i <= to, to <= cids@.len(), cids_view(r@) == cids_view(cids@).subrange(from as int, i as int),
        decreases to - i,
    {
        let c = cids[i].clone();
        assert(c@ == cids_view(cids@)[i as int]);
        let ghost before = cids_view(r@);
        r.push(c);
        assert(cids_view(r@) =~= before.push(c@));
        assert(cids_view(r@) =~= cids_view(cids@).subrange(from as int, i + 1));
        i += 1;
    }
    r
}

/// The batches of a migration: `cids` in consecutive batches of `batch_size`.
pub fn batches(cids: &Vec<Cid>, batch_size: usize) -> (r: Vec<Vec<Cid>>)
    requires batch_size > 0,
    ensures batches_view(r@) == chunks(cids_view(cids@), batch_size as nat),
{
    let ghost cv = cids_view(cids@);
    let n = cids.len();
    let mut r: Vec<Vec<Cid>> = Vec::new();
    let mut start: usize = 0;
    assert(cv.subrange(0, n as int) =~= cv);
    while start < n
        invariant
            start <= n, n == cv.len(), cv == cids_view(cids@), batch_size > 0,
            batches_view(r@) + chunks(cv.subrange(start as int, n as int), batch_size as nat) == chunks(cv, batch_size as nat),
        decreases n - start,
    {
        let ghost rest = cv.subrange(start as int, n as int);
        let end = if n - start <= batch_size { n } else { start + batch_size };
        let piece = copy_range(cids, start, end);
        let ghost before = batches_view(r@);
        r.push(piece);
        assert(batches_view(r@) =~= before.push(cv.subrange(start as int, end as int)));
        if n - start > batch_size {
            assert(rest.subrange(0, batch_size as int) =~= cv.subrange(start as int, end as int));
            assert(rest.subrange(batch_size as int, rest.len() as int) =~= cv.subrange(end as int, n as int));
            assert(before.push(cv.subrange(start as int, end as int)) + chunks(cv.subrange(end as int, n as int), batch_size as nat)
                =~= before + chunks(rest, batch_size as nat));
        } else {
            assert(rest =~= cv.subrange(start as int, end as int));
            assert(cv.subrange(end as int, n as int) =~= Seq::<Seq<u8>>::empty());
            assert(before.push(cv.subrange(start as int, end as int)) + chunks(cv.subrange(end as int, n as int), batch_size as nat)
                =~= before + chunks(rest, batch_size as nat));
        }
        start = end;
    }
    assert(cv.subrange(n as int, n as int) =~= Seq::<Seq<u8>>::empty());
    assert(batches_view(r@) + Seq::<Seq<Seq<u8>>>::empty() =~= batches_view(r@));
    r
}

/// The concatenation of a list of lists.
pub open spec fn flatten<A>(s: Seq<Seq<A>>) -> Seq<A>
    decreases s.len(),
{
    if s.len() == 0 { Seq::empty() } else { s[0] + flatten(s.drop_first()) }
}

/// Batching loses and repeats nothing: the batches, in order, hold exactly
/// the CIDs; each batch is nonempty and holds at most `b`.
pub proof fn lemma_chunks_partition<A>(s: Seq<A>, b: nat)
    requires b > 0,
    ensures
        flatten(chunks(s, b)) == s,
        forall|k: int| 0 <= k < chunks(s, b).len() ==> 0 < #[trigger] chunks(s, b)[k].len() <= b,
    decreases s.len(),
{
    if s.len() == 0 {
    } else if s.len() <= b {
        assert(chunks(s, b).drop_first() =~= Seq::<Seq<A>>::empty());
        assert(flatten(Seq::<Seq<A>>::empty()) == Seq::<A>::empty());
        assert(s + Seq::<A>::empty() =~= s);
    } else {
        let rest = s.subrange(b as int, s.len() as int);
        lemma_chunks_partition(rest, b);
        let c = chunks(s, b);
        assert(c.drop_first() =~= chunks(rest, b));
        assert(c[0] == s.subrange(0, b as int));
        assert(flatten(c) == c[0] + flatten(c.drop_first()));
        assert(s.subrange(0, b as int) + rest =~= s);
        assert forall|k: int| 0 <= k < c.len() implies 0 < #[trigger] c[k].len() <= b by {
            if k > 0 { assert(c[k] == chunks(rest, b)[k - 1]); }
        }
    }
}

/// The running totals of a migration; like atomic counters, they wrap
/// around on overflow.
#[derive(Debug, Clone, Copy)]
pub struct MigrationTally {
    /// Total blocks migrated
    pub blocks_migrated: u64,
    /// Total bytes migrated
    pub bytes_migrated: u64,
    /// Number of blocks skipped (already present in destination)
    pub blocks_skipped: u64,
    /// Number of errors encountered
    pub errors: u64,
}

/// The CIDs among the first `k` of a batch that the destination lacks.
pub open spec fn missing_upto(batch: Seq<Seq<u8>>, exists: Seq<bool>, k: nat) -> Seq<Seq<u8>>
    decreases k,
{
    if k == 0 {
        Seq::empty()
    } else {
        let p = missing_upto(batch, exists, (k - 1) as nat);
        if exists[k - 1] { p } else { p.push(batch[k - 1]) }
    }
}

/// The count, wrapping, of `true` answers among the first `k`, added to `start`.
pub open spec fn present_upto(start: u64, exists: Seq<bool>, k: nat) -> u64
    decreases k,
{
    if k == 0 { start } else {
        let p = present_upto(start, exists, (k - 1) as nat);
        if exists[k - 1] { p.wrapping_add(1) } else { p }
    }
}

/// The count, wrapping, of `false` answers among the first `k`, added to `start`.
pub open spec fn absent_upto(start: u64, answers: Seq<bool>, k: nat) -> u64
    decreases k,
{
    if k == 0 { start } else {
        let p = absent_upto(start, answers, (k - 1) as nat);
        if answers[k - 1] { p } else { p.wrapping_add(1) }
    }
}

/// The blocks found among the first `k` lookups.
pub open spec fn found_upto(found: Seq<Option<Block>>, k: nat) -> Seq<Block>
    decreases k,
{
    if k == 0 { Seq::empty() } else {
        let p = found_upto(found, (k - 1) as nat);
        match found[k - 1] { Some(b) => p.push(b), None => p }
    }
}

/// `start` plus, wrapping, the sizes of the blocks found among the first `k` lookups.
pub open spec fn bytes_upto(start: u64, found: Seq<Option<Block>>, k: nat) -> u64
    decreases k,
{
    if k == 0 { start } else {
        let p = bytes_upto(start, found, (k - 1) as nat);
        match found[k - 1] { Some(b) => p.wrapping_add(b.data@.len() as u64), None => p }
    }
}

/// `start` plus, wrapping, the number of lookups among the first `k` that found nothing.
pub open spec fn misses_upto(start: u64, found: Seq<Option<Block>>, k: nat) -> u64
    decreases k,
{
    if k == 0 { start } else {
        let p = misses_upto(start, found, (k - 1) as nat);
        match found[k - 1] { Some(_) => p, None => p.wrapping_add(1) }
    }
}

pub open spec fn min_len(a: nat, b: nat) -> nat {
    if a <= b { a } else { b }
}

impl MigrationTally {
    /// All totals zero.
    pub fn new() -> (r: Self)
        ensures r.blocks_migrated == 0, r.bytes_migrated == 0, r.blocks_skipped == 0, r.errors == 0,
    {
        MigrationTally { blocks_migrated: 0, bytes_migrated: 0, blocks_skipped: 0, errors: 0 }
    }

    /// The CIDs of a batch to copy. With `skip_existing`, each CID is paired
    /// with the destination's answer in order, as far as both lists go; those
    /// present are counted as skipped and the others returned. Otherwise the
    /// whole batch.
    pub fn select_missing(&mut self, batch: &Vec<Cid>, exists: &Vec<bool>, skip_existing: bool) -> (r: Vec<Cid>)
        ensures
            skip_existing ==> {
                let k = min_len(batch@.len(), exists@.len());
                &&& cids_view(r@) == missing_upto(cids_view(batch@), exists@, k)
                &&& *final(self) == (MigrationTally { blocks_skipped: present_upto(old(self).blocks_skipped, exists@, k), ..*old(self) })
            },
            !skip_existing ==> cids_view(r@) == cids_view(batch@) && *final(self) == *old(self),
    {
        if !skip_existing {
            return copy_range(batch, 0, batch.len());
        }
        let ghost bv = cids_view(batch@);
        let n = if batch.len() <= exists.len() { batch.len() } else { exists.len() };
        let ghost start = *self;
        let mut r: Vec<Cid> = Vec::new();
        let mut i: usize = 0;
        while i < n
            invariant
                i <= n, n <= batch@.len(), n <= exists@.len(), bv == cids_view(batch@),
                cids_view(r@) == missing_upto(bv, exists@, i as nat),
                *self == (MigrationTally { blocks_skipped: present_upto(start.blocks_skipped, exists@, i as nat), ..start }),
            decreases n - i,
        {
            if exists[i] {
                self.blocks_skipped = self.blocks_skipped.wrapping_add(1);
            } else {
                let ghost before = cids_view(r@);
                r.push(batch[i].clone());
                assert(cids_view(r@) =~= before.push(bv[i as int]));
            }
            i += 1;
        }
        r
    }

    /// The blocks the source returned, in order; their sizes are added to
    /// the bytes migrated and each lookup that found nothing is an error.
    pub fn collect_found(&mut self, found: Vec<Option<Block>>) -> (r: Vec<Block>)
        ensures
            r@ == found_upto(found@, found@.len()),
            *final(self) == (MigrationTally {
                bytes_migrated: bytes_upto(old(self).bytes_migrated, found@, found@.len()),
                errors: misses_upto(old(self).errors, found@, found@.len()),
                ..*old(self)
            }),
    {
        let ghost fv = found@;
        let ghost start = *self;
        let mut found = found;
        let mut r: Vec<Block> = Vec::new();
        let mut i: usize = 0;
        let n = found.len();
        while i < n
            invariant
                i <= n, n == fv.len(), found@ == fv.subrange(i as int, n as int),
                r@ == found_upto(fv, i as nat),
                *self == (MigrationTally {
                    bytes_migrated: bytes_upto(start.bytes_migrated, fv, i as nat),
                    errors: misses_upto(start.errors, fv, i as nat),
                    ..start
                }),
            decreases n - i,
        {
            let item = found.remove(0);
            assert(item == fv[i as int]);
            assert(found@ =~= fv.subrange(i + 1, n as int));
            match item {
                Some(block) => {
                    self.bytes_migrated = self.bytes_migrated.wrapping_add(block.data.len() as u64);
                    r.push(block);
                },
                None => {
                    self.errors = self.errors.wrapping_add(1);
                },
            }
            i += 1;
        }
        r
    }

    /// Accounts for writing `count` blocks to the destination: all migrated
    /// when the write succeeded, all errors when it failed.
    pub fn record_put(&mut self, count: usize, ok: bool)
        ensures
            ok ==> *final(self) == (MigrationTally { blocks_migrated: old(self).blocks_migrated.wrapping_add(count as u64), ..*old(self) }),
            !ok ==> *final(self) == (MigrationTally { errors: old(self).errors.wrapping_add(count as u64), ..*old(self) }),
    {
        if ok {
            self.blocks_migrated = self.blocks_migrated.wrapping_add(count as u64);
        } else {
            self.errors = self.errors.wrapping_add(count as u64);
        }
    }

    /// Accounts for the verification answers: each block the destination
    /// lacks after the write is an error.
    pub fn record_verify(&mut self, present: &Vec<bool>)
        ensures *final(self) == (MigrationTally { errors: absent_upto(old(self).errors, present@, present@.len()), ..*old(self) }),
    {
        let ghost start = *self;
        let mut i: usize = 0;
        while i < present.len()
            invariant i <= present.len(), *self == (MigrationTally { errors: absent_upto(start.errors, present@, i as nat), ..start }),
            decreases present.len() - i,
        {
            if !present[i] {
                self.errors = self.errors.wrapping_add(1);
            }
            i += 1;
        }
    }
}

/// A CID of a batch is either skipped or selected for copying, as far as the
/// destination answered: the skipped count grows by the number of present
/// answers and the selection holds the rest.
pub proof fn lemma_select_accounts(batch: Seq<Seq<u8>>, exists: Seq<bool>, k: nat, skipped: u64)
    requires k <= batch.len(), k <= exists.len(), skipped as int + k <= u64::MAX,
    ensures present_upto(skipped, exists, k) - skipped + missing_upto(batch, exists, k).len() == k,
    decreases k,
{
    if k > 0 {
        lemma_select_accounts(batch, exists, (k - 1) as nat, skipped);
        lemma_present_bound(skipped, exists, (k - 1) as nat);
    }
}

proof fn lemma_present_bound(start: u64, exists: Seq<bool>, k: nat)
    requires start as int + k <= u64::MAX,
    ensures start <= present_upto(start, exists, k) <= start + k,
    decreases k,
{
    if k > 0 { lemma_present_bound(start, exists, (k - 1) as nat); }
}

/// The `Duration` of `s` seconds, as `Duration::from_secs` makes it.
pub uninterp spec fn secs_duration(s: u64) -> Duration;

/// `Duration::from_secs`: the duration of `s` seconds (named).
#[verifier::external_body]
fn duration_from_secs(s: u64) -> (d: Duration)
    ensures d == secs_duration(s),
{
    Duration::from_secs(s)
}

/// Estimate migration time and space requirements.
#[derive(Debug, Clone)]
pub struct MigrationEstimate {
    /// Total blocks to migrate
    pub total_blocks: usize,
    /// Total bytes to migrate
    pub total_bytes: u64,
    /// Estimated duration at 100 blocks/sec
    pub estimated_duration_low: Duration,
    /// Estimated duration at 1000 blocks/sec
    pub estimated_duration_high: Duration,
    /// Space required in destination
    pub space_required: u64,
}

/// How many of the first blocks are sampled for the average size: at most 100.
pub fn sample_size(total_blocks: usize) -> (r: usize)
    ensures r == if total_blocks <= 100 { total_blocks } else { 100 },
{
    if total_blocks <= 100 { total_blocks } else { 100 }
}

/// The sum of the sizes of the blocks found among the first `k` lookups.
pub open spec fn sample_bytes(found: Seq<Option<Block>>, k: nat) -> int
    decreases k,
{
    if k == 0 { 0 } else {
        sample_bytes(found, (k - 1) as nat) + match found[k - 1] { Some(b) => b.data@.len() as int, None => 0 }
    }
}

proof fn lemma_sample_bytes_mono(found: Seq<Option<Block>>, a: nat, b: nat)
    requires a <= b <= found.len(),
    ensures 0 <= sample_bytes(found, a) <= sample_bytes(found, b),
    decreases b - a,
{
    if a < b { lemma_sample_bytes_mono(found, a, (b - 1) as nat); }
    else if a > 0 { lemma_sample_bytes_nonneg(found, a); }
}

proof fn lemma_sample_bytes_nonneg(found: Seq<Option<Block>>, a: nat)
    requires a <= found.len(),
    ensures 0 <= sample_bytes(found, a),
    decreases a,
{
    if a > 0 { lemma_sample_bytes_nonneg(found, (a - 1) as nat); }
}

/// The estimate for `total_blocks` blocks from the lookups of the sampled
/// ones: the average sampled size (over the sample size, found or not) times
/// the block count; durations at 100 and 1000 blocks per second.
pub fn estimate_from_sample(total_blocks: usize, sample: &Vec<Option<Block>>) -> (r: MigrationEstimate)
    requires
        sample_bytes(sample@, sample@.len()) <= u64::MAX,
        total_blocks > 0 ==> (sample_bytes(sample@, sample@.len()) / (if total_blocks <= 100 { total_blocks as int } else { 100 })) * total_blocks <= u64::MAX,
    ensures
        r.total_blocks == total_blocks,
        r.total_bytes == if total_blocks == 0 { 0 } else {
            (sample_bytes(sample@, sample@.len()) / (if total_blocks <= 100 { total_blocks as int } else { 100 })) * total_blocks },
        r.space_required == r.total_bytes,
        r.estimated_duration_low == secs_duration((total_blocks / 100) as u64),
        r.estimated_duration_high == secs_duration((total_blocks / 1000) as u64),
{
    let n = sample_size(total_blocks);
    let mut bytes: u64 = 0;
    let mut i: usize = 0;
    while i < sample.len()
        invariant i <= sample.len(), bytes == sample_bytes(sample@, i as nat), sample_bytes(sample@, sample@.len()) <= u64::MAX,
        decreases sample.len() - i,
    {
        proof { lemma_sample_bytes_mono(sample@, (i + 1) as nat, sample@.len()); }
        if let Some(b) = &sample[i] {
            bytes = bytes + b.data.len() as u64;
        }
        i += 1;
    }
    let avg: u64 = if n > 0 { bytes / (n as u64) } else { 0 };
    let total_bytes = avg * (total_blocks as u64);
    MigrationEstimate {
        total_blocks,
        total_bytes,
        estimated_duration_low: duration_from_secs((total_blocks / 100) as u64),
        estimated_duration_high: duration_from_secs((total_blocks / 1000) as u64),
        space_required: total_bytes,
    }
}

/// A migration is complete when both stores hold the same number of blocks
/// and the destination holds every source block (`present` answers, for each
/// source CID, whether the destination has it).
pub fn migration_complete(source_count: usize, dest_count: usize, present: &Vec<bool>) -> (r: bool)
    ensures r == (source_count == dest_count && forall|i: int| 0 <= i < present@.len() ==> present@[i]),
{
    if source_count != dest_count {
        return false;
    }
    let mut i: usize = 0;
    while i < present.len()
        invariant i <= present.len(), forall|j: int| 0 <= j < i ==> present@[j],
        decreases present.len() - i,
    {
        if !present[i] {
            return false;
        }
        i += 1;
    }
    true
}

} // verus!
