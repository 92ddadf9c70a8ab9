//! Garbage collection of block storage: mark the blocks reachable from the
//! pins, sweep the rest. The traversal and the sweep are decided here; the
//! caller performs the store and link lookups they ask for.
use vstd::prelude::*;
use crate::cid::{bytes_eq, Cid};
use core::time::Duration;

verus! {

/// The `Duration` of `ms` milliseconds, as `Duration::from_millis` makes it.
pub uninterp spec fn millis_duration(ms: u64) -> Duration;

/// `Duration::from_millis`: the duration of `ms` milliseconds (named).
#[verifier::external_body]
fn duration_from_millis(ms: u64) -> (d: Duration)
    ensures d == millis_duration(ms),
{
    Duration::from_millis(ms)
}

/// `Duration` is `Copy`: its `clone` returns the same duration.
pub assume_specification [<Duration as Clone>::clone](d: &Duration) -> (r: Duration)
    ensures r == *d,
;

/// GC configuration.
#[derive(Debug, Clone)]
pub struct GcConfig {
    /// Maximum blocks to collect in a single run (0 = unlimited)
    pub max_blocks_per_run: usize,
    /// Time limit for a single GC run (None = unlimited)
    pub time_limit: Option<Duration>,
    /// Whether to run incrementally (pause between batches)
    pub incremental: bool,
    /// Batch size for incremental GC
    pub batch_size: usize,
    /// Delay between incremental batches
    pub batch_delay: Duration,
    /// Whether to perform a dry run (don't actually delete)
    pub dry_run: bool,
}

/// The default configuration: unlimited, no time limit, full (not
/// incremental), batches of 1000 blocks 10 ms apart, deleting.
pub open spec fn default_gc_config(c: GcConfig) -> bool {
    &&& c.max_blocks_per_run == 0
    &&& c.time_limit is None
    &&& !c.incremental
    &&& c.batch_size == 1000
    &&& c.batch_delay == millis_duration(10)
    &&& !c.dry_run
}

impl Default for GcConfig {
    fn default() -> (r: Self)
        ensures default_gc_config(r),
    {
        GcConfig {
            max_blocks_per_run: 0,
            time_limit: None,
            incremental: false,
            batch_size: 1000,
            batch_delay: duration_from_millis(10),
            dry_run: false,
        }
    }
}

impl GcConfig {
    /// Create a configuration for incremental GC.
    pub fn incremental() -> (r: Self)
        ensures default_gc_config(GcConfig { incremental: false, ..r }), r.incremental,
    {
        GcConfig { incremental: true, ..GcConfig::default() }
    }

    /// Create a configuration for dry run (no actual deletion).
    pub fn dry_run() -> (r: Self)
        ensures default_gc_config(GcConfig { dry_run: false, ..r }), r.dry_run,
    {
        GcConfig { dry_run: true, ..GcConfig::default() }
    }

    /// Set max blocks per run.
    pub fn with_max_blocks(self, max: usize) -> (r: Self)
        ensures r == (GcConfig { max_blocks_per_run: max, ..self }),
    {
        GcConfig { max_blocks_per_run: max, ..self }
    }

    /// Set time limit.
    pub fn with_time_limit(self, duration: Duration) -> (r: Self)
        ensures r == (GcConfig { time_limit: Some(duration), ..self }),
    {
        GcConfig { time_limit: Some(duration), ..self }
    }
}

/// Result of a GC run.
#[derive(Debug, Clone)]
pub struct GcResult {
    /// Number of blocks collected (deleted)
    pub blocks_collected: u64,
    /// Bytes freed
    pub bytes_freed: u64,
    /// Number of blocks marked as reachable
    pub blocks_marked: u64,
    /// Number of blocks scanned
    pub blocks_scanned: u64,
    /// Duration of the GC run
    pub duration: Duration,
    /// Whether GC was interrupted (time limit, etc.)
    pub interrupted: bool,
    /// Errors encountered during GC (non-fatal)
    pub errors: Vec<String>,
}

impl Default for GcResult {
    fn default() -> (r: Self)
        ensures
            r.blocks_collected == 0, r.bytes_freed == 0, r.blocks_marked == 0, r.blocks_scanned == 0,
            r.duration == millis_duration(0), !r.interrupted, r.errors@.len() == 0,
    {
        GcResult {
            blocks_collected: 0,
            bytes_freed: 0,
            blocks_marked: 0,
            blocks_scanned: 0,
            duration: duration_from_millis(0),
            interrupted: false,
            errors: Vec::new(),
        }
    }
}

impl GcResult {
    /// Account for a block the sweep collects in a dry run: one more block,
    /// and its size when it could be read.
    pub fn count_dry(&mut self, size: Option<u64>)
        requires
            old(self).blocks_collected < u64::MAX,
            size matches Some(s) ==> old(self).bytes_freed + s <= u64::MAX,
        ensures
            final(self).blocks_collected == old(self).blocks_collected + 1,
            final(self).bytes_freed == old(self).bytes_freed + match size { Some(s) => s as int, None => 0 },
            *final(self) == (GcResult { blocks_collected: final(self).blocks_collected, bytes_freed: final(self).bytes_freed, ..*old(self) }),
    {
        if let Some(s) = size {
            self.bytes_freed = self.bytes_freed + s;
        }
        self.blocks_collected = self.blocks_collected + 1;
    }

    /// Account for a deletion attempt: the block's size when it could be read
    /// before deleting, and one more block collected when the deletion
    /// succeeded, else the deletion's error message.
    pub fn record_delete(&mut self, size: Option<u64>, outcome: Result<(), String>)
        requires
            old(self).blocks_collected < u64::MAX,
            size matches Some(s) ==> old(self).bytes_freed + s <= u64::MAX,
        ensures
            final(self).bytes_freed == old(self).bytes_freed + match size { Some(s) => s as int, None => 0 },
            final(self).blocks_collected == old(self).blocks_collected + if outcome is Ok { 1int } else { 0int },
            final(self).errors@ == match outcome { Ok(()) => old(self).errors@, Err(m) => old(self).errors@.push(m) },
            final(self).blocks_marked == old(self).blocks_marked, final(self).blocks_scanned == old(self).blocks_scanned,
            final(self).duration == old(self).duration, final(self).interrupted == old(self).interrupted,
    {
        if let Some(s) = size {
            self.bytes_freed = self.bytes_freed + s;
        }
        match outcome {
            Ok(()) => { self.blocks_collected = self.blocks_collected + 1; },
            Err(m) => { self.errors.push(m); },
        }
    }
}

/// Snapshot of GC statistics.
#[derive(Debug, Clone, Copy)]
pub struct GcStatsSnapshot {
    pub total_runs: u64,
    pub total_blocks_collected: u64,
    pub total_bytes_freed: u64,
    pub last_run_timestamp: u64,
}

/// GC statistics tracking; like atomic counters, the totals wrap around on
/// overflow.
#[derive(Debug)]
pub struct GcStats {
    /// Total GC runs
    pub total_runs: u64,
    /// Total blocks collected across all runs
    pub total_blocks_collected: u64,
    /// Total bytes freed across all runs
    pub total_bytes_freed: u64,
    /// Last GC run time (as unix timestamp)
    pub last_run_timestamp: u64,
}

impl Default for GcStats {
    fn default() -> (r: Self)
        ensures r.total_runs == 0, r.total_blocks_collected == 0, r.total_bytes_freed == 0, r.last_run_timestamp == 0,
    {
        GcStats { total_runs: 0, total_blocks_collected: 0, total_bytes_freed: 0, last_run_timestamp: 0 }
    }
}

#[verifier::external_type_specification]
#[verifier::external_body]
pub struct ExSystemTime(std::time::SystemTime);

/// `SystemTime::now()`: the current time. Nothing is stated of it.
#[verifier::external_body]
fn system_time_now() -> std::time::SystemTime {
    std::time::SystemTime::now()
}

/// `SystemTime::duration_since(UNIX_EPOCH)`: the time since the Unix epoch,
/// `None` for a time before it. Nothing is stated of it.
#[verifier::external_body]
fn since_unix_epoch(t: &std::time::SystemTime) -> Option<Duration> {
    t.duration_since(std::time::UNIX_EPOCH).ok()
}

/// The current time in whole seconds since the Unix epoch, 0 before it.
pub(crate) fn unix_now_secs() -> u64 {
    let t = system_time_now();
    match since_unix_epoch(&t) {
        Some(d) => crate::tensorswap::duration_whole_secs(&d),
        None => 0,
    }
}

impl GcStats {
    /// Record a GC run finished at `now` (seconds since the Unix epoch).
    pub fn record_run_at(&mut self, result: &GcResult, now: u64)
        ensures
            run_recorded(*old(self), *final(self), *result),
            final(self).total_runs == old(self).total_runs.wrapping_add(1),
            final(self).total_blocks_collected == old(self).total_blocks_collected.wrapping_add(result.blocks_collected),
            final(self).total_bytes_freed == old(self).total_bytes_freed.wrapping_add(result.bytes_freed),
            final(self).last_run_timestamp == now,
    {
        self.total_runs = self.total_runs.wrapping_add(1);
        self.total_blocks_collected = self.total_blocks_collected.wrapping_add(result.blocks_collected);
        self.total_bytes_freed = self.total_bytes_freed.wrapping_add(result.bytes_freed);
        self.last_run_timestamp = now;
    }

    /// Record a GC run finished now.
    pub fn record_run(&mut self, result: &GcResult)
        ensures
            run_recorded(*old(self), *final(self), *result),
            final(self).total_runs == old(self).total_runs.wrapping_add(1),
            final(self).total_blocks_collected == old(self).total_blocks_collected.wrapping_add(result.blocks_collected),
            final(self).total_bytes_freed == old(self).total_bytes_freed.wrapping_add(result.bytes_freed),
    {
        let now = unix_now_secs();
        self.record_run_at(result, now);
    }

    /// Get a snapshot of statistics.
    pub fn snapshot(&self) -> (r: GcStatsSnapshot)
        ensures
            r.total_runs == self.total_runs, r.total_blocks_collected == self.total_blocks_collected,
            r.total_bytes_freed == self.total_bytes_freed, r.last_run_timestamp == self.last_run_timestamp,
    {
        GcStatsSnapshot {
            total_runs: self.total_runs,
            total_blocks_collected: self.total_blocks_collected,
            total_bytes_freed: self.total_bytes_freed,
            last_run_timestamp: self.last_run_timestamp,
        }
    }
}

/// `after` is `before` with a run of `result` recorded (at any time).
pub open spec fn run_recorded(before: GcStats, after: GcStats, result: GcResult) -> bool {
    &&& after.total_runs == before.total_runs.wrapping_add(1)
    &&& after.total_blocks_collected == before.total_blocks_collected.wrapping_add(result.blocks_collected)
    &&& after.total_bytes_freed == before.total_bytes_freed.wrapping_add(result.bytes_freed)
}

/// The blocks collected over the first `n` runs of `results`.
pub open spec fn blocks_sum(results: Seq<GcResult>, n: nat) -> int
    decreases n,
{
    if n == 0 || n > results.len() { 0 } else { blocks_sum(results, (n - 1) as nat) + results[n - 1].blocks_collected }
}

/// The bytes freed over the first `n` runs of `results`.
pub open spec fn bytes_sum(results: Seq<GcResult>, n: nat) -> int
    decreases n,
{
    if n == 0 || n > results.len() { 0 } else { bytes_sum(results, (n - 1) as nat) + results[n - 1].bytes_freed }
}

proof fn lemma_sums_monotone(results: Seq<GcResult>, a: nat, b: nat)
    requires a <= b <= results.len(),
    ensures blocks_sum(results, a) <= blocks_sum(results, b), bytes_sum(results, a) <= bytes_sum(results, b),
    decreases b - a,
{
    if a < b {
        lemma_sums_monotone(results, a, (b - 1) as nat);
    }
}

/// Statistics that start empty and record runs `results[0]`, ...,
/// `results[n - 1]` in turn (`stats[i + 1]` records `results[i]` on
/// `stats[i]`) count `n` runs and the sums of the blocks collected and bytes
/// freed, as long as no total overflows.
pub proof fn lemma_record_runs(stats: Seq<GcStats>, results: Seq<GcResult>)
    requires
        stats.len() == results.len() + 1,
        stats[0].total_runs == 0, stats[0].total_blocks_collected == 0, stats[0].total_bytes_freed == 0,
        forall|i: int| 0 <= i < results.len() ==> #[trigger] run_recorded(stats[i], stats[i + 1], results[i]),
        results.len() <= u64::MAX,
        blocks_sum(results, results.len()) <= u64::MAX,
        bytes_sum(results, results.len()) <= u64::MAX,
    ensures
        stats.last().total_runs == results.len(),
        stats.last().total_blocks_collected == blocks_sum(results, results.len()),
        stats.last().total_bytes_freed == bytes_sum(results, results.len()),
    decreases results.len(),
{
    let n = results.len();
    if n > 0 {
        let s2 = stats.drop_last();
        let r2 = results.drop_last();
        assert forall|i: int| 0 <= i < r2.len() implies #[trigger] run_recorded(s2[i], s2[i + 1], r2[i]) by {
            assert(run_recorded(stats[i], stats[i + 1], results[i]));
        }
        assert forall|k: nat| k <= r2.len() implies blocks_sum(r2, k) == blocks_sum(results, k)
            && bytes_sum(r2, k) == bytes_sum(results, k) by {
            lemma_prefix_sums(results, k);
        }
        lemma_sums_monotone(results, (n - 1) as nat, n);
        lemma_record_runs(s2, r2);
        assert(run_recorded(stats[n - 1], stats[n as int], results[n - 1]));
    }
}

proof fn lemma_prefix_sums(results: Seq<GcResult>, k: nat)
    requires results.len() > 0, k <= results.len() - 1,
    ensures
        blocks_sum(results.drop_last(), k) == blocks_sum(results, k),
        bytes_sum(results.drop_last(), k) == bytes_sum(results, k),
    decreases k,
{
    if k > 0 {
        lemma_prefix_sums(results, (k - 1) as nat);
    }
}

/// How a block is pinned.
#[derive(Debug, Clone, Copy, PartialEq, Eq, Structural)]
pub enum PinType {
    /// Pinned by itself
    Direct,
    /// Pinned with everything it links to
    Recursive,
    /// Pinned because a recursive pin reaches it
    Indirect,
}

/// The binary forms of a list of CIDs.
pub open spec fn cid_views(s: Seq<Cid>) -> Seq<Seq<u8>> {
    s.map_values(|c: Cid| c@)
}

/// The traversal state of the mark phase: the CIDs marked reachable so far
/// (each once) and those whose links are still to be followed.
#[derive(Debug)]
pub struct Marker {
    marked: Vec<Vec<u8>>,
    to_process: Vec<Cid>,
}

/// The mathematical value of a marker.
pub struct MarkState {
    pub marked: Seq<Seq<u8>>,
    pub to_process: Seq<Seq<u8>>,
}

impl View for Marker {
    type V = MarkState;

    closed spec fn view(&self) -> MarkState {
        MarkState { marked: self.marked@.map_values(|b: Vec<u8>| b@), to_process: cid_views(self.to_process@) }
    }
}

/// Marks `s` with `xs` added in turn, each at most once.
pub open spec fn mark_all(s: Seq<Seq<u8>>, xs: Seq<Seq<u8>>) -> Seq<Seq<u8>>
    decreases xs.len(),
{
    if xs.len() == 0 {
        s
    } else {
        let p = mark_all(s, xs.drop_last());
        if p.contains(xs.last()) { p } else { p.push(xs.last()) }
    }
}

/// The CIDs of the direct and recursive pins, in order: the roots of the
/// traversal.
pub open spec fn root_views(pins: Seq<(Cid, PinType)>) -> Seq<Seq<u8>>
    decreases pins.len(),
{
    if pins.len() == 0 {
        Seq::empty()
    } else {
        let p = root_views(pins.drop_last());
        if pins.last().1 is Indirect { p } else { p.push(pins.last().0@) }
    }
}

/// Marking keeps what was marked in front, adds only new elements, and ends
/// up holding exactly what was marked and what was added.
pub proof fn lemma_mark_all(s: Seq<Seq<u8>>, xs: Seq<Seq<u8>>)
    ensures
        mark_all(s, xs).len() >= s.len(),
        mark_all(s, xs).subrange(0, s.len() as int) == s,
        forall|x: Seq<u8>| #[trigger] mark_all(s, xs).contains(x) <==> s.contains(x) || xs.contains(x),
        forall|k: int| s.len() <= k < mark_all(s, xs).len() ==> !s.contains(#[trigger] mark_all(s, xs)[k]),
        s.no_duplicates() ==> mark_all(s, xs).no_duplicates(),
    decreases xs.len(),
{
    if xs.len() > 0 {
        let d = xs.drop_last();
        let p = mark_all(s, d);
        lemma_mark_all(s, d);
        lemma_push_contains(d, xs.last());
        assert(d.push(xs.last()) =~= xs);
        if !p.contains(xs.last()) {
            lemma_push_contains(p, xs.last());
            assert(p.push(xs.last()).subrange(0, s.len() as int) =~= p.subrange(0, s.len() as int));
            assert forall|k: int| s.len() <= k < p.push(xs.last()).len() implies !s.contains(#[trigger] p.push(xs.last())[k]) by {
                if k == p.len() {
                    if s.contains(xs.last()) {
                        assert(p.contains(xs.last()));
                    }
                }
            }
        }
    } else {
        assert(s.subrange(0, s.len() as int) =~= s);
    }
}

/// The well-formedness of a mark state: marks are distinct, and everything
/// queued is marked.
pub open spec fn mark_wf(m: MarkState) -> bool {
    &&& m.marked.no_duplicates()
    &&& forall|i: int| 0 <= i < m.to_process.len() ==> m.marked.contains(#[trigger] m.to_process[i])
}

/// The state after following links `lv`: each one not yet marked is marked
/// and queued, in order.
pub open spec fn after_links(m: MarkState, lv: Seq<Seq<u8>>) -> MarkState {
    let marked = mark_all(m.marked, lv);
    MarkState { marked, to_process: m.to_process + marked.subrange(m.marked.len() as int, marked.len() as int) }
}

/// What a sequence with one more element contains.
pub proof fn lemma_push_contains<A>(s: Seq<A>, a: A)
    ensures forall|x: A| #[trigger] s.push(a).contains(x) <==> s.contains(x) || x == a,
{
    assert forall|x: A| #[trigger] s.push(a).contains(x) <==> s.contains(x) || x == a by {
        if s.push(a).contains(x) {
            let w = choose|w: int| 0 <= w < s.len() + 1 && #[trigger] s.push(a)[w] == x;
            if w < s.len() { assert(s[w] == x); }
        }
        if s.contains(x) {
            let w = choose|w: int| 0 <= w < s.len() && #[trigger] s[w] == x;
            assert(s.push(a)[w] == x);
        }
        if x == a { assert(s.push(a)[s.len() as int] == x); }
    }
}

/// Whether `v` holds a byte string equal to `b`.
fn contains_bytes(v: &Vec<Vec<u8>>, b: &Vec<u8>) -> (r: bool)
    ensures r == v@.map_values(|x: Vec<u8>| x@).contains(b@),
{
    let ghost vv = v@.map_values(|x: Vec<u8>| x@);
    let mut i: usize = 0;
    while i < v.len()
        invariant i <= v.len(), vv == v@.map_values(|x: Vec<u8>| x@), forall|k: int| 0 <= k < i ==> vv[k] != b@,
        decreases v.len() - i,
    {
        if bytes_eq(&v[i], b) {
            assert(vv[i as int] == b@);
            return true;
        }
        i += 1;
    }
    false
}

impl Marker {
    /// The start of the mark phase: every pinned CID is marked, and the
    /// direct and recursive pins are queued, in order.
    pub fn from_pins(pins: &Vec<(Cid, PinType)>) -> (r: Self)
        ensures
            r@.marked == mark_all(Seq::empty(), cid_views(pins@.map_values(|p: (Cid, PinType)| p.0))),
            r@.to_process == root_views(pins@),
            r@ == initial_marks(pins@),
            mark_wf(r@),
    {
        let ghost all = cid_views(pins@.map_values(|p: (Cid, PinType)| p.0));
        let mut m = Marker { marked: Vec::new(), to_process: Vec::new() };
        assert(m@.marked =~= Seq::<Seq<u8>>::empty());
        assert(m@.to_process =~= Seq::<Seq<u8>>::empty());
        let mut i: usize = 0;
        while i < pins.len()
            invariant
                i <= pins.len(), all == cid_views(pins@.map_values(|p: (Cid, PinType)| p.0)),
                m@.marked == mark_all(Seq::empty(), all.subrange(0, i as int)), mark_wf(m@),
                m@.to_process == root_views(pins@.subrange(0, i as int)),
            decreases pins.len() - i,
        {
            assert(pins@.subrange(0, i + 1).drop_last() =~= pins@.subrange(0, i as int));
            assert(all.subrange(0, i + 1).drop_last() =~= all.subrange(0, i as int));
            assert(all[i as int] == pins@[i as int].0@);
            let (cid, pin) = &pins[i];
            if matches!(pin, PinType::Direct) || matches!(pin, PinType::Recursive) {
                let ghost before = m@;
                m.to_process.push(cid.clone());
                assert(m@.to_process =~= before.to_process.push(cid@));
            }
            m.mark(cid);
            i += 1;
        }
        assert(all.subrange(0, pins.len() as int) =~= all);
        assert(pins@.subrange(0, pins.len() as int) =~= pins@);
        m
    }

    /// Marks `cid` unless it is marked; whether it was new.
    fn mark(&mut self, cid: &Cid) -> (fresh: bool)
        requires forall|i: int| 0 <= i < old(self)@.to_process.len() && old(self)@.to_process[i] != cid@
            ==> old(self)@.marked.contains(#[trigger] old(self)@.to_process[i]),
            old(self)@.marked.no_duplicates(),
        ensures
            fresh == !old(self)@.marked.contains(cid@),
            final(self)@.marked == if fresh { old(self)@.marked.push(cid@) } else { old(self)@.marked },
            final(self)@.to_process == old(self)@.to_process,
            final(self)@.marked.contains(cid@),
            final(self)@.marked.no_duplicates(),
            forall|i: int| 0 <= i < final(self)@.to_process.len() ==> final(self)@.marked.contains(#[trigger] final(self)@.to_process[i]),
    {
        let b = cid.to_bytes();
        if contains_bytes(&self.marked, &b) {
            false
        } else {
            let ghost before = self@.marked;
            self.marked.push(b);
            assert(self@.marked =~= before.push(cid@));
            proof { lemma_push_contains(before, cid@); }
            true
        }
    }

    /// The next CID whose links are to be followed (the most recently
    /// queued), removed from the queue; `None` when the traversal is done.
    pub fn next(&mut self) -> (r: Option<Cid>)
        requires mark_wf(old(self)@),
        ensures
            mark_wf(final(self)@), final(self)@.marked == old(self)@.marked,
            old(self)@.to_process.len() == 0 ==> r is None && final(self)@ == old(self)@,
            old(self)@.to_process.len() > 0 ==> (r matches Some(c) && c@ == old(self)@.to_process.last()
                && final(self)@.to_process == old(self)@.to_process.drop_last()),
    {
        if self.to_process.len() == 0 {
            return None;
        }
        let ghost before = self@;
        let c = self.to_process.pop();
        assert(self@.to_process =~= before.to_process.drop_last());
        c
    }

    /// Follows the links of a processed block: each link not yet marked is
    /// marked and queued, in order.
    pub fn add_links(&mut self, links: &Vec<Cid>)
        requires mark_wf(old(self)@),
        ensures
            mark_wf(final(self)@),
            final(self)@.marked == mark_all(old(self)@.marked, cid_views(links@)),
            final(self)@ == after_links(old(self)@, cid_views(links@)),
            forall|x: Seq<u8>| final(self)@.marked.contains(x) <==> old(self)@.marked.contains(x) || cid_views(links@).contains(x),
    {
        let ghost start = self@.marked;
        let ghost start_q = self@.to_process;
        let ghost lv = cid_views(links@);
        assert(start_q =~= start_q + start.subrange(start.len() as int, start.len() as int));
        let mut i: usize = 0;
        while i < links.len()
            invariant
                i <= links.len(), lv == cid_views(links@), mark_wf(self@),
                self@.marked == mark_all(start, lv.subrange(0, i as int)),
                forall|x: Seq<u8>| #[trigger] self@.marked.contains(x) <==> start.contains(x) || lv.subrange(0, i as int).contains(x),
                self@.marked.len() >= start.len(),
                self@.to_process == start_q + self@.marked.subrange(start.len() as int, self@.marked.len() as int),
            decreases links.len() - i,
        {
            assert(lv.subrange(0, i + 1).drop_last() =~= lv.subrange(0, i as int));
            assert(lv[i as int] == links@[i as int]@);
            let ghost before = self@;
            assert(forall|x: Seq<u8>| #[trigger] before.marked.contains(x) <==> start.contains(x) || lv.subrange(0, i as int).contains(x));
            if self.mark(&links[i]) {
                self.to_process.push(links[i].clone());
                assert(self@.to_process =~= before.to_process.push(links@[i as int]@));
                assert(self@.marked.subrange(start.len() as int, self@.marked.len() as int)
                    =~= before.marked.subrange(start.len() as int, before.marked.len() as int).push(links@[i as int]@));
            }
            proof {
                assert(lv.subrange(0, i + 1) =~= lv.subrange(0, i as int).push(lv[i as int]));
                lemma_push_contains(lv.subrange(0, i as int), lv[i as int]);
                lemma_push_contains(before.marked, lv[i as int]);
                assert forall|x: Seq<u8>| self@.marked.contains(x) <==> start.contains(x) || lv.subrange(0, i + 1).contains(x) by {
                    assert(lv.subrange(0, i + 1).contains(x) <==> lv.subrange(0, i as int).contains(x) || x == lv[i as int]);
                    assert(before.marked.contains(x) <==> start.contains(x) || lv.subrange(0, i as int).contains(x));
                    if self@.marked != before.marked {
                        assert(self@.marked.contains(x) <==> before.marked.contains(x) || x == lv[i as int]);
                    } else {
                        assert(before.marked.contains(lv[i as int]));
                    }
                }
            }
            i += 1;
        }
        assert(lv.subrange(0, links.len() as int) =~= lv);
        assert(self@.to_process =~= after_links(old(self)@, lv).to_process);
    }

    /// Whether `cid` is marked.
    pub fn is_marked(&self, cid: &Cid) -> (r: bool)
        ensures r == self@.marked.contains(cid@),
    {
        let b = cid.to_bytes();
        contains_bytes(&self.marked, &b)
    }

    /// The number of marked CIDs.
    pub fn marked_count(&self) -> (r: u64)
        ensures r == self@.marked.len(),
    {
        self.marked.len() as u64
    }
}

/// The CIDs of all pins.
pub open spec fn pin_views(pins: Seq<(Cid, PinType)>) -> Seq<Seq<u8>> {
    cid_views(pins.map_values(|p: (Cid, PinType)| p.0))
}

/// The pinned CIDs that are not roots (pinned only as indirect): they are
/// marked from the start and never queued, so their links are not followed.
pub open spec fn indirect_only(pins: Seq<(Cid, PinType)>) -> Set<Seq<u8>> {
    Set::new(|x: Seq<u8>| pin_views(pins).contains(x) && !root_views(pins).contains(x))
}

/// The mark state `Marker::from_pins` makes.
pub open spec fn initial_marks(pins: Seq<(Cid, PinType)>) -> MarkState {
    MarkState { marked: mark_all(Seq::empty(), pin_views(pins)), to_process: root_views(pins) }
}

/// One step of the traversal (`next`, then `add_links` with the links that
/// `links` gives for the CID taken): the most recently queued CID is taken
/// and its links are followed.
pub open spec fn mark_step(a: MarkState, b: MarkState, links: spec_fn(Seq<u8>) -> Seq<Seq<u8>>) -> bool {
    &&& a.to_process.len() > 0
    &&& b == after_links(MarkState { marked: a.marked, to_process: a.to_process.drop_last() }, links(a.to_process.last()))
}

/// Every marked CID that is neither queued nor in `excl` has its links marked.
pub open spec fn links_closed(m: MarkState, excl: Set<Seq<u8>>, links: spec_fn(Seq<u8>) -> Seq<Seq<u8>>) -> bool {
    forall|x: Seq<u8>, y: Seq<u8>|
        #![trigger m.marked.contains(x), links(x).contains(y)]
        m.marked.contains(x) && !m.to_process.contains(x) && !excl.contains(x) && links(x).contains(y)
            ==> m.marked.contains(y)
}

/// `path` leads by links from one of `roots` to its last CID, each step
/// leaving from a CID outside `excl`.
pub open spec fn link_path(roots: Seq<Seq<u8>>, excl: Set<Seq<u8>>, links: spec_fn(Seq<u8>) -> Seq<Seq<u8>>, path: Seq<Seq<u8>>) -> bool {
    &&& path.len() >= 1
    &&& roots.contains(path[0])
    &&& forall|i: int| 0 <= i < path.len() - 1 ==> !excl.contains(#[trigger] path[i]) && links(path[i]).contains(path[i + 1])
}

/// What the traversal keeps true: the pins are marked and the marks are
/// closed under links, except at queued CIDs and indirect-only pins.
pub open spec fn mark_inv(m: MarkState, pins: Seq<(Cid, PinType)>, links: spec_fn(Seq<u8>) -> Seq<Seq<u8>>) -> bool {
    &&& forall|x: Seq<u8>| #[trigger] pin_views(pins).contains(x) ==> m.marked.contains(x)
    &&& links_closed(m, indirect_only(pins), links)
}

proof fn lemma_mark_inv_init(pins: Seq<(Cid, PinType)>, links: spec_fn(Seq<u8>) -> Seq<Seq<u8>>)
    ensures mark_inv(initial_marks(pins), pins, links),
{
    lemma_mark_all(Seq::empty(), pin_views(pins));
}

proof fn lemma_mark_inv_step(a: MarkState, b: MarkState, pins: Seq<(Cid, PinType)>, links: spec_fn(Seq<u8>) -> Seq<Seq<u8>>)
    requires mark_inv(a, pins, links), mark_step(a, b, links),
    ensures mark_inv(b, pins, links),
{
    let c = a.to_process.last();
    let q = a.to_process.drop_last();
    let lv = links(c);
    lemma_mark_all(a.marked, lv);
    let nm = mark_all(a.marked, lv);
    assert(b.marked == nm);
    assert(b.to_process == q + nm.subrange(a.marked.len() as int, nm.len() as int));
    assert forall|x: Seq<u8>, y: Seq<u8>|
        #![trigger b.marked.contains(x), links(x).contains(y)]
        b.marked.contains(x) && !b.to_process.contains(x) && !indirect_only(pins).contains(x) && links(x).contains(y)
            implies b.marked.contains(y) by {
        if !a.marked.contains(x) {
            let k = choose|k: int| 0 <= k < nm.len() && nm[k] == x;
            if k < a.marked.len() {
                assert(nm.subrange(0, a.marked.len() as int)[k] == x);
            }
            assert(b.to_process[q.len() + (k - a.marked.len())] == x);
        } else if x == c {
            assert(lv.contains(y));
        } else {
            if a.to_process.contains(x) {
                let k = choose|k: int| 0 <= k < a.to_process.len() && a.to_process[k] == x;
                assert(k < q.len());
                assert(b.to_process[k] == x);
            }
            assert(a.marked.contains(y));
        }
    }
}

/// The mark phase reaches everything it should: a traversal that starts as
/// `Marker::from_pins` leaves it, takes steps (`next`, then `add_links` with
/// the links of the CID taken) until the queue is empty, has marked every
/// pinned CID and every CID reachable from a direct or recursive pin by
/// links that leave from CIDs other than indirect-only pins. With no
/// indirect pins that is every CID reachable from a pin.
pub proof fn lemma_marks_reachable(pins: Seq<(Cid, PinType)>, states: Seq<MarkState>, links: spec_fn(Seq<u8>) -> Seq<Seq<u8>>)
    requires
        states.len() >= 1,
        states[0] == initial_marks(pins),
        forall|i: int| 0 <= i < states.len() - 1 ==> #[trigger] mark_step(states[i], states[i + 1], links),
        states.last().to_process.len() == 0,
    ensures
        forall|x: Seq<u8>| #[trigger] pin_views(pins).contains(x) ==> states.last().marked.contains(x),
        forall|path: Seq<Seq<u8>>| #[trigger] link_path(root_views(pins), indirect_only(pins), links, path)
            ==> states.last().marked.contains(path.last()),
{
    lemma_mark_inv_upto(pins, states, links, states.len() - 1);
    let m = states.last();
    assert(mark_inv(m, pins, links));
    assert forall|path: Seq<Seq<u8>>| #[trigger] link_path(root_views(pins), indirect_only(pins), links, path)
        implies m.marked.contains(path.last()) by {
        lemma_path_marked(pins, m, links, path, path.len() - 1);
    }
}

proof fn lemma_mark_inv_upto(pins: Seq<(Cid, PinType)>, states: Seq<MarkState>, links: spec_fn(Seq<u8>) -> Seq<Seq<u8>>, k: int)
    requires
        0 <= k < states.len(),
        states[0] == initial_marks(pins),
        forall|i: int| 0 <= i < states.len() - 1 ==> #[trigger] mark_step(states[i], states[i + 1], links),
    ensures mark_inv(states[k], pins, links),
    decreases k,
{
    if k == 0 {
        lemma_mark_inv_init(pins, links);
    } else {
        lemma_mark_inv_upto(pins, states, links, k - 1);
        let j = k - 1;
        assert(mark_step(states[j], states[j + 1], links));
        assert(j + 1 == k);
        lemma_mark_inv_step(states[j], states[k], pins, links);
    }
}

proof fn lemma_path_marked(pins: Seq<(Cid, PinType)>, m: MarkState, links: spec_fn(Seq<u8>) -> Seq<Seq<u8>>, path: Seq<Seq<u8>>, k: int)
    requires
        mark_inv(m, pins, links), m.to_process.len() == 0,
        link_path(root_views(pins), indirect_only(pins), links, path), 0 <= k < path.len(),
    ensures m.marked.contains(path[k]),
    decreases k,
{
    if k == 0 {
        lemma_roots_pinned(pins, path[0]);
    } else {
        lemma_path_marked(pins, m, links, path, k - 1);
        let j = k - 1;
        assert(!indirect_only(pins).contains(path[j]) && links(path[j]).contains(path[j + 1]));
        assert(!m.to_process.contains(path[j]));
    }
}

/// Every root is a pinned CID.
proof fn lemma_roots_pinned(pins: Seq<(Cid, PinType)>, y: Seq<u8>)
    ensures root_views(pins).contains(y) ==> pin_views(pins).contains(y),
    decreases pins.len(),
{
    if pins.len() > 0 {
        let d = pins.drop_last();
        lemma_roots_pinned(d, y);
        assert(pin_views(pins) =~= pin_views(d).push(pins.last().0@));
        lemma_push_contains(pin_views(d), pins.last().0@);
        if !(pins.last().1 is Indirect) {
            lemma_push_contains(root_views(d), pins.last().0@);
        }
    }
}

/// What the sweep does at the next stored block.
#[derive(Debug)]
pub struct SweepStep {
    /// The sweep stops here: it was interrupted (cancelled, out of time, or at the block limit)
    pub stop: bool,
    /// The block is unmarked and collected (counted in a dry run, queued otherwise)
    pub collect: bool,
    /// Blocks to delete now: the queue, at a batch boundary of an incremental run
    pub flush: Vec<Cid>,
    /// Pause for the batch delay before the next block
    pub pause: bool,
}

/// The sweep phase's state: its configuration, the unmarked blocks counted
/// in the current batch and the blocks queued for deletion.
#[derive(Debug)]
pub struct Sweeper {
    max_blocks_per_run: usize,
    incremental: bool,
    batch_size: usize,
    dry_run: bool,
    batch_count: usize,
    to_delete: Vec<Cid>,
}

/// The mathematical value of a sweeper.
pub struct SweepState {
    pub max_blocks_per_run: usize,
    pub incremental: bool,
    pub batch_size: usize,
    pub dry_run: bool,
    pub batch_count: usize,
    pub to_delete: Seq<Seq<u8>>,
}

impl View for Sweeper {
    type V = SweepState;

    closed spec fn view(&self) -> SweepState {
        SweepState {
            max_blocks_per_run: self.max_blocks_per_run,
            incremental: self.incremental,
            batch_size: self.batch_size,
            dry_run: self.dry_run,
            batch_count: self.batch_count,
            to_delete: cid_views(self.to_delete@),
        }
    }
}

/// The sweep stops before a block: a stop was requested, or the block limit
/// (when nonzero) is reached by the blocks collected so far.
pub open spec fn sweep_stops(s: SweepState, stop_requested: bool, collected: u64) -> bool {
    stop_requested || (s.max_blocks_per_run > 0 && collected >= s.max_blocks_per_run)
}

/// An incremental batch ends at this unmarked block.
pub open spec fn batch_ends(s: SweepState) -> bool {
    s.incremental && s.batch_count + 1 >= s.batch_size
}

/// The batch count stays below the batch size.
pub open spec fn sweep_wf(s: SweepState) -> bool {
    s.batch_count == 0 || s.batch_count < s.batch_size
}

impl Sweeper {
    /// A sweeper for a configuration.
    pub fn new(config: &GcConfig) -> (r: Self)
        ensures
            r@.max_blocks_per_run == config.max_blocks_per_run, r@.incremental == config.incremental,
            r@.batch_size == config.batch_size, r@.dry_run == config.dry_run,
            r@.batch_count == 0, r@.to_delete.len() == 0, sweep_wf(r@),
    {
        let r = Sweeper {
            max_blocks_per_run: config.max_blocks_per_run,
            incremental: config.incremental,
            batch_size: config.batch_size,
            dry_run: config.dry_run,
            batch_count: 0,
            to_delete: Vec::new(),
        };
        assert(r@.to_delete =~= Seq::<Seq<u8>>::empty());
        r
    }

    /// Decides about the next stored block: stop (see `sweep_stops`), keep a
    /// marked block, or collect an unmarked one; an incremental batch that
    /// fills up empties the deletion queue into `flush` and pauses.
    pub fn visit(&mut self, cid: Cid, marked: bool, stop_requested: bool, collected: u64) -> (r: SweepStep)
        requires sweep_wf(old(self)@),
        ensures
            sweep_wf(final(self)@),
            r.stop == sweep_stops(old(self)@, stop_requested, collected),
            r.collect == (!r.stop && !marked),
            !r.collect ==> final(self)@ == old(self)@ && r.flush@.len() == 0 && !r.pause,
            r.collect ==> {
                let queued = if old(self)@.dry_run { old(self)@.to_delete } else { old(self)@.to_delete.push(cid@) };
                &&& r.pause == batch_ends(old(self)@)
                &&& final(self)@.batch_count == if !old(self)@.incremental { old(self)@.batch_count as int }
                    else if r.pause { 0int } else { old(self)@.batch_count + 1 }
                &&& cid_views(r.flush@) == if r.pause && !old(self)@.dry_run { queued } else { Seq::<Seq<u8>>::empty() }
                &&& final(self)@.to_delete == if r.pause && !old(self)@.dry_run { Seq::<Seq<u8>>::empty() } else { queued }
                &&& final(self)@ == (SweepState { batch_count: final(self)@.batch_count, to_delete: final(self)@.to_delete, ..old(self)@ })
            },
    {
        let none = SweepStep { stop: false, collect: false, flush: Vec::new(), pause: false };
        if stop_requested || (self.max_blocks_per_run > 0 && collected >= self.max_blocks_per_run as u64) {
            return SweepStep { stop: true, ..none };
        }
        if marked {
            return none;
        }
        if !self.dry_run {
            let ghost before = self@;
            self.to_delete.push(cid);
            assert(self@.to_delete =~= before.to_delete.push(cid@));
        }
        if !self.incremental {
            return SweepStep { stop: false, collect: true, flush: Vec::new(), pause: false };
        }
        let count = self.batch_count + 1;
        if count >= self.batch_size {
            self.batch_count = 0;
            let flush = if !self.dry_run {
                let mut f: Vec<Cid> = Vec::new();
                core::mem::swap(&mut f, &mut self.to_delete);
                assert(self@.to_delete =~= Seq::<Seq<u8>>::empty());
                f
            } else {
                Vec::new()
            };
            assert(self.dry_run ==> cid_views(flush@) =~= Seq::<Seq<u8>>::empty());
            SweepStep { stop: false, collect: true, flush, pause: true }
        } else {
            self.batch_count = count;
            SweepStep { stop: false, collect: true, flush: Vec::new(), pause: false }
        }
    }

    /// The blocks still queued for deletion when the sweep ends (none in a dry run).
    pub fn finish(&mut self) -> (r: Vec<Cid>)
        ensures
            cid_views(r@) == old(self)@.to_delete,
            final(self)@ == (SweepState { to_delete: Seq::empty(), ..old(self)@ }),
    {
        let mut r: Vec<Cid> = Vec::new();
        core::mem::swap(&mut r, &mut self.to_delete);
        assert(self@.to_delete =~= Seq::<Seq<u8>>::empty());
        r
    }
}

/// GC policy for automatic garbage collection. Disk-usage thresholds are
/// held as the bit patterns of their `f64` percentages.
#[derive(Debug, Clone, Copy)]
pub enum GcPolicy {
    /// Manual GC only
    Manual,
    /// Time-based: run every N seconds
    TimeBased { interval_secs: u64 },
    /// Space-based: run when disk usage exceeds threshold
    SpaceBased { threshold_percent: u64 },
    /// Combined: run when either condition is met
    Combined { interval_secs: u64, threshold_percent: u64 },
}

impl Default for GcPolicy {
    fn default() -> (r: Self)
        ensures r is Manual,
    {
        GcPolicy::Manual
    }
}

impl GcPolicy {
    /// Whether a GC run is due at `now` when the last run was at `last_run`
    /// (seconds since the Unix epoch): at least the interval has passed for a
    /// time-based or combined policy; never for a manual one; never for a
    /// space-based one, as disk usage is not measured.
    pub fn is_due(&self, now: u64, last_run: u64) -> (r: bool)
        ensures
            r == match *self {
                GcPolicy::Manual => false,
                GcPolicy::TimeBased { interval_secs } => now.saturating_sub(last_run) >= interval_secs,
                GcPolicy::SpaceBased { .. } => false,
                GcPolicy::Combined { interval_secs, .. } => now.saturating_sub(last_run) >= interval_secs,
            },
    {
        match *self {
            GcPolicy::Manual => false,
            GcPolicy::TimeBased { interval_secs } => now.saturating_sub(last_run) >= interval_secs,
            GcPolicy::SpaceBased { .. } => false,
            GcPolicy::Combined { interval_secs, .. } => now.saturating_sub(last_run) >= interval_secs,
        }
    }
}

} // verus!
