//! Tensor-aware transfer: tensor metadata, flow control, prioritised stream
//! requests, safetensors headers and einsum expressions.
use vstd::prelude::*;
use crate::cid::Cid;
use crate::error::Error;
use crate::graph::{product, product_fits, shape_product};

verus! {

#[verifier::external_type_specification]
#[verifier::external_body]
pub struct ExInstant(std::time::Instant);

/// `std::time::Instant` is `Copy`: its `clone` returns the same instant.
pub assume_specification [<std::time::Instant as Clone>::clone](i: &std::time::Instant) -> (r: std::time::Instant)
    ensures r == *i,
;

/// Bytes per element of a data type name, for the names this library knows.
pub open spec fn dtype_width(d: Seq<char>) -> Option<u64> {
    if d == "f32"@ || d == "i32"@ || d == "u32"@ {
        Some(4)
    } else if d == "f64"@ || d == "i64"@ || d == "u64"@ {
        Some(8)
    } else if d == "f16"@ || d == "bf16"@ || d == "i16"@ || d == "u16"@ {
        Some(2)
    } else if d == "i8"@ || d == "u8"@ || d == "bool"@ {
        Some(1)
    } else {
        None
    }
}

/// The number spelled by the digits at the end of `d` (0 when it ends in
/// no digit).
pub open spec fn tail_number(d: Seq<char>) -> int
    decreases d.len(),
{
    if d.len() > 0 && '0' <= d.last() && d.last() <= '9' {
        tail_number(d.drop_last()) * 10 + ((d.last() as u32) - ('0' as u32))
    } else {
        0
    }
}

/// The bit width a data type's name gives: `bool` takes a byte, the others
/// end in their width in bits (`f32`, `bf16`, `u8`, ...).
pub open spec fn name_bits(d: Seq<char>) -> int {
    if d == "bool"@ { 8 } else { tail_number(d) }
}

/// The data type names: floats of 16, 32 and 64 bits (and bfloat16),
/// signed and unsigned integers of 8 to 64 bits, and booleans.
pub open spec fn known_dtype(d: Seq<char>) -> bool {
    ||| d == "f16"@ || d == "bf16"@ || d == "f32"@ || d == "f64"@
    ||| d == "i8"@ || d == "i16"@ || d == "i32"@ || d == "i64"@
    ||| d == "u8"@ || d == "u16"@ || d == "u32"@ || d == "u64"@
    ||| d == "bool"@
}

/// An element takes the bytes its type's name gives in bits: a width is
/// known exactly for the known names, and eight times it is the bit width in
/// the name (64-bit types take 8 bytes, 16-bit types 2, `bool` 1).
pub proof fn lemma_dtype_width_from_name(d: Seq<char>)
    ensures
        dtype_width(d) is Some <==> known_dtype(d),
        dtype_width(d) matches Some(w) ==> 8 * w == name_bits(d),
{
    reveal_strlit("f16"); reveal_strlit("bf16"); reveal_strlit("f32"); reveal_strlit("f64");
    reveal_strlit("i8"); reveal_strlit("i16"); reveal_strlit("i32"); reveal_strlit("i64");
    reveal_strlit("u8"); reveal_strlit("u16"); reveal_strlit("u32"); reveal_strlit("u64");
    reveal_strlit("bool");
    reveal_with_fuel(tail_number, 4);
    if dtype_width(d) is Some {
        if d == "f16"@ { assert(tail_number(d) == 16); }
        else if d == "bf16"@ { assert(tail_number(d) == 16); }
        else if d == "f32"@ { assert(tail_number(d) == 32); }
        else if d == "f64"@ { assert(tail_number(d) == 64); }
        else if d == "i8"@ { assert(tail_number(d) == 8); }
        else if d == "i16"@ { assert(tail_number(d) == 16); }
        else if d == "i32"@ { assert(tail_number(d) == 32); }
        else if d == "i64"@ { assert(tail_number(d) == 64); }
        else if d == "u8"@ { assert(tail_number(d) == 8); }
        else if d == "u16"@ { assert(tail_number(d) == 16); }
        else if d == "u32"@ { assert(tail_number(d) == 32); }
        else if d == "u64"@ { assert(tail_number(d) == 64); }
    }
}

/// The size estimated from a shape and a known data type is the element
/// count times the type's bit width over eight.
pub proof fn lemma_estimated_size_by_bits(m: TensorMetadata)
    requires m.size_bytes is None, m.shape is Some, m.dtype is Some, known_dtype(m.dtype->0@),
    ensures estimated_size_spec(m) == Some(shape_product(m.shape->0@) * (name_bits(m.dtype->0@) / 8)),
{
    lemma_dtype_width_from_name(m.dtype->0@);
    let w = dtype_width(m.dtype->0@)->0;
    assert(name_bits(m.dtype->0@) / 8 == w);
}

/// Whether `d` equals the string `lit`.
fn str_is(d: &String, lit: &str) -> (r: bool)
    ensures r == (d@ == lit@),
{
    d.eq(&String::from_str(lit))
}

/// Bytes per element of data type `d`, if known.
pub fn dtype_bytes(d: &String) -> (r: Option<u64>)
    ensures r == dtype_width(d@),
{
    if str_is(d, "f32") || str_is(d, "i32") || str_is(d, "u32") {
        Some(4)
    } else if str_is(d, "f64") || str_is(d, "i64") || str_is(d, "u64") {
        Some(8)
    } else if str_is(d, "f16") || str_is(d, "bf16") || str_is(d, "i16") || str_is(d, "u16") {
        Some(2)
    } else if str_is(d, "i8") || str_is(d, "u8") || str_is(d, "bool") {
        Some(1)
    } else {
        None
    }
}

pub open spec fn opt_str(s: Option<String>) -> Option<Seq<char>> {
    match s {
        Some(v) => Some(v@),
        None => None,
    }
}

/// Tensor metadata for smart scheduling.
#[derive(Debug, Clone)]
pub struct TensorMetadata {
    /// CID of the tensor block (or root CID for chunked tensors)
    pub cid: Cid,
    /// Shape information (if available)
    pub shape: Option<Vec<usize>>,
    /// Data type (f32, f16, bf16, i64, etc.)
    pub dtype: Option<String>,
    /// Dependencies (must be fetched first)
    pub dependencies: Vec<Cid>,
    /// Computation deadline (if any)
    pub deadline: Option<std::time::Instant>,
    /// Total size in bytes (if known)
    pub size_bytes: Option<u64>,
    /// Chunk CIDs for large tensors (in order)
    pub chunks: Vec<Cid>,
    /// User-defined priority hint
    pub priority_hint: Option<i32>,
    /// Layer name (for transformer models)
    pub layer_name: Option<String>,
    /// Whether this tensor is critical for computation
    pub is_critical: bool,
}

/// The element count of an optional shape.
pub open spec fn elements_of(shape: Option<Vec<usize>>) -> Option<int> {
    match shape {
        Some(s) => Some(shape_product(s@)),
        None => None,
    }
}

/// The size a tensor's metadata gives or implies: the recorded size, else
/// the element count times the element width.
pub open spec fn estimated_size_spec(m: TensorMetadata) -> Option<int> {
    match m.size_bytes {
        Some(s) => Some(s as int),
        None => match (elements_of(m.shape), m.dtype) {
            (Some(e), Some(d)) => match dtype_width(d@) {
                Some(w) => Some(e * w),
                None => None,
            },
            _ => None,
        },
    }
}

impl TensorMetadata {
    /// Create new metadata for a tensor.
    pub fn new(cid: Cid) -> (r: Self)
        ensures
            r.cid@ == cid@, r.shape is None, r.dtype is None, r.dependencies@.len() == 0, r.deadline is None,
            r.size_bytes is None, r.chunks@.len() == 0, r.priority_hint is None, r.layer_name is None, !r.is_critical,
    {
        TensorMetadata {
            cid,
            shape: None,
            dtype: None,
            dependencies: Vec::new(),
            deadline: None,
            size_bytes: None,
            chunks: Vec::new(),
            priority_hint: None,
            layer_name: None,
            is_critical: false,
        }
    }

    /// Set shape.
    pub fn with_shape(self, shape: Vec<usize>) -> (r: Self)
        ensures r == (TensorMetadata { shape: Some(shape), ..self }),
    {
        TensorMetadata { shape: Some(shape), ..self }
    }

    /// Set dtype.
    pub fn with_dtype(self, dtype: &str) -> (r: Self)
        ensures opt_str(r.dtype) == Some(dtype@), r == (TensorMetadata { dtype: r.dtype, ..self }),
    {
        TensorMetadata { dtype: Some(String::from_str(dtype)), ..self }
    }

    /// Set dependencies.
    pub fn with_dependencies(self, deps: Vec<Cid>) -> (r: Self)
        ensures r == (TensorMetadata { dependencies: deps, ..self }),
    {
        TensorMetadata { dependencies: deps, ..self }
    }

    /// Set deadline.
    pub fn with_deadline(self, deadline: std::time::Instant) -> (r: Self)
        ensures r == (TensorMetadata { deadline: Some(deadline), ..self }),
    {
        TensorMetadata { deadline: Some(deadline), ..self }
    }

    /// Set size.
    pub fn with_size(self, size: u64) -> (r: Self)
        ensures r == (TensorMetadata { size_bytes: Some(size), ..self }),
    {
        TensorMetadata { size_bytes: Some(size), ..self }
    }

    /// Set chunks.
    pub fn with_chunks(self, chunks: Vec<Cid>) -> (r: Self)
        ensures r == (TensorMetadata { chunks: chunks, ..self }),
    {
        TensorMetadata { chunks, ..self }
    }

    /// Set priority hint.
    pub fn with_priority_hint(self, priority: i32) -> (r: Self)
        ensures r == (TensorMetadata { priority_hint: Some(priority), ..self }),
    {
        TensorMetadata { priority_hint: Some(priority), ..self }
    }

    /// Set layer name.
    pub fn with_layer_name(self, name: &str) -> (r: Self)
        ensures opt_str(r.layer_name) == Some(name@), r == (TensorMetadata { layer_name: r.layer_name, ..self }),
    {
        TensorMetadata { layer_name: Some(String::from_str(name)), ..self }
    }

    /// Mark as critical.
    pub fn critical(self) -> (r: Self)
        ensures r == (TensorMetadata { is_critical: true, ..self }),
    {
        TensorMetadata { is_critical: true, ..self }
    }

    /// Calculate total elements from shape.
    pub fn num_elements(&self) -> (r: Option<usize>)
        requires self.shape matches Some(s) ==> product_fits(s@),
        ensures r matches Some(n) ==> elements_of(self.shape) == Some(n as int), r is None <==> self.shape is None,
    {
        match &self.shape {
            Some(s) => Some(product(s)),
            None => None,
        }
    }

    /// Estimate size from shape and dtype.
    pub fn estimated_size(&self) -> (r: Option<u64>)
        requires
            self.size_bytes is None && self.shape is Some ==> product_fits(self.shape->0@),
            estimated_size_spec(*self) matches Some(s) ==> s <= u64::MAX,
        ensures
            r matches Some(s) ==> estimated_size_spec(*self) == Some(s as int),
            r is None <==> estimated_size_spec(*self) is None,
    {
        if let Some(size) = self.size_bytes {
            return Some(size);
        }
        let elements = match self.num_elements() {
            Some(e) => e as u64,
            None => { return None; },
        };
        let width = match &self.dtype {
            Some(d) => match dtype_bytes(d) {
                Some(w) => w,
                None => { return None; },
            },
            None => { return None; },
        };
        Some(elements * width)
    }

    /// Check if this tensor is chunked.
    pub fn is_chunked(&self) -> (r: bool)
        ensures r == (self.chunks@.len() > 0),
    {
        self.chunks.len() > 0
    }
}

/// Backpressure configuration.
#[derive(Debug, Clone, Copy)]
pub struct BackpressureConfig {
    /// Maximum pending chunks
    pub max_pending: usize,
    /// High watermark (pause sending above this)
    pub high_watermark: usize,
    /// Low watermark (resume sending below this)
    pub low_watermark: usize,
    /// Maximum buffer size in bytes
    pub max_buffer_bytes: usize,
}

impl Default for BackpressureConfig {
    fn default() -> (r: Self)
        ensures r.max_pending == 64, r.high_watermark == 48, r.low_watermark == 16, r.max_buffer_bytes == 64 * 1024 * 1024,
    {
        BackpressureConfig { max_pending: 64, high_watermark: 48, low_watermark: 16, max_buffer_bytes: 64 * 1024 * 1024 }
    }
}

/// The state of a backpressure controller.
pub struct FlowState {
    pub config: BackpressureConfig,
    pub pending_count: usize,
    pub pending_bytes: usize,
    pub paused: bool,
}

/// Whether a controller in state `s` accepts more data.
pub open spec fn accepts(s: FlowState) -> bool {
    !s.paused && s.pending_count < s.config.max_pending && s.pending_bytes < s.config.max_buffer_bytes
}

/// The state after sending `bytes`.
pub open spec fn sent(s: FlowState, bytes: usize) -> FlowState {
    let count = (s.pending_count + 1) as usize;
    let total = (s.pending_bytes + bytes) as usize;
    FlowState {
        pending_count: count,
        pending_bytes: total,
        paused: s.paused || count >= s.config.high_watermark || total >= s.config.max_buffer_bytes,
        ..s
    }
}

/// The state after an acknowledgement of `bytes`.
pub open spec fn acked(s: FlowState, bytes: usize) -> FlowState {
    let count = if s.pending_count >= 1 { (s.pending_count - 1) as usize } else { 0usize };
    let total = if s.pending_bytes >= bytes { (s.pending_bytes - bytes) as usize } else { 0usize };
    FlowState {
        pending_count: count,
        pending_bytes: total,
        paused: s.paused && count > s.config.low_watermark,
        ..s
    }
}

/// Backpressure controller for flow control.
#[derive(Debug)]
pub struct BackpressureController {
    config: BackpressureConfig,
    pending_count: usize,
    pending_bytes: usize,
    paused: bool,
}

impl View for BackpressureController {
    type V = FlowState;

    closed spec fn view(&self) -> FlowState {
        FlowState { config: self.config, pending_count: self.pending_count, pending_bytes: self.pending_bytes, paused: self.paused }
    }
}

impl BackpressureController {
    /// Create a new backpressure controller.
    pub fn new(config: BackpressureConfig) -> (r: Self)
        ensures r@ == (FlowState { config, pending_count: 0, pending_bytes: 0, paused: false }),
    {
        BackpressureController { config, pending_count: 0, pending_bytes: 0, paused: false }
    }

    /// Check if we should accept more data.
    pub fn should_accept(&self) -> (r: bool)
        ensures r == accepts(self@),
    {
        !self.paused && self.pending_count < self.config.max_pending && self.pending_bytes < self.config.max_buffer_bytes
    }

    /// Record data being sent: one more pending chunk of `bytes` bytes; pause
    /// at the high watermark or the byte limit.
    pub fn on_send(&mut self, bytes: usize)
        requires old(self)@.pending_count < usize::MAX, old(self)@.pending_bytes + bytes <= usize::MAX,
        ensures final(self)@ == sent(old(self)@, bytes),
    {
        self.pending_count = self.pending_count + 1;
        self.pending_bytes = self.pending_bytes + bytes;
        if self.pending_count >= self.config.high_watermark || self.pending_bytes >= self.config.max_buffer_bytes {
            self.paused = true;
        }
    }

    /// Record data acknowledgement: one fewer pending chunk, `bytes` fewer
    /// bytes (never below zero); resume at or below the low watermark.
    pub fn on_ack(&mut self, bytes: usize)
        ensures final(self)@ == acked(old(self)@, bytes),
    {
        self.pending_count = self.pending_count.saturating_sub(1);
        self.pending_bytes = self.pending_bytes.saturating_sub(bytes);
        if self.pending_count <= self.config.low_watermark {
            self.paused = false;
        }
    }

    /// Check if currently paused.
    pub fn is_paused(&self) -> (r: bool)
        ensures r == self@.paused,
    {
        self.paused
    }

    /// Get pending count.
    pub fn pending_count(&self) -> (r: usize)
        ensures r == self@.pending_count,
    {
        self.pending_count
    }

    /// Get pending bytes.
    pub fn pending_bytes(&self) -> (r: usize)
        ensures r == self@.pending_bytes,
    {
        self.pending_bytes
    }

    /// Reset state.
    pub fn reset(&mut self)
        ensures final(self)@ == (FlowState { pending_count: 0, pending_bytes: 0, paused: false, ..old(self)@ }),
    {
        self.pending_count = 0;
        self.pending_bytes = 0;
        self.paused = false;
    }
}

/// Acknowledging a chunk just sent, with the same byte count, brings the
/// pending count and pending bytes back to what they were before the send.
pub proof fn lemma_send_then_ack(s: FlowState, bytes: usize)
    requires s.pending_count < usize::MAX, s.pending_bytes + bytes <= usize::MAX,
    ensures
        acked(sent(s, bytes), bytes).pending_count == s.pending_count,
        acked(sent(s, bytes), bytes).pending_bytes == s.pending_bytes,
        acked(sent(s, bytes), bytes).config == s.config,
{
}

/// Once the pending count reaches the high watermark, the controller refuses
/// data until acknowledgements bring the count to the low watermark or below.
pub proof fn lemma_paused_until_low(s: FlowState, bytes: usize)
    requires s.paused,
    ensures
        !accepts(s),
        acked(s, bytes).pending_count > s.config.low_watermark ==> !accepts(acked(s, bytes)),
        acked(s, bytes).pending_count <= s.config.low_watermark ==> !acked(s, bytes).paused,
{
}

/// A streaming request.
#[derive(Debug, Clone)]
pub struct StreamRequest {
    /// Root CID
    pub cid: Cid,
    /// Priority
    pub priority: i32,
    /// Deadline (if any)
    pub deadline: Option<std::time::Instant>,
    /// When request was queued
    pub queued_at: std::time::Instant,
}

/// The priorities of a list of requests.
pub open spec fn priorities(s: Seq<StreamRequest>) -> Seq<i32> {
    s.map_values(|r: StreamRequest| r.priority)
}

/// Priorities never increase along the list.
pub open spec fn by_priority(s: Seq<StreamRequest>) -> bool {
    forall|i: int, j: int| 0 <= i < j < s.len() ==> s[i].priority >= s[j].priority
}

/// Where a request of priority `p` goes: before the first request of lower priority.
pub open spec fn insert_pos(s: Seq<StreamRequest>, p: i32) -> int
    decreases s.len(),
{
    if s.len() == 0 {
        0
    } else if insert_pos(s.drop_last(), p) < s.len() - 1 {
        insert_pos(s.drop_last(), p)
    } else if s.last().priority < p {
        s.len() - 1
    } else {
        s.len() as int
    }
}

/// Request queue for prioritized streaming.
#[derive(Debug)]
pub struct StreamRequestQueue {
    requests: Vec<StreamRequest>,
    max_size: usize,
}

impl View for StreamRequestQueue {
    type V = (Seq<StreamRequest>, usize);

    closed spec fn view(&self) -> (Seq<StreamRequest>, usize) {
        (self.requests@, self.max_size)
    }
}

proof fn lemma_insert_pos(s: Seq<StreamRequest>, p: i32)
    ensures
        0 <= insert_pos(s, p) <= s.len(),
        forall|i: int| 0 <= i < insert_pos(s, p) ==> s[i].priority >= p,
        insert_pos(s, p) < s.len() ==> s[insert_pos(s, p)].priority < p,
    decreases s.len(),
{
    if s.len() > 0 {
        lemma_insert_pos(s.drop_last(), p);
        assert forall|i: int| 0 <= i < s.len() - 1 implies s.drop_last()[i] == s[i] by {}
    }
}

/// Insert `request` before the first request of lower priority.
fn insert_ordered(requests: &mut Vec<StreamRequest>, request: StreamRequest)
    ensures final(requests)@ == old(requests)@.insert(insert_pos(old(requests)@, request.priority), request),
{
    let ghost s = requests@;
    proof { lemma_insert_pos(s, request.priority); }
    let mut pos: usize = 0;
    while pos < requests.len() && requests[pos].priority >= request.priority
        invariant pos <= requests@.len(), requests@ == s, forall|i: int| 0 <= i < pos ==> s[i].priority >= request.priority,
        decreases requests.len() - pos,
    {
        pos += 1;
    }
    proof {
        if pos < insert_pos(s, request.priority) {
            assert(s[pos as int].priority < request.priority);
        }
    }
    requests.insert(pos, request);
}

impl StreamRequestQueue {
    /// Create a new request queue.
    pub fn new(max_size: usize) -> (r: Self)
        ensures r@.0.len() == 0, r@.1 == max_size,
    {
        StreamRequestQueue { requests: Vec::new(), max_size }
    }

    /// Add a request: refused (`false`) when the queue is full, else placed
    /// after every request of equal or higher priority.
    pub fn push(&mut self, request: StreamRequest) -> (r: bool)
        ensures
            r == (old(self)@.0.len() < old(self)@.1),
            r ==> final(self)@ == (old(self)@.0.insert(insert_pos(old(self)@.0, request.priority), request), old(self)@.1),
            !r ==> final(self)@ == old(self)@,
    {
        if self.requests.len() >= self.max_size {
            return false;
        }
        insert_ordered(&mut self.requests, request);
        true
    }

    /// Pop highest priority request.
    pub fn pop(&mut self) -> (r: Option<StreamRequest>)
        ensures
            old(self)@.0.len() == 0 ==> r is None && final(self)@ == old(self)@,
            old(self)@.0.len() > 0 ==> r == Some(old(self)@.0[0]) && final(self)@ == (old(self)@.0.drop_first(), old(self)@.1),
    {
        if self.requests.len() == 0 {
            None
        } else {
            let r = self.requests.remove(0);
            assert(self.requests@ =~= old(self)@.0.drop_first());
            Some(r)
        }
    }

    /// Peek at highest priority request.
    pub fn peek(&self) -> (r: Option<&StreamRequest>)
        ensures
            self@.0.len() == 0 ==> r is None,
            self@.0.len() > 0 ==> r == Some(&self@.0[0]),
    {
        if self.requests.len() == 0 { None } else { Some(&self.requests[0]) }
    }

    /// Check if empty.
    pub fn is_empty(&self) -> (r: bool)
        ensures r == (self@.0.len() == 0),
    {
        self.requests.len() == 0
    }

    /// Get queue length.
    pub fn len(&self) -> (r: usize)
        ensures r == self@.0.len(),
    {
        self.requests.len()
    }
}

/// Inserting at `insert_pos` keeps a list ordered by priority.
pub proof fn lemma_push_keeps_order(s: Seq<StreamRequest>, r: StreamRequest)
    requires by_priority(s),
    ensures by_priority(s.insert(insert_pos(s, r.priority), r)),
{
    lemma_insert_pos(s, r.priority);
    let k = insert_pos(s, r.priority);
    let t = s.insert(k, r);
    assert forall|i: int, j: int| 0 <= i < j < t.len() implies t[i].priority >= t[j].priority by {
        if j < k {
        } else if j == k {
        } else if i < k {
            assert(t[j] == s[j - 1]);
            if k < s.len() { assert(s[k].priority < r.priority); }
            assert(s[i].priority >= s[j - 1].priority);
        } else if i == k {
            assert(t[j] == s[j - 1]);
            assert(s[k].priority < r.priority);
            assert(s[k].priority >= s[j - 1].priority);
        } else {
            assert(t[i] == s[i - 1] && t[j] == s[j - 1]);
        }
    }
}

/// A request pushed behind requests of its own priority stays behind them:
/// requests of equal priority leave in the order they came.
pub proof fn lemma_push_fifo(s: Seq<StreamRequest>, r: StreamRequest, i: int)
    requires by_priority(s), 0 <= i < s.len(), s[i].priority == r.priority,
    ensures i < insert_pos(s, r.priority),
{
    lemma_insert_pos(s, r.priority);
    if insert_pos(s, r.priority) <= i {
        let k = insert_pos(s, r.priority);
        assert(s[k].priority < r.priority);
        assert(s[k].priority >= s[i].priority);
    }
}

/// How near the deadline of a request is.
#[derive(Debug, Clone, Copy, PartialEq, Eq, Structural)]
pub enum DeadlineState {
    /// The request has no deadline.
    NoDeadline,
    /// The deadline is a second or more away.
    Distant,
    /// The deadline is less than a second away.
    Near,
    /// The deadline has been reached.
    Passed,
}

/// `r` with its priority raised to at least `critical` when its deadline has
/// passed, to at least `urgent` when it is near, and unchanged otherwise.
pub open spec fn boosted(r: StreamRequest, state: DeadlineState, critical: i32, urgent: i32) -> StreamRequest {
    match state {
        DeadlineState::Passed => StreamRequest { priority: if r.priority < critical { critical } else { r.priority }, ..r },
        DeadlineState::Near => StreamRequest { priority: if r.priority < urgent { urgent } else { r.priority }, ..r },
        _ => r,
    }
}

/// Each request of `s` boosted by its deadline state in `states`.
pub open spec fn boosted_all(s: Seq<StreamRequest>, states: Seq<DeadlineState>, critical: i32, urgent: i32) -> Seq<StreamRequest> {
    Seq::new(s.len(), |i: int| boosted(s[i], states[i], critical, urgent))
}

/// `s` sorted by priority, highest first, requests of equal priority in the
/// order of `s`: each request in turn placed before the first of lower priority.
pub open spec fn resorted(s: Seq<StreamRequest>) -> Seq<StreamRequest>
    decreases s.len(),
{
    if s.len() == 0 {
        s
    } else {
        let t = resorted(s.drop_last());
        t.insert(insert_pos(t, s.last().priority), s.last())
    }
}

/// Re-sorting puts a list in priority order and keeps exactly its requests.
pub proof fn lemma_resorted(s: Seq<StreamRequest>)
    ensures
        by_priority(resorted(s)),
        resorted(s).to_multiset() == s.to_multiset(),
    decreases s.len(),
{
    if s.len() == 0 {
        assert(resorted(s) == s);
    } else {
        let d = s.drop_last();
        let x = s.last();
        lemma_resorted(d);
        let t = resorted(d);
        lemma_insert_pos(t, x.priority);
        lemma_push_keeps_order(t, x);
        vstd::seq_lib::to_multiset_insert(t, insert_pos(t, x.priority), x);
        vstd::seq_lib::to_multiset_build(d, x);
        assert(d.push(x) =~= s);
    }
}

/// A boost never lowers a priority.
pub proof fn lemma_boost_never_lowers(r: StreamRequest, state: DeadlineState, critical: i32, urgent: i32)
    ensures boosted(r, state, critical, urgent).priority >= r.priority,
{
}

/// Whether instant `a` is at or after instant `b` (`Instant >= Instant`).
pub uninterp spec fn instant_ge(a: std::time::Instant, b: std::time::Instant) -> bool;

/// The time from `earlier` to `later` (`Instant::duration_since`, zero when
/// `later` comes first).
pub uninterp spec fn instant_gap(later: std::time::Instant, earlier: std::time::Instant) -> core::time::Duration;

/// The whole seconds in a duration (`Duration::as_secs`).
pub uninterp spec fn duration_secs(d: core::time::Duration) -> u64;

/// `Instant >= Instant` (`PartialOrd::ge`): whether `a` is at or after `b`,
/// named; it depends on the two instants alone.
#[verifier::external_body]
fn instant_at_or_after(a: &std::time::Instant, b: &std::time::Instant) -> (r: bool)
    ensures r == instant_ge(*a, *b),
{
    *a >= *b
}

/// `Instant::duration_since`: the time from `earlier` to `later` (it
/// saturates at zero and does not panic), named.
#[verifier::external_body]
fn instant_duration_since(later: &std::time::Instant, earlier: &std::time::Instant) -> (r: core::time::Duration)
    ensures r == instant_gap(*later, *earlier),
{
    later.duration_since(*earlier)
}

/// `Duration::as_secs`: the whole seconds in `d`, named.
#[verifier::external_body]
pub(crate) fn duration_whole_secs(d: &core::time::Duration) -> (r: u64)
    ensures r == duration_secs(*d),
{
    d.as_secs()
}

/// The state of `deadline` at `now`, by the named comparison of instants
/// and the whole seconds between them.
pub open spec fn deadline_state_spec(deadline: Option<std::time::Instant>, now: std::time::Instant) -> DeadlineState {
    match deadline {
        None => DeadlineState::NoDeadline,
        Some(d) => deadline_class_spec(instant_ge(now, d), duration_secs(instant_gap(d, now))),
    }
}

/// The state of a deadline that `now` is at or after (`reached`), or else
/// `whole_secs_left` whole seconds away: passed, near when less than a
/// second is left, distant otherwise.
pub fn deadline_class(reached: bool, whole_secs_left: u64) -> (r: DeadlineState)
    ensures r == deadline_class_spec(reached, whole_secs_left),
{
    if reached {
        DeadlineState::Passed
    } else if whole_secs_left == 0 {
        DeadlineState::Near
    } else {
        DeadlineState::Distant
    }
}

/// How near `deadline` is at `now`: passed when `now` is at or after it,
/// near when less than a whole second is left, distant otherwise (see
/// `deadline_class`; the comparison of instants is the clock's).
pub fn deadline_state(deadline: &Option<std::time::Instant>, now: &std::time::Instant) -> (r: DeadlineState)
    ensures
        r == deadline_state_spec(*deadline, *now),
        (r == DeadlineState::NoDeadline) <==> deadline is None,
{
    match deadline {
        None => DeadlineState::NoDeadline,
        Some(d) => {
            let reached = instant_at_or_after(now, d);
            let secs = if reached { 0 } else { duration_whole_secs(&instant_duration_since(d, now)) };
            deadline_class(reached, secs)
        },
    }
}

/// The deadline state of each request of `s` at `now`.
pub open spec fn states_at(s: Seq<StreamRequest>, now: std::time::Instant) -> Seq<DeadlineState> {
    Seq::new(s.len(), |i: int| deadline_state_spec(s[i].deadline, now))
}

/// The state `deadline_class` gives.
pub open spec fn deadline_class_spec(reached: bool, whole_secs_left: u64) -> DeadlineState {
    if reached {
        DeadlineState::Passed
    } else if whole_secs_left == 0 {
        DeadlineState::Near
    } else {
        DeadlineState::Distant
    }
}

impl StreamRequestQueue {
    /// Boost each request by its deadline state in `states` (see `boosted`),
    /// then re-sort the queue by priority, requests of equal priority
    /// keeping their order.
    pub fn boost_with(&mut self, states: &Vec<DeadlineState>, critical: i32, urgent: i32)
        requires states@.len() == old(self)@.0.len(),
        ensures final(self)@ == (resorted(boosted_all(old(self)@.0, states@, critical, urgent)), old(self)@.1),
    {
        let ghost orig = self.requests@;
        let ghost b = boosted_all(orig, states@, critical, urgent);
        let mut src: Vec<StreamRequest> = Vec::new();
        std::mem::swap(&mut src, &mut self.requests);
        let n = src.len();
        let mut i: usize = 0;
        proof { assert(b.take(0) =~= Seq::<StreamRequest>::empty()); }
        while i < n
            invariant
                n == orig.len(), states@.len() == n, b == boosted_all(orig, states@, critical, urgent),
                i <= n, src@ =~= orig.subrange(i as int, n as int),
                self.requests@ == resorted(b.take(i as int)),
                self.max_size == old(self)@.1,
            decreases n - i,
        {
            let mut r = src.remove(0);
            assert(r == orig[i as int]);
            match states[i] {
                DeadlineState::Passed => {
                    if r.priority < critical {
                        r.priority = critical;
                    }
                },
                DeadlineState::Near => {
                    if r.priority < urgent {
                        r.priority = urgent;
                    }
                },
                _ => {},
            }
            assert(r == b[i as int]);
            proof {
                assert(b.take(i + 1).drop_last() =~= b.take(i as int));
                assert(b.take(i + 1).last() == b[i as int]);
            }
            insert_ordered(&mut self.requests, r);
            i += 1;
        }
        assert(b.take(n as int) =~= b);
    }

    /// Boost the priority of requests whose deadline approaches, as of now:
    /// a passed deadline raises a request to at least `critical`, one less
    /// than a second away to at least `urgent`; then the queue is re-sorted
    /// by priority, requests of equal priority keeping their order.
    pub fn boost_deadlines(&mut self, critical: i32, urgent: i32)
        ensures
            exists|now: std::time::Instant| #[trigger] final(self)@
                == (resorted(boosted_all(old(self)@.0, states_at(old(self)@.0, now), critical, urgent)), old(self)@.1),
    {
        let now = instant_now();
        let mut states: Vec<DeadlineState> = Vec::new();
        let mut i: usize = 0;
        while i < self.requests.len()
            invariant
                i <= self.requests@.len(), self.requests@ == old(self)@.0, self.max_size == old(self)@.1,
                states@.len() == i,
                forall|j: int| 0 <= j < i ==> states@[j] == deadline_state_spec((#[trigger] self.requests@[j]).deadline, now),
            decreases self.requests.len() - i,
        {
            let st = deadline_state(&self.requests[i].deadline, &now);
            states.push(st);
            i += 1;
        }
        assert(states@ =~= states_at(old(self)@.0, now));
        self.boost_with(&states, critical, urgent);
        assert(self@ == (resorted(boosted_all(old(self)@.0, states_at(old(self)@.0, now), critical, urgent)), old(self)@.1));
    }
}

/// TensorSwap statistics.
#[derive(Debug, Clone)]
pub struct TensorSwapStats {
    /// Number of tensors in want list
    pub want_list_size: usize,
    /// Number of registered tensor metadata entries
    pub num_tensors_registered: usize,
    /// Number of active tensor streams
    pub active_streams: usize,
    /// Total bytes sent
    pub total_bytes_sent: u64,
    /// Total bytes received
    pub total_bytes_recv: u64,
    /// Whether backpressure is active
    pub backpressure_paused: bool,
    /// Number of pending chunks
    pub pending_chunks: usize,
}

/// TensorSwap configuration.
#[derive(Debug, Clone)]
pub struct TensorSwapConfig {
    /// Enable progressive streaming
    pub progressive_streaming: bool,
    /// Chunk size for streaming (bytes)
    pub chunk_size: usize,
    /// Enable deadline-based prioritization
    pub deadline_aware: bool,
    /// Backpressure configuration
    pub backpressure: BackpressureConfig,
    /// Maximum concurrent tensor streams
    pub max_concurrent_streams: usize,
    /// Priority boost for critical tensors
    pub critical_priority_boost: i32,
    /// Dependency priority boost (per level)
    pub dependency_priority_boost: i32,
}

impl Default for TensorSwapConfig {
    fn default() -> (r: Self)
        ensures
            r.progressive_streaming, r.chunk_size == 1024 * 1024, r.deadline_aware,
            r.backpressure.max_pending == 64, r.backpressure.high_watermark == 48,
            r.backpressure.low_watermark == 16, r.backpressure.max_buffer_bytes == 64 * 1024 * 1024,
            r.max_concurrent_streams == 16, r.critical_priority_boost == 50, r.dependency_priority_boost == 10,
    {
        TensorSwapConfig {
            progressive_streaming: true,
            chunk_size: 1024 * 1024,
            deadline_aware: true,
            backpressure: BackpressureConfig::default(),
            max_concurrent_streams: 16,
            critical_priority_boost: 50,
            dependency_priority_boost: 10,
        }
    }
}


/// Whether `x` fits in an `i32`.
pub open spec fn fits_i32(x: int) -> bool {
    i32::MIN <= x <= i32::MAX
}

/// The terms of the priority that `meta` earns under `config`, in the order
/// they are added: the hint (0 when absent), the critical boost for a
/// critical tensor, `deadline_bonus` when deadlines count and the tensor has
/// one, and the dependency boost once per dependency.
pub open spec fn priority_terms(config: TensorSwapConfig, meta: TensorMetadata, deadline_bonus: i32) -> (int, int, int, int) {
    (
        match meta.priority_hint { Some(h) => h as int, None => 0 },
        if meta.is_critical { config.critical_priority_boost as int } else { 0 },
        if config.deadline_aware && meta.deadline is Some { deadline_bonus as int } else { 0 },
        meta.dependencies@.len() * config.dependency_priority_boost,
    )
}

/// The priority that `meta` earns under `config`: the sum of its terms.
pub open spec fn priority_of(config: TensorSwapConfig, meta: TensorMetadata, deadline_bonus: i32) -> int {
    let t = priority_terms(config, meta, deadline_bonus);
    t.0 + t.1 + t.2 + t.3
}

/// Whether every running sum of the priority terms fits in an `i32`.
pub open spec fn priority_fits(config: TensorSwapConfig, meta: TensorMetadata, deadline_bonus: i32) -> bool {
    let t = priority_terms(config, meta, deadline_bonus);
    &&& meta.dependencies@.len() <= i32::MAX
    &&& fits_i32(t.3)
    &&& fits_i32(t.0 + t.1)
    &&& fits_i32(t.0 + t.1 + t.2)
    &&& fits_i32(t.0 + t.1 + t.2 + t.3)
}

/// What a deadline `secs_left` whole seconds away adds to a tensor's
/// priority: 100 less the seconds left, and nothing from 100 seconds on.
pub fn deadline_bonus(secs_left: u64) -> (r: i32)
    ensures r == 100 - (if secs_left < 100 { secs_left as int } else { 100 }),
{
    let capped: u64 = if secs_left < 100 { secs_left } else { 100 };
    (100 - capped) as i32
}

impl TensorSwapConfig {
    /// The priority a tensor's metadata earns; `deadline_bonus` is what its
    /// deadline adds (see `deadline_bonus`), counted only when deadlines are
    /// taken into account and the tensor has one.
    pub fn metadata_priority(&self, meta: &TensorMetadata, deadline_bonus: i32) -> (r: i32)
        requires priority_fits(*self, *meta, deadline_bonus),
        ensures r == priority_of(*self, *meta, deadline_bonus),
    {
        let mut priority: i32 = match meta.priority_hint {
            Some(h) => h,
            None => 0,
        };
        if meta.is_critical {
            priority = priority + self.critical_priority_boost;
        }
        if self.deadline_aware && meta.deadline.is_some() {
            priority = priority + deadline_bonus;
        }
        let deps: i32 = meta.dependencies.len() as i32;
        assert(deps * self.dependency_priority_boost == meta.dependencies@.len() * self.dependency_priority_boost);
        priority = priority + deps * self.dependency_priority_boost;
        priority
    }

    /// Whether a new tensor stream may start: refused with an `Internal`
    /// error while backpressure does not accept data, and otherwise while
    /// the number of active streams has reached the limit.
    pub fn admit_stream(&self, backpressure: &BackpressureController, active_streams: usize) -> (r: Result<(), Error>)
        ensures
            r is Ok <==> accepts(backpressure@) && active_streams < self.max_concurrent_streams,
            r matches Err(e) ==> e.kind() == crate::error::ErrorKind::Internal,
            r matches Err(Error::Internal(m)) ==> m@ == (if !accepts(backpressure@) {
                "Backpressure limit reached"@
            } else {
                "Maximum concurrent streams reached"@
            }),
    {
        if !backpressure.should_accept() {
            return Err(Error::Internal(String::from_str("Backpressure limit reached")));
        }
        if active_streams >= self.max_concurrent_streams {
            return Err(Error::Internal(String::from_str("Maximum concurrent streams reached")));
        }
        Ok(())
    }

    /// The wants that a request for tensor `cid` issues, in order: the tensor
    /// itself at `priority`, then each of its dependencies `deps` at
    /// `priority` plus the dependency boost.
    pub fn tensor_wants(&self, cid: &Cid, deps: &Vec<Cid>, priority: i32) -> (r: Vec<(Cid, i32)>)
        requires deps@.len() > 0 ==> fits_i32(priority + self.dependency_priority_boost),
        ensures
            r@.len() == deps@.len() + 1,
            r@[0].0@ == cid@,
            r@[0].1 == priority,
            forall|i: int| 0 <= i < deps@.len() ==> {
                &&& (#[trigger] r@[i + 1]).0@ == deps@[i]@
                &&& r@[i + 1].1 == priority + self.dependency_priority_boost
            },
    {
        let mut wants: Vec<(Cid, i32)> = Vec::new();
        wants.push((cid.clone(), priority));
        let mut i: usize = 0;
        while i < deps.len()
            invariant
                i <= deps@.len(),
                deps@.len() > 0 ==> fits_i32(priority + self.dependency_priority_boost),
                wants@.len() == i + 1,
                wants@[0].0@ == cid@,
                wants@[0].1 == priority,
                forall|j: int| 0 <= j < i ==> {
                    &&& (#[trigger] wants@[j + 1]).0@ == deps@[j]@
                    &&& wants@[j + 1].1 == priority + self.dependency_priority_boost
                },
            decreases deps.len() - i,
        {
            let dep_priority = priority + self.dependency_priority_boost;
            wants.push((deps[i].clone(), dep_priority));
            i += 1;
        }
        wants
    }
}


/// The characters of `s`.
pub fn chars_of(s: &str) -> (r: Vec<char>)
    ensures r@ == s@,
{
    let n = s.unicode_len();
    let mut r: Vec<char> = Vec::new();
    let mut i: usize = 0;
    while i < n
        invariant i <= n, n == s@.len(), r@ == s@.subrange(0, i as int),
        decreases n - i,
    {
        r.push(s.get_char(i));
        assert(r@ =~= s@.subrange(0, i + 1));
        i += 1;
    }
    assert(s@.subrange(0, n as int) =~= s@);
    r
}

/// Whether `c` has the Unicode White_Space property, the characters that
/// `char::is_whitespace` accepts: U+0009 to U+000D, U+0020, U+0085, U+00A0,
/// U+1680, U+2000 to U+200A, U+2028, U+2029, U+202F, U+205F and U+3000.
pub open spec fn white_space(c: char) -> bool {
    ||| ('\u{9}' <= c && c <= '\u{d}')
    ||| c == ' '
    ||| c == '\u{85}'
    ||| c == '\u{a0}'
    ||| c == '\u{1680}'
    ||| ('\u{2000}' <= c && c <= '\u{200a}')
    ||| c == '\u{2028}'
    ||| c == '\u{2029}'
    ||| c == '\u{202f}'
    ||| c == '\u{205f}'
    ||| c == '\u{3000}'
}

/// Whether `c` is a white-space character (see `white_space`).
fn is_white_space(c: char) -> (r: bool)
    ensures r == white_space(c),
{
    ('\u{9}' <= c && c <= '\u{d}') || c == ' ' || c == '\u{85}' || c == '\u{a0}' || c == '\u{1680}'
        || ('\u{2000}' <= c && c <= '\u{200a}') || c == '\u{2028}' || c == '\u{2029}' || c == '\u{202f}'
        || c == '\u{205f}' || c == '\u{3000}'
}

/// How many white-space characters `s` starts with.
pub open spec fn lead_ws(s: Seq<char>) -> nat
    decreases s.len(),
{
    if s.len() > 0 && white_space(s[0]) { 1 + lead_ws(s.drop_first()) } else { 0 }
}

/// How many white-space characters `s` ends with.
pub open spec fn trail_ws(s: Seq<char>) -> nat
    decreases s.len(),
{
    if s.len() > 0 && white_space(s.last()) { 1 + trail_ws(s.drop_last()) } else { 0 }
}

/// `s` without leading and trailing white space (what `str::trim` leaves).
pub open spec fn trimmed(s: Seq<char>) -> Seq<char> {
    if lead_ws(s) >= s.len() { Seq::empty() } else { s.subrange(lead_ws(s) as int, s.len() - trail_ws(s)) }
}

proof fn lemma_lead_ws(s: Seq<char>, k: int)
    requires 0 <= k <= s.len(), forall|i: int| 0 <= i < k ==> white_space(#[trigger] s[i]), k == s.len() || !white_space(s[k]),
    ensures lead_ws(s) == k,
    decreases k,
{
    if k > 0 {
        assert forall|i: int| 0 <= i < k - 1 implies white_space(#[trigger] s.drop_first()[i]) by {
            assert(s.drop_first()[i] == s[i + 1]);
        }
        if k < s.len() { assert(s.drop_first()[k - 1] == s[k]); }
        lemma_lead_ws(s.drop_first(), k - 1);
    }
}

proof fn lemma_trail_ws(s: Seq<char>, k: int)
    requires 0 <= k <= s.len(), forall|i: int| s.len() - k <= i < s.len() ==> white_space(#[trigger] s[i]),
        k == s.len() || !white_space(s[s.len() - k - 1]),
    ensures trail_ws(s) == k,
    decreases k,
{
    if k > 0 {
        assert forall|i: int| s.len() - 1 - (k - 1) <= i < s.len() - 1 implies white_space(#[trigger] s.drop_last()[i]) by {
            assert(s.drop_last()[i] == s[i]);
        }
        if k < s.len() { assert(s.drop_last()[s.len() - 1 - (k - 1) - 1] == s[s.len() - k - 1]); }
        lemma_trail_ws(s.drop_last(), k - 1);
    }
}

/// `str::trim`: `s` without leading and trailing white space.
fn trim_string(s: &str) -> (r: String)
    ensures r@ == trimmed(s@),
{
    let n = s.unicode_len();
    let mut a: usize = 0;
    while a < n && is_white_space(s.get_char(a))
        invariant a <= n, n == s@.len(), forall|i: int| 0 <= i < a ==> white_space(#[trigger] s@[i]),
        decreases n - a,
    {
        a += 1;
    }
    proof { lemma_lead_ws(s@, a as int); }
    if a == n {
        return String::new();
    }
    let mut b: usize = n;
    while b > a && is_white_space(s.get_char(b - 1))
        invariant a < b <= n, n == s@.len(), !white_space(s@[a as int]), forall|i: int| b <= i < n ==> white_space(#[trigger] s@[i]),
        decreases b - a,
    {
        b -= 1;
    }
    proof { lemma_trail_ws(s@, (n - b) as int); }
    s.substring_char(a, b).to_owned()
}

/// `"->"` starts at position `i` of `s`.
pub open spec fn arrow_at(s: Seq<char>, i: int) -> bool {
    0 <= i && i + 1 < s.len() && s[i] == '-' && s[i + 1] == '>'
}

/// `s` holds `"->"` exactly once, at `i`.
pub open spec fn single_arrow(s: Seq<char>, i: int) -> bool {
    arrow_at(s, i) && forall|j: int| #[trigger] arrow_at(s, j) ==> j == i
}

/// The pieces of `s` between the occurrences of `c`.
pub open spec fn split_on(s: Seq<char>, c: char) -> Seq<Seq<char>>
    decreases s.len(),
{
    if s.len() == 0 {
        seq![Seq::<char>::empty()]
    } else {
        let p = split_on(s.drop_last(), c);
        if s.last() == c { p.push(Seq::<char>::empty()) } else { p.update(p.len() - 1, p.last().push(s.last())) }
    }
}

proof fn lemma_split_nonempty(s: Seq<char>, c: char)
    ensures split_on(s, c).len() >= 1,
    decreases s.len(),
{
    if s.len() > 0 { lemma_split_nonempty(s.drop_last(), c); }
}

/// The distinct characters of `a`, in order of first occurrence, that also occur in `b`.
pub open spec fn common_chars(a: Seq<char>, b: Seq<char>) -> Seq<char>
    decreases a.len(),
{
    if a.len() == 0 {
        Seq::<char>::empty()
    } else {
        let p = common_chars(a.drop_last(), b);
        if b.contains(a.last()) && !p.contains(a.last()) { p.push(a.last()) } else { p }
    }
}

/// The number of bytes of `s` in UTF-8.
pub open spec fn byte_len(s: Seq<char>) -> usize {
    vstd::utf8::encode_utf8(s).len() as usize
}

/// Whether `v` holds `c`.
fn has_char(v: &Vec<char>, c: char) -> (r: bool)
    ensures r == v@.contains(c),
{
    let mut i: usize = 0;
    while i < v.len()
        invariant i <= v.len(), forall|k: int| 0 <= k < i ==> v@[k] != c,
        decreases v.len() - i,
    {
        if v[i] == c {
            return true;
        }
        i += 1;
    }
    false
}

/// Einsum expression: comma-separated input subscripts, `->`, output subscripts.
#[derive(Debug, Clone)]
pub struct EinsumExpression {
    /// Raw einsum string (e.g., "ij,jk->ik")
    pub expression: String,
    /// Input tensor identifiers
    pub inputs: Vec<String>,
    /// Output tensor identifier
    pub output: String,
}

impl EinsumExpression {
    /// Parse an einsum expression "input1,input2->output": exactly one `->`;
    /// the inputs are the trimmed comma-separated pieces before it, the
    /// output the trimmed text after it.
    pub fn parse(expression: &str) -> (r: Result<Self, Error>)
        ensures
            match r {
                Ok(e) => exists|a: int| #[trigger] single_arrow(expression@, a) && {
                    &&& e.expression@ == expression@
                    &&& e.inputs@.len() == split_on(expression@.subrange(0, a), ',').len()
                    &&& forall|k: int| 0 <= k < e.inputs@.len() ==>
                        #[trigger] e.inputs@[k]@ == trimmed(split_on(expression@.subrange(0, a), ',')[k])
                    &&& e.output@ == trimmed(expression@.subrange(a + 2, expression@.len() as int))
                },
                Err(e) => (forall|a: int| !#[trigger] single_arrow(expression@, a))
                    && e.kind() == crate::error::ErrorKind::InvalidInput,
            },
    {
        let chars = chars_of(expression);
        let n = chars.len();
        let mut found: Option<usize> = None;
        let mut i: usize = 0;
        while i < n
            invariant
                i <= n, n == expression@.len(), chars@ == expression@,
                found matches Some(a) ==> a < i && arrow_at(expression@, a as int),
                forall|j: int| 0 <= j < i && #[trigger] arrow_at(expression@, j) ==> found == Some(j as usize),
            decreases n - i,
        {
            if i + 1 < n && chars[i] == '-' && chars[i + 1] == '>' {
                if let Some(a) = found {
                    proof {
                        assert forall|x: int| !#[trigger] single_arrow(expression@, x) by {
                            if single_arrow(expression@, x) {
                                assert(arrow_at(expression@, a as int));
                                assert(arrow_at(expression@, i as int));
                            }
                        }
                    }
                    return Err(Error::InvalidInput(String::from_str("Invalid einsum expression: missing '->'")));
                }
                found = Some(i);
            }
            i += 1;
        }
        let a = match found {
            Some(a) => a,
            None => {
                proof {
                    assert forall|x: int| !#[trigger] single_arrow(expression@, x) by {
                        if single_arrow(expression@, x) {
                            assert(arrow_at(expression@, x));
                        }
                    }
                }
                return Err(Error::InvalidInput(String::from_str("Invalid einsum expression: missing '->'")));
            },
        };
        assert(single_arrow(expression@, a as int));
        let ghost lhs = expression@.subrange(0, a as int);
        let ghost mut done: Seq<Seq<char>> = Seq::empty();
        let mut inputs: Vec<String> = Vec::new();
        let mut start: usize = 0;
        let mut k: usize = 0;
        assert(lhs.subrange(0, 0) =~= Seq::<char>::empty());
        assert(done.push(lhs.subrange(0, 0)) =~= seq![Seq::<char>::empty()]);
        while k < a
            invariant
                start <= k <= a, a < n, n == expression@.len(), chars@ == expression@,
                lhs == expression@.subrange(0, a as int),
                split_on(lhs.subrange(0, k as int), ',') == done.push(lhs.subrange(start as int, k as int)),
                inputs@.len() == done.len(),
                forall|j: int| 0 <= j < done.len() ==> #[trigger] inputs@[j]@ == trimmed(done[j]),
            decreases a - k,
        {
            assert(lhs.subrange(0, k + 1).drop_last() =~= lhs.subrange(0, k as int));
            assert(lhs.subrange(0, k + 1).last() == chars@[k as int]);
            if chars[k] == ',' {
                let piece = trim_string(expression.substring_char(start, k));
                assert(expression@.subrange(start as int, k as int) =~= lhs.subrange(start as int, k as int));
                proof { done = done.push(lhs.subrange(start as int, k as int)); }
                inputs.push(piece);
                start = k + 1;
                assert(lhs.subrange(start as int, k + 1) =~= Seq::<char>::empty());
            } else {
                assert(lhs.subrange(start as int, k + 1) =~= lhs.subrange(start as int, k as int).push(chars@[k as int]));
            }
            k += 1;
        }
        let piece = trim_string(expression.substring_char(start, a));
        assert(expression@.subrange(start as int, a as int) =~= lhs.subrange(start as int, a as int));
        assert(lhs.subrange(0, a as int) =~= lhs);
        proof { done = done.push(lhs.subrange(start as int, a as int)); }
        inputs.push(piece);
        let output = trim_string(expression.substring_char(a + 2, n));
        Ok(EinsumExpression { expression: String::from_str(expression), inputs, output })
    }

    /// Get number of input tensors.
    pub fn num_inputs(&self) -> (r: usize)
        ensures r == self.inputs@.len(),
    {
        self.inputs.len()
    }

    /// Whether some input has more subscript bytes than the output.
    pub fn is_reduction(&self) -> (r: bool)
        ensures r == exists|k: int| 0 <= k < self.inputs@.len() && byte_len(#[trigger] self.inputs@[k]@) > byte_len(self.output@),
    {
        let output_len = self.output.as_str().len();
        let mut k: usize = 0;
        while k < self.inputs.len()
            invariant k <= self.inputs.len(), output_len == byte_len(self.output@),
                forall|j: int| 0 <= j < k ==> byte_len(#[trigger] self.inputs@[j]@) <= byte_len(self.output@),
            decreases self.inputs.len() - k,
        {
            if self.inputs[k].as_str().len() > output_len {
                return true;
            }
            k += 1;
        }
        false
    }

    /// A single input whose subscripts have as many bytes as the output's.
    pub fn is_transpose(&self) -> (r: bool)
        ensures r == (self.inputs@.len() == 1 && byte_len(self.output@) == byte_len(self.inputs@[0]@)),
    {
        self.inputs.len() == 1 && self.output.as_str().len() == self.inputs[0].as_str().len()
    }

    /// Subscripts shared by the first two inputs, each once, in the order
    /// they first occur in the first input; empty with fewer than two inputs.
    pub fn shared_indices(&self) -> (r: Vec<char>)
        ensures r@ == if self.inputs@.len() < 2 { Seq::<char>::empty() } else { common_chars(self.inputs@[0]@, self.inputs@[1]@) },
    {
        if self.inputs.len() < 2 {
            return Vec::new();
        }
        let first = chars_of(self.inputs[0].as_str());
        let second = chars_of(self.inputs[1].as_str());
        let mut r: Vec<char> = Vec::new();
        let mut i: usize = 0;
        while i < first.len()
            invariant i <= first.len(), r@ == common_chars(first@.subrange(0, i as int), second@),
            decreases first.len() - i,
        {
            assert(first@.subrange(0, i + 1).drop_last() =~= first@.subrange(0, i as int));
            let c = first[i];
            if has_char(&second, c) && !has_char(&r, c) {
                r.push(c);
            }
            i += 1;
        }
        assert(first@.subrange(0, first.len() as int) =~= first@);
        r
    }
}


/// The little-endian value of the first eight bytes of `b`.
pub open spec fn le_u64(b: Seq<u8>) -> int {
    b[0] + 256 * (b[1] + 256 * (b[2] + 256 * (b[3] + 256 * (b[4] + 256 * (b[5] + 256 * (b[6] + 256 * b[7] as int))))))
}

/// A JSON value inside a safetensors entry, as far as the header reader looks
/// into it: a string, an array whose elements are each read as a `u64` where
/// they are one, or anything else.
#[derive(Debug, Clone)]
pub enum JsonField {
    Str(String),
    Array(Vec<Option<u64>>),
    Other,
}

/// A top-level value of a safetensors header: an object's fields in order,
/// or anything else.
#[derive(Debug, Clone)]
pub enum HeaderValue {
    Object(Vec<(String, JsonField)>),
    Other,
}

/// Index of the first field named `key`, or -1.
pub open spec fn first_key(f: Seq<(String, JsonField)>, key: Seq<char>) -> int
    decreases f.len(),
{
    if f.len() == 0 {
        -1
    } else if first_key(f.drop_last(), key) >= 0 {
        first_key(f.drop_last(), key)
    } else if f.last().0@ == key {
        f.len() - 1
    } else {
        -1
    }
}

proof fn lemma_first_key(f: Seq<(String, JsonField)>, key: Seq<char>, i: int)
    requires 0 <= i <= f.len(), forall|j: int| 0 <= j < i ==> f[j].0@ != key,
    ensures
        i < f.len() && f[i].0@ == key ==> first_key(f, key) == i,
        i == f.len() ==> first_key(f, key) == -1,
    decreases f.len(),
{
    if f.len() > 0 {
        if i < f.len() {
            if i < f.len() - 1 {
                lemma_first_key(f.drop_last(), key, i);
            } else {
                lemma_first_key(f.drop_last(), key, i);
            }
        } else {
            lemma_first_key(f.drop_last(), key, i - 1);
        }
    }
}

/// The field named `key`, first one if several.
fn find_field<'a>(f: &'a Vec<(String, JsonField)>, key: &str) -> (r: Option<&'a JsonField>)
    ensures
        first_key(f@, key@) >= 0 ==> r == Some(&f@[first_key(f@, key@)].1),
        first_key(f@, key@) < 0 ==> r is None,
{
    let k = String::from_str(key);
    let mut i: usize = 0;
    while i < f.len()
        invariant i <= f.len(), k@ == key@, forall|j: int| 0 <= j < i ==> f@[j].0@ != key@,
        decreases f.len() - i,
    {
        if f[i].0.eq(&k) {
            proof { lemma_first_key(f@, key@, i as int); }
            return Some(&f[i].1);
        }
        i += 1;
    }
    proof { lemma_first_key(f@, key@, i as int); }
    None
}

/// The elements of `a` that are `u64`s, each as a `usize`.
pub open spec fn u64s(a: Seq<Option<u64>>) -> Seq<usize>
    decreases a.len(),
{
    if a.len() == 0 {
        Seq::empty()
    } else {
        let p = u64s(a.drop_last());
        match a.last() {
            Some(n) => p.push(n as usize),
            None => p,
        }
    }
}

/// The data type an entry's fields give: its "dtype" string, else "F32".
pub open spec fn entry_dtype(f: Seq<(String, JsonField)>) -> Seq<char> {
    let i = first_key(f, "dtype"@);
    if i >= 0 {
        match f[i].1 {
            JsonField::Str(s) => s@,
            _ => "F32"@,
        }
    } else {
        "F32"@
    }
}

/// The shape an entry's fields give: the `u64` elements of its "shape" array, else empty.
pub open spec fn entry_shape(f: Seq<(String, JsonField)>) -> Seq<usize> {
    let i = first_key(f, "shape"@);
    if i >= 0 {
        match f[i].1 {
            JsonField::Array(a) => u64s(a@),
            _ => Seq::empty(),
        }
    } else {
        Seq::empty()
    }
}

/// The start and end offsets an entry's fields give: the first two elements
/// of its "data_offsets" array (start 0 and end = start where missing), else (0, 0).
pub open spec fn entry_offsets(f: Seq<(String, JsonField)>) -> (u64, u64) {
    let i = first_key(f, "data_offsets"@);
    if i >= 0 {
        match f[i].1 {
            JsonField::Array(a) => {
                let start = if a@.len() > 0 { match a@[0] { Some(x) => x, None => 0u64 } } else { 0u64 };
                let end = if a@.len() > 1 { match a@[1] { Some(y) => y, None => start } } else { start };
                (start, end)
            },
            _ => (0u64, 0u64),
        }
    } else {
        (0u64, 0u64)
    }
}

/// Entry in safetensors file.
#[derive(Debug, Clone)]
pub struct SafetensorEntry {
    /// Tensor name
    pub name: String,
    /// Data type
    pub dtype: String,
    /// Shape
    pub shape: Vec<usize>,
    /// Byte offset in data section
    pub data_offset: u64,
    /// Byte length
    pub data_length: u64,
}

/// The mathematical value of a safetensors entry.
pub struct EntrySpec {
    pub name: Seq<char>,
    pub dtype: Seq<char>,
    pub shape: Seq<usize>,
    pub data_offset: u64,
    pub data_length: u64,
}

impl View for SafetensorEntry {
    type V = EntrySpec;

    open spec fn view(&self) -> EntrySpec {
        EntrySpec { name: self.name@, dtype: self.dtype@, shape: self.shape@, data_offset: self.data_offset, data_length: self.data_length }
    }
}

/// Whether a header item describes a tensor: an object not named "__metadata__".
pub open spec fn is_tensor_item(item: (String, HeaderValue)) -> bool {
    item.0@ != "__metadata__"@ && item.1 is Object
}

/// Every tensor item's offsets are in order.
pub open spec fn offsets_ordered(items: Seq<(String, HeaderValue)>) -> bool {
    forall|k: int| 0 <= k < items.len() && is_tensor_item(#[trigger] items[k]) ==> {
        let off = entry_offsets(items[k].1->Object_0@);
        off.0 <= off.1
    }
}

/// The entry a tensor item describes.
pub open spec fn item_entry(item: (String, HeaderValue)) -> EntrySpec {
    let f = item.1->Object_0@;
    let off = entry_offsets(f);
    EntrySpec { name: item.0@, dtype: entry_dtype(f), shape: entry_shape(f), data_offset: off.0, data_length: (off.1 - off.0) as u64 }
}

/// The entries of the tensor items, in order.
pub open spec fn header_entries(items: Seq<(String, HeaderValue)>) -> Seq<EntrySpec>
    decreases items.len(),
{
    if items.len() == 0 {
        Seq::empty()
    } else {
        let p = header_entries(items.drop_last());
        if is_tensor_item(items.last()) { p.push(item_entry(items.last())) } else { p }
    }
}

/// Entry `e` is what tensor item `item` describes, read off its fields: its
/// name, data type and shape, starting at the start offset with a length
/// that reaches the end offset.
pub open spec fn spans(e: EntrySpec, item: (String, HeaderValue)) -> bool {
    let f = item.1->Object_0@;
    &&& is_tensor_item(item)
    &&& e.name == item.0@
    &&& e.data_offset == entry_offsets(f).0
    &&& e.data_offset + e.data_length == entry_offsets(f).1
    &&& e.dtype == entry_dtype(f)
    &&& e.shape == entry_shape(f)
}

/// Entry `j` of the header is what one of the items describes.
pub open spec fn entry_from_item(items: Seq<(String, HeaderValue)>, j: int) -> bool {
    exists|k: int| 0 <= k < items.len() && #[trigger] spans(header_entries(items)[j], items[k])
}

/// Each tensor entry spans exactly its item's data offsets: it starts at
/// the start offset and its length reaches the end offset; its name, data
/// type and shape are its item's.
pub proof fn lemma_entries_span_offsets(items: Seq<(String, HeaderValue)>)
    requires offsets_ordered(items),
    ensures forall|j: int| 0 <= j < header_entries(items).len() ==> #[trigger] entry_from_item(items, j),
{
    assert forall|j: int| 0 <= j < header_entries(items).len() implies #[trigger] entry_from_item(items, j) by {
        let k = lemma_entry_span_at(items, j);
        assert(spans(header_entries(items)[j], items[k]));
    }
}

/// The item that entry `j` of the header spans.
proof fn lemma_entry_span_at(items: Seq<(String, HeaderValue)>, j: int) -> (k: int)
    requires offsets_ordered(items), 0 <= j < header_entries(items).len(),
    ensures 0 <= k < items.len(), spans(header_entries(items)[j], items[k]),
    decreases items.len(),
{
    let d = items.drop_last();
    let n = items.len() - 1;
    assert forall|k: int| 0 <= k < d.len() && is_tensor_item(#[trigger] d[k]) implies {
        let off = entry_offsets(d[k].1->Object_0@);
        off.0 <= off.1
    } by {
        assert(d[k] == items[k]);
    }
    if j < header_entries(d).len() {
        let k = lemma_entry_span_at(d, j);
        assert(d[k] == items[k]);
        assert(header_entries(items)[j] == header_entries(d)[j]);
        k
    } else {
        assert(is_tensor_item(items[n]));
        assert(header_entries(items)[j] == item_entry(items[n]));
        n
    }
}

pub open spec fn entries_view(v: Seq<SafetensorEntry>) -> Seq<EntrySpec> {
    v.map_values(|e: SafetensorEntry| e@)
}

/// Index of the first entry named `name`, or -1.
pub open spec fn entry_index(v: Seq<EntrySpec>, name: Seq<char>) -> int
    decreases v.len(),
{
    if v.len() == 0 {
        -1
    } else if entry_index(v.drop_last(), name) >= 0 {
        entry_index(v.drop_last(), name)
    } else if v.last().name == name {
        v.len() - 1
    } else {
        -1
    }
}

proof fn lemma_entry_index(v: Seq<EntrySpec>, name: Seq<char>, i: int)
    requires 0 <= i <= v.len(), forall|j: int| 0 <= j < i ==> v[j].name != name,
    ensures
        i < v.len() && v[i].name == name ==> entry_index(v, name) == i,
        i == v.len() ==> entry_index(v, name) == -1,
    decreases v.len(),
{
    if v.len() > 0 {
        if i < v.len() {
            lemma_entry_index(v.drop_last(), name, i);
        } else {
            lemma_entry_index(v.drop_last(), name, i - 1);
        }
    }
}

/// The `u64` elements of `a`, each as a `usize`.
fn collect_u64s(a: &Vec<Option<u64>>) -> (r: Vec<usize>)
    ensures r@ == u64s(a@),
{
    let mut r: Vec<usize> = Vec::new();
    let mut i: usize = 0;
    while i < a.len()
        invariant i <= a.len(), r@ == u64s(a@.subrange(0, i as int)),
        decreases a.len() - i,
    {
        assert(a@.subrange(0, i + 1).drop_last() =~= a@.subrange(0, i as int));
        if let Some(n) = a[i] {
            r.push(#[verifier::truncate] (n as usize));
        }
        i += 1;
    }
    assert(a@.subrange(0, a.len() as int) =~= a@);
    r
}

/// Every two items have different names.
pub open spec fn distinct_names(items: Seq<(String, HeaderValue)>) -> bool {
    forall|i: int, j: int| 0 <= i < j < items.len() ==> #[trigger] items[i].0@ != #[trigger] items[j].0@
}

#[verifier::external_type_specification]
#[verifier::external_body]
pub struct ExJsonValue(serde_json::Value);

/// A field of a safetensors entry as the header reader sees it: a JSON
/// string as `Str`, an array as `serde_json::Value::as_u64` of each element,
/// anything else as `Other`. A conversion: nothing is stated.
#[verifier::external_body]
fn json_field(v: serde_json::Value) -> JsonField {
    match v {
        serde_json::Value::String(s) => JsonField::Str(s),
        serde_json::Value::Array(a) => JsonField::Array(a.iter().map(|x| x.as_u64()).collect()),
        _ => JsonField::Other,
    }
}

/// A top-level value of a safetensors header: a JSON object as its fields
/// (in the order of the `serde_json::Map`), each turned by `json_field`;
/// anything else as `Other`. A conversion: nothing is stated.
#[verifier::external_body]
fn header_value(v: serde_json::Value) -> HeaderValue {
    match v {
        serde_json::Value::Object(m) => HeaderValue::Object(m.into_iter().map(|(k, f)| (k, json_field(f))).collect()),
        _ => HeaderValue::Other,
    }
}

/// What `serde_json::from_slice` makes of header bytes read as a
/// `HashMap<String, serde_json::Value>`, each value turned by `header_value`:
/// the map from names to values, or `None` when the bytes are not such a
/// JSON object.
pub uninterp spec fn header_json(json: Seq<u8>) -> Option<Map<Seq<char>, HeaderValue>>;

/// A list of named items taken as a map from names to values.
pub open spec fn items_map(items: Seq<(String, HeaderValue)>) -> Map<Seq<char>, HeaderValue> {
    Map::new(
        |k: Seq<char>| exists|i: int| 0 <= i < items.len() && #[trigger] items[i].0@ == k,
        |k: Seq<char>| items[choose|i: int| 0 <= i < items.len() && #[trigger] items[i].0@ == k].1,
    )
}

/// Every tensor item of a header map (an object not named "__metadata__")
/// has its offsets in order.
pub open spec fn map_offsets_ordered(m: Map<Seq<char>, HeaderValue>) -> bool {
    forall|k: Seq<char>| #[trigger] m.contains_key(k) && k != "__metadata__"@ && m[k] is Object ==> {
        let off = entry_offsets(m[k]->Object_0@);
        off.0 <= off.1
    }
}

/// Safetensors bytes the header reader accepts: long enough for the size
/// and the header it gives, whose JSON is an object with every tensor's
/// offsets in order.
pub open spec fn header_accepted(data: Seq<u8>) -> bool {
    &&& data.len() >= 8
    &&& data.len() >= 8 + le_u64(data)
    &&& header_json(data.subrange(8, 8 + le_u64(data))) is Some
    &&& map_offsets_ordered(header_json(data.subrange(8, 8 + le_u64(data)))->Some_0)
}

/// With distinct names, each item is what the map gives for its name.
proof fn lemma_items_map(items: Seq<(String, HeaderValue)>, j: int)
    requires distinct_names(items), 0 <= j < items.len(),
    ensures items_map(items).contains_key(items[j].0@), items_map(items)[items[j].0@] == items[j].1,
{
    let k = items[j].0@;
    assert(items[j].0@ == k);
    let i = choose|i: int| 0 <= i < items.len() && #[trigger] items[i].0@ == k;
    if i != j {
        if i < j { assert(items[i].0@ != items[j].0@); } else { assert(items[j].0@ != items[i].0@); }
    }
}

/// Items with distinct names whose map has its offsets in order have their
/// offsets in order.
proof fn lemma_map_offsets(items: Seq<(String, HeaderValue)>)
    requires distinct_names(items), map_offsets_ordered(items_map(items)),
    ensures offsets_ordered(items),
{
    assert forall|k: int| 0 <= k < items.len() && is_tensor_item(#[trigger] items[k]) implies {
        let off = entry_offsets(items[k].1->Object_0@);
        off.0 <= off.1
    } by {
        lemma_items_map(items, k);
    }
}

/// `serde_json::from_slice` of the header bytes into a
/// `HashMap<String, serde_json::Value>`, each value turned by `header_value`:
/// it succeeds exactly when the bytes are such a JSON object, and the items,
/// taken as a map, are the named result; the names are distinct (they were
/// the map's keys). The items come in the order in which the map is walked,
/// which is not stated. On failure, the error's text.
#[verifier::external_body]
fn parse_header_items(json: &[u8]) -> (r: Result<Vec<(String, HeaderValue)>, String>)
    ensures
        r is Ok <==> header_json(json@) is Some,
        r matches Ok(items) ==> distinct_names(items@) && header_json(json@) == Some(items_map(items@)),
{
    let map: std::collections::HashMap<String, serde_json::Value> = serde_json::from_slice(json).map_err(|e| e.to_string())?;
    Ok(map.into_iter().map(|(k, v)| (k, header_value(v))).collect())
}

/// The data offsets an entry's fields give.
fn offsets_of(fields: &Vec<(String, JsonField)>) -> (r: (u64, u64))
    ensures r == entry_offsets(fields@),
{
    match find_field(fields, "data_offsets") {
        Some(JsonField::Array(a)) => {
            let start: u64 = if a.len() > 0 { match a[0] { Some(x) => x, None => 0 } } else { 0 };
            let end: u64 = if a.len() > 1 { match a[1] { Some(y) => y, None => start } } else { start };
            (start, end)
        },
        _ => (0, 0),
    }
}

/// Whether every tensor item's offsets are in order.
fn check_offsets(items: &Vec<(String, HeaderValue)>) -> (r: bool)
    ensures r == offsets_ordered(items@),
{
    let mut k: usize = 0;
    while k < items.len()
        invariant k <= items.len(), forall|j: int| 0 <= j < k && is_tensor_item(#[trigger] items@[j]) ==> {
            let off = entry_offsets(items@[j].1->Object_0@);
            off.0 <= off.1
        },
        decreases items.len() - k,
    {
        let (name, value) = &items[k];
        if let HeaderValue::Object(fields) = value {
            if !name.eq(&String::from_str("__metadata__")) {
                let (start, end) = offsets_of(fields);
                if start > end {
                    assert(is_tensor_item(items@[k as int]));
                    return false;
                }
            }
        }
        k += 1;
    }
    true
}

/// Safetensors header information.
#[derive(Debug, Clone)]
pub struct SafetensorsHeader {
    /// Header size in bytes
    pub header_size: u64,
    /// Tensor entries, one per tensor item of the header
    pub tensors: Vec<SafetensorEntry>,
}

impl SafetensorsHeader {
    /// Split safetensors bytes into the header size (the first eight bytes,
    /// little-endian) and the JSON header that follows; `Deserialization`
    /// when the bytes are too short for either.
    pub fn split_header(data: &[u8]) -> (r: Result<(u64, Vec<u8>), Error>)
        requires data@.len() >= 8 ==> le_u64(data@) <= usize::MAX - 8,
        ensures
            match r {
                Ok((size, json)) => data@.len() >= 8 && size == le_u64(data@) && 8 + size <= data@.len()
                    && json@ == data@.subrange(8, 8 + size),
                Err(e) => (data@.len() < 8 || data@.len() < 8 + le_u64(data@))
                    && e.kind() == crate::error::ErrorKind::Deserialization,
            },
    {
        if data.len() < 8 {
            return Err(Error::Deserialization(String::from_str("Safetensors header too short")));
        }
        let b7 = data[7] as u64;
        let v6 = data[6] as u64 + 256 * b7;
        assert(v6 <= 0xffff);
        let v5 = data[5] as u64 + 256 * v6;
        assert(v5 <= 0xff_ffff);
        let v4 = data[4] as u64 + 256 * v5;
        assert(v4 <= 0xffff_ffff);
        let v3 = data[3] as u64 + 256 * v4;
        assert(v3 <= 0xff_ffff_ffff);
        let v2 = data[2] as u64 + 256 * v3;
        assert(v2 <= 0xffff_ffff_ffff);
        let v1 = data[1] as u64 + 256 * v2;
        assert(v1 <= 0xff_ffff_ffff_ffff);
        let header_size = data[0] as u64 + 256 * v1;
        assert(header_size == le_u64(data@));
        let size = header_size as usize;
        if data.len() - 8 < size {
            return Err(Error::Deserialization(String::from_str("Safetensors data too short for header")));
        }
        let end = 8 + size;
        let mut json: Vec<u8> = Vec::new();
        let mut i: usize = 8;
        while i < end
            invariant 8 <= i <= end, end == 8 + size, end <= data@.len(), json@ == data@.subrange(8, i as int),
            decreases end - i,
        {
            json.push(data[i]);
            assert(json@ =~= data@.subrange(8, i + 1));
            i += 1;
        }
        Ok((header_size, json))
    }

    /// Parse a safetensors header: the header size (first eight bytes,
    /// little-endian), then the JSON object that follows, one entry per
    /// tensor item (in the order in which the parsed map is walked).
    /// `Deserialization` when the bytes are too short, when the JSON is not
    /// an object, or when some tensor's data offsets end before they start.
    pub fn parse(data: &[u8]) -> (r: Result<Self, Error>)
        requires data@.len() >= 8 ==> le_u64(data@) <= usize::MAX - 8,
        ensures
            r is Ok <==> header_accepted(data@),
            r matches Err(e) ==> e.kind() == crate::error::ErrorKind::Deserialization,
            r matches Ok(h) ==> data@.len() >= 8 + le_u64(data@) && h.header_size == le_u64(data@)
                && exists|items: Seq<(String, HeaderValue)>| #![trigger header_entries(items)]
                    header_json(data@.subrange(8, 8 + le_u64(data@))) == Some(items_map(items))
                    && distinct_names(items) && entries_view(h.tensors@) == header_entries(items),
    {
        let (header_size, json) = match Self::split_header(data) {
            Ok(p) => p,
            Err(e) => return Err(e),
        };
        let items = match parse_header_items(json.as_slice()) {
            Ok(items) => items,
            Err(e) => {
                let mut msg = String::from_str("Invalid safetensors header: ");
                msg.append(e.as_str());
                return Err(Error::Deserialization(msg));
            },
        };
        if !check_offsets(&items) {
            proof {
                if map_offsets_ordered(items_map(items@)) {
                    lemma_map_offsets(items@);
                }
            }
            return Err(Error::Deserialization(String::from_str("Invalid safetensors header: data offsets out of order")));
        }
        let h = Self::from_items(header_size, &items);
        proof {
            assert forall|k: Seq<char>| #[trigger] items_map(items@).contains_key(k) && k != "__metadata__"@
                && items_map(items@)[k] is Object implies {
                let off = entry_offsets(items_map(items@)[k]->Object_0@);
                off.0 <= off.1
            } by {
                let j = choose|i: int| 0 <= i < items@.len() && #[trigger] items@[i].0@ == k;
                lemma_items_map(items@, j);
                assert(is_tensor_item(items@[j]));
            }
        }
        assert(header_json(data@.subrange(8, 8 + le_u64(data@))) == Some(items_map(items@))
            && distinct_names(items@) && entries_view(h.tensors@) == header_entries(items@));
        Ok(h)
    }

    /// The header from its size and its parsed JSON items: one entry per item
    /// that is an object not named "__metadata__", in order, with the data
    /// type (default "F32"), the shape's `u64` elements, and the data offset
    /// and length from "data_offsets".
    pub fn from_items(header_size: u64, items: &Vec<(String, HeaderValue)>) -> (r: Self)
        requires offsets_ordered(items@),
        ensures r.header_size == header_size, entries_view(r.tensors@) == header_entries(items@),
    {
        let mut tensors: Vec<SafetensorEntry> = Vec::new();
        let mut k: usize = 0;
        while k < items.len()
            invariant k <= items.len(), offsets_ordered(items@), entries_view(tensors@) == header_entries(items@.subrange(0, k as int)),
            decreases items.len() - k,
        {
            assert(items@.subrange(0, k + 1).drop_last() =~= items@.subrange(0, k as int));
            assert(items@.subrange(0, k + 1).last() == items@[k as int]);
            let (name, value) = &items[k];
            if let HeaderValue::Object(fields) = value {
                if !name.eq(&String::from_str("__metadata__")) {
                    assert(is_tensor_item(items@[k as int]));
                    let dtype = match find_field(fields, "dtype") {
                        Some(JsonField::Str(s)) => s.clone(),
                        _ => String::from_str("F32"),
                    };
                    let shape = match find_field(fields, "shape") {
                        Some(JsonField::Array(a)) => collect_u64s(a),
                        _ => Vec::new(),
                    };
                    let (start, end) = offsets_of(fields);
                    let entry = SafetensorEntry { name: name.clone(), dtype, shape, data_offset: start, data_length: end - start };
                    assert(entry@ == item_entry(items@[k as int]));
                    let ghost before = entries_view(tensors@);
                    tensors.push(entry);
                    assert(entries_view(tensors@) =~= before.push(item_entry(items@[k as int])));
                }
            }
            k += 1;
        }
        assert(items@.subrange(0, items.len() as int) =~= items@);
        SafetensorsHeader { header_size, tensors }
    }

    /// Get data offset (after header).
    pub fn data_start(&self) -> (r: u64)
        requires self.header_size <= u64::MAX - 8,
        ensures r == 8 + self.header_size,
    {
        8 + self.header_size
    }

    /// Get tensor entry by name (the first, if several share it).
    pub fn get_tensor(&self, name: &str) -> (r: Option<&SafetensorEntry>)
        ensures
            entry_index(entries_view(self.tensors@), name@) >= 0
                ==> r == Some(&self.tensors@[entry_index(entries_view(self.tensors@), name@)]),
            entry_index(entries_view(self.tensors@), name@) < 0 ==> r is None,
    {
        let ghost ev = entries_view(self.tensors@);
        let key = String::from_str(name);
        let mut i: usize = 0;
        while i < self.tensors.len()
            invariant i <= self.tensors.len(), key@ == name@, ev == entries_view(self.tensors@),
                forall|j: int| 0 <= j < i ==> ev[j].name != name@,
            decreases self.tensors.len() - i,
        {
            if self.tensors[i].name.eq(&key) {
                proof { lemma_entry_index(ev, name@, i as int); }
                return Some(&self.tensors[i]);
            }
            i += 1;
        }
        proof { lemma_entry_index(ev, name@, i as int); }
        None
    }

    /// Get all tensor names, in entry order.
    pub fn tensor_names(&self) -> (r: Vec<&str>)
        ensures r@.len() == self.tensors@.len(), forall|k: int| 0 <= k < r@.len() ==> #[trigger] r@[k]@ == self.tensors@[k].name@,
    {
        let mut r: Vec<&str> = Vec::new();
        let mut i: usize = 0;
        while i < self.tensors.len()
            invariant i <= self.tensors.len(), r@.len() == i,
                forall|k: int| 0 <= k < i ==> #[trigger] r@[k]@ == self.tensors@[k].name@,
            decreases self.tensors.len() - i,
        {
            r.push(self.tensors[i].name.as_str());
            i += 1;
        }
        r
    }
}

/// `std::time::Instant::now()`: the current instant. Nothing is stated of it.
#[verifier::external_body]
fn instant_now() -> std::time::Instant {
    std::time::Instant::now()
}

/// Chunk information for streaming.
#[derive(Debug, Clone)]
pub struct ChunkInfo {
    /// CID of the chunk
    pub cid: Cid,
    /// Index in the tensor (0-based)
    pub index: usize,
    /// Byte offset in the tensor
    pub offset: u64,
    /// Size of this chunk
    pub size: u64,
    /// Whether this chunk has been received
    pub received: bool,
}

/// Progress update for streaming.
#[derive(Debug, Clone)]
pub struct StreamProgress {
    /// Root CID of the tensor
    pub root_cid: Cid,
    /// Chunk index that was received
    pub chunk_index: usize,
    /// Chunk CID
    pub chunk_cid: Cid,
    /// Total chunks
    pub total_chunks: usize,
    /// Bytes received so far
    pub bytes_received: u64,
    /// Total bytes (if known)
    pub total_bytes: Option<u64>,
    /// Whether streaming is complete
    pub complete: bool,
}

/// Bytes per chunk of a chunked tensor: its size split evenly over the
/// chunks, or 1 MiB when the size is unknown.
pub open spec fn chunk_size_of(m: TensorMetadata) -> u64 {
    match m.size_bytes {
        Some(s) => (s / (m.chunks@.len() as u64)) as u64,
        None => 1048576u64,
    }
}

/// The chunk list a stream starts with: one chunk per chunk CID, at offsets
/// `i * chunk_size`, or a single chunk for the whole tensor; none received.
pub open spec fn initial_chunks(m: TensorMetadata, c: Seq<ChunkInfo>) -> bool {
    if m.chunks@.len() > 0 {
        &&& c.len() == m.chunks@.len()
        &&& forall|i: int| 0 <= i < c.len() ==> {
            &&& (#[trigger] c[i]).cid@ == m.chunks@[i]@
            &&& c[i].index == i
            &&& c[i].offset == i * chunk_size_of(m)
            &&& c[i].size == chunk_size_of(m)
            &&& !c[i].received
        }
    } else {
        &&& c.len() == 1
        &&& c[0].cid@ == m.cid@
        &&& c[0].index == 0
        &&& c[0].offset == 0
        &&& c[0].size == (match m.size_bytes { Some(s) => s, None => 0u64 })
        &&& !c[0].received
    }
}

/// How many chunks have been received.
pub open spec fn received_count(c: Seq<ChunkInfo>) -> nat
    decreases c.len(),
{
    if c.len() == 0 {
        0
    } else {
        received_count(c.drop_last()) + if c.last().received { 1nat } else { 0nat }
    }
}

/// The CIDs of the chunks not yet received, in chunk order.
pub open spec fn missing(c: Seq<ChunkInfo>) -> Seq<Seq<u8>>
    decreases c.len(),
{
    if c.len() == 0 {
        Seq::empty()
    } else if c.last().received {
        missing(c.drop_last())
    } else {
        missing(c.drop_last()).push(c.last().cid@)
    }
}

/// Index of the first chunk with CID `cid`, or -1.
pub open spec fn first_chunk(c: Seq<ChunkInfo>, cid: Seq<u8>) -> int
    decreases c.len(),
{
    if c.len() == 0 {
        -1
    } else if first_chunk(c.drop_last(), cid) >= 0 {
        first_chunk(c.drop_last(), cid)
    } else if c.last().cid@ == cid {
        c.len() - 1
    } else {
        -1
    }
}

/// The chunk list after `cid` arrives with `size` bytes: the first chunk
/// with that CID, if it was not yet received, becomes received with that
/// size; `None` when nothing changes.
pub open spec fn mark_spec(c: Seq<ChunkInfo>, cid: Seq<u8>, size: u64) -> Option<Seq<ChunkInfo>> {
    let i = first_chunk(c, cid);
    if i >= 0 && !c[i].received {
        Some(c.update(i, ChunkInfo { received: true, size, ..c[i] }))
    } else {
        None
    }
}

proof fn lemma_first_chunk(c: Seq<ChunkInfo>, cid: Seq<u8>, i: int)
    requires 0 <= i <= c.len(), forall|j: int| 0 <= j < i ==> c[j].cid@ != cid,
    ensures
        i < c.len() && c[i].cid@ == cid ==> first_chunk(c, cid) == i,
        i == c.len() ==> first_chunk(c, cid) == -1,
    decreases c.len(),
{
    if c.len() > 0 {
        if i < c.len() {
            lemma_first_chunk(c.drop_last(), cid, i);
        } else {
            lemma_first_chunk(c.drop_last(), cid, i - 1);
        }
    }
}

proof fn lemma_first_chunk_range(c: Seq<ChunkInfo>, cid: Seq<u8>)
    ensures
        -1 <= first_chunk(c, cid) < c.len(),
        first_chunk(c, cid) >= 0 ==> c[first_chunk(c, cid)].cid@ == cid,
    decreases c.len(),
{
    if c.len() > 0 {
        lemma_first_chunk_range(c.drop_last(), cid);
    }
}

/// Changing chunks other than by their CID keeps where a CID is first found.
proof fn lemma_first_chunk_same_cids(c: Seq<ChunkInfo>, d: Seq<ChunkInfo>, cid: Seq<u8>)
    requires c.len() == d.len(), forall|j: int| 0 <= j < c.len() ==> #[trigger] c[j].cid@ == d[j].cid@,
    ensures first_chunk(c, cid) == first_chunk(d, cid),
    decreases c.len(),
{
    if c.len() > 0 {
        lemma_first_chunk_same_cids(c.drop_last(), d.drop_last(), cid);
    }
}

proof fn lemma_received_count_bound(c: Seq<ChunkInfo>)
    ensures
        received_count(c) <= c.len(),
        received_count(c) == c.len() <==> forall|j: int| 0 <= j < c.len() ==> #[trigger] c[j].received,
        missing(c).len() == c.len() - received_count(c),
    decreases c.len(),
{
    if c.len() > 0 {
        lemma_received_count_bound(c.drop_last());
        if received_count(c) == c.len() {
            assert forall|j: int| 0 <= j < c.len() implies #[trigger] c[j].received by {
                if j < c.len() - 1 {
                    assert(c.drop_last()[j] == c[j]);
                }
            }
        }
        if forall|j: int| 0 <= j < c.len() ==> #[trigger] c[j].received {
            assert forall|j: int| 0 <= j < c.len() - 1 implies #[trigger] c.drop_last()[j].received by {
                assert(c.drop_last()[j] == c[j]);
            }
        }
    }
}

/// Receiving chunk `i` raises the count by one.
proof fn lemma_received_count_update(c: Seq<ChunkInfo>, i: int, x: ChunkInfo)
    requires 0 <= i < c.len(), !c[i].received, x.received,
    ensures received_count(c.update(i, x)) == received_count(c) + 1,
    decreases c.len(),
{
    let d = c.update(i, x);
    if i < c.len() - 1 {
        assert(d.drop_last() =~= c.drop_last().update(i, x));
        lemma_received_count_update(c.drop_last(), i, x);
    } else {
        assert(d.drop_last() =~= c.drop_last());
    }
}

/// Streaming state for a tensor.
#[derive(Debug)]
pub struct TensorStream {
    /// Root CID of the tensor
    pub root_cid: Cid,
    /// Tensor metadata
    pub metadata: TensorMetadata,
    /// Chunks in order
    pub chunks: Vec<ChunkInfo>,
    /// Number of chunks received
    pub chunks_received: usize,
    /// Total bytes received
    pub bytes_received: u64,
    /// When streaming started
    pub started_at: std::time::Instant,
}

impl TensorStream {
    /// The count of received chunks is that of the chunks marked received.
    pub open spec fn wf(&self) -> bool {
        self.chunks_received == received_count(self.chunks@)
    }

    /// A stream for `metadata` that started at `started_at`: one chunk per
    /// chunk CID (the size split evenly, 1 MiB each when unknown), or one
    /// chunk for an unchunked tensor; nothing received.
    pub fn new_at(metadata: TensorMetadata, started_at: std::time::Instant) -> (r: Self)
        requires metadata.size_bytes is None ==> metadata.chunks@.len() <= 0x1000_0000_0000,
        ensures
            r.wf(), r.root_cid@ == metadata.cid@, r.metadata == metadata, initial_chunks(metadata, r.chunks@),
            r.chunks_received == 0, r.bytes_received == 0, r.started_at == started_at,
    {
        let mut chunks: Vec<ChunkInfo> = Vec::new();
        if metadata.is_chunked() {
            let n = metadata.chunks.len();
            let chunk_size: u64 = match metadata.size_bytes {
                Some(s) => s / (n as u64),
                None => 1048576,
            };
            assert(chunk_size == chunk_size_of(metadata));
            let mut i: usize = 0;
            while i < n
                invariant
                    i <= n, n == metadata.chunks@.len(), n > 0, chunk_size == chunk_size_of(metadata),
                    metadata.size_bytes is None ==> n <= 0x1000_0000_0000,
                    chunks@.len() == i,
                    forall|j: int| 0 <= j < i ==> {
                        &&& (#[trigger] chunks@[j]).cid@ == metadata.chunks@[j]@
                        &&& chunks@[j].index == j
                        &&& chunks@[j].offset == j * chunk_size
                        &&& chunks@[j].size == chunk_size
                        &&& !chunks@[j].received
                    },
                decreases n - i,
            {
                proof {
                    match metadata.size_bytes {
                        Some(s) => {
                            assert(i * (s / (n as u64)) <= s) by (nonlinear_arith)
                                requires i < n, n > 0;
                        },
                        None => {
                            assert(i * 1048576 <= 0x1000_0000_0000 * 1048576) by (nonlinear_arith)
                                requires i < 0x1000_0000_0000;
                        },
                    }
                }
                let offset = (i as u64) * chunk_size;
                chunks.push(ChunkInfo { cid: metadata.chunks[i].clone(), index: i, offset, size: chunk_size, received: false });
                i += 1;
            }
        } else {
            let size = match metadata.size_bytes { Some(s) => s, None => 0 };
            chunks.push(ChunkInfo { cid: metadata.cid.clone(), index: 0, offset: 0, size, received: false });
        }
        proof { lemma_received_count_zero(chunks@); }
        TensorStream { root_cid: metadata.cid.clone(), metadata, chunks, chunks_received: 0, bytes_received: 0, started_at }
    }

    /// A stream for `metadata` that starts now.
    pub fn new(metadata: TensorMetadata) -> (r: Self)
        requires metadata.size_bytes is None ==> metadata.chunks@.len() <= 0x1000_0000_0000,
        ensures
            r.wf(), r.root_cid@ == metadata.cid@, r.metadata == metadata, initial_chunks(metadata, r.chunks@),
            r.chunks_received == 0, r.bytes_received == 0,
    {
        Self::new_at(metadata, instant_now())
    }

    /// Index of the first chunk with CID `cid`.
    pub fn find_chunk(&self, cid: &Cid) -> (r: Option<usize>)
        ensures
            first_chunk(self.chunks@, cid@) >= 0 ==> r == Some(first_chunk(self.chunks@, cid@) as usize),
            first_chunk(self.chunks@, cid@) < 0 ==> r is None,
    {
        let mut i: usize = 0;
        while i < self.chunks.len()
            invariant i <= self.chunks.len(), forall|j: int| 0 <= j < i ==> self.chunks@[j].cid@ != cid@,
            decreases self.chunks.len() - i,
        {
            if self.chunks[i].cid.same_as(cid) {
                proof { lemma_first_chunk(self.chunks@, cid@, i as int); }
                return Some(i);
            }
            i += 1;
        }
        proof { lemma_first_chunk(self.chunks@, cid@, i as int); }
        None
    }

    /// Mark a chunk as received: the first chunk with CID `cid`, if not yet
    /// received, becomes received with `size` bytes (`true`); otherwise
    /// nothing changes (`false`).
    pub fn mark_received(&mut self, cid: &Cid, size: u64) -> (r: bool)
        requires old(self).wf(), old(self).bytes_received + size <= u64::MAX,
        ensures
            final(self).wf(),
            r == mark_spec(old(self).chunks@, cid@, size) is Some,
            r ==> final(self).chunks@ == mark_spec(old(self).chunks@, cid@, size)->Some_0
                && final(self).chunks_received == old(self).chunks_received + 1
                && final(self).bytes_received == old(self).bytes_received + size,
            !r ==> final(self).chunks@ == old(self).chunks@ && final(self).chunks_received == old(self).chunks_received
                && final(self).bytes_received == old(self).bytes_received,
            final(self).root_cid == old(self).root_cid, final(self).metadata == old(self).metadata,
            final(self).started_at == old(self).started_at,
    {
        proof { lemma_first_chunk_range(self.chunks@, cid@); lemma_received_count_bound(self.chunks@); }
        let _n: usize = self.chunks.len();
        match self.find_chunk(cid) {
            Some(i) => {
                if !self.chunks[i].received {
                    let ghost before = self.chunks@;
                    assert(!before[i as int].received);
                    let mut chunk = self.chunks.remove(i);
                    chunk.received = true;
                    chunk.size = size;
                    proof { lemma_received_count_update(before, i as int, chunk); }
                    self.chunks.insert(i, chunk);
                    assert(self.chunks@ =~= before.update(i as int, chunk));
                    self.chunks_received = self.chunks_received + 1;
                    self.bytes_received = self.bytes_received + size;
                    true
                } else {
                    false
                }
            },
            None => false,
        }
    }

    /// Check if all chunks have been received.
    pub fn is_complete(&self) -> (r: bool)
        requires self.wf(),
        ensures r == (forall|j: int| 0 <= j < self.chunks@.len() ==> #[trigger] self.chunks@[j].received),
    {
        proof { lemma_received_count_bound(self.chunks@); }
        self.chunks_received >= self.chunks.len()
    }

    /// Chunks received and chunks in all: the fraction of the stream done.
    pub fn progress_counts(&self) -> (r: (usize, usize))
        ensures r == (self.chunks_received, self.chunks@.len() as usize),
    {
        (self.chunks_received, self.chunks.len())
    }

    /// The CIDs of the chunks not yet received, in chunk order.
    pub fn missing_chunks(&self) -> (r: Vec<Cid>)
        ensures cid_views(r@) == missing(self.chunks@),
    {
        let mut r: Vec<Cid> = Vec::new();
        let mut i: usize = 0;
        while i < self.chunks.len()
            invariant i <= self.chunks.len(), cid_views(r@) == missing(self.chunks@.subrange(0, i as int)),
            decreases self.chunks.len() - i,
        {
            assert(self.chunks@.subrange(0, i + 1).drop_last() =~= self.chunks@.subrange(0, i as int));
            if !self.chunks[i].received {
                let c = self.chunks[i].cid.clone();
                let ghost before = r@;
                r.push(c);
                assert(cid_views(r@) =~= cid_views(before).push(self.chunks@[i as int].cid@));
            }
            i += 1;
        }
        assert(self.chunks@.subrange(0, self.chunks.len() as int) =~= self.chunks@);
        r
    }

    /// The wants that starting this stream issues: each chunk's CID, in
    /// order, at `base_priority` plus the number of chunks from it to the
    /// end, so that earlier chunks come first.
    pub fn chunk_wants(&self, base_priority: i32) -> (r: Vec<(Cid, i32)>)
        requires self.chunks@.len() <= i32::MAX, base_priority + self.chunks@.len() <= i32::MAX,
        ensures
            r@.len() == self.chunks@.len(),
            forall|i: int| 0 <= i < r@.len() ==> {
                &&& (#[trigger] r@[i]).0@ == self.chunks@[i].cid@
                &&& r@[i].1 == base_priority + (self.chunks@.len() - i)
            },
    {
        let n = self.chunks.len();
        let mut wants: Vec<(Cid, i32)> = Vec::new();
        let mut idx: usize = 0;
        while idx < n
            invariant
                n == self.chunks@.len(), n <= i32::MAX, base_priority + n <= i32::MAX,
                idx <= n, wants@.len() == idx,
                forall|k: int| 0 <= k < idx ==> {
                    &&& (#[trigger] wants@[k]).0@ == self.chunks@[k].cid@
                    &&& wants@[k].1 == base_priority + (n - k)
                },
            decreases n - idx,
        {
            let left: i32 = (n - idx) as i32;
            wants.push((self.chunks[idx].cid.clone(), base_priority + left));
            idx += 1;
        }
        wants
    }

    /// The progress update for chunk `chunk_index`, as it stands now.
    pub fn progress_update(&self, chunk_index: usize) -> (r: StreamProgress)
        requires self.wf(), chunk_index < self.chunks@.len(),
        ensures
            r.root_cid@ == self.root_cid@, r.chunk_index == self.chunks@[chunk_index as int].index,
            r.chunk_cid@ == self.chunks@[chunk_index as int].cid@, r.total_chunks == self.chunks@.len(),
            r.bytes_received == self.bytes_received, r.total_bytes == self.metadata.size_bytes,
            r.complete == (forall|j: int| 0 <= j < self.chunks@.len() ==> #[trigger] self.chunks@[j].received),
    {
        StreamProgress {
            root_cid: self.root_cid.clone(),
            chunk_index: self.chunks[chunk_index].index,
            chunk_cid: self.chunks[chunk_index].cid.clone(),
            total_chunks: self.chunks.len(),
            bytes_received: self.bytes_received,
            total_bytes: self.metadata.size_bytes,
            complete: self.is_complete(),
        }
    }
}

proof fn lemma_received_count_zero(c: Seq<ChunkInfo>)
    requires forall|j: int| 0 <= j < c.len() ==> !(#[trigger] c[j]).received,
    ensures received_count(c) == 0,
    decreases c.len(),
{
    if c.len() > 0 {
        assert forall|j: int| 0 <= j < c.len() - 1 implies !(#[trigger] c.drop_last()[j]).received by {
            assert(c.drop_last()[j] == c[j]);
        }
        lemma_received_count_zero(c.drop_last());
    }
}

/// The views of a list of CIDs.
pub open spec fn cid_views(v: Seq<Cid>) -> Seq<Seq<u8>> {
    v.map_values(|c: Cid| c@)
}

/// A stream is complete exactly when no chunk is missing.
pub proof fn lemma_complete_iff_none_missing(s: TensorStream)
    requires s.wf(),
    ensures
        (forall|j: int| 0 <= j < s.chunks@.len() ==> #[trigger] s.chunks@[j].received) <==> missing(s.chunks@).len() == 0,
{
    lemma_received_count_bound(s.chunks@);
}

/// A chunk that arrived is not marked again: a second arrival of the same
/// CID changes nothing.
pub proof fn lemma_mark_once(c: Seq<ChunkInfo>, cid: Seq<u8>, size: u64, later_size: u64)
    requires mark_spec(c, cid, size) is Some,
    ensures mark_spec(mark_spec(c, cid, size)->Some_0, cid, later_size) is None,
{
    let i = first_chunk(c, cid);
    lemma_first_chunk_range(c, cid);
    let d = mark_spec(c, cid, size)->Some_0;
    assert forall|j: int| 0 <= j < c.len() implies #[trigger] c[j].cid@ == d[j].cid@ by {}
    lemma_first_chunk_same_cids(c, d, cid);
}

/// Each arrival that changes the stream removes one CID from the missing list.
pub proof fn lemma_mark_shrinks_missing(c: Seq<ChunkInfo>, cid: Seq<u8>, size: u64)
    requires mark_spec(c, cid, size) is Some,
    ensures missing(mark_spec(c, cid, size)->Some_0).len() + 1 == missing(c).len(),
{
    let i = first_chunk(c, cid);
    lemma_first_chunk_range(c, cid);
    let d = mark_spec(c, cid, size)->Some_0;
    lemma_received_count_update(c, i, d[i]);
    lemma_received_count_bound(c);
    lemma_received_count_bound(d);
}

} // verus!
