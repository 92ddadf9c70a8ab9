//! Federated-learning bookkeeping: gradient shape and length checks, sparse
//! gradient layout, secure-aggregation participation, client states.
//! Floating-point gradient arithmetic is not here.
use vstd::prelude::*;
use crate::cid::Cid;
use crate::graph::{product, product_fits, shape_product};

verus! {

/// Errors that can occur during gradient operations. Values that were `f32`
/// are held as their bit patterns.
#[derive(Debug)]
pub enum GradientError {
    ShapeMismatch { expected: Vec<usize>, actual: Vec<usize> },
    ChecksumFailed,
    InvalidCompressionRatio(u32),
    EmptyGradientSet,
    IncompatibleDtype(String),
    OutlierDetected { index: usize, value: u32 },
    InvalidGradient(String),
}

/// Gradient compression (top-k, threshold, quantization, random sparsification).
pub struct GradientCompressor;

/// Gradient aggregation (averaging, weighted averaging, momentum).
pub struct GradientAggregator;

/// Gradient verification (shape, outliers, finiteness, norms).
pub struct GradientVerifier;

impl GradientVerifier {
    /// Verify gradient shape matches expected shape: the gradient has as many
    /// elements as the shape's product; `ShapeMismatch` otherwise.
    pub fn verify_shape<T>(gradient: &[T], expected_shape: &[usize]) -> (r: Result<(), GradientError>)
        requires product_fits(expected_shape@),
        ensures
            r is Ok <==> gradient@.len() == shape_product(expected_shape@),
            r matches Err(GradientError::ShapeMismatch { expected, actual }) ==>
                expected@ == expected_shape@ && actual@ == seq![gradient@.len() as usize],
            r matches Err(e) ==> e is ShapeMismatch,
    {
        let shape = slice_vec(expected_shape);
        let expected_size = product(&shape);
        if gradient.len() != expected_size {
            let actual = vec![gradient.len()];
            return Err(GradientError::ShapeMismatch { expected: shape, actual });
        }
        Ok(())
    }

    /// Verify that every value is finite (neither infinite nor NaN); values
    /// are `f32`s given by their IEEE-754 bit patterns (`f32::to_bits`).
    /// `InvalidGradient` naming the first index of a non-finite value.
    pub fn verify_finite(gradient: &[u32]) -> (r: Result<(), GradientError>)
        ensures
            r is Ok <==> forall|i: int| 0 <= i < gradient@.len() ==> f32_bits_finite(#[trigger] gradient@[i]),
            r matches Err(e) ==> e is InvalidGradient,
    {
        let mut i: usize = 0;
        while i < gradient.len()
            invariant i <= gradient@.len(), forall|j: int| 0 <= j < i ==> f32_bits_finite(#[trigger] gradient@[j]),
            decreases gradient.len() - i,
        {
            if (gradient[i] >> 23u32) & 0xFFu32 == 0xFFu32 {
                assert(!f32_bits_finite(gradient@[i as int]));
                return Err(GradientError::InvalidGradient(non_finite_message(i)));
            }
            i += 1;
        }
        Ok(())
    }
}

/// Whether the `f32` with bit pattern `b` is finite: its exponent bits are
/// not all ones (all ones marks an infinity or a NaN).
pub open spec fn f32_bits_finite(b: u32) -> bool {
    (b >> 23u32) & 0xFFu32 != 0xFFu32
}

/// `format!` of the message for a non-finite value at index `i`. Nothing is
/// stated of the text.
#[verifier::external_body]
fn non_finite_message(i: usize) -> String {
    format!("Non-finite value at index {}", i)
}

/// A copy of a slice of `usize`s.
fn slice_vec(s: &[usize]) -> (r: Vec<usize>)
    ensures r@ == s@,
{
    let mut r: Vec<usize> = Vec::new();
    let mut i: usize = 0;
    while i < s.len()
        invariant i <= s.len(), r@ == s@.subrange(0, i as int),
        decreases s.len() - i,
    {
        r.push(s[i]);
        assert(r@ =~= s@.subrange(0, i + 1));
        i += 1;
    }
    assert(s@.subrange(0, s.len() as int) =~= s@);
    r
}

/// Index of the first gradient whose length differs from `n`, or -1.
pub open spec fn first_mismatch<T>(gs: Seq<Vec<T>>, n: nat) -> int
    decreases gs.len(),
{
    if gs.len() == 0 {
        -1
    } else if first_mismatch(gs.drop_last(), n) >= 0 {
        first_mismatch(gs.drop_last(), n)
    } else if gs.last()@.len() != n {
        gs.len() - 1
    } else {
        -1
    }
}

proof fn lemma_first_mismatch<T>(gs: Seq<Vec<T>>, n: nat, i: int)
    requires 0 <= i <= gs.len(), forall|j: int| 0 <= j < i ==> (#[trigger] gs[j])@.len() == n,
    ensures
        i < gs.len() && gs[i]@.len() != n ==> first_mismatch(gs, n) == i,
        i == gs.len() ==> first_mismatch(gs, n) == -1,
    decreases gs.len(),
{
    if gs.len() > 0 {
        if i < gs.len() {
            lemma_first_mismatch(gs.drop_last(), n, i);
        } else {
            lemma_first_mismatch(gs.drop_last(), n, i - 1);
        }
    }
}

impl GradientAggregator {
    /// The length every gradient of a set shares: `EmptyGradientSet` for an
    /// empty set; `ShapeMismatch` naming the first length and the first
    /// gradient length that differs from it.
    pub fn common_length<T>(gradients: &[Vec<T>]) -> (r: Result<usize, GradientError>)
        ensures
            gradients@.len() == 0 ==> r matches Err(GradientError::EmptyGradientSet),
            gradients@.len() > 0 ==> {
                let n = gradients@[0]@.len();
                let m = first_mismatch(gradients@, n);
                match r {
                    Ok(len) => m < 0 && len == n,
                    Err(GradientError::ShapeMismatch { expected, actual }) =>
                        m >= 0 && expected@ == seq![n as usize] && actual@ == seq![gradients@[m]@.len() as usize],
                    Err(_) => false,
                }
            },
            r matches Ok(len) ==> forall|i: int| 0 <= i < gradients@.len() ==> (#[trigger] gradients@[i])@.len() == len,
    {
        if gradients.len() == 0 {
            return Err(GradientError::EmptyGradientSet);
        }
        let n = gradients[0].len();
        let mut i: usize = 0;
        while i < gradients.len()
            invariant i <= gradients@.len(), n == gradients@[0]@.len(), forall|j: int| 0 <= j < i ==> (#[trigger] gradients@[j])@.len() == n,
            decreases gradients.len() - i,
        {
            if gradients[i].len() != n {
                proof { lemma_first_mismatch(gradients@, n as nat, i as int); }
                return Err(GradientError::ShapeMismatch { expected: vec![n], actual: vec![gradients[i].len()] });
            }
            i += 1;
        }
        proof { lemma_first_mismatch(gradients@, n as nat, i as int); }
        Ok(n)
    }
}

/// Sparse gradient: the positions (in the flattened tensor) and values of
/// its non-zero elements, and the tensor's shape.
#[derive(Debug, Clone)]
pub struct SparseGradient<V> {
    /// Indices of non-zero elements (flattened)
    pub indices: Vec<usize>,
    /// Non-zero gradient values
    pub values: Vec<V>,
    /// Original tensor shape
    pub shape: Vec<usize>,
}

impl<V> SparseGradient<V> {
    /// Create a new sparse gradient.
    pub fn new(indices: Vec<usize>, values: Vec<V>, shape: Vec<usize>) -> (r: Self)
        ensures r.indices@ == indices@, r.values@ == values@, r.shape@ == shape@,
    {
        SparseGradient { indices, values, shape }
    }

    /// Number of non-zero elements.
    pub fn nnz(&self) -> (r: usize)
        ensures r == self.indices@.len(),
    {
        self.indices.len()
    }

    /// Number of elements of the dense tensor.
    pub fn total_elements(&self) -> (r: usize)
        requires product_fits(self.shape@),
        ensures r == shape_product(self.shape@),
    {
        product(&self.shape)
    }

    /// The dense tensor: `zero` everywhere except at each index inside the
    /// tensor, which holds its value (indices and values taken in pairs, a
    /// later pair overriding an earlier one).
    pub fn to_dense(&self, zero: V) -> (r: Vec<V>)
        where V: Copy,
        requires product_fits(self.shape@),
        ensures r@ == scattered(self.indices@, self.values@, Seq::new(shape_product(self.shape@) as nat, |p: int| zero), pair_count(self.indices@, self.values@)),
    {
        let total = self.total_elements();
        let mut dense: Vec<V> = Vec::new();
        let mut k: usize = 0;
        while k < total
            invariant k <= total, dense@ == Seq::new(k as nat, |p: int| zero),
            decreases total - k,
        {
            dense.push(zero);
            assert(dense@ =~= Seq::new((k + 1) as nat, |p: int| zero));
            k += 1;
        }
        let ghost base = dense@;
        let n = if self.indices.len() < self.values.len() { self.indices.len() } else { self.values.len() };
        let mut i: usize = 0;
        while i < n
            invariant
                i <= n, n == pair_count(self.indices@, self.values@), total == shape_product(self.shape@),
                base == Seq::new(total as nat, |p: int| zero),
                dense@ == scattered(self.indices@, self.values@, base, i as nat),
                dense@.len() == total,
            decreases n - i,
        {
            let idx = self.indices[i];
            if idx < total {
                dense.set(idx, self.values[i]);
            }
            i += 1;
        }
        dense
    }

    /// Every index lies inside the tensor, and there are as many values as
    /// indices; `InvalidGradient` otherwise.
    pub fn verify_shape(&self) -> (r: Result<(), GradientError>)
        requires product_fits(self.shape@),
        ensures
            r is Ok <==> (forall|i: int| 0 <= i < self.indices@.len() ==> #[trigger] self.indices@[i] < shape_product(self.shape@))
                && self.indices@.len() == self.values@.len(),
            r matches Err(e) ==> e is InvalidGradient,
    {
        let total = self.total_elements();
        let mut i: usize = 0;
        while i < self.indices.len()
            invariant i <= self.indices@.len(), total == shape_product(self.shape@),
                forall|j: int| 0 <= j < i ==> #[trigger] self.indices@[j] < total,
            decreases self.indices.len() - i,
        {
            if self.indices[i] >= total {
                return Err(GradientError::InvalidGradient(String::from_str("Index out of bounds for shape")));
            }
            i += 1;
        }
        if self.indices.len() != self.values.len() {
            return Err(GradientError::InvalidGradient(String::from_str("Indices length differs from values length")));
        }
        Ok(())
    }
}

/// How many (index, value) pairs a sparse gradient has: the shorter length.
pub open spec fn pair_count<V>(indices: Seq<usize>, values: Seq<V>) -> nat {
    if indices.len() < values.len() { indices.len() } else { values.len() }
}

/// `base` with the first `n` pairs written in turn, each pair whose index
/// lies inside `base` setting that position to its value.
pub open spec fn scattered<V>(indices: Seq<usize>, values: Seq<V>, base: Seq<V>, n: nat) -> Seq<V>
    decreases n,
{
    if n == 0 {
        base
    } else {
        let s = scattered(indices, values, base, (n - 1) as nat);
        let i = indices[n - 1];
        if i < s.len() { s.update(i as int, values[n - 1]) } else { s }
    }
}

/// Differential privacy mechanism types.
#[derive(Debug, Clone, Copy, PartialEq, Eq, Structural)]
pub enum DPMechanism {
    /// Gaussian mechanism (for bounded sensitivity)
    Gaussian,
    /// Laplacian mechanism (for L1 sensitivity)
    Laplacian,
}

/// Secure aggregation for federated learning: counts participants and
/// allows aggregation once enough have joined.
#[derive(Debug)]
pub struct SecureAggregation {
    /// Minimum number of participants required
    min_participants: usize,
    /// Current participant count
    participant_count: usize,
}

impl View for SecureAggregation {
    type V = (usize, usize);

    /// (minimum participants, current participants)
    closed spec fn view(&self) -> (usize, usize) {
        (self.min_participants, self.participant_count)
    }
}

impl SecureAggregation {
    /// Create a new secure aggregation instance.
    pub fn new(min_participants: usize) -> (r: Self)
        ensures r@ == (min_participants, 0usize),
    {
        SecureAggregation { min_participants, participant_count: 0 }
    }

    /// Add a participant.
    pub fn add_participant(&mut self)
        requires old(self)@.1 < usize::MAX,
        ensures final(self)@ == (old(self)@.0, (old(self)@.1 + 1) as usize),
    {
        self.participant_count = self.participant_count + 1;
    }

    /// Check if we have enough participants.
    pub fn can_aggregate(&self) -> (r: bool)
        ensures r == (self@.1 >= self@.0),
    {
        self.participant_count >= self.min_participants
    }

    /// The refusal that aggregation gives when too few participants joined.
    pub fn check_participants(&self) -> (r: Result<(), GradientError>)
        ensures
            r is Ok <==> self@.1 >= self@.0,
            r matches Err(e) ==> e is InvalidGradient,
    {
        if !self.can_aggregate() {
            return Err(GradientError::InvalidGradient(String::from_str("Not enough participants")));
        }
        Ok(())
    }

    /// Reset participant count.
    pub fn reset(&mut self)
        ensures final(self)@ == (old(self)@.0, 0usize),
    {
        self.participant_count = 0;
    }

    /// Get participant count.
    pub fn participant_count(&self) -> (r: usize)
        ensures r == self@.1,
    {
        self.participant_count
    }
}

/// A secure aggregation made with minimum `m` that then has `n` participants
/// added (`states[i + 1]` is `states[i]` with one more) counts `n`
/// participants, keeps its minimum, and can aggregate exactly when `n >= m`.
pub proof fn lemma_participants_counted(states: Seq<(usize, usize)>, m: usize)
    requires
        states.len() >= 1,
        states[0] == (m, 0usize),
        forall|i: int| 0 <= i < states.len() - 1 ==> #[trigger] states[i + 1] == (states[i].0, (states[i].1 + 1) as usize),
        states.len() - 1 <= usize::MAX,
    ensures
        states.last() == (m, (states.len() - 1) as usize),
        (states.last().1 >= states.last().0) <==> states.len() - 1 >= m,
    decreases states.len(),
{
    if states.len() > 1 {
        let s2 = states.drop_last();
        assert forall|i: int| 0 <= i < s2.len() - 1 implies #[trigger] s2[i + 1] == (s2[i].0, (s2[i].1 + 1) as usize) by {
            assert(states[i + 1] == (states[i].0, (states[i].1 + 1) as usize));
        }
        lemma_participants_counted(s2, m);
        assert(states[states.len() - 1] == (states[states.len() - 2].0, (states[states.len() - 2].1 + 1) as usize));
    }
}

/// Client state in federated learning.
#[derive(Debug, Clone, Copy, PartialEq, Eq, Structural)]
pub enum ClientState {
    /// Client is idle and ready for work
    Idle,
    /// Client is training
    Training,
    /// Client has completed training
    Completed,
    /// Client has failed or dropped out
    Failed,
}

/// The current time in whole seconds since the Unix epoch (0 for a clock set
/// before the epoch, capped at `i64::MAX`), read from the system clock
/// without a panic.
fn utc_now_timestamp() -> (r: i64)
    ensures r >= 0,
{
    let s = crate::gc::unix_now_secs();
    if s > 0x7FFF_FFFF_FFFF_FFFF { 0x7FFF_FFFF_FFFF_FFFFi64 } else { s as i64 }
}

/// Client information in federated learning.
#[derive(Debug, Clone)]
pub struct ClientInfo {
    /// Client ID
    pub client_id: String,
    /// Client state
    pub state: ClientState,
    /// Number of samples the client has
    pub sample_count: usize,
    /// Last update timestamp
    pub last_update: i64,
}

impl ClientInfo {
    /// Create a new idle client, updated at `now`.
    pub fn new_at(client_id: String, sample_count: usize, now: i64) -> (r: Self)
        ensures r.client_id == client_id, r.state == ClientState::Idle, r.sample_count == sample_count, r.last_update == now,
    {
        ClientInfo { client_id, state: ClientState::Idle, sample_count, last_update: now }
    }

    /// Create a new idle client, updated now.
    pub fn new(client_id: String, sample_count: usize) -> (r: Self)
        ensures r.client_id == client_id, r.state == ClientState::Idle, r.sample_count == sample_count,
    {
        Self::new_at(client_id, sample_count, utc_now_timestamp())
    }

    /// Move the client to `state`, updated at `now`.
    pub fn set_state_at(&mut self, state: ClientState, now: i64)
        ensures *final(self) == (ClientInfo { state, last_update: now, ..*old(self) }),
    {
        self.state = state;
        self.last_update = now;
    }

    /// Mark client as training.
    pub fn start_training(&mut self)
        ensures *final(self) == (ClientInfo { state: ClientState::Training, last_update: final(self).last_update, ..*old(self) }),
    {
        self.set_state_at(ClientState::Training, utc_now_timestamp());
    }

    /// Mark client as completed.
    pub fn complete_training(&mut self)
        ensures *final(self) == (ClientInfo { state: ClientState::Completed, last_update: final(self).last_update, ..*old(self) }),
    {
        self.set_state_at(ClientState::Completed, utc_now_timestamp());
    }

    /// Mark client as failed.
    pub fn mark_failed(&mut self)
        ensures *final(self) == (ClientInfo { state: ClientState::Failed, last_update: final(self).last_update, ..*old(self) }),
    {
        self.set_state_at(ClientState::Failed, utc_now_timestamp());
    }
}

/// One round of federated learning: how many clients take part, how many
/// finished, the model it started from and the gradient it produced.
#[derive(Debug, Clone)]
pub struct FederatedRound<G> {
    /// Round number
    pub round_num: usize,
    /// Number of participating clients
    pub client_count: usize,
    /// Global model CID at start of round
    pub global_model: Cid,
    /// Aggregated gradient (after round completes)
    pub aggregated_gradient: Option<G>,
    /// Round start time
    pub start_time: i64,
    /// Round end time
    pub end_time: Option<i64>,
    /// Number of clients that completed
    pub completed_count: usize,
}

impl<G> FederatedRound<G> {
    /// A round started at `now` with no client finished.
    pub fn new_at(round_num: usize, global_model: Cid, client_count: usize, now: i64) -> (r: Self)
        ensures
            r.round_num == round_num, r.client_count == client_count, r.global_model@ == global_model@,
            r.aggregated_gradient is None, r.start_time == now, r.end_time is None, r.completed_count == 0,
    {
        FederatedRound { round_num, client_count, global_model, aggregated_gradient: None, start_time: now, end_time: None, completed_count: 0 }
    }

    /// A round started now with no client finished.
    pub fn new(round_num: usize, global_model: Cid, client_count: usize) -> (r: Self)
        ensures
            r.round_num == round_num, r.client_count == client_count, r.global_model@ == global_model@,
            r.aggregated_gradient is None, r.end_time is None, r.completed_count == 0,
    {
        Self::new_at(round_num, global_model, client_count, utc_now_timestamp())
    }

    /// One more client finished.
    pub fn mark_client_completed(&mut self)
        requires old(self).completed_count < usize::MAX,
        ensures *final(self) == (FederatedRound { completed_count: (old(self).completed_count + 1) as usize, ..*old(self) }),
    {
        self.completed_count = self.completed_count + 1;
    }

    /// Whether every participating client finished.
    pub fn is_complete(&self) -> (r: bool)
        ensures r == (self.completed_count >= self.client_count),
    {
        self.completed_count >= self.client_count
    }

    /// Record the aggregated gradient; the round ends at `now`.
    pub fn complete_at(&mut self, aggregated_gradient: G, now: i64)
        ensures *final(self) == (FederatedRound { aggregated_gradient: Some(aggregated_gradient), end_time: Some(now), ..*old(self) }),
    {
        self.aggregated_gradient = Some(aggregated_gradient);
        self.end_time = Some(now);
    }

    /// Record the aggregated gradient; the round ends now.
    pub fn complete(&mut self, aggregated_gradient: G)
        ensures
            final(self).aggregated_gradient == Some(aggregated_gradient), final(self).end_time is Some,
            *final(self) == (FederatedRound { aggregated_gradient: Some(aggregated_gradient), end_time: final(self).end_time, ..*old(self) }),
    {
        self.complete_at(aggregated_gradient, utc_now_timestamp());
    }

    /// Seconds from start to end, once the round ended.
    pub fn duration(&self) -> (r: Option<i64>)
        requires self.end_time matches Some(e) ==> i64::MIN <= e - self.start_time <= i64::MAX,
        ensures
            r == match self.end_time { Some(e) => Some((e - self.start_time) as i64), None => None },
    {
        match self.end_time {
            Some(e) => Some(e - self.start_time),
            None => None,
        }
    }
}

/// Whether a new round may start: enough clients, and rounds left;
/// `InvalidGradient` otherwise (too few clients is reported first).
pub fn round_admission(current_round: usize, max_rounds: usize, min_clients: usize, client_count: usize) -> (r: Result<(), GradientError>)
    ensures
        r is Ok <==> client_count >= min_clients && current_round < max_rounds,
        r matches Err(e) ==> e is InvalidGradient,
{
    if client_count < min_clients {
        return Err(GradientError::InvalidGradient(String::from_str("Not enough clients")));
    }
    if current_round >= max_rounds {
        return Err(GradientError::InvalidGradient(String::from_str("Maximum rounds reached")));
    }
    Ok(())
}

} // verus!
