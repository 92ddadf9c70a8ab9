//! Semantic routing configuration and statistics, and quantized vector storage.
use vstd::prelude::*;
use crate::error::{Error, ErrorKind};

verus! {

/// Distance metric of a vector index.
#[derive(Debug, Clone, Copy, PartialEq, Eq, Structural)]
pub enum DistanceMetric {
    /// Cosine distance
    Cosine,
    /// Euclidean distance
    L2,
}

/// Configuration for semantic router.
#[derive(Debug, Clone, Copy, PartialEq, Eq, Structural)]
pub struct RouterConfig {
    /// Vector dimension for embeddings
    pub dimension: usize,
    /// Distance metric to use
    pub metric: DistanceMetric,
    /// Maximum connections per HNSW layer
    pub max_connections: usize,
    /// HNSW construction parameter
    pub ef_construction: usize,
    /// Default search parameter
    pub ef_search: usize,
    /// Query result cache size (number of queries to cache)
    pub cache_size: usize,
}

/// A configuration with the given parameters.
pub open spec fn router_config(dimension: usize, metric: DistanceMetric, m: usize, efc: usize, efs: usize, cache: usize) -> RouterConfig {
    RouterConfig { dimension, metric, max_connections: m, ef_construction: efc, ef_search: efs, cache_size: cache }
}

impl Default for RouterConfig {
    fn default() -> (r: Self)
        ensures r == router_config(768, DistanceMetric::Cosine, 16, 200, 50, 1000),
    {
        RouterConfig { dimension: 768, metric: DistanceMetric::Cosine, max_connections: 16, ef_construction: 200, ef_search: 50, cache_size: 1000 }
    }
}

impl RouterConfig {
    /// Configuration optimized for low latency queries.
    pub fn low_latency(dimension: usize) -> (r: Self)
        ensures r == router_config(dimension, DistanceMetric::Cosine, 12, 150, 32, 2000),
    {
        RouterConfig { dimension, metric: DistanceMetric::Cosine, max_connections: 12, ef_construction: 150, ef_search: 32, cache_size: 2000 }
    }

    /// Configuration optimized for high recall (accuracy).
    pub fn high_recall(dimension: usize) -> (r: Self)
        ensures r == router_config(dimension, DistanceMetric::Cosine, 32, 400, 200, 1000),
    {
        RouterConfig { dimension, metric: DistanceMetric::Cosine, max_connections: 32, ef_construction: 400, ef_search: 200, cache_size: 1000 }
    }

    /// Configuration optimized for memory efficiency.
    pub fn memory_efficient(dimension: usize) -> (r: Self)
        ensures r == router_config(dimension, DistanceMetric::Cosine, 8, 100, 50, 500),
    {
        RouterConfig { dimension, metric: DistanceMetric::Cosine, max_connections: 8, ef_construction: 100, ef_search: 50, cache_size: 500 }
    }

    /// Configuration optimized for large-scale datasets.
    pub fn large_scale(dimension: usize) -> (r: Self)
        ensures r == router_config(dimension, DistanceMetric::Cosine, 24, 300, 100, 5000),
    {
        RouterConfig { dimension, metric: DistanceMetric::Cosine, max_connections: 24, ef_construction: 300, ef_search: 100, cache_size: 5000 }
    }

    /// Configuration for balanced performance (the default's parameters).
    pub fn balanced(dimension: usize) -> (r: Self)
        ensures r == router_config(dimension, DistanceMetric::Cosine, 16, 200, 50, 1000),
    {
        RouterConfig { dimension, metric: DistanceMetric::Cosine, max_connections: 16, ef_construction: 200, ef_search: 50, cache_size: 1000 }
    }

    /// Balanced configuration with a custom distance metric.
    pub fn with_metric(dimension: usize, metric: DistanceMetric) -> (r: Self)
        ensures r == router_config(dimension, metric, 16, 200, 50, 1000),
    {
        RouterConfig { dimension, metric, ..Self::balanced(dimension) }
    }

    /// Set the query result cache size.
    pub fn with_cache_size(self, size: usize) -> (r: Self)
        ensures r == (RouterConfig { cache_size: size, ..self }),
    {
        RouterConfig { cache_size: size, ..self }
    }

    /// Set the ef_search parameter for query-time search.
    pub fn with_ef_search(self, ef_search: usize) -> (r: Self)
        ensures r == (RouterConfig { ef_search, ..self }),
    {
        RouterConfig { ef_search, ..self }
    }
}

/// Router statistics.
#[derive(Debug, Clone, Copy)]
pub struct RouterStats {
    /// Number of indexed vectors
    pub num_vectors: usize,
    /// Vector dimension
    pub dimension: usize,
    /// Distance metric
    pub metric: DistanceMetric,
}

/// Cache statistics.
#[derive(Debug, Clone, Copy)]
pub struct CacheStats {
    /// Current number of cached entries
    pub size: usize,
    /// Maximum cache capacity
    pub capacity: usize,
}

/// Optimization recommendations for HNSW index.
#[derive(Debug, Clone, Copy)]
pub struct OptimizationRecommendations {
    /// Recommended M parameter (max connections per layer)
    pub recommended_m: usize,
    /// Recommended ef_construction parameter
    pub recommended_ef_construction: usize,
    /// Current index size
    pub current_size: usize,
}

/// Quantized vector storage.
#[derive(Debug, Clone)]
pub struct QuantizedVector {
    /// Quantized data (uint8 storage)
    pub data: Vec<u8>,
    /// Whether values are signed
    pub signed: bool,
}

impl QuantizedVector {
    /// Create a new quantized vector.
    pub fn new(data: Vec<u8>, signed: bool) -> (r: Self)
        ensures r.data@ == data@, r.signed == signed,
    {
        QuantizedVector { data, signed }
    }

    /// Get the dimension: one byte per component.
    pub fn dimension(&self) -> (r: usize)
        ensures r == self.data@.len(),
    {
        self.data.len()
    }

    /// Get the raw bytes.
    pub fn as_bytes(&self) -> (r: &[u8])
        ensures r@ == self.data@,
    {
        self.data.as_slice()
    }

    /// Get memory size in bytes.
    pub fn size_bytes(&self) -> (r: usize)
        ensures r == self.data@.len(),
    {
        self.data.len()
    }
}

/// The value a stored byte stands for: two's complement when signed.
pub open spec fn component(b: u8, signed: bool) -> int {
    if signed && b >= 128 { b - 256 } else { b as int }
}

/// The sum, over the first `k` components, of the squared differences.
pub open spec fn sq_diff_sum(a: Seq<u8>, b: Seq<u8>, signed: bool, k: nat) -> int
    decreases k,
{
    if k == 0 {
        0
    } else {
        let d = component(a[k - 1], signed) - component(b[k - 1], signed);
        sq_diff_sum(a, b, signed, (k - 1) as nat) + d * d
    }
}

/// The sum, over the first `k` components, of the products.
pub open spec fn product_sum(a: Seq<u8>, b: Seq<u8>, signed: bool, k: nat) -> int
    decreases k,
{
    if k == 0 {
        0
    } else {
        product_sum(a, b, signed, (k - 1) as nat) + component(a[k - 1], signed) * component(b[k - 1], signed)
    }
}

/// The component a byte stands for.
fn component_of(b: u8, signed: bool) -> (r: i64)
    ensures r == component(b, signed), -128 <= r <= 255,
{
    if signed && b >= 128 { b as i64 - 256 } else { b as i64 }
}

/// Squared Euclidean distance between two quantized vectors in quantized
/// units, components read as signed when `a` is; `InvalidInput` when the
/// dimensions differ.
pub fn quantized_sq_distance(a: &QuantizedVector, b: &QuantizedVector) -> (r: Result<i64, Error>)
    requires a.data@.len() <= 0x4000_0000_0000,
    ensures
        r is Err <==> a.data@.len() != b.data@.len(),
        r matches Err(e) ==> e.kind() == ErrorKind::InvalidInput,
        r matches Ok(s) ==> s == sq_diff_sum(a.data@, b.data@, a.signed, a.data@.len()),
{
    if a.data.len() != b.data.len() {
        return Err(Error::InvalidInput(String::from_str("Vectors must have same dimension")));
    }
    let mut sum: i64 = 0;
    let mut i: usize = 0;
    while i < a.data.len()
        invariant
            i <= a.data@.len(), a.data@.len() == b.data@.len(), a.data@.len() <= 0x4000_0000_0000,
            sum == sq_diff_sum(a.data@, b.data@, a.signed, i as nat), 0 <= sum <= i * 65025,
        decreases a.data.len() - i,
    {
        let x = component_of(a.data[i], a.signed);
        let y = component_of(b.data[i], a.signed);
        let d = x - y;
        assert(0 <= d * d <= 65025) by (nonlinear_arith) requires -255 <= d <= 255;
        assert(i * 65025 + 65025 <= 0x4000_0000_0000 * 65025) by (nonlinear_arith) requires i < 0x4000_0000_0000;
        sum = sum + d * d;
        i += 1;
    }
    Ok(sum)
}

/// Dot product of two quantized vectors in quantized units, components read
/// as signed when `a` is; `InvalidInput` when the dimensions differ.
pub fn quantized_dot(a: &QuantizedVector, b: &QuantizedVector) -> (r: Result<i64, Error>)
    requires a.data@.len() <= 0x4000_0000_0000,
    ensures
        r is Err <==> a.data@.len() != b.data@.len(),
        r matches Err(e) ==> e.kind() == ErrorKind::InvalidInput,
        r matches Ok(s) ==> s == product_sum(a.data@, b.data@, a.signed, a.data@.len()),
{
    if a.data.len() != b.data.len() {
        return Err(Error::InvalidInput(String::from_str("Vectors must have same dimension")));
    }
    let mut sum: i64 = 0;
    let mut i: usize = 0;
    while i < a.data.len()
        invariant
            i <= a.data@.len(), a.data@.len() == b.data@.len(), a.data@.len() <= 0x4000_0000_0000,
            sum == product_sum(a.data@, b.data@, a.signed, i as nat), -(i * 65025) <= sum <= i * 65025,
        decreases a.data.len() - i,
    {
        let x = component_of(a.data[i], a.signed);
        let y = component_of(b.data[i], a.signed);
        assert(-65025 <= x * y <= 65025) by (nonlinear_arith) requires -128 <= x <= 255, -128 <= y <= 255;
        assert(i * 65025 + 65025 <= 0x4000_0000_0000 * 65025) by (nonlinear_arith) requires i < 0x4000_0000_0000;
        sum = sum + x * y;
        i += 1;
    }
    Ok(sum)
}

/// `n` pieces of equal length make up `d`.
pub open spec fn splits_evenly(d: usize, n: usize) -> bool {
    if n == 0 { d == 0 } else { d % n == 0 }
}

/// The sub-vector length and the centroid count of a product quantizer for
/// vectors of `dimension` components cut into `num_subquantizers` pieces
/// coded on `bits` bits: `InvalidInput` when the pieces do not split the
/// dimension evenly, or when `bits` exceeds 16.
pub fn pq_layout(dimension: usize, num_subquantizers: usize, bits: u8) -> (r: Result<(usize, usize), Error>)
    requires num_subquantizers > 0 || dimension > 0,
    ensures
        r is Ok <==> splits_evenly(dimension, num_subquantizers) && bits <= 16,
        r matches Ok((sub, k)) ==> sub == dimension / num_subquantizers && k == 1usize << bits,
        r matches Err(e) ==> e.kind() == ErrorKind::InvalidInput,
{
    let even = if num_subquantizers == 0 { dimension == 0 } else { dimension % num_subquantizers == 0 };
    if !even {
        return Err(Error::InvalidInput(String::from_str("Dimension must be divisible by num_subquantizers")));
    }
    if bits > 16 {
        return Err(Error::InvalidInput(String::from_str("Bits per subquantizer must be <= 16")));
    }
    let sub = dimension / num_subquantizers;
    Ok((sub, 1usize << bits))
}

/// Product Quantization code.
#[derive(Debug, Clone)]
pub struct PQCode {
    /// Centroid indices for each sub-quantizer
    pub codes: Vec<u8>,
}

impl PQCode {
    /// Get memory size in bytes: one byte per sub-quantizer.
    pub fn size_bytes(&self) -> (r: usize)
        ensures r == self.codes@.len(),
    {
        self.codes.len()
    }
}

/// Benchmark utilities for quantization evaluation.
pub struct QuantizationBenchmarker;

} // verus!
