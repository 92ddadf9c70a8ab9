//! Status and statistics reported by a node.
use vstd::prelude::*;
use crate::cid::Cid;
use crate::semantic::DistanceMetric;
use core::time::Duration;

verus! {

/// Node status information.
#[derive(Debug, Clone, Copy)]
pub struct NodeStatus {
    /// Whether the node is running
    pub running: bool,
    /// Whether network is enabled
    pub network_enabled: bool,
    /// Whether storage is enabled
    pub storage_enabled: bool,
    /// Whether semantic routing is enabled
    pub semantic_enabled: bool,
    /// Whether TensorLogic is enabled
    pub tensorlogic_enabled: bool,
}

/// Storage statistics.
#[derive(Debug, Clone, Copy)]
pub struct StorageStats {
    /// Number of blocks stored
    pub num_blocks: usize,
    /// Whether storage is empty
    pub is_empty: bool,
}

impl StorageStats {
    /// The statistics of a store holding `num_blocks` blocks.
    pub fn of_count(num_blocks: usize) -> (r: Self)
        ensures r.num_blocks == num_blocks, r.is_empty == (num_blocks == 0),
    {
        StorageStats { num_blocks, is_empty: num_blocks == 0 }
    }
}

/// Block statistics.
#[derive(Debug, Clone)]
pub struct BlockStat {
    /// Content identifier
    pub cid: Cid,
    /// Size in bytes
    pub size: usize,
}

/// Semantic router statistics.
#[derive(Debug, Clone, Copy)]
pub struct SemanticStats {
    /// Number of indexed vectors
    pub num_vectors: usize,
    /// Vector dimension
    pub dimension: usize,
    /// Distance metric used
    pub metric: DistanceMetric,
    /// Current cache size
    pub cache_size: usize,
    /// Maximum cache capacity
    pub cache_capacity: usize,
}

/// TensorLogic statistics.
#[derive(Debug, Clone, Copy)]
pub struct TensorLogicStats {
    /// Whether TensorLogic is enabled
    pub enabled: bool,
    /// Number of facts in knowledge base
    pub num_facts: usize,
    /// Number of rules in knowledge base
    pub num_rules: usize,
}

/// Result of garbage collection.
#[derive(Debug, Clone)]
pub struct GcResult {
    /// Number of blocks collected (deleted)
    pub blocks_collected: u64,
    /// Bytes freed
    pub bytes_freed: u64,
    /// Number of blocks marked as reachable
    pub blocks_marked: u64,
    /// Number of blocks scanned
    pub blocks_scanned: u64,
    /// Duration of GC run
    pub duration: Duration,
    /// Whether GC was cancelled
    pub cancelled: bool,
}

/// Result of filesystem check.
#[derive(Debug, Clone)]
pub struct FsckResult {
    /// Number of blocks checked
    pub blocks_checked: u64,
    /// Number of valid blocks
    pub blocks_valid: u64,
    /// List of corrupt blocks
    pub blocks_corrupt: Vec<Cid>,
    /// List of missing blocks
    pub blocks_missing: Vec<Cid>,
}

/// Result of DAG export operation.
#[derive(Debug, Clone, Copy)]
pub struct DagExportStats {
    /// Number of blocks exported
    pub blocks_exported: u64,
    /// Total bytes exported
    pub bytes_exported: u64,
}

/// Result of DAG import operation.
#[derive(Debug, Clone, Copy)]
pub struct DagImportStats {
    /// Number of blocks imported
    pub blocks_imported: u64,
    /// Total bytes imported
    pub bytes_imported: u64,
}

/// The health the node reports for one of its subsystems.
#[derive(Debug, Clone, Copy, PartialEq, Eq, Structural)]
pub enum HealthStatus {
    /// The subsystem answered with its statistics
    Healthy,
    /// The subsystem is there but failed to answer, or has no peers
    Degraded,
    /// The subsystem is not set up
    Unknown,
}

/// The storage's health in the node's diagnostics: unknown without a
/// store, healthy when its statistics were read, degraded when reading them
/// failed.
pub fn storage_health(has_store: bool, stats_read: bool) -> (r: HealthStatus)
    ensures
        r == if !has_store {
            HealthStatus::Unknown
        } else if stats_read {
            HealthStatus::Healthy
        } else {
            HealthStatus::Degraded
        },
{
    if !has_store {
        HealthStatus::Unknown
    } else if stats_read {
        HealthStatus::Healthy
    } else {
        HealthStatus::Degraded
    }
}

/// The health of an optional subsystem (semantic search, TensorLogic) in the
/// node's diagnostics: no report unless it is enabled and running, then
/// healthy when its statistics were read and degraded when that failed.
pub fn optional_health(enabled_and_running: bool, stats_read: bool) -> (r: Option<HealthStatus>)
    ensures
        r == if !enabled_and_running {
            None
        } else if stats_read {
            Some(HealthStatus::Healthy)
        } else {
            Some(HealthStatus::Degraded)
        },
{
    if !enabled_and_running {
        None
    } else if stats_read {
        Some(HealthStatus::Healthy)
    } else {
        Some(HealthStatus::Degraded)
    }
}

/// The network's health in the node's diagnostics: healthy with at least
/// one connected peer, degraded with none.
pub fn network_health(connected_peers: usize) -> (r: HealthStatus)
    ensures r == if connected_peers > 0 { HealthStatus::Healthy } else { HealthStatus::Degraded },
{
    if connected_peers > 0 { HealthStatus::Healthy } else { HealthStatus::Degraded }
}

} // verus!
