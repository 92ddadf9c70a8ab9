//! Content-addressed storage, tensor computation graphs and tensor transport,
//! with their decision logic stated and proved.
use vstd::prelude::*;

pub mod cid;
pub mod graph_op;
pub mod graph;
pub mod fusion;
pub mod error;
pub mod tensorswap;
pub mod einsum;
pub mod cache;
pub mod gc;
pub mod gradient;
pub mod compression;
pub mod bloom;
pub mod migration;
pub mod blockstore;
pub mod graph_exec;
pub mod semantic;
pub mod node_stats;
pub mod dag;
