//! Block store configuration.
use vstd::prelude::*;
use std::path::PathBuf;

verus! {

#[verifier::external_type_specification]
#[verifier::external_body]
pub struct ExPathBuf(PathBuf);

/// `PathBuf::clone` returns an equal path.
pub assume_specification [<PathBuf as Clone>::clone](p: &PathBuf) -> (r: PathBuf)
    ensures r == *p,
;

/// The path `PathBuf::from` makes of a string.
pub uninterp spec fn path_of(s: Seq<char>) -> PathBuf;

/// `PathBuf::from(&str)`: the path of a string (named).
#[verifier::external_body]
fn path_from(s: &str) -> (r: PathBuf)
    ensures r == path_of(s@),
{
    PathBuf::from(s)
}

/// Block store configuration.
#[derive(Debug, Clone)]
pub struct BlockStoreConfig {
    /// Path to the database directory
    pub path: PathBuf,
    /// Cache size in bytes
    pub cache_size: usize,
}

impl Default for BlockStoreConfig {
    fn default() -> (r: Self)
        ensures r.path == path_of(".ipfrs/blocks"@), r.cache_size == 100 * 1024 * 1024,
    {
        BlockStoreConfig { path: path_from(".ipfrs/blocks"), cache_size: 100 * 1024 * 1024 }
    }
}

impl BlockStoreConfig {
    /// A configuration for development: 50 MB cache under /tmp.
    pub fn development() -> (r: Self)
        ensures r.path == path_of("/tmp/ipfrs-dev"@), r.cache_size == 50 * 1024 * 1024,
    {
        BlockStoreConfig { path: path_from("/tmp/ipfrs-dev"), cache_size: 50 * 1024 * 1024 }
    }

    /// A configuration for production: 500 MB cache at `path`.
    pub fn production(path: PathBuf) -> (r: Self)
        ensures r.path == path, r.cache_size == 500 * 1024 * 1024,
    {
        BlockStoreConfig { path, cache_size: 500 * 1024 * 1024 }
    }

    /// A configuration for embedded devices: 10 MB cache at `path`.
    pub fn embedded(path: PathBuf) -> (r: Self)
        ensures r.path == path, r.cache_size == 10 * 1024 * 1024,
    {
        BlockStoreConfig { path, cache_size: 10 * 1024 * 1024 }
    }

    /// A configuration for testing: 5 MB cache at `path`.
    pub fn testing_at(path: PathBuf) -> (r: Self)
        ensures r.path == path, r.cache_size == 5 * 1024 * 1024,
    {
        BlockStoreConfig { path, cache_size: 5 * 1024 * 1024 }
    }

    /// Builder: Set the storage path.
    pub fn with_path(self, path: PathBuf) -> (r: Self)
        ensures r.path == path, r.cache_size == self.cache_size,
    {
        BlockStoreConfig { path, ..self }
    }

    /// Builder: Set the cache size in MB.
    pub fn with_cache_mb(self, cache_mb: usize) -> (r: Self)
        requires cache_mb * 1024 * 1024 <= usize::MAX,
        ensures r.path == self.path, r.cache_size == cache_mb * 1024 * 1024,
    {
        BlockStoreConfig { cache_size: cache_mb * 1024 * 1024, ..self }
    }

    /// Builder: Set the cache size in bytes.
    pub fn with_cache_bytes(self, cache_bytes: usize) -> (r: Self)
        ensures r.path == self.path, r.cache_size == cache_bytes,
    {
        BlockStoreConfig { cache_size: cache_bytes, ..self }
    }
}

} // verus!
