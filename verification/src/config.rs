//! Service configuration and the on-disk layout it induces.

use vstd::prelude::*;
use vstd::string::*;

verus! {

/// Configuration of the service. The caller reads it from the
/// environment and owns the defaults.
#[derive(Clone)]
pub struct AppConfig {
    pub api_key: String,
    pub host: String,
    pub port: u16,
    pub data_dir: String,
    pub default_max_repo_size: u64,
    pub max_upload_size: u64,
    pub snapshot_interval_secs: u64,
    pub ttl_sweep_interval_secs: u64,
    pub command_timeout_secs: u64,
    pub command_max_output_bytes: usize,
    pub cache_max_bytes: u64,
    pub max_concurrent_commands: usize,
    pub log_level: String,
    pub cors_allowed_origins: String,
}

impl AppConfig {
    /// The directory that holds one subtree per repository.
    pub fn repos_dir(&self) -> (r: String)
        ensures
            r@ == self.data_dir@ + "/repos"@,
    {
        let mut s = self.data_dir.clone();
        s.append("/repos");
        s
    }

    /// The directory that holds the snapshot and the log.
    pub fn metadata_dir(&self) -> (r: String)
        ensures
            r@ == self.data_dir@ + "/metadata"@,
    {
        let mut s = self.data_dir.clone();
        s.append("/metadata");
        s
    }

    /// Where the catalog snapshot lives.
    pub fn snapshot_path(&self) -> (r: String)
        ensures
            r@ == self.data_dir@ + "/metadata"@ + "/snapshot.bin"@,
    {
        let mut s = self.metadata_dir();
        s.append("/snapshot.bin");
        s
    }

    /// Where the write-ahead log lives.
    pub fn wal_dir(&self) -> (r: String)
        ensures
            r@ == self.data_dir@ + "/metadata"@ + "/wal"@,
    {
        let mut s = self.metadata_dir();
        s.append("/wal");
        s
    }
}

/// The version a readable snapshot must carry; a mismatch is treated as
/// no snapshot at all.
pub const SNAPSHOT_VERSION: u32 = 1;

/// Whether a stored snapshot's version can be loaded.
pub fn snapshot_version_ok(version: u32) -> (r: bool)
    ensures
        r == (version == SNAPSHOT_VERSION),
{
    version == SNAPSHOT_VERSION
}

} // verus!
