//! A multi-tenant content store: per-repository quotas, TTL expiry,
//! byte-level file operations, and a sandboxed read-only command surface.
//!
//! The catalog of repositories and files is an in-memory index whose
//! mutations are recorded in a write-ahead log; recovery replays the log
//! and reconciles the index with the byte store.

use vstd::prelude::*;

pub mod archive;
pub mod auth;
pub mod catalog;
pub mod config;
pub mod digest;
pub mod error;
pub mod eviction;
pub mod file_service;
pub mod laws;
pub mod models;
pub mod path_validate;
pub mod recovery;
pub mod repo_service;
pub mod sandbox;
pub mod status;
pub mod text;
pub mod ttl;
pub mod wal;

verus! {

/// Largest number of entries a page of results may hold.
pub const MAX_PER_PAGE: u64 = 1000;

/// Compute the zero-based start index of a result page.
///
/// Pages are one-based; the result saturates at `len`, so a page past the
/// end selects an empty slice.
pub fn page_start(page: u64, per_page: u64, len: usize) -> (r: usize)
    requires
        1 <= page,
        1 <= per_page <= MAX_PER_PAGE,
    ensures
        r == if (page - 1) * per_page <= len { (page - 1) * per_page } else { len as int },
{
    proof {
        assert((page - 1) * per_page <= (u64::MAX - 1) * (MAX_PER_PAGE as int)) by (nonlinear_arith)
            requires
                1 <= page <= u64::MAX,
                1 <= per_page <= MAX_PER_PAGE,
        ;
    }
    let start: u128 = (page as u128 - 1) * (per_page as u128);
    if start <= len as u128 {
        start as usize
    } else {
        len
    }
}

} // verus!
