//! The service status numbers: repository count, total bytes held, and
//! uptime.

use vstd::prelude::*;

use crate::catalog::Catalog;
use crate::digest::now_millis;
use crate::file_service::clamp_u64;
use crate::models::RepoMeta;

verus! {

/// Total of the stored size counters over a repository sequence.
pub open spec fn sum_current(s: Seq<RepoMeta>) -> int
    decreases s.len(),
{
    if s.len() == 0 {
        0
    } else {
        sum_current(s.drop_last()) + s.last()@.current_size_bytes
    }
}

/// What the status surface reports.
pub struct StatusInfo {
    pub repo_count: usize,
    pub total_size_bytes: u64,
    pub uptime_seconds: i64,
}

/// Count the repositories and their bytes; the uptime comes from the
/// wall clock, of which nothing is promised.
pub fn status_snapshot(cat: &Catalog, start_time_ms: i64) -> (r: StatusInfo)
    requires
        cat.wf(),
    ensures
        r.repo_count == cat.repos@.len(),
        r.repo_count == cat@.repos.dom().len(),
        r.total_size_bytes == clamp_u64(sum_current(cat.repos@)),
        r.uptime_seconds >= 0,
{
    let n = cat.repo_count();
    let mut total: u128 = 0;
    let mut k: usize = 0;
    proof {
        assert(cat.repos@.take(0) =~= Seq::<RepoMeta>::empty());
    }
    while k < n
        invariant
            cat.wf(),
            k <= n,
            n == cat.repos@.len(),
            total == sum_current(cat.repos@.take(k as int)),
            total <= (k as int) * (u64::MAX as int),
        decreases n - k,
    {
        proof {
            assert(cat.repos@.take(k + 1) =~= cat.repos@.take(k as int).push(
                cat.repos@[k as int],
            ));
            assert(cat.repos@.take(k + 1).drop_last() =~= cat.repos@.take(k as int));
            assert((k as int) * (u64::MAX as int) + (u64::MAX as int) == ((k + 1) as int) * (
            u64::MAX as int)) by (nonlinear_arith);
            assert(((k + 1) as int) * (u64::MAX as int) < u128::MAX) by (nonlinear_arith)
                requires
                    0 <= k + 1 <= usize::MAX,
            ;
        }
        total = total + cat.repo_at(k).current_size_bytes as u128;
        k += 1;
    }
    proof {
        assert(cat.repos@.take(n as int) =~= cat.repos@);
        lemma_sum_current_nonneg(cat.repos@);
    }
    let total_size_bytes: u64 = if total > u64::MAX as u128 {
        u64::MAX
    } else {
        total as u64
    };
    let now = now_millis();
    let uptime: i64 = {
        let diff: i128 = (now as i128) - (start_time_ms as i128);
        let secs: i128 = if diff < 0 {
            0
        } else {
            diff / 1000
        };
        secs as i64
    };
    StatusInfo { repo_count: n, total_size_bytes, uptime_seconds: uptime }
}

proof fn lemma_sum_current_nonneg(s: Seq<RepoMeta>)
    ensures
        sum_current(s) >= 0,
    decreases s.len(),
{
    if s.len() > 0 {
        lemma_sum_current_nonneg(s.drop_last());
    }
}

} // verus!
